//! The region scanner: folds the aligned reads of one region into the
//! accumulator, each against the reference base at its start.

use vstd::prelude::*;
use crate::compare::{count_matches_mismatches, matches_upto, mismatches_upto, paired_len};
use crate::tally::{Accumulator, TallyTable, fold_spec, tally_of};

verus! {

/// What the scanner reads of one aligned read.
pub struct ReadRecord {
    pub bases: Vec<u8>,
    pub qualities: Vec<u8>,
    pub read_id: String,
    /// 0-based leftmost alignment position.
    pub pos: i64,
}

/// Why a scan stopped.
#[derive(Debug, Clone, Copy, PartialEq, Eq, Structural)]
pub enum ScanError {
    /// A read starts outside the fetched reference window.
    PreconditionViolation,
    /// A tally would exceed the counter's range.
    CountOverflow,
}

/// Offset of a read's start within the window that begins at `start`.
pub open spec fn window_offset(pos: i64, start: u32) -> int {
    pos as int - start as int
}

/// The table after folding one record, or why that fails.
pub open spec fn record_step(
    t: TallyTable,
    reference_name: Seq<char>,
    start: u32,
    window: Seq<u8>,
    rec: ReadRecord,
    qscore_cutoff: u8,
) -> Result<TallyTable, ScanError> {
    let off = window_offset(rec.pos, start);
    if off < 0 || off >= window.len() {
        Err(ScanError::PreconditionViolation)
    } else {
        let rb = window[off];
        let n = paired_len(rec.bases@, rec.qualities@);
        let m = matches_upto(rec.bases@, rec.qualities@, rb, qscore_cutoff, n);
        let x = mismatches_upto(rec.bases@, rec.qualities@, rb, qscore_cutoff, n);
        let prior = tally_of(t, reference_name, rec.read_id@);
        if prior.0 + m > usize::MAX || prior.1 + x > usize::MAX {
            Err(ScanError::CountOverflow)
        } else {
            Ok(fold_spec(t, reference_name, rec.read_id@, m, x))
        }
    }
}

/// The table after folding `records` in order, or the first failure.
pub open spec fn scan_spec(
    t: TallyTable,
    reference_name: Seq<char>,
    start: u32,
    window: Seq<u8>,
    records: Seq<ReadRecord>,
    qscore_cutoff: u8,
) -> Result<TallyTable, ScanError>
    decreases records.len(),
{
    if records.len() == 0 {
        Ok(t)
    } else {
        match scan_spec(t, reference_name, start, window, records.drop_last(), qscore_cutoff) {
            Err(e) => Err(e),
            Ok(t1) => record_step(t1, reference_name, start, window, records.last(), qscore_cutoff),
        }
    }
}

/// Folds one record: compares its bases with the window's base at its start
/// and adds the counts to its tally under `reference_name`.
pub fn scan_record(
    acc: &mut Accumulator,
    reference_name: &String,
    start: u32,
    window: &Vec<u8>,
    rec: &ReadRecord,
    qscore_cutoff: u8,
) -> (r: Result<(), ScanError>)
    requires
        old(acc).wf(),
    ensures
        final(acc).wf(),
        r is Ok <==> record_step(
            old(acc)@,
            reference_name@,
            start,
            window@,
            *rec,
            qscore_cutoff,
        ) is Ok,
        r is Ok ==> final(acc)@ == record_step(
            old(acc)@,
            reference_name@,
            start,
            window@,
            *rec,
            qscore_cutoff,
        )->Ok_0,
        r matches Err(e) ==> record_step(
            old(acc)@,
            reference_name@,
            start,
            window@,
            *rec,
            qscore_cutoff,
        ) == Err::<TallyTable, ScanError>(e),
        r is Err ==> *final(acc) == *old(acc),
{
    if rec.pos < start as i64 {
        return Err(ScanError::PreconditionViolation);
    }
    let off64: u64 = (rec.pos - start as i64) as u64;
    if off64 >= window.len() as u64 {
        return Err(ScanError::PreconditionViolation);
    }
    let off = off64 as usize;
    let reference_base = window[off];
    let (m, x) = count_matches_mismatches(
        rec.bases.as_slice(),
        rec.qualities.as_slice(),
        reference_base,
        qscore_cutoff,
    );
    let (pm, px) = acc.tally(reference_name, &rec.read_id);
    if pm > usize::MAX - m || px > usize::MAX - x {
        return Err(ScanError::CountOverflow);
    }
    acc.fold(reference_name, &rec.read_id, m, x);
    Ok(())
}

/// Folds every record of one region in order; stops at the first failure.
pub fn scan_region(
    acc: &mut Accumulator,
    reference_name: &String,
    start: u32,
    window: &Vec<u8>,
    records: &Vec<ReadRecord>,
    qscore_cutoff: u8,
) -> (r: Result<(), ScanError>)
    requires
        old(acc).wf(),
    ensures
        final(acc).wf(),
        r is Ok <==> scan_spec(
            old(acc)@,
            reference_name@,
            start,
            window@,
            records@,
            qscore_cutoff,
        ) is Ok,
        r is Ok ==> final(acc)@ == scan_spec(
            old(acc)@,
            reference_name@,
            start,
            window@,
            records@,
            qscore_cutoff,
        )->Ok_0,
        r matches Err(e) ==> scan_spec(
            old(acc)@,
            reference_name@,
            start,
            window@,
            records@,
            qscore_cutoff,
        ) == Err::<TallyTable, ScanError>(e),
{
    let mut i: usize = 0;
    while i < records.len()
        invariant
            i <= records@.len(),
            acc.wf(),
            scan_spec(
                old(acc)@,
                reference_name@,
                start,
                window@,
                records@.take(i as int),
                qscore_cutoff,
            ) == Ok::<TallyTable, ScanError>(acc@),
        decreases records.len() - i,
    {
        let res = scan_record(acc, reference_name, start, window, &records[i], qscore_cutoff);
        proof {
            assert(records@.take(i as int + 1).drop_last() == records@.take(i as int));
            assert(records@.take(i as int + 1).last() == records@[i as int]);
        }
        match res {
            Err(e) => {
                proof {
                    lemma_scan_stops(
                        old(acc)@,
                        reference_name@,
                        start,
                        window@,
                        records@,
                        qscore_cutoff,
                        i as int + 1,
                    );
                }
                return Err(e);
            },
            Ok(()) => {},
        }
        i = i + 1;
    }
    assert(records@.take(records.len() as int) == records@);
    Ok(())
}

/// Once a prefix of the records fails, every longer prefix fails the same way.
proof fn lemma_scan_stops(
    t: TallyTable,
    reference_name: Seq<char>,
    start: u32,
    window: Seq<u8>,
    records: Seq<ReadRecord>,
    qscore_cutoff: u8,
    k: int,
)
    requires
        0 <= k <= records.len(),
        scan_spec(t, reference_name, start, window, records.take(k), qscore_cutoff) is Err,
    ensures
        scan_spec(t, reference_name, start, window, records, qscore_cutoff) == scan_spec(
            t,
            reference_name,
            start,
            window,
            records.take(k),
            qscore_cutoff,
        ),
    decreases records.len() - k,
{
    if k < records.len() {
        assert(records.take(k + 1).drop_last() == records.take(k));
        lemma_scan_stops(t, reference_name, start, window, records, qscore_cutoff, k + 1);
    } else {
        assert(records.take(k) == records);
    }
}

} // verus!
