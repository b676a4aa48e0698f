//! The per-base comparator: classifies each base of a read against one
//! reference base, with a quality cutoff that overrides disagreement.

use vstd::prelude::*;

verus! {

/// A position counts as a match when its base equals the reference base or
/// its quality reaches the cutoff.
pub open spec fn is_match(base: u8, quality: u8, reference_base: u8, qscore_cutoff: u8) -> bool {
    base == reference_base || quality >= qscore_cutoff
}

/// Number of positions among the first `n` that are matches.
pub open spec fn matches_upto(
    bases: Seq<u8>,
    quals: Seq<u8>,
    reference_base: u8,
    qscore_cutoff: u8,
    n: int,
) -> nat
    decreases n,
{
    if n <= 0 {
        0
    } else {
        matches_upto(bases, quals, reference_base, qscore_cutoff, n - 1) + if is_match(
            bases[n - 1],
            quals[n - 1],
            reference_base,
            qscore_cutoff,
        ) {
            1nat
        } else {
            0nat
        }
    }
}

/// Number of positions among the first `n` that are mismatches.
pub open spec fn mismatches_upto(
    bases: Seq<u8>,
    quals: Seq<u8>,
    reference_base: u8,
    qscore_cutoff: u8,
    n: int,
) -> nat
    decreases n,
{
    if n <= 0 {
        0
    } else {
        mismatches_upto(bases, quals, reference_base, qscore_cutoff, n - 1) + if is_match(
            bases[n - 1],
            quals[n - 1],
            reference_base,
            qscore_cutoff,
        ) {
            0nat
        } else {
            1nat
        }
    }
}

/// The number of positions compared: bases and qualities are paired up to
/// the shorter of the two.
pub open spec fn paired_len(bases: Seq<u8>, quals: Seq<u8>) -> int {
    if bases.len() <= quals.len() {
        bases.len() as int
    } else {
        quals.len() as int
    }
}

/// Counts matches and mismatches of a read against one reference base.
pub fn count_matches_mismatches(
    sequence: &[u8],
    qual: &[u8],
    reference_base: u8,
    qscore_cutoff: u8,
) -> (r: (usize, usize))
    ensures
        r.0 == matches_upto(
            sequence@,
            qual@,
            reference_base,
            qscore_cutoff,
            paired_len(sequence@, qual@),
        ),
        r.1 == mismatches_upto(
            sequence@,
            qual@,
            reference_base,
            qscore_cutoff,
            paired_len(sequence@, qual@),
        ),
{
    let n: usize = if sequence.len() <= qual.len() {
        sequence.len()
    } else {
        qual.len()
    };
    let mut num_matches: usize = 0;
    let mut num_mismatches: usize = 0;
    let mut i: usize = 0;
    while i < n
        invariant
            n == paired_len(sequence@, qual@),
            n <= sequence.len(),
            n <= qual.len(),
            i <= n,
            num_matches == matches_upto(sequence@, qual@, reference_base, qscore_cutoff, i as int),
            num_mismatches == mismatches_upto(
                sequence@,
                qual@,
                reference_base,
                qscore_cutoff,
                i as int,
            ),
            num_matches + num_mismatches == i,
        decreases n - i,
    {
        if sequence[i] == reference_base || qual[i] >= qscore_cutoff {
            num_matches = num_matches + 1;
        } else {
            num_mismatches = num_mismatches + 1;
        }
        i = i + 1;
    }
    (num_matches, num_mismatches)
}

/// Every compared position is either a match or a mismatch: the two counts
/// add up to the number of positions compared.
pub proof fn lemma_counts_cover_positions(
    bases: Seq<u8>,
    quals: Seq<u8>,
    reference_base: u8,
    qscore_cutoff: u8,
    n: int,
)
    requires
        0 <= n,
    ensures
        matches_upto(bases, quals, reference_base, qscore_cutoff, n) + mismatches_upto(
            bases,
            quals,
            reference_base,
            qscore_cutoff,
            n,
        ) == n,
    decreases n,
{
    if n > 0 {
        lemma_counts_cover_positions(bases, quals, reference_base, qscore_cutoff, n - 1);
    }
}

/// For bases and qualities of equal length, matches and mismatches add up
/// to that length.
pub proof fn lemma_equal_length_total(
    bases: Seq<u8>,
    quals: Seq<u8>,
    reference_base: u8,
    qscore_cutoff: u8,
)
    requires
        bases.len() == quals.len(),
    ensures
        matches_upto(
            bases,
            quals,
            reference_base,
            qscore_cutoff,
            paired_len(bases, quals),
        ) + mismatches_upto(bases, quals, reference_base, qscore_cutoff, paired_len(bases, quals))
            == bases.len(),
{
    lemma_counts_cover_positions(bases, quals, reference_base, qscore_cutoff, bases.len() as int);
}

/// A read whose every base equals the reference base has no mismatches,
/// whatever its qualities.
pub proof fn lemma_all_agree_no_mismatch(
    bases: Seq<u8>,
    quals: Seq<u8>,
    reference_base: u8,
    qscore_cutoff: u8,
    n: int,
)
    requires
        n <= bases.len(),
        forall|i: int| 0 <= i < bases.len() ==> bases[i] == reference_base,
    ensures
        mismatches_upto(bases, quals, reference_base, qscore_cutoff, n) == 0,
    decreases n,
{
    if n > 0 {
        lemma_all_agree_no_mismatch(bases, quals, reference_base, qscore_cutoff, n - 1);
    }
}

/// A position whose quality reaches the cutoff counts as a match whatever
/// its base: replacing that base by the reference base changes neither count.
pub proof fn lemma_quality_overrides_base(
    bases: Seq<u8>,
    quals: Seq<u8>,
    reference_base: u8,
    qscore_cutoff: u8,
    pos: int,
    n: int,
)
    requires
        0 <= pos < bases.len(),
        pos < quals.len(),
        quals[pos] >= qscore_cutoff,
        n <= bases.len(),
    ensures
        matches_upto(bases, quals, reference_base, qscore_cutoff, n) == matches_upto(
            bases.update(pos, reference_base),
            quals,
            reference_base,
            qscore_cutoff,
            n,
        ),
        mismatches_upto(bases, quals, reference_base, qscore_cutoff, n) == mismatches_upto(
            bases.update(pos, reference_base),
            quals,
            reference_base,
            qscore_cutoff,
            n,
        ),
    decreases n,
{
    if n > 0 {
        lemma_quality_overrides_base(bases, quals, reference_base, qscore_cutoff, pos, n - 1);
        let updated = bases.update(pos, reference_base);
        if n - 1 != pos {
            assert(updated[n - 1] == bases[n - 1]);
        }
    }
}

} // verus!
