use bam_pileup::compare::count_matches_mismatches;
use bam_pileup::regions::{load_bed_regions, parse_region_line, RegionError};
use bam_pileup::report::{output_file_name, report_bytes, report_text, sanitize_filename};
use bam_pileup::scan::{scan_region, ReadRecord, ScanError};
use bam_pileup::tally::{Accumulator, RefTallies};
use std::io::Read;

fn s(x: &str) -> String {
    x.to_string()
}

fn record(bases: &[u8], quals: &[u8], id: &str, pos: i64) -> ReadRecord {
    ReadRecord { bases: bases.to_vec(), qualities: quals.to_vec(), read_id: s(id), pos }
}

fn find<'a>(tables: &'a [RefTallies], name: &str) -> &'a RefTallies {
    tables.iter().find(|t| t.reference_name == name).expect("reference present")
}

fn tally_in(tables: &[RefTallies], name: &str, id: &str) -> (usize, usize) {
    let t = find(tables, name);
    let r = t.reads.iter().find(|r| r.read_id == id).expect("read present");
    (r.matches, r.mismatches)
}

#[test]
fn counts_sum_to_length_for_equal_lengths() {
    let bases = b"ACGTACGTTT";
    let quals = [10u8, 40, 5, 30, 29, 0, 50, 1, 2, 3];
    let (m, n) = count_matches_mismatches(bases, &quals, b'A', 30);
    assert_eq!(m + n, bases.len());
    // A at 0 and 4; quality >= 30 at 1, 3, 6
    assert_eq!((m, n), (5, 5));
}

#[test]
fn all_agreeing_bases_have_no_mismatch() {
    let (m, n) = count_matches_mismatches(b"GGGG", &[0, 1, 2, 3], b'G', 30);
    assert_eq!((m, n), (4, 0));
}

#[test]
fn high_quality_disagreement_counts_as_match() {
    let (m, n) = count_matches_mismatches(b"T", &[30], b'G', 30);
    assert_eq!((m, n), (1, 0));
    let (m, n) = count_matches_mismatches(b"T", &[29], b'G', 30);
    assert_eq!((m, n), (0, 1));
}

#[test]
fn unequal_lengths_are_truncated() {
    let (m, n) = count_matches_mismatches(b"AAAAA", &[0, 0], b'C', 30);
    assert_eq!((m, n), (0, 2));
    let (m, n) = count_matches_mismatches(b"", &[0, 0], b'C', 30);
    assert_eq!((m, n), (0, 0));
}

#[test]
fn folding_twice_doubles_the_tally() {
    let mut acc = Accumulator::new();
    acc.fold(&s("chr1"), &s("r1"), 3, 2);
    acc.fold(&s("chr1"), &s("r1"), 3, 2);
    assert_eq!(acc.tally(&s("chr1"), &s("r1")), (6, 4));
    assert_eq!(acc.tally(&s("chr1"), &s("r2")), (0, 0));
    assert_eq!(acc.tally(&s("chr2"), &s("r1")), (0, 0));
}

#[test]
fn drain_groups_by_reference() {
    let mut acc = Accumulator::new();
    acc.fold(&s("chr1"), &s("a"), 1, 0);
    acc.fold(&s("chr2"), &s("a"), 0, 1);
    acc.fold(&s("chr1"), &s("b"), 2, 2);
    let tables = acc.drain();
    assert_eq!(tables.len(), 2);
    assert_eq!(find(&tables, "chr1").reads.len(), 2);
    assert_eq!(tally_in(&tables, "chr1", "a"), (1, 0));
    assert_eq!(tally_in(&tables, "chr1", "b"), (2, 2));
    assert_eq!(tally_in(&tables, "chr2", "a"), (0, 1));
}

#[test]
fn two_field_line_is_skipped() {
    let t = load_bed_regions(&vec![s("chr1\t10"), s("chr2\t3\t9")]).unwrap();
    assert_eq!(t.len(), 1);
    assert_eq!(t.get(&s("chr1")), None);
    assert_eq!(t.get(&s("chr2")), Some((3, 9)));
}

#[test]
fn non_numeric_start_is_a_parse_error() {
    let r = load_bed_regions(&vec![s("chr1\t0\t5"), s("chr1\tabc\t5")]);
    assert!(matches!(r, Err(RegionError::ParseError)));
    let r = parse_region_line("chr1\t0\t-5");
    assert!(matches!(r, Err(RegionError::ParseError)));
    let r = parse_region_line("chr1\t0\t4294967296");
    assert!(matches!(r, Err(RegionError::ParseError)));
}

#[test]
fn later_region_overwrites_earlier() {
    let t = load_bed_regions(&vec![s("chr1\t0\t5"), s("chr1\t7\t9\textra")]).unwrap();
    assert_eq!(t.len(), 1);
    assert_eq!(t.get(&s("chr1")), Some((7, 9)));
}

#[test]
fn region_line_is_trimmed_and_parsed() {
    let r = parse_region_line("  chrX\t+12\t4294967295\r\n").unwrap().unwrap();
    assert_eq!(r.reference_name, "chrX");
    assert_eq!((r.start, r.end), (12, 4294967295));
    assert!(parse_region_line("").unwrap().is_none());
    // trailing tabs are white space: one field is left
    assert!(parse_region_line("a\t\t").unwrap().is_none());
    assert!(parse_region_line("a\t\tb").is_err());
}

#[test]
fn sanitize_drops_separators() {
    assert_eq!(sanitize_filename("chr1:abc/def"), "chr1abcdef");
    assert_eq!(sanitize_filename("HLA-A*01_x"), "HLA-A01_x");
    assert_eq!(sanitize_filename(""), "");
}

#[test]
fn output_file_name_joins_parts() {
    assert_eq!(output_file_name("out", "chr1:2"), "out/chr12.tsv.gz");
}

#[test]
fn report_text_has_header_and_rows() {
    let mut acc = Accumulator::new();
    acc.fold(&s("chr1"), &s("read7"), 120, 3);
    let tables = acc.drain();
    let text = report_text(&tables[0].reads);
    assert_eq!(text, "read_id\tnum_matches\tnum_mismatches\nread7\t120\t3\n");
}

#[test]
fn report_bytes_are_gzip_of_text() {
    let mut acc = Accumulator::new();
    acc.fold(&s("chr1"), &s("q"), 0, 10);
    let tables = acc.drain();
    let z = report_bytes(&tables[0].reads);
    assert_eq!(&z[..2], &[0x1f, 0x8b]);
    let mut out = String::new();
    flate2::read::GzDecoder::new(&z[..]).read_to_string(&mut out).unwrap();
    assert_eq!(out, "read_id\tnum_matches\tnum_mismatches\nq\t0\t10\n");
}

fn run_scenario(read: ReadRecord) -> (usize, usize) {
    let table = load_bed_regions(&vec![s("chr1\t0\t5")]).unwrap();
    let (start, _end) = table.get(&s("chr1")).unwrap();
    let window = b"ACGTA".to_vec();
    let mut acc = Accumulator::new();
    scan_region(&mut acc, &s("chr1"), start, &window, &vec![read], 30).unwrap();
    let tables = acc.drain();
    assert_eq!(tables.len(), 1);
    assert_eq!(find(&tables, "chr1").reads.len(), 1);
    tally_in(&tables, "chr1", "r1")
}

// Every base of a record is compared with the one reference base at the
// record's start: for a read at position 0 of `ACGTA` that base is `A`.

#[test]
fn scenario_exact_read() {
    let t = run_scenario(record(b"ACGTA", &[10, 10, 10, 10, 10], "r1", 0));
    assert_eq!(t, (2, 3));
}

#[test]
fn scenario_one_low_quality_mismatch() {
    let t = run_scenario(record(b"ACTTA", &[10, 10, 10, 10, 10], "r1", 0));
    assert_eq!(t, (2, 3));
}

#[test]
fn scenario_high_quality_mismatch_is_match() {
    let t = run_scenario(record(b"ACTTA", &[10, 10, 35, 10, 10], "r1", 0));
    assert_eq!(t, (3, 2));
}

#[test]
fn scenario_read_agreeing_with_start_base() {
    let t = run_scenario(record(b"AAAAA", &[10, 10, 10, 10, 10], "r1", 0));
    assert_eq!(t, (5, 0));
}

#[test]
fn scenario_one_low_quality_disagreement() {
    let t = run_scenario(record(b"AATAA", &[10, 10, 10, 10, 10], "r1", 0));
    assert_eq!(t, (4, 1));
}

#[test]
fn scenario_high_quality_disagreement_is_match() {
    let t = run_scenario(record(b"AATAA", &[10, 10, 30, 10, 10], "r1", 0));
    assert_eq!(t, (5, 0));
}

#[test]
fn record_outside_window_is_precondition_violation() {
    let window = b"ACGTA".to_vec();
    let mut acc = Accumulator::new();
    let r = scan_region(&mut acc, &s("chr1"), 10, &window, &vec![record(b"A", &[0], "r", 9)], 30);
    assert_eq!(r, Err(ScanError::PreconditionViolation));
    let r = scan_region(&mut acc, &s("chr1"), 10, &window, &vec![record(b"A", &[0], "r", 15)], 30);
    assert_eq!(r, Err(ScanError::PreconditionViolation));
    assert!(acc.drain().is_empty());
}

#[test]
fn reference_base_is_taken_at_record_start() {
    let window = b"ACGTA".to_vec();
    let mut acc = Accumulator::new();
    let recs = vec![record(b"GGG", &[0, 0, 0], "r", 12), record(b"GA", &[0, 0], "r", 14)];
    scan_region(&mut acc, &s("chr1"), 10, &window, &recs, 30).unwrap();
    // first record against 'G' (3, 0); second against 'A' (1, 1)
    assert_eq!(acc.tally(&s("chr1"), &s("r")), (4, 1));
}

#[test]
fn overflowing_tally_is_an_error() {
    let window = b"A".to_vec();
    let mut acc = Accumulator::new();
    acc.fold(&s("chr1"), &s("r"), usize::MAX, 0);
    let r = scan_region(&mut acc, &s("chr1"), 0, &window, &vec![record(b"A", &[0], "r", 0)], 30);
    assert_eq!(r, Err(ScanError::CountOverflow));
    assert_eq!(acc.tally(&s("chr1"), &s("r")), (usize::MAX, 0));
}
