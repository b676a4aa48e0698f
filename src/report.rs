//! The report: one gzip-compressed, tab-separated table per reference
//! sequence, written to a file named after the sanitized reference name.

use vstd::prelude::*;
use crate::tally::ReadTally;
use crate::text::{chars_of, push_char};

verus! {

/// Whether `char::is_alphanumeric` holds of `c` (Unicode Alphabetic or Numeric).
pub uninterp spec fn alphanumeric(c: char) -> bool;

/// Relies on `char::is_alphanumeric`. Of ASCII characters, exactly the
/// letters and the digits are alphanumeric.
#[verifier::external_body]
fn char_is_alphanumeric(c: char) -> (r: bool)
    ensures
        r == alphanumeric(c),
        ('a' <= c <= 'z' || 'A' <= c <= 'Z' || '0' <= c <= '9') ==> r,
        (c as u32) < 128 && !('a' <= c <= 'z' || 'A' <= c <= 'Z' || '0' <= c <= '9') ==> !r,
{
    c.is_alphanumeric()
}

/// What a file name keeps of a reference name: alphanumerics, `_` and `-`.
/// Of ASCII characters these are the letters, the digits, `_` and `-`.
pub open spec fn kept_in_filename(c: char) -> bool {
    if (c as u32) < 128 {
        'a' <= c <= 'z' || 'A' <= c <= 'Z' || '0' <= c <= '9' || c == '_' || c == '-'
    } else {
        alphanumeric(c)
    }
}

/// `name` with every character that a file name does not keep dropped.
pub open spec fn sanitize_spec(name: Seq<char>) -> Seq<char>
    decreases name.len(),
{
    if name.len() == 0 {
        Seq::empty()
    } else if kept_in_filename(name.last()) {
        sanitize_spec(name.drop_last()).push(name.last())
    } else {
        sanitize_spec(name.drop_last())
    }
}

/// Keeps only the alphanumeric characters, `_` and `-` of `filename`.
pub fn sanitize_filename(filename: &str) -> (r: String)
    ensures
        r@ == sanitize_spec(filename@),
{
    let cs = chars_of(filename);
    let mut out = String::new();
    let mut i: usize = 0;
    while i < cs.len()
        invariant
            i <= cs@.len(),
            cs@ == filename@,
            out@ == sanitize_spec(cs@.take(i as int)),
        decreases cs.len() - i,
    {
        let c = cs[i];
        proof {
            assert(cs@.take(i as int + 1).drop_last() == cs@.take(i as int));
            assert(cs@.take(i as int + 1).last() == c);
        }
        if char_is_alphanumeric(c) || c == '_' || c == '-' {
            push_char(&mut out, c);
        }
        i = i + 1;
    }
    assert(cs@.take(cs.len() as int) == cs@);
    out
}

/// Appends every character of `cs` to `out`.
fn append_chars(out: &mut String, cs: &Vec<char>)
    ensures
        final(out)@ == old(out)@ + cs@,
{
    let mut i: usize = 0;
    while i < cs.len()
        invariant
            i <= cs@.len(),
            out@ == old(out)@ + cs@.take(i as int),
        decreases cs.len() - i,
    {
        push_char(out, cs[i]);
        assert(cs@.take(i as int + 1) == cs@.take(i as int).push(cs@[i as int]));
        i = i + 1;
    }
    assert(cs@.take(cs.len() as int) == cs@);
}

/// Appends every character of `s` to `out`.
fn append_str(out: &mut String, s: &str)
    ensures
        final(out)@ == old(out)@ + s@,
{
    let cs = chars_of(s);
    append_chars(out, &cs);
}

/// The suffix of every report file name.
pub open spec fn report_suffix() -> Seq<char> {
    seq!['.', 't', 's', 'v', '.', 'g', 'z']
}

/// `{output_dir}/{sanitized name}.tsv.gz`.
pub fn output_file_name(output_dir: &str, reference_name: &str) -> (r: String)
    ensures
        r@ == output_dir@ + seq!['/'] + sanitize_spec(reference_name@) + report_suffix(),
{
    let mut out = String::new();
    append_str(&mut out, output_dir);
    push_char(&mut out, '/');
    let s = sanitize_filename(reference_name);
    append_str(&mut out, s.as_str());
    let suffix: Vec<char> = vec!['.', 't', 's', 'v', '.', 'g', 'z'];
    assert(suffix@ == report_suffix());
    append_chars(&mut out, &suffix);
    out
}

pub open spec fn digit_char(d: nat) -> char {
    (d + '0' as nat) as char
}

/// Decimal digits of `n`, without leading zeros.
pub open spec fn decimal_spec(n: nat) -> Seq<char>
    decreases n,
{
    if n < 10 {
        seq![digit_char(n)]
    } else {
        decimal_spec(n / 10).push(digit_char(n % 10))
    }
}

/// The character of a decimal digit.
fn digit_of(d: u8) -> (r: char)
    requires
        d < 10,
    ensures
        r == digit_char(d as nat),
{
    match d {
        0 => '0',
        1 => '1',
        2 => '2',
        3 => '3',
        4 => '4',
        5 => '5',
        6 => '6',
        7 => '7',
        8 => '8',
        _ => '9',
    }
}

/// Appends the decimal digits of `n`.
fn push_decimal(out: &mut String, n: usize)
    ensures
        final(out)@ == old(out)@ + decimal_spec(n as nat),
    decreases n,
{
    if n >= 10 {
        push_decimal(out, n / 10);
    }
    push_char(out, digit_of((n % 10) as u8));
    assert(old(out)@ + decimal_spec(n as nat) =~= if n >= 10 {
        old(out)@ + decimal_spec((n / 10) as nat) + seq![digit_char((n % 10) as nat)]
    } else {
        old(out)@ + seq![digit_char(n as nat)]
    });
}

/// The first line of every report.
pub open spec fn header_spec() -> Seq<char> {
    seq![
        'r', 'e', 'a', 'd', '_', 'i', 'd', '\t',
        'n', 'u', 'm', '_', 'm', 'a', 't', 'c', 'h', 'e', 's', '\t',
        'n', 'u', 'm', '_', 'm', 'i', 's', 'm', 'a', 't', 'c', 'h', 'e', 's', '\n',
    ]
}

/// One row: read id, matches and mismatches, tab-separated.
pub open spec fn row_spec(t: ReadTally) -> Seq<char> {
    t.read_id@ + seq!['\t'] + decimal_spec(t.matches as nat) + seq!['\t'] + decimal_spec(
        t.mismatches as nat,
    ) + seq!['\n']
}

/// The rows of `reads`, in order.
pub open spec fn rows_spec(reads: Seq<ReadTally>) -> Seq<char>
    decreases reads.len(),
{
    if reads.len() == 0 {
        Seq::empty()
    } else {
        rows_spec(reads.drop_last()) + row_spec(reads.last())
    }
}

/// The uncompressed table of one reference sequence: a header line, then
/// one line per read.
pub fn report_text(reads: &Vec<ReadTally>) -> (r: String)
    ensures
        r@ == header_spec() + rows_spec(reads@),
{
    let mut out = String::new();
    let header: Vec<char> = vec![
        'r', 'e', 'a', 'd', '_', 'i', 'd', '\t',
        'n', 'u', 'm', '_', 'm', 'a', 't', 'c', 'h', 'e', 's', '\t',
        'n', 'u', 'm', '_', 'm', 'i', 's', 'm', 'a', 't', 'c', 'h', 'e', 's', '\n',
    ];
    assert(header@ == header_spec());
    append_chars(&mut out, &header);
    let mut i: usize = 0;
    while i < reads.len()
        invariant
            i <= reads@.len(),
            out@ == header_spec() + rows_spec(reads@.take(i as int)),
        decreases reads.len() - i,
    {
        let t = &reads[i];
        let ghost before = out@;
        append_str(&mut out, t.read_id.as_str());
        push_char(&mut out, '\t');
        push_decimal(&mut out, t.matches);
        push_char(&mut out, '\t');
        push_decimal(&mut out, t.mismatches);
        push_char(&mut out, '\n');
        proof {
            assert(reads@.take(i as int + 1).drop_last() == reads@.take(i as int));
            assert(reads@.take(i as int + 1).last() == *t);
            assert(out@ =~= before + row_spec(*t));
        }
        i = i + 1;
    }
    assert(reads@.take(reads.len() as int) == reads@);
    out
}

/// What gzip compression of `data` at the default level gives.
pub uninterp spec fn gzip_of(data: Seq<u8>) -> Seq<u8>;

/// Relies on flate2's `GzEncoder` at `Compression::default()` over a `Vec`:
/// its header carries no time, name or comment, and starts with the gzip
/// magic bytes 0x1f 0x8b. Writing into a `Vec` does not fail, and a fresh
/// encoder meets no stream error, so the result is always present.
#[verifier::external_body]
fn gzip(data: &[u8]) -> (r: Option<Vec<u8>>)
    ensures
        r is Some,
        r matches Some(z) ==> z@ == gzip_of(data@) && z@.len() >= 10 && z@[0] == 0x1f && z@[1]
            == 0x8b,
{
    let mut enc = flate2::write::GzEncoder::new(Vec::new(), flate2::Compression::default());
    match std::io::Write::write_all(&mut enc, data) {
        Ok(()) => enc.finish().ok(),
        Err(_) => None,
    }
}

/// The compressed report of one reference sequence: the gzip of the UTF-8
/// bytes of `report_text(reads)`.
pub fn report_bytes(reads: &Vec<ReadTally>) -> (r: Vec<u8>)
    ensures
        r@ == gzip_of(vstd::utf8::encode_utf8(header_spec() + rows_spec(reads@))),
        r@.len() >= 10,
        r@[0] == 0x1f,
        r@[1] == 0x8b,
{
    let text = report_text(reads);
    let bytes = text.as_str().as_bytes();
    gzip(bytes).unwrap()
}

} // verus!
