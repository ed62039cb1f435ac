//! The record payload format: JSON in, canonical JSON out.
//!
//! A payload parses when it is one well-formed JSON object carrying exactly
//! the four record fields — `name` and `commit` as JSON strings, `date` as
//! an ISO `YYYY-MM-DD` string, and `results` as an object with the three
//! `u64` counters — in any member order, with any insignificant whitespace,
//! string escapes honored and UTF-8 contents accepted. A payload of any
//! other shape (unknown or repeated members, a missing field, an invalid
//! date, a counter past `u64::MAX`) is rejected.
//!
//! The encoder always produces one canonical form: the fixed field order
//! shown below, no interior whitespace, and only quote, backslash and
//! control characters escaped:
//!
//! ```text
//! {"name":"N","commit":"C","date":"YYYY-MM-DD","results":{"tests":T,"passes":P,"failures":F}}
//! ```
//!
//! Writing a record and reading the bytes back yields an equal record
//! (`lemma_parse_encode`), which is what makes rehydration from the
//! persistence directory idempotent.

use vstd::prelude::*;
use vstd::string::{StrSliceExecFns, StringExecFns, StringSliceAdditionalSpecFns};
use vstd::utf8::{decode_utf8, encode_utf8, valid_utf8};

use crate::date::Date;
use crate::error::Error;
use crate::record::{RecordView, RunResults, TestsuiteResult};

verus! {

/// An ASCII decimal digit.
pub open spec fn is_digit(b: u8) -> bool {
    48 <= b <= 57
}

/// JSON insignificant whitespace: space, tab, line feed, carriage return.
pub open spec fn is_ws(b: u8) -> bool {
    b == 32 || b == 9 || b == 10 || b == 13
}

/// The value of an ASCII hex digit, or -1.
pub open spec fn hex_val(b: u8) -> int {
    if 48 <= b <= 57 {
        b - 48
    } else if 97 <= b <= 102 {
        b - 87
    } else if 65 <= b <= 70 {
        b - 55
    } else {
        -1
    }
}

/// Whether a byte is an ASCII hex digit.
pub open spec fn is_hex(b: u8) -> bool {
    hex_val(b) >= 0
}

/// The lower-case ASCII hex digit of a value below 16.
pub open spec fn hex_digit(d: int) -> u8 {
    if d < 10 {
        (48 + d) as u8
    } else {
        (87 + d) as u8
    }
}

/// The UTF-8 bytes of the Unicode scalar value `u`.
pub open spec fn utf8_bytes_of(u: int) -> Seq<u8> {
    if u < 0x80 {
        seq![u as u8]
    } else if u < 0x800 {
        seq![(0xC0 + u / 0x40) as u8, (0x80 + u % 0x40) as u8]
    } else if u < 0x10000 {
        seq![(0xE0 + u / 0x1000) as u8, (0x80 + u / 0x40 % 0x40) as u8, (0x80 + u % 0x40) as u8]
    } else {
        seq![
            (0xF0 + u / 0x40000) as u8,
            (0x80 + u / 0x1000 % 0x40) as u8,
            (0x80 + u / 0x40 % 0x40) as u8,
            (0x80 + u % 0x40) as u8,
        ]
    }
}

/// How the canonical encoder renders one byte of UTF-8 string content:
/// quote and backslash get a two-byte escape, control bytes a `\u00XX`
/// escape, everything else stands verbatim.
pub open spec fn esc1(b: u8) -> Seq<u8> {
    if b == 34 {
        seq![92u8, 34]
    } else if b == 92 {
        seq![92u8, 92]
    } else if b < 32 {
        seq![92u8, 117, 48, 48, hex_digit(b as int / 16), hex_digit(b as int % 16)]
    } else {
        seq![b]
    }
}

/// The canonical escaping of a string's UTF-8 bytes.
pub open spec fn escape_bytes(raw: Seq<u8>) -> Seq<u8>
    decreases raw.len(),
{
    if raw.len() == 0 {
        Seq::empty()
    } else {
        esc1(raw[0]) + escape_bytes(raw.drop_first())
    }
}

/// Decimal digits of `n`, most significant first, no leading zeros.
pub open spec fn spec_digits(n: u64) -> Seq<u8>
    decreases n,
{
    if n < 10 {
        seq![(n + 48) as u8]
    } else {
        spec_digits(n / 10).push((n % 10 + 48) as u8)
    }
}

/// The two low-order decimal digits of `n`, zero-padded.
pub open spec fn two_digits(n: u8) -> Seq<u8> {
    seq![(n / 10 % 10 + 48) as u8, (n % 10 + 48) as u8]
}

/// The four low-order decimal digits of `n`, zero-padded.
pub open spec fn four_digits(n: u16) -> Seq<u8> {
    seq![
        (n / 1000 % 10 + 48) as u8,
        (n / 100 % 10 + 48) as u8,
        (n / 10 % 10 + 48) as u8,
        (n % 10 + 48) as u8,
    ]
}

/// The ten bytes `YYYY-MM-DD` of a date.
pub open spec fn spec_date_bytes(d: Date) -> Seq<u8> {
    four_digits(d.year) + seq![45u8] + two_digits(d.month) + seq![45u8] + two_digits(d.day)
}

/// `name`
pub open spec fn key_name() -> Seq<u8> {
    seq![110u8, 97, 109, 101]
}

/// `commit`
pub open spec fn key_commit() -> Seq<u8> {
    seq![99u8, 111, 109, 109, 105, 116]
}

/// `date`
pub open spec fn key_date() -> Seq<u8> {
    seq![100u8, 97, 116, 101]
}

/// `results`
pub open spec fn key_results() -> Seq<u8> {
    seq![114u8, 101, 115, 117, 108, 116, 115]
}

/// `tests`
pub open spec fn key_tests() -> Seq<u8> {
    seq![116u8, 101, 115, 116, 115]
}

/// `passes`
pub open spec fn key_passes() -> Seq<u8> {
    seq![112u8, 97, 115, 115, 101, 115]
}

/// `failures`
pub open spec fn key_failures() -> Seq<u8> {
    seq![102u8, 97, 105, 108, 117, 114, 101, 115]
}

/// `{"name":"`
pub open spec fn lit_name() -> Seq<u8> {
    seq![123u8, 34, 110, 97, 109, 101, 34, 58, 34]
}

/// `,"commit":"`
pub open spec fn lit_commit() -> Seq<u8> {
    seq![44u8, 34, 99, 111, 109, 109, 105, 116, 34, 58, 34]
}

/// `,"date":"`
pub open spec fn lit_date() -> Seq<u8> {
    seq![44u8, 34, 100, 97, 116, 101, 34, 58, 34]
}

/// `","results":{"tests":`
pub open spec fn lit_results() -> Seq<u8> {
    seq![34u8, 44, 34, 114, 101, 115, 117, 108, 116, 115, 34, 58, 123, 34, 116, 101, 115, 116, 115, 34, 58]
}

/// `,"passes":`
pub open spec fn lit_passes() -> Seq<u8> {
    seq![44u8, 34, 112, 97, 115, 115, 101, 115, 34, 58]
}

/// `,"failures":`
pub open spec fn lit_failures() -> Seq<u8> {
    seq![44u8, 34, 102, 97, 105, 108, 117, 114, 101, 115, 34, 58]
}

/// `}}`
pub open spec fn lit_close() -> Seq<u8> {
    seq![125u8, 125]
}

/// The canonical encoding of a record.
pub open spec fn spec_encode(v: RecordView) -> Seq<u8> {
    lit_name() + escape_bytes(encode_utf8(v.name)) + seq![34u8] + lit_commit() + escape_bytes(
        encode_utf8(v.commit),
    ) + seq![34u8] + lit_date() + spec_date_bytes(v.date) + lit_results() + spec_digits(
        v.results.tests,
    ) + lit_passes() + spec_digits(v.results.passes) + lit_failures() + spec_digits(
        v.results.failures,
    ) + lit_close()
}

/// The position of the first non-whitespace byte at or after `pos`.
pub open spec fn skip_ws(b: Seq<u8>, pos: int) -> int
    decreases b.len() - pos,
{
    if 0 <= pos < b.len() && is_ws(b[pos]) {
        skip_ws(b, pos + 1)
    } else {
        pos
    }
}

/// Consume a JSON string body starting after the opening quote, up to and
/// including the closing quote. Yields the content as UTF-8 bytes: raw
/// bytes stand for themselves, the short escapes and `\uXXXX` (with
/// surrogate pairs) for the encoding of the escaped scalar. Raw control
/// bytes, bad escapes and lone surrogates are rejected; the content's
/// UTF-8 validity is checked by the caller.
pub open spec fn spec_parse_jstring(b: Seq<u8>, pos: int) -> Option<(Seq<u8>, int)>
    decreases b.len() - pos,
{
    if pos < 0 || pos >= b.len() {
        None
    } else if b[pos] == 34 {
        Some((Seq::empty(), pos + 1))
    } else if b[pos] == 92 {
        if pos + 1 >= b.len() {
            None
        } else if b[pos + 1] == 117 {
            if pos + 5 >= b.len() {
                None
            } else if !(is_hex(b[pos + 2]) && is_hex(b[pos + 3]) && is_hex(b[pos + 4]) && is_hex(
                b[pos + 5],
            )) {
                None
            } else {
                let code = hex_val(b[pos + 2]) * 4096 + hex_val(b[pos + 3]) * 256 + hex_val(
                    b[pos + 4],
                ) * 16 + hex_val(b[pos + 5]);
                if 0xD800 <= code <= 0xDBFF {
                    if pos + 11 >= b.len() {
                        None
                    } else if !(b[pos + 6] == 92 && b[pos + 7] == 117 && is_hex(b[pos + 8])
                        && is_hex(b[pos + 9]) && is_hex(b[pos + 10]) && is_hex(b[pos + 11])) {
                        None
                    } else {
                        let code2 = hex_val(b[pos + 8]) * 4096 + hex_val(b[pos + 9]) * 256
                            + hex_val(b[pos + 10]) * 16 + hex_val(b[pos + 11]);
                        if !(0xDC00 <= code2 <= 0xDFFF) {
                            None
                        } else {
                            let scalar = 0x10000 + (code - 0xD800) * 0x400 + (code2 - 0xDC00);
                            match spec_parse_jstring(b, pos + 12) {
                                Some((s, end)) => Some((utf8_bytes_of(scalar) + s, end)),
                                None => None,
                            }
                        }
                    }
                } else if 0xDC00 <= code <= 0xDFFF {
                    None
                } else {
                    match spec_parse_jstring(b, pos + 6) {
                        Some((s, end)) => Some((utf8_bytes_of(code) + s, end)),
                        None => None,
                    }
                }
            }
        } else {
            let e = b[pos + 1];
            let un: int = if e == 34 {
                34
            } else if e == 92 {
                92
            } else if e == 47 {
                47
            } else if e == 98 {
                8
            } else if e == 102 {
                12
            } else if e == 110 {
                10
            } else if e == 114 {
                13
            } else if e == 116 {
                9
            } else {
                -1
            };
            if un < 0 {
                None
            } else {
                match spec_parse_jstring(b, pos + 2) {
                    Some((s, end)) => Some((seq![un as u8] + s, end)),
                    None => None,
                }
            }
        }
    } else if b[pos] < 32 {
        None
    } else {
        match spec_parse_jstring(b, pos + 1) {
            Some((s, end)) => Some((seq![b[pos]] + s, end)),
            None => None,
        }
    }
}

/// Consume a run of decimal digits, accumulating their value; fails on
/// overflow past `u64::MAX`.
pub open spec fn spec_parse_u64_rec(b: Seq<u8>, pos: int, acc: u64) -> Option<(u64, int)>
    decreases b.len() - pos,
{
    if 0 <= pos < b.len() && is_digit(b[pos]) {
        let d = (b[pos] - 48) as u64;
        if acc > (u64::MAX - d) / 10 {
            None
        } else {
            spec_parse_u64_rec(b, pos + 1, (acc * 10 + d) as u64)
        }
    } else {
        Some((acc, pos))
    }
}

/// Consume a JSON number usable as a `u64`: at least one digit, no leading
/// zeros, value at most `u64::MAX`. (A following `.` or `e` is left in
/// place and rejected by the surrounding object syntax.)
pub open spec fn spec_parse_u64(b: Seq<u8>, pos: int) -> Option<(u64, int)> {
    if !(0 <= pos < b.len() && is_digit(b[pos])) {
        None
    } else if b[pos] == 48 && pos + 1 < b.len() && is_digit(b[pos + 1]) {
        None
    } else {
        spec_parse_u64_rec(b, pos, 0)
    }
}

/// Consume the ten bytes `YYYY-MM-DD` of a valid date.
pub open spec fn spec_parse_date(b: Seq<u8>, pos: int) -> Option<(Date, int)> {
    if pos < 0 || pos + 10 > b.len() {
        None
    } else if is_digit(b[pos]) && is_digit(b[pos + 1]) && is_digit(b[pos + 2]) && is_digit(
        b[pos + 3],
    ) && b[pos + 4] == 45 && is_digit(b[pos + 5]) && is_digit(b[pos + 6]) && b[pos + 7] == 45
        && is_digit(b[pos + 8]) && is_digit(b[pos + 9]) {
        let y = ((b[pos] - 48) * 1000 + (b[pos + 1] - 48) * 100 + (b[pos + 2] - 48) * 10 + (b[pos
            + 3] - 48)) as u16;
        let m = ((b[pos + 5] - 48) * 10 + (b[pos + 6] - 48)) as u8;
        let d = ((b[pos + 8] - 48) * 10 + (b[pos + 9] - 48)) as u8;
        let date = Date { year: y, month: m, day: d };
        if date.valid() {
            Some((date, pos + 10))
        } else {
            None
        }
    } else {
        None
    }
}

/// The members of the top-level object seen so far: string contents as
/// UTF-8 bytes, the date and counters already validated.
pub ghost struct PartialRecord {
    pub name: Option<Seq<u8>>,
    pub commit: Option<Seq<u8>>,
    pub date: Option<Date>,
    pub results: Option<RunResults>,
}

/// The members of a `results` object seen so far.
pub ghost struct PartialResults {
    pub tests: Option<u64>,
    pub passes: Option<u64>,
    pub failures: Option<u64>,
}

/// An empty top-level accumulator.
pub open spec fn empty_record_acc() -> PartialRecord {
    PartialRecord { name: None, commit: None, date: None, results: None }
}

/// An empty `results` accumulator.
pub open spec fn empty_results_acc() -> PartialResults {
    PartialResults { tests: None, passes: None, failures: None }
}

/// How many top-level members are still missing.
pub open spec fn missing_record_members(a: PartialRecord) -> int {
    (if a.name is None {
        1int
    } else {
        0int
    }) + (if a.commit is None {
        1int
    } else {
        0int
    }) + (if a.date is None {
        1int
    } else {
        0int
    }) + (if a.results is None {
        1int
    } else {
        0int
    })
}

/// How many counter members are still missing.
pub open spec fn missing_results_members(a: PartialResults) -> int {
    (if a.tests is None {
        1int
    } else {
        0int
    }) + (if a.passes is None {
        1int
    } else {
        0int
    }) + (if a.failures is None {
        1int
    } else {
        0int
    })
}

/// Consume the members of a `results` object, starting after its `{` or a
/// member-separating comma, through the closing `}`. Each counter must
/// appear exactly once; any other or repeated member rejects.
#[verifier::opaque]
pub open spec fn spec_parse_results_members(b: Seq<u8>, pos: int, acc: PartialResults) -> Option<
    (RunResults, int),
>
    decreases missing_results_members(acc),
{
    let p = skip_ws(b, pos);
    if !(0 <= p && p < b.len() && b[p] == 34) {
        None
    } else {
        match spec_parse_jstring(b, p + 1) {
            None => None,
            Some((key, p2)) => {
                let p3 = skip_ws(b, p2);
                if !(p3 < b.len() && b[p3] == 58) {
                    None
                } else {
                    let p4 = skip_ws(b, p3 + 1);
                    match spec_parse_u64(b, p4) {
                        None => None,
                        Some((n, p5)) => {
                            let acc2 = if key == key_tests() && acc.tests is None {
                                Some(
                                    PartialResults {
                                        tests: Some(n),
                                        passes: acc.passes,
                                        failures: acc.failures,
                                    },
                                )
                            } else if key == key_passes() && acc.passes is None {
                                Some(
                                    PartialResults {
                                        tests: acc.tests,
                                        passes: Some(n),
                                        failures: acc.failures,
                                    },
                                )
                            } else if key == key_failures() && acc.failures is None {
                                Some(
                                    PartialResults {
                                        tests: acc.tests,
                                        passes: acc.passes,
                                        failures: Some(n),
                                    },
                                )
                            } else {
                                None
                            };
                            match acc2 {
                                None => None,
                                Some(acc2) => {
                                    let p6 = skip_ws(b, p5);
                                    if p6 < b.len() && b[p6] == 44 {
                                        spec_parse_results_members(b, p6 + 1, acc2)
                                    } else if p6 < b.len() && b[p6] == 125 {
                                        match (acc2.tests, acc2.passes, acc2.failures) {
                                            (Some(t), Some(pp), Some(f)) => Some(
                                                (RunResults { tests: t, passes: pp, failures: f }, p6 + 1),
                                            ),
                                            _ => None,
                                        }
                                    } else {
                                        None
                                    }
                                },
                            }
                        },
                    }
                }
            },
        }
    }
}

/// Consume a `results` value: a JSON object holding the three counters.
pub open spec fn spec_parse_results(b: Seq<u8>, pos: int) -> Option<(RunResults, int)> {
    if 0 <= pos < b.len() && b[pos] == 123 {
        spec_parse_results_members(b, pos + 1, empty_results_acc())
    } else {
        None
    }
}

/// Consume the members of the top-level object, starting after its `{` or
/// a member-separating comma, through the closing `}`. Each of the four
/// fields must appear exactly once; any other or repeated member rejects.
#[verifier::opaque]
pub open spec fn spec_parse_record_members(b: Seq<u8>, pos: int, acc: PartialRecord) -> Option<
    (PartialRecord, int),
>
    decreases missing_record_members(acc),
{
    let p = skip_ws(b, pos);
    if !(0 <= p && p < b.len() && b[p] == 34) {
        None
    } else {
        match spec_parse_jstring(b, p + 1) {
            None => None,
            Some((key, p2)) => {
                let p3 = skip_ws(b, p2);
                if !(p3 < b.len() && b[p3] == 58) {
                    None
                } else {
                    let p4 = skip_ws(b, p3 + 1);
                    let step: Option<(PartialRecord, int)> = if key == key_name() && acc.name
                        is None {
                        if p4 < b.len() && b[p4] == 34 {
                            match spec_parse_jstring(b, p4 + 1) {
                                Some((s, p5)) => Some(
                                    (
                                        PartialRecord {
                                            name: Some(s),
                                            commit: acc.commit,
                                            date: acc.date,
                                            results: acc.results,
                                        },
                                        p5,
                                    ),
                                ),
                                None => None,
                            }
                        } else {
                            None
                        }
                    } else if key == key_commit() && acc.commit is None {
                        if p4 < b.len() && b[p4] == 34 {
                            match spec_parse_jstring(b, p4 + 1) {
                                Some((s, p5)) => Some(
                                    (
                                        PartialRecord {
                                            name: acc.name,
                                            commit: Some(s),
                                            date: acc.date,
                                            results: acc.results,
                                        },
                                        p5,
                                    ),
                                ),
                                None => None,
                            }
                        } else {
                            None
                        }
                    } else if key == key_date() && acc.date is None {
                        if p4 < b.len() && b[p4] == 34 {
                            match spec_parse_jstring(b, p4 + 1) {
                                Some((s, p5)) => {
                                    if s.len() == 10 && spec_parse_date(s, 0) is Some {
                                        Some(
                                            (
                                                PartialRecord {
                                                    name: acc.name,
                                                    commit: acc.commit,
                                                    date: Some(
                                                        spec_parse_date(s, 0)->Some_0.0,
                                                    ),
                                                    results: acc.results,
                                                },
                                                p5,
                                            ),
                                        )
                                    } else {
                                        None
                                    }
                                },
                                None => None,
                            }
                        } else {
                            None
                        }
                    } else if key == key_results() && acc.results is None {
                        match spec_parse_results(b, p4) {
                            Some((rr, p5)) => Some(
                                (
                                    PartialRecord {
                                        name: acc.name,
                                        commit: acc.commit,
                                        date: acc.date,
                                        results: Some(rr),
                                    },
                                    p5,
                                ),
                            ),
                            None => None,
                        }
                    } else {
                        None
                    };
                    match step {
                        None => None,
                        Some((acc2, p5)) => {
                            let p6 = skip_ws(b, p5);
                            if p6 < b.len() && b[p6] == 44 {
                                spec_parse_record_members(b, p6 + 1, acc2)
                            } else if p6 < b.len() && b[p6] == 125 {
                                Some((acc2, p6 + 1))
                            } else {
                                None
                            }
                        },
                    }
                }
            },
        }
    }
}

/// Parse a whole payload as a record.
///
/// The payload must be one JSON object with exactly the four fields, the
/// string contents must be valid UTF-8, the name non-empty, and nothing
/// but whitespace may follow the object.
pub open spec fn spec_parse_record(b: Seq<u8>) -> Option<RecordView> {
    let p0 = skip_ws(b, 0);
    if !(0 <= p0 && p0 < b.len() && b[p0] == 123) {
        None
    } else {
        match spec_parse_record_members(b, p0 + 1, empty_record_acc()) {
            None => None,
            Some((acc, p)) => {
                if skip_ws(b, p) == b.len() && acc.name is Some && acc.commit is Some
                    && acc.date is Some && acc.results is Some && valid_utf8(acc.name->Some_0)
                    && valid_utf8(acc.commit->Some_0) && decode_utf8(acc.name->Some_0).len()
                    > 0 {
                    Some(
                        RecordView {
                            name: decode_utf8(acc.name->Some_0),
                            commit: decode_utf8(acc.commit->Some_0),
                            date: acc.date->Some_0,
                            results: acc.results->Some_0,
                        },
                    )
                } else {
                    None
                }
            },
        }
    }
}

/// Append the decimal digits of `n`, most significant first.
fn push_digits(out: &mut Vec<u8>, n: u64)
    ensures
        final(out)@ == old(out)@ + spec_digits(n),
    decreases n,
{
    if n < 10 {
        out.push((n + 48) as u8);
    } else {
        push_digits(out, n / 10);
        out.push((n % 10 + 48) as u8);
    }
}

/// Append the ten bytes `YYYY-MM-DD` of a date.
fn push_date(out: &mut Vec<u8>, d: &Date)
    ensures
        final(out)@ == old(out)@ + spec_date_bytes(*d),
{
    let y = d.year;
    out.push((y / 1000 % 10 + 48) as u8);
    out.push((y / 100 % 10 + 48) as u8);
    out.push((y / 10 % 10 + 48) as u8);
    out.push((y % 10 + 48) as u8);
    out.push(45);
    out.push((d.month / 10 % 10 + 48) as u8);
    out.push((d.month % 10 + 48) as u8);
    out.push(45);
    out.push((d.day / 10 % 10 + 48) as u8);
    out.push((d.day % 10 + 48) as u8);
    proof {
        assert(out@ =~= old(out)@ + spec_date_bytes(*d));
    }
}

/// Escaping one more byte extends the escaped image.
proof fn lemma_escape_push(raw: Seq<u8>, x: u8)
    ensures
        escape_bytes(raw.push(x)) == escape_bytes(raw) + esc1(x),
    decreases raw.len(),
{
    if raw.len() == 0 {
        assert(raw.push(x)[0] == x);
        assert(raw.push(x).drop_first() =~= Seq::<u8>::empty());
        assert(escape_bytes(raw.push(x)) == esc1(x) + escape_bytes(Seq::<u8>::empty()));
        assert(esc1(x) + Seq::<u8>::empty() =~= esc1(x));
        assert(escape_bytes(raw) + esc1(x) =~= esc1(x));
    } else {
        assert(raw.push(x)[0] == raw[0]);
        assert(raw.push(x).drop_first() =~= raw.drop_first().push(x));
        lemma_escape_push(raw.drop_first(), x);
        vstd::seq_lib::lemma_concat_associative(
            esc1(raw[0]),
            escape_bytes(raw.drop_first()),
            esc1(x),
        );
    }
}

/// Append the escaped UTF-8 bytes of a string.
fn push_escaped(out: &mut Vec<u8>, s: &String)
    ensures
        final(out)@ == old(out)@ + escape_bytes(encode_utf8(s@)),
{
    let bytes = s.as_str().as_bytes_vec();
    let ghost raw = bytes@;
    let mut i: usize = 0;
    proof {
        assert(raw.take(0) =~= Seq::<u8>::empty());
        assert(out@ + escape_bytes(raw.take(0)) =~= out@);
    }
    while i < bytes.len()
        invariant
            0 <= i <= raw.len(),
            raw == bytes@,
            out@ == old(out)@ + escape_bytes(raw.take(i as int)),
        decreases raw.len() - i,
    {
        let c = bytes[i];
        let ghost prev = out@;
        if c == 34 {
            out.push(92);
            out.push(34);
        } else if c == 92 {
            out.push(92);
            out.push(92);
        } else if c < 32 {
            out.push(92);
            out.push(117);
            out.push(48);
            out.push(48);
            out.push(if c / 16 < 10 {
                48 + c / 16
            } else {
                87 + c / 16
            });
            out.push(if c % 16 < 10 {
                48 + c % 16
            } else {
                87 + c % 16
            });
        } else {
            out.push(c);
        }
        proof {
            assert(out@ =~= prev + esc1(raw[i as int]));
            assert(raw.take(i + 1 as int) =~= raw.take(i as int).push(raw[i as int]));
            lemma_escape_push(raw.take(i as int), raw[i as int]);
            vstd::seq_lib::lemma_concat_associative(
                old(out)@,
                escape_bytes(raw.take(i as int)),
                esc1(raw[i as int]),
            );
        }
        i += 1;
    }
    proof {
        assert(raw.take(raw.len() as int) =~= raw);
    }
}

/// Relies on `String::from_utf8`: it accepts exactly the byte buffers
/// that are valid UTF-8, and decodes such a buffer to the sequence of
/// Unicode scalar values it encodes.
#[verifier::external_body]
fn string_from_utf8(bytes: Vec<u8>) -> (r: Option<String>)
    ensures
        match r {
            Some(s) => valid_utf8(bytes@) && s@ == decode_utf8(bytes@),
            None => !valid_utf8(bytes@),
        },
{
    match String::from_utf8(bytes) {
        Ok(s) => Some(s),
        Err(_) => None,
    }
}

/// A buffer of ASCII bytes is valid UTF-8 and decodes to the characters
/// with those codes.
proof fn lemma_ascii_utf8(bytes: Seq<u8>)
    requires
        forall|i: int| 0 <= i < bytes.len() ==> #[trigger] bytes[i] < 128,
    ensures
        valid_utf8(bytes),
        decode_utf8(bytes) == ascii_chars(bytes),
{
    let chars = ascii_chars(bytes);
    assert forall|i: int| 0 <= i < chars.len() implies '\0' <= #[trigger] chars[i] <= '\u{7f}' by {
        assert(bytes[i] < 128);
        assert(chars[i] == bytes[i] as char);
    }
    assert(vstd::utf8::is_ascii_chars(chars));
    vstd::utf8::is_ascii_chars_encode_utf8(chars);
    assert(encode_utf8(chars) =~= bytes);
    vstd::utf8::encode_utf8_valid_utf8(chars);
    vstd::utf8::encode_utf8_decode_utf8(chars);
}

/// The characters of a sequence of ASCII bytes.
pub open spec fn ascii_chars(b: Seq<u8>) -> Seq<char> {
    b.map_values(|x: u8| x as char)
}

/// The file name a record is persisted under: `{name}-{YYYY-MM-DD}.json`.
///
/// The name is derived from the record's `(name, date)` key alone, so
/// repeated writes for the same key overwrite the same file; that is what
/// makes rehydration idempotent.
pub open spec fn spec_file_name(v: RecordView) -> Seq<char> {
    v.name + seq!['-'] + ascii_chars(spec_date_bytes(v.date)) + seq!['.', 'j', 's', 'o', 'n']
}

/// Parse a complete `YYYY-MM-DD` string into a date.
///
/// The whole string must be exactly the ten-byte rendering of a valid
/// date; anything else is rejected.
pub fn parse_date_str(s: &str) -> (r: Option<Date>)
    ensures
        r == (match spec_parse_date(s.spec_bytes(), 0) {
            Some((d, e)) => if e == s.spec_bytes().len() {
                Some(d)
            } else {
                None::<Date>
            },
            None => None::<Date>,
        }),
{
    let b = s.as_bytes();
    match parse_date(b, 0) {
        Some((d, e)) => {
            if e == b.len() {
                Some(d)
            } else {
                None
            }
        },
        None => None,
    }
}

impl TestsuiteResult {
    /// Serialize the record into its canonical byte encoding.
    pub fn to_bytes(&self) -> (r: Vec<u8>)
        requires
            self.wf(),
        ensures
            r@ == spec_encode(self@),
    {
        let mut out: Vec<u8> = vec![123u8, 34, 110, 97, 109, 101, 34, 58, 34];
        proof {
            assert(out@ =~= lit_name());
        }
        push_escaped(&mut out, &self.name);
        out.push(34);
        let mut l: Vec<u8> = vec![44u8, 34, 99, 111, 109, 109, 105, 116, 34, 58, 34];
        proof {
            assert(l@ =~= lit_commit());
        }
        out.append(&mut l);
        push_escaped(&mut out, &self.commit);
        out.push(34);
        let mut l: Vec<u8> = vec![44u8, 34, 100, 97, 116, 101, 34, 58, 34];
        proof {
            assert(l@ =~= lit_date());
        }
        out.append(&mut l);
        push_date(&mut out, &self.date);
        let mut l: Vec<u8> = vec![
            34u8, 44, 34, 114, 101, 115, 117, 108, 116, 115, 34, 58, 123, 34, 116, 101, 115, 116,
            115, 34, 58,
        ];
        proof {
            assert(l@ =~= lit_results());
        }
        out.append(&mut l);
        push_digits(&mut out, self.results.tests);
        let mut l: Vec<u8> = vec![44u8, 34, 112, 97, 115, 115, 101, 115, 34, 58];
        proof {
            assert(l@ =~= lit_passes());
        }
        out.append(&mut l);
        push_digits(&mut out, self.results.passes);
        let mut l: Vec<u8> = vec![44u8, 34, 102, 97, 105, 108, 117, 114, 101, 115, 34, 58];
        proof {
            assert(l@ =~= lit_failures());
        }
        out.append(&mut l);
        push_digits(&mut out, self.results.failures);
        out.push(125);
        out.push(125);
        proof {
            assert(out@ =~= spec_encode(self@));
        }
        out
    }

    /// The file name this record is persisted under.
    pub fn file_name(&self) -> (r: String)
        requires
            self.wf(),
        ensures
            r@ == spec_file_name(self@),
    {
        let mut tail: Vec<u8> = Vec::new();
        tail.push(45);
        push_date(&mut tail, &self.date);
        tail.push(46);
        tail.push(106);
        tail.push(115);
        tail.push(111);
        tail.push(110);
        proof {
            assert forall|i: int| 0 <= i < tail@.len() implies #[trigger] tail@[i] < 128 by {
                if 1 <= i < 11 {
                    assert(tail@[i] == spec_date_bytes(self.date)[i - 1]);
                    lemma_date_bytes_ascii(self.date);
                }
            }
            lemma_ascii_utf8(tail@);
        }
        let tail_s = match string_from_utf8(tail) {
            Some(s) => s,
            None => {
                proof {
                    assert(false);
                }
                String::new()
            },
        };
        let mut out = self.name.clone();
        out.append(tail_s.as_str());
        proof {
            assert(out@ =~= spec_file_name(self@));
        }
        out
    }
}

/// Every byte of a date rendering is an ASCII dash or digit.
proof fn lemma_date_bytes_ascii(d: Date)
    ensures
        forall|k: int| 0 <= k < spec_date_bytes(d).len() ==> 45 <= #[trigger] spec_date_bytes(
            d,
        )[k] <= 57,
        spec_date_bytes(d).len() == 10,
{
    let db = spec_date_bytes(d);
    assert forall|k: int| 0 <= k < db.len() implies 45 <= #[trigger] db[k] <= 57 by {
        assert(db.len() == 10);
    }
}


/// Advance past JSON whitespace.
fn skip_ws_x(b: &[u8], pos: usize) -> (r: usize)
    requires
        pos <= b@.len(),
    ensures
        r as int == skip_ws(b@, pos as int),
        pos <= r <= b@.len(),
{
    let mut p = pos;
    while p < b.len() && (b[p] == 32 || b[p] == 9 || b[p] == 10 || b[p] == 13)
        invariant
            pos <= p <= b@.len(),
            skip_ws(b@, pos as int) == skip_ws(b@, p as int),
        decreases b@.len() - p,
    {
        p += 1;
    }
    p
}

/// The value of an ASCII hex digit.
fn hexv(c: u8) -> (r: Option<u8>)
    ensures
        match r {
            Some(v) => hex_val(c) == v as int && v < 16,
            None => hex_val(c) < 0,
        },
{
    if 48 <= c && c <= 57 {
        Some(c - 48)
    } else if 97 <= c && c <= 102 {
        Some(c - 87)
    } else if 65 <= c && c <= 70 {
        Some(c - 55)
    } else {
        None
    }
}

/// Append the UTF-8 bytes of a scalar value.
fn push_utf8(out: &mut Vec<u8>, u: u32)
    requires
        u < 0x110000,
    ensures
        final(out)@ == old(out)@ + utf8_bytes_of(u as int),
{
    if u < 0x80 {
        out.push(u as u8);
        proof {
            assert(out@ =~= old(out)@ + utf8_bytes_of(u as int));
        }
    } else if u < 0x800 {
        out.push((0xC0 + u / 0x40) as u8);
        out.push((0x80 + u % 0x40) as u8);
        proof {
            assert(out@ =~= old(out)@ + utf8_bytes_of(u as int));
        }
    } else if u < 0x10000 {
        out.push((0xE0 + u / 0x1000) as u8);
        out.push((0x80 + u / 0x40 % 0x40) as u8);
        out.push((0x80 + u % 0x40) as u8);
        proof {
            assert(out@ =~= old(out)@ + utf8_bytes_of(u as int));
        }
    } else {
        out.push((0xF0 + u / 0x40000) as u8);
        out.push((0x80 + u / 0x1000 % 0x40) as u8);
        out.push((0x80 + u / 0x40 % 0x40) as u8);
        out.push((0x80 + u % 0x40) as u8);
        proof {
            assert(out@ =~= old(out)@ + utf8_bytes_of(u as int));
        }
    }
}

/// Parse a JSON string body, starting after the opening quote.
fn parse_jstring(b: &[u8], pos: usize) -> (r: Option<(Vec<u8>, usize)>)
    ensures
        match r {
            Some((v, e)) => spec_parse_jstring(b@, pos as int) == Some((v@, e as int)) && pos < e
                <= b@.len(),
            None => spec_parse_jstring(b@, pos as int) is None,
        },
{
    let mut i = pos;
    let mut acc: Vec<u8> = Vec::new();
    loop
        invariant
            pos <= i,
            i <= b@.len() || i == pos,
            spec_parse_jstring(b@, pos as int) == (match spec_parse_jstring(b@, i as int) {
                Some((s, e)) => Some((acc@ + s, e)),
                None => None::<(Seq<u8>, int)>,
            }),
        decreases b@.len() - i,
    {
        if i >= b.len() {
            return None;
        }
        let c = b[i];
        if c == 34 {
            proof {
                assert(spec_parse_jstring(b@, i as int) == Some(
                    (Seq::<u8>::empty(), i + 1 as int),
                ));
                assert(acc@ + Seq::<u8>::empty() =~= acc@);
            }
            return Some((acc, i + 1));
        }
        if c == 92 {
            if i + 1 >= b.len() {
                return None;
            }
            let e1 = b[i + 1];
            if e1 == 117 {
                if b.len() - i <= 5 {
                    return None;
                }
                let h0 = match hexv(b[i + 2]) {
                    Some(v) => v,
                    None => {
                        return None;
                    },
                };
                let h1 = match hexv(b[i + 3]) {
                    Some(v) => v,
                    None => {
                        return None;
                    },
                };
                let h2 = match hexv(b[i + 4]) {
                    Some(v) => v,
                    None => {
                        return None;
                    },
                };
                let h3 = match hexv(b[i + 5]) {
                    Some(v) => v,
                    None => {
                        return None;
                    },
                };
                let code: u32 = (h0 as u32) * 4096 + (h1 as u32) * 256 + (h2 as u32) * 16
                    + h3 as u32;
                if 0xD800 <= code && code <= 0xDBFF {
                    if b.len() - i <= 11 {
                        return None;
                    }
                    if !(b[i + 6] == 92 && b[i + 7] == 117) {
                        return None;
                    }
                    let g0 = match hexv(b[i + 8]) {
                        Some(v) => v,
                        None => {
                            return None;
                        },
                    };
                    let g1 = match hexv(b[i + 9]) {
                        Some(v) => v,
                        None => {
                            return None;
                        },
                    };
                    let g2 = match hexv(b[i + 10]) {
                        Some(v) => v,
                        None => {
                            return None;
                        },
                    };
                    let g3 = match hexv(b[i + 11]) {
                        Some(v) => v,
                        None => {
                            return None;
                        },
                    };
                    let code2: u32 = (g0 as u32) * 4096 + (g1 as u32) * 256 + (g2 as u32) * 16
                        + g3 as u32;
                    if !(0xDC00 <= code2 && code2 <= 0xDFFF) {
                        return None;
                    }
                    let scalar: u32 = 0x10000 + (code - 0xD800) * 0x400 + (code2 - 0xDC00);
                    let ghost prev = acc@;
                    push_utf8(&mut acc, scalar);
                    proof {
                        if spec_parse_jstring(b@, i + 12 as int) is Some {
                            let rest = spec_parse_jstring(b@, i + 12 as int)->Some_0.0;
                            vstd::seq_lib::lemma_concat_associative(
                                prev,
                                utf8_bytes_of(scalar as int),
                                rest,
                            );
                        }
                    }
                    i += 12;
                } else if 0xDC00 <= code && code <= 0xDFFF {
                    return None;
                } else {
                    let ghost prev = acc@;
                    push_utf8(&mut acc, code);
                    proof {
                        if spec_parse_jstring(b@, i + 6 as int) is Some {
                            let rest = spec_parse_jstring(b@, i + 6 as int)->Some_0.0;
                            vstd::seq_lib::lemma_concat_associative(
                                prev,
                                utf8_bytes_of(code as int),
                                rest,
                            );
                        }
                    }
                    i += 6;
                }
            } else {
                let un: u8 = if e1 == 34 {
                    34
                } else if e1 == 92 {
                    92
                } else if e1 == 47 {
                    47
                } else if e1 == 98 {
                    8
                } else if e1 == 102 {
                    12
                } else if e1 == 110 {
                    10
                } else if e1 == 114 {
                    13
                } else if e1 == 116 {
                    9
                } else {
                    return None;
                };
                let ghost prev = acc@;
                acc.push(un);
                proof {
                    assert(acc@ =~= prev + seq![un]);
                    if spec_parse_jstring(b@, i + 2 as int) is Some {
                        let rest = spec_parse_jstring(b@, i + 2 as int)->Some_0.0;
                        vstd::seq_lib::lemma_concat_associative(prev, seq![un], rest);
                    }
                }
                i += 2;
            }
        } else if c < 32 {
            return None;
        } else {
            let ghost prev = acc@;
            acc.push(c);
            proof {
                assert(acc@ =~= prev + seq![c]);
                if spec_parse_jstring(b@, i + 1 as int) is Some {
                    let rest = spec_parse_jstring(b@, i + 1 as int)->Some_0.0;
                    vstd::seq_lib::lemma_concat_associative(prev, seq![c], rest);
                }
            }
            i += 1;
        }
    }
}

/// Parse a JSON `u64` number.
fn parse_u64(b: &[u8], pos: usize) -> (r: Option<(u64, usize)>)
    ensures
        spec_parse_u64(b@, pos as int) == (match r {
            Some((n, e)) => Some((n, e as int)),
            None => None::<(u64, int)>,
        }),
        r matches Some((n, e)) ==> pos < e <= b@.len(),
{
    if pos >= b.len() || !(48 <= b[pos] && b[pos] <= 57) {
        return None;
    }
    if b[pos] == 48 && pos + 1 < b.len() && 48 <= b[pos + 1] && b[pos + 1] <= 57 {
        return None;
    }
    let mut i = pos;
    let mut acc: u64 = 0;
    loop
        invariant
            pos <= i <= b@.len(),
            pos < b@.len() && is_digit(b@[pos as int]),
            i == pos ==> is_digit(b@[i as int]),
            spec_parse_u64_rec(b@, pos as int, 0) == spec_parse_u64_rec(b@, i as int, acc),
            spec_parse_u64(b@, pos as int) == spec_parse_u64_rec(b@, pos as int, 0),
        decreases b@.len() - i,
    {
        if i >= b.len() {
            return Some((acc, i));
        }
        let c = b[i];
        if !(48 <= c && c <= 57) {
            return Some((acc, i));
        }
        let d = (c - 48) as u64;
        if acc > (u64::MAX - d) / 10 {
            return None;
        }
        acc = acc * 10 + d;
        i += 1;
    }
}

/// Parse the ten bytes `YYYY-MM-DD` of a valid date.
fn parse_date(b: &[u8], pos: usize) -> (r: Option<(Date, usize)>)
    ensures
        spec_parse_date(b@, pos as int) == (match r {
            Some((d, e)) => Some((d, e as int)),
            None => None::<(Date, int)>,
        }),
        r matches Some((d, e)) ==> pos < e <= b@.len() && d.valid(),
{
    if b.len() < 10 || pos > b.len() - 10 {
        return None;
    }
    let d0 = b[pos];
    let d1 = b[pos + 1];
    let d2 = b[pos + 2];
    let d3 = b[pos + 3];
    let sep1 = b[pos + 4];
    let m0 = b[pos + 5];
    let m1 = b[pos + 6];
    let sep2 = b[pos + 7];
    let day0 = b[pos + 8];
    let day1 = b[pos + 9];
    if !(48 <= d0 && d0 <= 57 && 48 <= d1 && d1 <= 57 && 48 <= d2 && d2 <= 57 && 48 <= d3 && d3
        <= 57 && sep1 == 45 && 48 <= m0 && m0 <= 57 && 48 <= m1 && m1 <= 57 && sep2 == 45 && 48
        <= day0 && day0 <= 57 && 48 <= day1 && day1 <= 57) {
        return None;
    }
    let y = (d0 - 48) as u16 * 1000 + (d1 - 48) as u16 * 100 + (d2 - 48) as u16 * 10 + (d3
        - 48) as u16;
    let m = (m0 - 48) * 10 + (m1 - 48);
    let d = (day0 - 48) * 10 + (day1 - 48);
    let date = Date { year: y, month: m, day: d };
    if !(1 <= y && 1 <= m && m <= 12 && 1 <= d && d <= crate::date::days_in_month(y, m)) {
        return None;
    }
    Some((date, pos + 10))
}

/// Whether two byte buffers hold the same bytes.
fn bytes_is(v: &Vec<u8>, w: &Vec<u8>) -> (r: bool)
    ensures
        r == (v@ == w@),
{
    if v.len() != w.len() {
        proof {
            assert(v@ != w@);
        }
        return false;
    }
    let mut i: usize = 0;
    while i < v.len()
        invariant
            v@.len() == w@.len(),
            0 <= i <= v@.len(),
            forall|k: int| 0 <= k < i ==> v@[k] == w@[k],
        decreases v@.len() - i,
    {
        if v[i] != w[i] {
            proof {
                assert(v@[i as int] != w@[i as int]);
            }
            return false;
        }
        i += 1;
    }
    proof {
        assert(v@ =~= w@);
    }
    true
}

/// Parse a `results` value: an object holding the three counters once
/// each, in any order.
fn parse_results(b: &[u8], pos: usize) -> (r: Option<(RunResults, usize)>)
    requires
        pos <= b@.len(),
    ensures
        spec_parse_results(b@, pos as int) == (match r {
            Some((rr, e)) => Some((rr, e as int)),
            None => None::<(RunResults, int)>,
        }),
        r matches Some((rr, e)) ==> pos < e <= b@.len(),
{
    if pos >= b.len() || b[pos] != 123 {
        return None;
    }
    let kt: Vec<u8> = vec![116u8, 101, 115, 116, 115];
    let kp: Vec<u8> = vec![112u8, 97, 115, 115, 101, 115];
    let kf: Vec<u8> = vec![102u8, 97, 105, 108, 117, 114, 101, 115];
    proof {
        assert(kt@ =~= key_tests());
        assert(kp@ =~= key_passes());
        assert(kf@ =~= key_failures());
    }
    let mut i = pos + 1;
    let mut t: Option<u64> = None;
    let mut p: Option<u64> = None;
    let mut f: Option<u64> = None;
    loop
        invariant
            pos < i <= b@.len(),
            pos < b@.len(),
            b@[pos as int] == 123,
            kt@ == key_tests(),
            kp@ == key_passes(),
            kf@ == key_failures(),
            spec_parse_results_members(b@, pos + 1 as int, empty_results_acc())
                == spec_parse_results_members(
                b@,
                i as int,
                PartialResults { tests: t, passes: p, failures: f },
            ),
        decreases b@.len() - i,
    {
        let ghost acc = PartialResults { tests: t, passes: p, failures: f };
        let p1 = skip_ws_x(b, i);
        if p1 >= b.len() || b[p1] != 34 {
            proof {
                assert(spec_parse_results_members(b@, i as int, acc) is None) by {
                    reveal(spec_parse_results_members);
                }
            }
            return None;
        }
        let (key, p2) = match parse_jstring(b, p1 + 1) {
            Some(x) => x,
            None => {
                proof {
                    assert(spec_parse_results_members(b@, i as int, acc) is None) by {
                        reveal(spec_parse_results_members);
                    }
                }
                return None;
            },
        };
        let p3 = skip_ws_x(b, p2);
        if p3 >= b.len() || b[p3] != 58 {
            proof {
                assert(spec_parse_results_members(b@, i as int, acc) is None) by {
                    reveal(spec_parse_results_members);
                }
            }
            return None;
        }
        let p4 = skip_ws_x(b, p3 + 1);
        let (n, p5) = match parse_u64(b, p4) {
            Some(x) => x,
            None => {
                proof {
                    assert(spec_parse_results_members(b@, i as int, acc) is None) by {
                        reveal(spec_parse_results_members);
                    }
                }
                return None;
            },
        };
        if bytes_is(&key, &kt) {
            if t.is_some() {
                proof {
                    assert(spec_parse_results_members(b@, i as int, acc) is None) by {
                        reveal(spec_parse_results_members);
                    }
                }
                return None;
            }
            t = Some(n);
        } else if bytes_is(&key, &kp) {
            if p.is_some() {
                proof {
                    assert(spec_parse_results_members(b@, i as int, acc) is None) by {
                        reveal(spec_parse_results_members);
                    }
                }
                return None;
            }
            p = Some(n);
        } else if bytes_is(&key, &kf) {
            if f.is_some() {
                proof {
                    assert(spec_parse_results_members(b@, i as int, acc) is None) by {
                        reveal(spec_parse_results_members);
                    }
                }
                return None;
            }
            f = Some(n);
        } else {
            proof {
                assert(key@ != key_tests() && key@ != key_passes() && key@ != key_failures());
            }
            proof {
                assert(spec_parse_results_members(b@, i as int, acc) is None) by {
                    reveal(spec_parse_results_members);
                }
            }
            return None;
        }
        let p6 = skip_ws_x(b, p5);
        if p6 < b.len() && b[p6] == 44 {
            proof {
                assert(spec_parse_results_members(b@, i as int, acc)
                    == spec_parse_results_members(
                    b@,
                    p6 + 1 as int,
                    PartialResults { tests: t, passes: p, failures: f },
                )) by {
                    reveal(spec_parse_results_members);
                }
            }
            i = p6 + 1;
        } else if p6 < b.len() && b[p6] == 125 {
            match (t, p, f) {
                (Some(tv), Some(pv), Some(fv)) => {
                    let rr = RunResults { tests: tv, passes: pv, failures: fv };
                    proof {
                        assert(spec_parse_results_members(b@, i as int, acc) == Some(
                            (rr, p6 + 1 as int),
                        )) by {
                            reveal(spec_parse_results_members);
                        }
                    }
                    return Some((rr, p6 + 1));
                },
                _ => {
                    proof {
                        assert(spec_parse_results_members(b@, i as int, acc) is None) by {
                            reveal(spec_parse_results_members);
                        }
                    }
                    return None;
                },
            }
        } else {
            proof {
                assert(spec_parse_results_members(b@, i as int, acc) is None) by {
                    reveal(spec_parse_results_members);
                }
            }
            return None;
        }
    }
}

impl TestsuiteResult {
    /// Validate a payload: parse it as a JSON record.
    ///
    /// Returns `Validation` for a payload of any other shape.
    #[verifier::rlimit(100)]
    pub fn from_bytes(bytes: &[u8]) -> (r: Result<TestsuiteResult, Error>)
        ensures
            match r {
                Ok(rec) => spec_parse_record(bytes@) == Some(rec@) && rec.wf(),
                Err(e) => spec_parse_record(bytes@) is None && e == Error::Validation,
            },
    {
        let p0 = skip_ws_x(bytes, 0);
        if p0 >= bytes.len() || bytes[p0] != 123 {
            return Err(Error::Validation);
        }
        let kn: Vec<u8> = vec![110u8, 97, 109, 101];
        let kc: Vec<u8> = vec![99u8, 111, 109, 109, 105, 116];
        let kd: Vec<u8> = vec![100u8, 97, 116, 101];
        let kr: Vec<u8> = vec![114u8, 101, 115, 117, 108, 116, 115];
        proof {
            assert(kn@ =~= key_name());
            assert(kc@ =~= key_commit());
            assert(kd@ =~= key_date());
            assert(kr@ =~= key_results());
        }
        let mut i = p0 + 1;
        let mut name: Option<Vec<u8>> = None;
        let mut commit: Option<Vec<u8>> = None;
        let mut datev: Option<Date> = None;
        let mut results: Option<RunResults> = None;
        let mut end: usize = 0;
        loop
            invariant_except_break
                p0 < i <= bytes@.len(),
                spec_parse_record_members(bytes@, p0 + 1 as int, empty_record_acc())
                    == spec_parse_record_members(bytes@, i as int, record_acc_of(name, commit, datev, results)),
            invariant
                p0 as int == skip_ws(bytes@, 0),
                p0 < bytes@.len(),
                bytes@[p0 as int] == 123,
                kn@ == key_name(),
                kc@ == key_commit(),
                kd@ == key_date(),
                kr@ == key_results(),
                datev matches Some(d) ==> d.valid(),
            ensures
                end <= bytes@.len(),
                spec_parse_record_members(bytes@, p0 + 1 as int, empty_record_acc()) == Some(
                    (record_acc_of(name, commit, datev, results), end as int),
                ),
            decreases bytes@.len() - i,
        {
            let ghost acc = record_acc_of(name, commit, datev, results);
            let p1 = skip_ws_x(bytes, i);
            if p1 >= bytes.len() || bytes[p1] != 34 {
                proof {
                    assert(spec_parse_record_members(bytes@, i as int, acc) is None) by {
                        reveal(spec_parse_record_members);
                    }
                }
                return Err(Error::Validation);
            }
            let (key, p2) = match parse_jstring(bytes, p1 + 1) {
                Some(x) => x,
                None => {
                    proof {
                        assert(spec_parse_record_members(bytes@, i as int, acc) is None) by {
                            reveal(spec_parse_record_members);
                        }
                    }
                    return Err(Error::Validation);
                },
            };
            let p3 = skip_ws_x(bytes, p2);
            if p3 >= bytes.len() || bytes[p3] != 58 {
                proof {
                    assert(spec_parse_record_members(bytes@, i as int, acc) is None) by {
                        reveal(spec_parse_record_members);
                    }
                }
                return Err(Error::Validation);
            }
            let p4 = skip_ws_x(bytes, p3 + 1);
            let p5: usize;
            if bytes_is(&key, &kn) {
                if name.is_some() {
                    proof {
                        assert(spec_parse_record_members(bytes@, i as int, acc) is None) by {
                            reveal(spec_parse_record_members);
                        }
                    }
                    return Err(Error::Validation);
                }
                if p4 >= bytes.len() || bytes[p4] != 34 {
                    proof {
                        assert(spec_parse_record_members(bytes@, i as int, acc) is None) by {
                            reveal(spec_parse_record_members);
                        }
                    }
                    return Err(Error::Validation);
                }
                let (s, q) = match parse_jstring(bytes, p4 + 1) {
                    Some(x) => x,
                    None => {
                        proof {
                            assert(spec_parse_record_members(bytes@, i as int, acc) is None) by {
                                reveal(spec_parse_record_members);
                            }
                        }
                        return Err(Error::Validation);
                    },
                };
                name = Some(s);
                p5 = q;
            } else if bytes_is(&key, &kc) {
                if commit.is_some() {
                    proof {
                        assert(spec_parse_record_members(bytes@, i as int, acc) is None) by {
                            reveal(spec_parse_record_members);
                        }
                    }
                    return Err(Error::Validation);
                }
                if p4 >= bytes.len() || bytes[p4] != 34 {
                    proof {
                        assert(spec_parse_record_members(bytes@, i as int, acc) is None) by {
                            reveal(spec_parse_record_members);
                        }
                    }
                    return Err(Error::Validation);
                }
                let (s, q) = match parse_jstring(bytes, p4 + 1) {
                    Some(x) => x,
                    None => {
                        proof {
                            assert(spec_parse_record_members(bytes@, i as int, acc) is None) by {
                                reveal(spec_parse_record_members);
                            }
                        }
                        return Err(Error::Validation);
                    },
                };
                commit = Some(s);
                p5 = q;
            } else if bytes_is(&key, &kd) {
                if datev.is_some() {
                    proof {
                        assert(spec_parse_record_members(bytes@, i as int, acc) is None) by {
                            reveal(spec_parse_record_members);
                        }
                    }
                    return Err(Error::Validation);
                }
                if p4 >= bytes.len() || bytes[p4] != 34 {
                    proof {
                        assert(spec_parse_record_members(bytes@, i as int, acc) is None) by {
                            reveal(spec_parse_record_members);
                        }
                    }
                    return Err(Error::Validation);
                }
                let (s, q) = match parse_jstring(bytes, p4 + 1) {
                    Some(x) => x,
                    None => {
                        proof {
                            assert(spec_parse_record_members(bytes@, i as int, acc) is None) by {
                                reveal(spec_parse_record_members);
                            }
                        }
                        return Err(Error::Validation);
                    },
                };
                if s.len() != 10 {
                    proof {
                        assert(spec_parse_record_members(bytes@, i as int, acc) is None) by {
                            reveal(spec_parse_record_members);
                        }
                    }
                    return Err(Error::Validation);
                }
                let d = match parse_date(s.as_slice(), 0) {
                    Some((d, _e)) => d,
                    None => {
                        proof {
                            assert(spec_parse_record_members(bytes@, i as int, acc) is None) by {
                                reveal(spec_parse_record_members);
                            }
                        }
                        return Err(Error::Validation);
                    },
                };
                datev = Some(d);
                p5 = q;
            } else if bytes_is(&key, &kr) {
                if results.is_some() {
                    proof {
                        assert(spec_parse_record_members(bytes@, i as int, acc) is None) by {
                            reveal(spec_parse_record_members);
                        }
                    }
                    return Err(Error::Validation);
                }
                let (rr, q) = match parse_results(bytes, p4) {
                    Some(x) => x,
                    None => {
                        proof {
                            assert(spec_parse_record_members(bytes@, i as int, acc) is None) by {
                                reveal(spec_parse_record_members);
                            }
                        }
                        return Err(Error::Validation);
                    },
                };
                results = Some(rr);
                p5 = q;
            } else {
                proof {
                    assert(key@ != key_name() && key@ != key_commit() && key@ != key_date()
                        && key@ != key_results());
                }
                proof {
                    assert(spec_parse_record_members(bytes@, i as int, acc) is None) by {
                        reveal(spec_parse_record_members);
                    }
                }
                return Err(Error::Validation);
            }
            let p6 = skip_ws_x(bytes, p5);
            if p6 < bytes.len() && bytes[p6] == 44 {
                proof {
                    assert(spec_parse_record_members(bytes@, i as int, acc)
                        == spec_parse_record_members(
                        bytes@,
                        p6 + 1 as int,
                        record_acc_of(name, commit, datev, results),
                    )) by {
                        reveal(spec_parse_record_members);
                    }
                }
                i = p6 + 1;
            } else if p6 < bytes.len() && bytes[p6] == 125 {
                proof {
                    assert(spec_parse_record_members(bytes@, i as int, acc) == Some(
                        (record_acc_of(name, commit, datev, results), p6 + 1 as int),
                    )) by {
                        reveal(spec_parse_record_members);
                    }
                }
                end = p6 + 1;
                break;
            } else {
                proof {
                    assert(spec_parse_record_members(bytes@, i as int, acc) is None) by {
                        reveal(spec_parse_record_members);
                    }
                }
                return Err(Error::Validation);
            }
        }
        let p7 = skip_ws_x(bytes, end);
        if p7 != bytes.len() {
            return Err(Error::Validation);
        }
        let nb = match name {
            Some(v) => v,
            None => {
                return Err(Error::Validation);
            },
        };
        let cb = match commit {
            Some(v) => v,
            None => {
                return Err(Error::Validation);
            },
        };
        let d = match datev {
            Some(v) => v,
            None => {
                return Err(Error::Validation);
            },
        };
        let rr = match results {
            Some(v) => v,
            None => {
                return Err(Error::Validation);
            },
        };
        let name_s = match string_from_utf8(nb) {
            Some(s) => s,
            None => {
                return Err(Error::Validation);
            },
        };
        let commit_s = match string_from_utf8(cb) {
            Some(s) => s,
            None => {
                return Err(Error::Validation);
            },
        };
        if name_s.as_str().is_empty() {
            return Err(Error::Validation);
        }
        let rec = TestsuiteResult { name: name_s, commit: commit_s, date: d, results: rr };
        proof {
            assert(spec_parse_record(bytes@) == Some(rec@));
        }
        Ok(rec)
    }
}

/// The spec image of the exec member slots.
pub open spec fn record_acc_of(
    name: Option<Vec<u8>>,
    commit: Option<Vec<u8>>,
    date: Option<Date>,
    results: Option<RunResults>,
) -> PartialRecord {
    PartialRecord {
        name: match name {
            Some(v) => Some(v@),
            None => None,
        },
        commit: match commit {
            Some(v) => Some(v@),
            None => None,
        },
        date,
        results,
    }
}


/// Ten to the power `k`.
pub open spec fn pow10(k: nat) -> int
    decreases k,
{
    if k == 0 {
        1
    } else {
        10 * pow10((k - 1) as nat)
    }
}

/// Every byte of the sequence is a decimal digit.
pub open spec fn all_digits(ds: Seq<u8>) -> bool {
    forall|i: int| 0 <= i < ds.len() ==> is_digit(#[trigger] ds[i])
}

/// The number denoted by a digit sequence, most significant digit first.
pub open spec fn seq_value(ds: Seq<u8>) -> int
    decreases ds.len(),
{
    if ds.len() == 0 {
        0
    } else {
        seq_value(ds.drop_last()) * 10 + (ds.last() - 48)
    }
}

proof fn lemma_pow10_pos(k: nat)
    ensures
        pow10(k) >= 1,
    decreases k,
{
    if k > 0 {
        lemma_pow10_pos((k - 1) as nat);
    }
}

proof fn lemma_seq_value_nonneg(ds: Seq<u8>)
    requires
        all_digits(ds),
    ensures
        seq_value(ds) >= 0,
    decreases ds.len(),
{
    if ds.len() > 0 {
        assert(all_digits(ds.drop_last()));
        lemma_seq_value_nonneg(ds.drop_last());
        assert(is_digit(ds.last()));
    }
}

/// Peel the most significant digit off `seq_value`.
proof fn lemma_seq_value_left(ds: Seq<u8>)
    requires
        ds.len() > 0,
        all_digits(ds),
    ensures
        seq_value(ds) == (ds[0] - 48) * pow10((ds.len() - 1) as nat) + seq_value(ds.drop_first()),
    decreases ds.len(),
{
    if ds.len() == 1 {
        assert(ds.drop_last() =~= Seq::<u8>::empty());
        assert(ds.drop_first() =~= Seq::<u8>::empty());
        assert(seq_value(Seq::<u8>::empty()) == 0);
        assert(seq_value(ds) == ds[0] - 48);
        assert(pow10(0) == 1);
    } else {
        let pre = ds.drop_last();
        assert(all_digits(pre));
        lemma_seq_value_left(pre);
        assert(ds.drop_first().drop_last() =~= pre.drop_first());
        assert(ds.drop_first().last() == ds.last());
        let a = (ds[0] - 48) as int;
        let p = pow10((ds.len() - 2) as nat);
        assert(pow10((ds.len() - 1) as nat) == 10 * p);
        assert((a * p) * 10 == a * (10 * p)) by (nonlinear_arith);
        assert(seq_value(ds) == seq_value(pre) * 10 + (ds.last() - 48));
        assert(seq_value(pre) == a * p + seq_value(pre.drop_first()));
        assert((a * p + seq_value(pre.drop_first())) * 10 == (a * p) * 10 + seq_value(
            pre.drop_first(),
        ) * 10) by (nonlinear_arith);
        assert(seq_value(ds.drop_first()) == seq_value(pre.drop_first()) * 10 + (ds.last() - 48));
        assert(pre[0] == ds[0]);
        assert(pre.len() == ds.len() - 1);
        assert(seq_value(pre) == a * p + seq_value(pre.drop_first()));
        assert(seq_value(ds) == (a * p + seq_value(pre.drop_first())) * 10 + (ds.last() - 48));
        assert(seq_value(ds) == a * (10 * p) + (seq_value(pre.drop_first()) * 10 + (ds.last()
            - 48)));
    }
}

proof fn lemma_digits_wf(n: u64)
    ensures
        all_digits(spec_digits(n)),
        spec_digits(n).len() >= 1,
        n >= 1 ==> spec_digits(n)[0] != 48,
        n == 0 ==> spec_digits(n) == seq![48u8],
    decreases n,
{
    if n >= 10 {
        lemma_digits_wf(n / 10);
        assert(spec_digits(n)[0] == spec_digits(n / 10)[0]);
    }
    if n == 0 {
        assert(spec_digits(0) =~= seq![48u8]);
    }
}

proof fn lemma_digits_value(n: u64)
    ensures
        seq_value(spec_digits(n)) == n,
    decreases n,
{
    if n < 10 {
        assert(spec_digits(n).drop_last() =~= Seq::<u8>::empty());
        assert(seq_value(Seq::<u8>::empty()) == 0);
        assert(spec_digits(n).last() == (n + 48) as u8);
    } else {
        lemma_digits_value(n / 10);
        let ds = spec_digits(n);
        assert(ds.drop_last() =~= spec_digits(n / 10));
        assert(ds.last() == (n % 10 + 48) as u8);
        assert(seq_value(ds) == seq_value(spec_digits(n / 10)) * 10 + (n % 10));
        assert(n / 10 * 10 + n % 10 == n);
    }
}

/// Parsing a run of digits laid down in a buffer yields their value,
/// scaled into whatever the accumulator already holds.
proof fn lemma_parse_u64_rec_concat(b: Seq<u8>, pos: int, ds: Seq<u8>, acc: u64)
    requires
        0 <= pos,
        pos + ds.len() <= b.len(),
        b.subrange(pos, pos + ds.len() as int) == ds,
        all_digits(ds),
        pos + ds.len() == b.len() || !is_digit(b[pos + ds.len()]),
        acc * pow10(ds.len() as nat) + seq_value(ds) <= u64::MAX,
    ensures
        spec_parse_u64_rec(b, pos, acc) == Some(
            ((acc * pow10(ds.len() as nat) + seq_value(ds)) as u64, pos + ds.len() as int),
        ),
    decreases ds.len(),
{
    lemma_seq_value_nonneg(ds);
    if ds.len() == 0 {
        assert(acc * pow10(0) == acc * 1);
    } else {
        let ln = ds.len() as int;
        assert(b[pos] == ds[0]) by {
            assert(b.subrange(pos, pos + ln)[0] == b[pos]);
        }
        let d = (ds[0] - 48) as u64;
        let p = pow10((ds.len() - 1) as nat);
        lemma_pow10_pos((ds.len() - 1) as nat);
        lemma_seq_value_left(ds);
        assert(all_digits(ds.drop_first()));
        lemma_seq_value_nonneg(ds.drop_first());
        let rest = seq_value(ds.drop_first());
        assert(pow10(ds.len() as nat) == 10 * p);
        assert((acc * 10 + d) * p == acc * (10 * p) + d * p) by (nonlinear_arith);
        assert(acc * (10 * p) + d * p + rest <= u64::MAX);
        assert(acc * 10 + d <= (acc * 10 + d) * p) by (nonlinear_arith)
            requires
                p >= 1,
                acc >= 0,
                d >= 0,
        ;
        assert(acc * 10 + d <= u64::MAX);
        // the overflow guard in the spec therefore passes
        assert(10 * ((u64::MAX - d) / 10) + (u64::MAX - d) % 10 == u64::MAX - d)
            by (nonlinear_arith);
        assert(!(acc > (u64::MAX - d) / 10));
        let acc2 = (acc * 10 + d) as u64;
        assert(b.subrange(pos + 1, pos + ln) =~= ds.drop_first());
        lemma_parse_u64_rec_concat(b, pos + 1, ds.drop_first(), acc2);
        assert(acc2 * p + rest == acc * pow10(ds.len() as nat) + seq_value(ds)) by {
            assert((acc * 10 + d) * p == acc * (10 * p) + d * p) by (nonlinear_arith);
        }
    }
}

/// Parsing a number the encoder laid down yields the encoded value.
proof fn lemma_parse_u64_concat(pre: Seq<u8>, n: u64, suf: Seq<u8>)
    requires
        suf.len() == 0 || !is_digit(suf[0]),
    ensures
        spec_parse_u64(pre + spec_digits(n) + suf, pre.len() as int) == Some(
            (n, pre.len() + spec_digits(n).len() as int),
        ),
{
    let ds = spec_digits(n);
    let b = pre + ds + suf;
    let pos = pre.len() as int;
    lemma_digits_wf(n);
    lemma_digits_value(n);
    assert(b.subrange(pos, pos + ds.len() as int) =~= ds);
    assert(b[pos] == ds[0]);
    if suf.len() == 0 {
        assert(pos + ds.len() == b.len());
    } else {
        assert(b[pos + ds.len()] == suf[0]);
    }
    // the leading-zero rule never fires on a canonical rendering
    if n == 0 {
        assert(ds.len() == 1);
        assert(!(pos + 1 < b.len() && is_digit(b[pos + 1])));
    } else {
        assert(b[pos] != 48);
    }
    assert(0 * pow10(ds.len() as nat) == 0) by (nonlinear_arith);
    lemma_parse_u64_rec_concat(b, pos, ds, 0);
}

/// Parsing a date the encoder laid down yields the encoded date.
proof fn lemma_parse_date_concat(pre: Seq<u8>, d: Date, suf: Seq<u8>)
    requires
        d.valid(),
    ensures
        spec_parse_date(pre + spec_date_bytes(d) + suf, pre.len() as int) == Some(
            (d, pre.len() as int + 10),
        ),
{
    let b = pre + spec_date_bytes(d) + suf;
    let pos = pre.len() as int;
    let db = spec_date_bytes(d);
    assert(db.len() == 10);
    assert forall|k: int| 0 <= k < 10 implies b[pos + k] == db[k] by {}
    let y = d.year as int;
    let m = d.month as int;
    let dd = d.day as int;
    vstd::arithmetic::div_mod::lemma_fundamental_div_mod(y, 10);
    vstd::arithmetic::div_mod::lemma_fundamental_div_mod(y / 10, 10);
    vstd::arithmetic::div_mod::lemma_fundamental_div_mod(y / 100, 10);
    vstd::arithmetic::div_mod::lemma_div_denominator(y, 10, 10);
    vstd::arithmetic::div_mod::lemma_div_denominator(y, 100, 10);
    assert(y / 10 / 10 == y / 100);
    assert(y / 100 / 10 == y / 1000);
    assert(y / 1000 <= 9) by {
        vstd::arithmetic::div_mod::lemma_fundamental_div_mod(y, 1000);
        if y / 1000 >= 10 {
            assert(1000 * (y / 1000) >= 10000) by (nonlinear_arith)
                requires
                    y / 1000 >= 10,
            ;
        }
    }
    assert(y / 1000 % 10 == y / 1000) by {
        vstd::arithmetic::div_mod::lemma_small_mod((y / 1000) as nat, 10);
    }
    assert((y / 1000 % 10) * 1000 + (y / 100 % 10) * 100 + (y / 10 % 10) * 10 + y % 10 == y);
    vstd::arithmetic::div_mod::lemma_fundamental_div_mod(m, 10);
    assert(m / 10 <= 1) by {
        if m / 10 >= 2 {
            assert(10 * (m / 10) >= 20) by (nonlinear_arith)
                requires
                    m / 10 >= 2,
            ;
        }
    }
    assert(m / 10 % 10 == m / 10) by {
        vstd::arithmetic::div_mod::lemma_small_mod((m / 10) as nat, 10);
    }
    assert((m / 10 % 10) * 10 + m % 10 == m);
    vstd::arithmetic::div_mod::lemma_fundamental_div_mod(dd, 10);
    assert(dd / 10 <= 3) by {
        if dd / 10 >= 4 {
            assert(10 * (dd / 10) >= 40) by (nonlinear_arith)
                requires
                    dd / 10 >= 4,
            ;
        }
    }
    assert(dd / 10 % 10 == dd / 10) by {
        vstd::arithmetic::div_mod::lemma_small_mod((dd / 10) as nat, 10);
    }
    assert((dd / 10 % 10) * 10 + dd % 10 == dd);
}

/// Bytes that need no escaping pass through the encoder unchanged.
proof fn lemma_escape_plain(raw: Seq<u8>)
    requires
        forall|i: int| 0 <= i < raw.len() ==> 32 <= #[trigger] raw[i] && raw[i] != 34 && raw[i]
            != 92,
    ensures
        escape_bytes(raw) == raw,
    decreases raw.len(),
{
    if raw.len() > 0 {
        assert(32 <= raw[0] && raw[0] != 34 && raw[0] != 92);
        assert(esc1(raw[0]) =~= seq![raw[0]]);
        lemma_escape_plain(raw.drop_first());
        assert(seq![raw[0]] + raw.drop_first() =~= raw);
    } else {
        assert(escape_bytes(raw) =~= raw);
    }
}

/// Parsing a string the encoder laid down yields the encoded content.
proof fn lemma_parse_jstring_escaped(pre: Seq<u8>, raw: Seq<u8>, suf: Seq<u8>)
    ensures
        spec_parse_jstring(pre + escape_bytes(raw) + seq![34u8] + suf, pre.len() as int) == Some(
            (raw, pre.len() + escape_bytes(raw).len() as int + 1),
        ),
    decreases raw.len(),
{
    let b = pre + escape_bytes(raw) + seq![34u8] + suf;
    let pos = pre.len() as int;
    if raw.len() == 0 {
        assert(escape_bytes(raw) =~= Seq::<u8>::empty());
        assert(b[pos] == 34);
        assert(raw =~= Seq::<u8>::empty());
    } else {
        let c = raw[0];
        let e = esc1(c);
        let pre2 = pre + e;
        let rest = raw.drop_first();
        assert(escape_bytes(raw) == e + escape_bytes(rest));
        assert(pre2 + escape_bytes(rest) + seq![34u8] + suf =~= b);
        lemma_parse_jstring_escaped(pre2, rest, suf);
        assert(b[pos] == e[0]);
        if c == 34 {
            assert(b[pos] == 92 && b[pos + 1] == 34);
            assert(seq![34u8] + rest =~= raw);
        } else if c == 92 {
            assert(b[pos] == 92 && b[pos + 1] == 92);
            assert(seq![92u8] + rest =~= raw);
        } else if c < 32 {
            assert(b[pos] == 92 && b[pos + 1] == 117 && b[pos + 2] == 48 && b[pos + 3] == 48);
            assert(b[pos + 4] == hex_digit(c as int / 16) && b[pos + 5] == hex_digit(c as int % 16));
            vstd::arithmetic::div_mod::lemma_fundamental_div_mod(c as int, 16);
            assert(c / 16 < 2) by {
                if c / 16 >= 2 {
                    assert(16 * (c as int / 16) >= 32) by (nonlinear_arith)
                        requires
                            c as int / 16 >= 2,
                    ;
                }
            }
            assert(hex_val(hex_digit(c as int / 16)) == c as int / 16);
            assert(hex_val(hex_digit(c as int % 16)) == c as int % 16);
            let code = hex_val(b[pos + 2]) * 4096 + hex_val(b[pos + 3]) * 256 + hex_val(
                b[pos + 4],
            ) * 16 + hex_val(b[pos + 5]);
            assert(code == (c / 16) * 16 + c % 16);
            assert(code == c);
            assert(utf8_bytes_of(code) =~= seq![c]);
            assert(seq![c] + rest =~= raw);
        } else {
            assert(e =~= seq![c]);
            assert(b[pos] == c);
            assert(seq![c] + rest =~= raw);
        }
    }
}

/// A `skip_ws` at a non-whitespace byte, or at the end, stays put.
proof fn lemma_skip_ws_at(b: Seq<u8>, p: int)
    requires
        0 <= p,
        p >= b.len() || !is_ws(b[p]),
    ensures
        skip_ws(b, p) == p,
{
}


/// The canonical rendering of a `results` object.
pub open spec fn spec_results_bytes(rr: RunResults) -> Seq<u8> {
    seq![123u8, 34] + key_tests() + seq![34u8, 58] + spec_digits(rr.tests) + seq![44u8, 34]
        + key_passes() + seq![34u8, 58] + spec_digits(rr.passes) + seq![44u8, 34] + key_failures()
        + seq![34u8, 58] + spec_digits(rr.failures) + seq![125u8]
}

/// The syntactic facts of one `"key":` member prefix laid down with no
/// whitespace: the quote, the key string, the colon, and where the value
/// starts.
#[verifier::spinoff_prover]
proof fn lemma_key_prefix(pre: Seq<u8>, key: Seq<u8>, rest: Seq<u8>)
    requires
        forall|i: int| 0 <= i < key.len() ==> 32 <= #[trigger] key[i] && key[i] != 34 && key[i]
            != 92,
        rest.len() > 0,
        !is_ws(rest[0]),
    ensures
        ({
            let b = pre + (seq![34u8] + (key + (seq![34u8] + (seq![58u8] + rest))));
            let m = pre.len() as int;
            let ke = m + 2 + key.len() as int;
            &&& skip_ws(b, m) == m
            &&& b[m] == 34
            &&& spec_parse_jstring(b, m + 1) == Some((key, ke))
            &&& skip_ws(b, ke) == ke
            &&& b[ke] == 58
            &&& skip_ws(b, ke + 1) == ke + 1
            &&& b[ke + 1] == rest[0]
            &&& b == ((((pre + seq![34u8]) + key) + seq![34u8]) + seq![58u8]) + rest
        }),
{
    let q = seq![34u8];
    let co = seq![58u8];
    let b = pre + (q + (key + (q + (co + rest))));
    let m = pre.len() as int;
    let ke = m + 2 + key.len() as int;
    vstd::seq_lib::lemma_concat_associative(pre, q, key + (q + (co + rest)));
    vstd::seq_lib::lemma_concat_associative(pre + q, key, q + (co + rest));
    vstd::seq_lib::lemma_concat_associative((pre + q) + key, q, co + rest);
    vstd::seq_lib::lemma_concat_associative(((pre + q) + key) + q, co, rest);
    lemma_escape_plain(key);
    lemma_parse_jstring_escaped(pre + q, key, co + rest);
    assert(b[m] == 34);
    lemma_skip_ws_at(b, m);
    assert(b == (((pre + q) + key) + q) + (co + rest));
    assert(b[ke] == 58);
    lemma_skip_ws_at(b, ke);
    assert(b == ((((pre + q) + key) + q) + co) + rest);
    assert(b[ke + 1] == rest[0]);
    lemma_skip_ws_at(b, ke + 1);
}

/// The syntactic facts of one counter value laid down by the encoder.
#[verifier::spinoff_prover]
proof fn lemma_number_value(pre: Seq<u8>, n: u64, tafter: Seq<u8>)
    requires
        tafter.len() > 0,
        !is_digit(tafter[0]),
        !is_ws(tafter[0]),
    ensures
        ({
            let b = pre + (spec_digits(n) + tafter);
            let m = pre.len() as int;
            let ne = m + spec_digits(n).len() as int;
            &&& skip_ws(b, m) == m
            &&& spec_parse_u64(b, m) == Some((n, ne))
            &&& skip_ws(b, ne) == ne
            &&& b[ne] == tafter[0]
            &&& b == (pre + spec_digits(n)) + tafter
        }),
{
    let b = pre + (spec_digits(n) + tafter);
    let m = pre.len() as int;
    let ne = m + spec_digits(n).len() as int;
    lemma_digits_wf(n);
    vstd::seq_lib::lemma_concat_associative(pre, spec_digits(n), tafter);
    lemma_parse_u64_concat(pre, n, tafter);
    assert(b[m] == spec_digits(n)[0]);
    assert(!is_ws(b[m]));
    lemma_skip_ws_at(b, m);
    assert(b[ne] == tafter[0]);
    lemma_skip_ws_at(b, ne);
}

/// Parsing a `results` object the encoder laid down yields the counters.
#[verifier::rlimit(100)]
#[verifier::spinoff_prover]
proof fn lemma_parse_results_concat(pre: Seq<u8>, rr: RunResults, suf: Seq<u8>)
    ensures
        spec_parse_results(pre + spec_results_bytes(rr) + suf, pre.len() as int) == Some(
            (rr, pre.len() + spec_results_bytes(rr).len() as int),
        ),
{
    let b = pre + spec_results_bytes(rr) + suf;
    let q = seq![34u8];
    let co = seq![58u8];
    let cm = seq![44u8];
    let ob = seq![123u8];
    let cb = seq![125u8];
    let tb = spec_digits(rr.tests);
    let pb = spec_digits(rr.passes);
    let fb = spec_digits(rr.failures);
    lemma_digits_wf(rr.tests);
    lemma_digits_wf(rr.passes);
    lemma_digits_wf(rr.failures);

    let r6 = cb + suf;
    let w3 = fb + r6;
    let r5 = q + (key_failures() + (q + (co + w3)));
    let r4 = cm + r5;
    let w2 = pb + r4;
    let r3 = q + (key_passes() + (q + (co + w2)));
    let r2 = cm + r3;
    let w1 = tb + r2;
    let r1 = q + (key_tests() + (q + (co + w1)));
    assert(b =~= pre + (ob + r1));
    let pos = pre.len() as int;
    vstd::seq_lib::lemma_concat_associative(pre, ob, r1);
    assert(b == (pre + ob) + r1);
    assert(b[pos] == 123);

    // `tests`
    let pre1 = pre + ob;
    let m1 = pre1.len() as int;
    lemma_key_prefix(pre1, key_tests(), w1);
    let kp1 = (((pre1 + q) + key_tests()) + q) + co;
    assert(b == kp1 + w1);
    let ke1 = m1 + 2 + key_tests().len() as int;
    lemma_number_value(kp1, rr.tests, r2);
    let nv1 = kp1 + tb;
    assert(b == nv1 + r2);
    let ne1 = kp1.len() + tb.len() as int;
    assert(b[ne1] == 44);
    let acc0 = empty_results_acc();
    let acc1 = PartialResults { tests: Some(rr.tests), passes: None, failures: None };
    assert(key_tests() != key_passes() && key_tests() != key_failures());
    assert(spec_parse_results_members(b, m1, acc0) == spec_parse_results_members(
        b,
        ne1 + 1,
        acc1,
    )) by {
        reveal(spec_parse_results_members);
    }

    // `passes`
    let pre2 = nv1 + cm;
    vstd::seq_lib::lemma_concat_associative(nv1, cm, r3);
    assert(b == pre2 + r3);
    let m2 = pre2.len() as int;
    assert(m2 == ne1 + 1);
    lemma_key_prefix(pre2, key_passes(), w2);
    let kp2 = (((pre2 + q) + key_passes()) + q) + co;
    assert(b == kp2 + w2);
    lemma_number_value(kp2, rr.passes, r4);
    let nv2 = kp2 + pb;
    assert(b == nv2 + r4);
    let ne2 = kp2.len() + pb.len() as int;
    assert(b[ne2] == 44);
    let acc2 = PartialResults { tests: Some(rr.tests), passes: Some(rr.passes), failures: None };
    assert(key_passes() != key_tests() && key_passes() != key_failures());
    assert(spec_parse_results_members(b, m2, acc1) == spec_parse_results_members(
        b,
        ne2 + 1,
        acc2,
    )) by {
        reveal(spec_parse_results_members);
    }

    // `failures`
    let pre3 = nv2 + cm;
    vstd::seq_lib::lemma_concat_associative(nv2, cm, r5);
    assert(b == pre3 + r5);
    let m3 = pre3.len() as int;
    assert(m3 == ne2 + 1);
    lemma_key_prefix(pre3, key_failures(), w3);
    let kp3 = (((pre3 + q) + key_failures()) + q) + co;
    assert(b == kp3 + w3);
    lemma_number_value(kp3, rr.failures, r6);
    let ne3 = kp3.len() + fb.len() as int;
    assert(b[ne3] == 125);
    assert(spec_parse_results_members(b, m3, acc2) == Some(
        (RunResults { tests: rr.tests, passes: rr.passes, failures: rr.failures }, ne3 + 1),
    )) by {
        reveal(spec_parse_results_members);
    }
    assert(RunResults { tests: rr.tests, passes: rr.passes, failures: rr.failures } == rr);
    assert(ne3 + 1 == pre.len() + spec_results_bytes(rr).len());
    assert(spec_parse_results(b, pos) == Some((rr, ne3 + 1)));
}

/// The member walk of a whole record laid down in canonical order: four
/// members, each ending where the next begins, close the object.
#[verifier::rlimit(100)]
#[verifier::spinoff_prover]
proof fn lemma_record_walk(
    b: Seq<u8>,
    nb: Seq<u8>,
    cb: Seq<u8>,
    db: Seq<u8>,
    d: Date,
    rr: RunResults,
    m1: int,
    ke1: int,
    ve1: int,
    ke2: int,
    ve2: int,
    ke3: int,
    ve3: int,
    ke4: int,
    ve4: int,
)
    requires
        0 <= m1,
        ve4 < b.len(),
        m1 < ke1 < ve1 < ke2 < ve2 < ke3 < ve3 < ke4 < ve4,
        skip_ws(b, m1) == m1,
        b[m1] == 34,
        spec_parse_jstring(b, m1 + 1) == Some((key_name(), ke1)),
        skip_ws(b, ke1) == ke1,
        b[ke1] == 58,
        skip_ws(b, ke1 + 1) == ke1 + 1,
        b[ke1 + 1] == 34,
        spec_parse_jstring(b, ke1 + 2) == Some((nb, ve1)),
        skip_ws(b, ve1) == ve1,
        b[ve1] == 44,
        skip_ws(b, ve1 + 1) == ve1 + 1,
        b[ve1 + 1] == 34,
        spec_parse_jstring(b, ve1 + 2) == Some((key_commit(), ke2)),
        skip_ws(b, ke2) == ke2,
        b[ke2] == 58,
        skip_ws(b, ke2 + 1) == ke2 + 1,
        b[ke2 + 1] == 34,
        spec_parse_jstring(b, ke2 + 2) == Some((cb, ve2)),
        skip_ws(b, ve2) == ve2,
        b[ve2] == 44,
        skip_ws(b, ve2 + 1) == ve2 + 1,
        b[ve2 + 1] == 34,
        spec_parse_jstring(b, ve2 + 2) == Some((key_date(), ke3)),
        skip_ws(b, ke3) == ke3,
        b[ke3] == 58,
        skip_ws(b, ke3 + 1) == ke3 + 1,
        b[ke3 + 1] == 34,
        spec_parse_jstring(b, ke3 + 2) == Some((db, ve3)),
        db.len() == 10,
        spec_parse_date(db, 0) == Some((d, 10int)),
        skip_ws(b, ve3) == ve3,
        b[ve3] == 44,
        skip_ws(b, ve3 + 1) == ve3 + 1,
        b[ve3 + 1] == 34,
        spec_parse_jstring(b, ve3 + 2) == Some((key_results(), ke4)),
        skip_ws(b, ke4) == ke4,
        b[ke4] == 58,
        skip_ws(b, ke4 + 1) == ke4 + 1,
        spec_parse_results(b, ke4 + 1) == Some((rr, ve4)),
        skip_ws(b, ve4) == ve4,
        b[ve4] == 125,
    ensures
        spec_parse_record_members(b, m1, empty_record_acc()) == Some(
            (
                PartialRecord {
                    name: Some(nb),
                    commit: Some(cb),
                    date: Some(d),
                    results: Some(rr),
                },
                ve4 + 1,
            ),
        ),
{
    let acc0 = empty_record_acc();
    let acc1 = PartialRecord { name: Some(nb), commit: None, date: None, results: None };
    let acc2 = PartialRecord { name: Some(nb), commit: Some(cb), date: None, results: None };
    let acc3 = PartialRecord { name: Some(nb), commit: Some(cb), date: Some(d), results: None };
    let acc4 = PartialRecord {
        name: Some(nb),
        commit: Some(cb),
        date: Some(d),
        results: Some(rr),
    };
    assert(key_name() != key_commit() && key_name() != key_date() && key_name() != key_results()
        && key_commit() != key_date() && key_commit() != key_results() && key_date()
        != key_results());
    assert(spec_parse_record_members(b, m1, acc0) == spec_parse_record_members(
        b,
        ve1 + 1,
        acc1,
    )) by {
        reveal(spec_parse_record_members);
    }
    assert(spec_parse_record_members(b, ve1 + 1, acc1) == spec_parse_record_members(
        b,
        ve2 + 1,
        acc2,
    )) by {
        reveal(spec_parse_record_members);
    }
    assert(spec_parse_record_members(b, ve2 + 1, acc2) == spec_parse_record_members(
        b,
        ve3 + 1,
        acc3,
    )) by {
        reveal(spec_parse_record_members);
    }
    assert(spec_parse_record_members(b, ve3 + 1, acc3) == Some((acc4, ve4 + 1))) by {
        reveal(spec_parse_record_members);
    }
}

/// A string is parsed wherever its escaped bytes and closing quote lie in
/// the buffer.
proof fn lemma_parse_jstring_at(b: Seq<u8>, pos: int, raw: Seq<u8>)
    requires
        0 <= pos,
        pos + escape_bytes(raw).len() < b.len(),
        b.subrange(pos, pos + escape_bytes(raw).len() as int) == escape_bytes(raw),
        b[pos + escape_bytes(raw).len()] == 34,
    ensures
        spec_parse_jstring(b, pos) == Some((raw, pos + escape_bytes(raw).len() as int + 1)),
{
    let e = escape_bytes(raw);
    let pre = b.subrange(0, pos);
    let suf = b.subrange(pos + e.len() as int + 1, b.len() as int);
    assert(b =~= ((pre + e) + seq![34u8]) + suf);
    lemma_parse_jstring_escaped(pre, raw, suf);
}

/// A `results` object is parsed wherever its canonical bytes lie in the
/// buffer.
proof fn lemma_parse_results_at(b: Seq<u8>, pos: int, rr: RunResults)
    requires
        0 <= pos,
        pos + spec_results_bytes(rr).len() <= b.len(),
        b.subrange(pos, pos + spec_results_bytes(rr).len() as int) == spec_results_bytes(rr),
    ensures
        spec_parse_results(b, pos) == Some((rr, pos + spec_results_bytes(rr).len() as int)),
{
    let body = spec_results_bytes(rr);
    let pre = b.subrange(0, pos);
    let suf = b.subrange(pos + body.len() as int, b.len() as int);
    assert(b =~= (pre + body) + suf);
    lemma_parse_results_concat(pre, rr, suf);
}

/// Round trip: parsing the canonical encoding of any well-formed record
/// yields exactly that record.
#[verifier::rlimit(100)]
#[verifier::spinoff_prover]
pub proof fn lemma_parse_encode(v: RecordView)
    requires
        v.wf(),
    ensures
        spec_parse_record(spec_encode(v)) == Some(v),
{
    let b = spec_encode(v);
    let en = escape_bytes(encode_utf8(v.name));
    let ec = escape_bytes(encode_utf8(v.commit));
    let db = spec_date_bytes(v.date);
    let rbody = spec_results_bytes(v.results);
    let ln = en.len() as int;
    let lc = ec.len() as int;
    let lr = rbody.len() as int;
    lemma_date_bytes_ascii(v.date);
    assert(escape_bytes(db) == db) by {
        lemma_escape_plain(db);
    }
    assert(escape_bytes(key_name()) == key_name()) by {
        lemma_escape_plain(key_name());
    }
    assert(escape_bytes(key_commit()) == key_commit()) by {
        lemma_escape_plain(key_commit());
    }
    assert(escape_bytes(key_date()) == key_date()) by {
        lemma_escape_plain(key_date());
    }
    assert(escape_bytes(key_results()) == key_results()) by {
        lemma_escape_plain(key_results());
    }
    let c0 = 10 + ln;
    let d0 = c0 + 12 + lc;
    let r0 = d0 + 19;
    assert(b.len() == r0 + 13 + lr);

    // the `name` member
    assert(b[0] == 123);
    lemma_skip_ws_at(b, 0);
    assert(b[1] == 34);
    lemma_skip_ws_at(b, 1);
    assert(b.subrange(2, 6) =~= key_name());
    assert(b[6] == 34);
    lemma_parse_jstring_at(b, 2, key_name());
    assert(b[7] == 58);
    lemma_skip_ws_at(b, 7);
    lemma_skip_ws_at(b, 8);
    assert(b[8] == 34);
    assert(b.subrange(9, 9 + ln) =~= en);
    assert(b[9 + ln] == 34);
    lemma_parse_jstring_at(b, 9, encode_utf8(v.name));
    assert(b[c0] == 44);
    lemma_skip_ws_at(b, c0);

    // the `commit` member
    assert(b[c0 + 1] == 34);
    lemma_skip_ws_at(b, c0 + 1);
    assert(b.subrange(c0 + 2, c0 + 8) =~= key_commit());
    assert(b[c0 + 8] == 34);
    lemma_parse_jstring_at(b, c0 + 2, key_commit());
    assert(b[c0 + 9] == 58);
    lemma_skip_ws_at(b, c0 + 9);
    lemma_skip_ws_at(b, c0 + 10);
    assert(b[c0 + 10] == 34);
    assert(b.subrange(c0 + 11, c0 + 11 + lc) =~= ec);
    assert(b[c0 + 11 + lc] == 34);
    lemma_parse_jstring_at(b, c0 + 11, encode_utf8(v.commit));
    assert(b[d0] == 44);
    lemma_skip_ws_at(b, d0);

    // the `date` member
    assert(b[d0 + 1] == 34);
    lemma_skip_ws_at(b, d0 + 1);
    assert(b.subrange(d0 + 2, d0 + 6) =~= key_date());
    assert(b[d0 + 6] == 34);
    lemma_parse_jstring_at(b, d0 + 2, key_date());
    assert(b[d0 + 7] == 58);
    lemma_skip_ws_at(b, d0 + 7);
    lemma_skip_ws_at(b, d0 + 8);
    assert(b[d0 + 8] == 34);
    assert(db.len() == 10);
    assert(b.subrange(d0 + 9, d0 + 19) =~= db);
    assert(b[d0 + 19] == 34);
    lemma_parse_jstring_at(b, d0 + 9, db);
    lemma_parse_date_concat(Seq::<u8>::empty(), v.date, Seq::<u8>::empty());
    assert(Seq::<u8>::empty() + db + Seq::<u8>::empty() =~= db);
    assert(spec_parse_date(db, 0) == Some((v.date, 10int)));
    assert(b[r0 + 1] == 44);
    lemma_skip_ws_at(b, r0 + 1);

    // the `results` member
    assert(b[r0 + 2] == 34);
    lemma_skip_ws_at(b, r0 + 2);
    assert(b.subrange(r0 + 3, r0 + 10) =~= key_results());
    assert(b[r0 + 10] == 34);
    lemma_parse_jstring_at(b, r0 + 3, key_results());
    assert(b[r0 + 11] == 58);
    lemma_skip_ws_at(b, r0 + 11);
    lemma_skip_ws_at(b, r0 + 12);
    assert(b.subrange(r0 + 12, r0 + 12 + lr) =~= rbody);
    lemma_parse_results_at(b, r0 + 12, v.results);
    let ve4 = r0 + 12 + lr;
    assert(b[ve4] == 125);
    lemma_skip_ws_at(b, ve4);
    lemma_skip_ws_at(b, ve4 + 1);

    lemma_digits_wf(v.results.tests);
    lemma_digits_wf(v.results.passes);
    lemma_digits_wf(v.results.failures);
    assert(lr >= 30);
    lemma_record_walk(
        b,
        encode_utf8(v.name),
        encode_utf8(v.commit),
        db,
        v.date,
        v.results,
        1,
        7,
        c0,
        c0 + 9,
        d0,
        d0 + 7,
        r0 + 1,
        r0 + 11,
        ve4,
    );
    let acc4 = PartialRecord {
        name: Some(encode_utf8(v.name)),
        commit: Some(encode_utf8(v.commit)),
        date: Some(v.date),
        results: Some(v.results),
    };
    assert(spec_parse_record_members(b, 1, empty_record_acc()) == Some((acc4, ve4 + 1)));
    vstd::utf8::encode_utf8_valid_utf8(v.name);
    vstd::utf8::encode_utf8_valid_utf8(v.commit);
    vstd::utf8::encode_utf8_decode_utf8(v.name);
    vstd::utf8::encode_utf8_decode_utf8(v.commit);
    assert(decode_utf8(encode_utf8(v.name)).len() > 0);
    assert(spec_parse_record(b) == Some(
        RecordView {
            name: decode_utf8(encode_utf8(v.name)),
            commit: decode_utf8(encode_utf8(v.commit)),
            date: v.date,
            results: v.results,
        },
    ));
    assert(RecordView {
        name: decode_utf8(encode_utf8(v.name)),
        commit: decode_utf8(encode_utf8(v.commit)),
        date: v.date,
        results: v.results,
    } =~= v);
}

} // verus!
