use bottlecache::date::Date;
use bottlecache::error::Error;
use bottlecache::record::{RunResults, TestsuiteResult};

fn mk_record(name: &str, commit: &str, date: Date, t: u64, p: u64, f: u64) -> TestsuiteResult {
    TestsuiteResult {
        name: String::from(name),
        commit: String::from(commit),
        date,
        results: RunResults { tests: t, passes: p, failures: f },
    }
}

#[test]
fn encode_exact_bytes() {
    let rec = mk_record("gcc", "abc123", Date { year: 2023, month: 5, day: 7 }, 10, 8, 2);
    let bytes = rec.to_bytes();
    let expected =
        "{\"name\":\"gcc\",\"commit\":\"abc123\",\"date\":\"2023-05-07\",\"results\":{\"tests\":10,\"passes\":8,\"failures\":2}}";
    assert_eq!(bytes, expected.as_bytes().to_vec());
}

#[test]
fn round_trip_record() {
    let rec = mk_record(
        "libcore",
        "deadbeef",
        Date { year: 2024, month: 2, day: 29 },
        12345,
        12000,
        345,
    );
    let back = TestsuiteResult::from_bytes(rec.to_bytes().as_slice()).unwrap();
    assert_eq!(back, rec);
}

#[test]
fn round_trip_extreme_counters() {
    let rec = mk_record("t", "c", Date { year: 1, month: 1, day: 1 }, u64::MAX, 0, u64::MAX);
    let back = TestsuiteResult::from_bytes(rec.to_bytes().as_slice()).unwrap();
    assert_eq!(back, rec);
}

#[test]
fn from_bytes_rejects_garbage() {
    let r = TestsuiteResult::from_bytes(b"not json at all");
    assert_eq!(r.unwrap_err(), Error::Validation);
}

#[test]
fn from_bytes_rejects_empty_payload() {
    assert_eq!(TestsuiteResult::from_bytes(b"").unwrap_err(), Error::Validation);
}

#[test]
fn from_bytes_rejects_empty_name() {
    let payload = "{\"name\":\"\",\"commit\":\"c\",\"date\":\"2023-05-07\",\"results\":{\"tests\":1,\"passes\":1,\"failures\":0}}";
    assert_eq!(TestsuiteResult::from_bytes(payload.as_bytes()).unwrap_err(), Error::Validation);
}

#[test]
fn from_bytes_rejects_invalid_date() {
    let payload = "{\"name\":\"n\",\"commit\":\"c\",\"date\":\"2023-02-30\",\"results\":{\"tests\":1,\"passes\":1,\"failures\":0}}";
    assert_eq!(TestsuiteResult::from_bytes(payload.as_bytes()).unwrap_err(), Error::Validation);
}

#[test]
fn from_bytes_rejects_trailing_bytes() {
    let rec = mk_record("n", "c", Date { year: 2023, month: 1, day: 2 }, 1, 1, 0);
    let mut bytes = rec.to_bytes();
    bytes.push(b'x');
    assert_eq!(TestsuiteResult::from_bytes(bytes.as_slice()).unwrap_err(), Error::Validation);
}

#[test]
fn from_bytes_accepts_trailing_whitespace() {
    let rec = mk_record("n", "c", Date { year: 2023, month: 1, day: 2 }, 1, 1, 0);
    let mut bytes = rec.to_bytes();
    bytes.push(b'\n');
    bytes.push(b' ');
    assert_eq!(TestsuiteResult::from_bytes(bytes.as_slice()).unwrap(), rec);
}

#[test]
fn from_bytes_accepts_pretty_printed_json() {
    let payload = "{\n  \"name\": \"gcc\",\n  \"commit\": \"abc123\",\n  \"date\": \"2023-05-07\",\n  \"results\": {\n    \"tests\": 10,\n    \"passes\": 8,\n    \"failures\": 2\n  }\n}";
    let rec = TestsuiteResult::from_bytes(payload.as_bytes()).unwrap();
    assert_eq!(rec, mk_record("gcc", "abc123", Date { year: 2023, month: 5, day: 7 }, 10, 8, 2));
}

#[test]
fn from_bytes_accepts_reordered_members() {
    let payload = "{\"results\":{\"failures\":2,\"tests\":10,\"passes\":8},\"date\":\"2023-05-07\",\"commit\":\"abc123\",\"name\":\"gcc\"}";
    let rec = TestsuiteResult::from_bytes(payload.as_bytes()).unwrap();
    assert_eq!(rec, mk_record("gcc", "abc123", Date { year: 2023, month: 5, day: 7 }, 10, 8, 2));
}

#[test]
fn from_bytes_honors_string_escapes() {
    let payload = "{\"name\":\"a\\\"b\\\\c\\n\",\"commit\":\"\\u0041\\u00e9\",\"date\":\"2023-05-07\",\"results\":{\"tests\":1,\"passes\":1,\"failures\":0}}";
    let rec = TestsuiteResult::from_bytes(payload.as_bytes()).unwrap();
    assert_eq!(rec.name, "a\"b\\c\n");
    assert_eq!(rec.commit, "A\u{e9}");
}

#[test]
fn from_bytes_honors_surrogate_pairs() {
    let payload = "{\"name\":\"\\uD83D\\uDE00\",\"commit\":\"c\",\"date\":\"2023-05-07\",\"results\":{\"tests\":1,\"passes\":1,\"failures\":0}}";
    let rec = TestsuiteResult::from_bytes(payload.as_bytes()).unwrap();
    assert_eq!(rec.name, "\u{1F600}");
}

#[test]
fn from_bytes_rejects_lone_surrogate() {
    let payload = "{\"name\":\"\\uD83D\",\"commit\":\"c\",\"date\":\"2023-05-07\",\"results\":{\"tests\":1,\"passes\":1,\"failures\":0}}";
    assert_eq!(TestsuiteResult::from_bytes(payload.as_bytes()).unwrap_err(), Error::Validation);
}

#[test]
fn from_bytes_accepts_utf8_contents() {
    let rec = mk_record("sma\u{308}ll", "\u{4e2d}\u{6587}", Date { year: 2023, month: 5, day: 7 }, 1, 1, 0);
    let back = TestsuiteResult::from_bytes(rec.to_bytes().as_slice()).unwrap();
    assert_eq!(back, rec);
}

#[test]
fn from_bytes_rejects_duplicate_member() {
    let payload = "{\"name\":\"a\",\"name\":\"b\",\"commit\":\"c\",\"date\":\"2023-05-07\",\"results\":{\"tests\":1,\"passes\":1,\"failures\":0}}";
    assert_eq!(TestsuiteResult::from_bytes(payload.as_bytes()).unwrap_err(), Error::Validation);
}

#[test]
fn from_bytes_rejects_unknown_member() {
    let payload = "{\"name\":\"a\",\"commit\":\"c\",\"date\":\"2023-05-07\",\"branch\":\"x\",\"results\":{\"tests\":1,\"passes\":1,\"failures\":0}}";
    assert_eq!(TestsuiteResult::from_bytes(payload.as_bytes()).unwrap_err(), Error::Validation);
}

#[test]
fn from_bytes_rejects_missing_member() {
    let payload = "{\"name\":\"a\",\"commit\":\"c\",\"results\":{\"tests\":1,\"passes\":1,\"failures\":0}}";
    assert_eq!(TestsuiteResult::from_bytes(payload.as_bytes()).unwrap_err(), Error::Validation);
}

#[test]
fn from_bytes_rejects_leading_zero_counter() {
    let payload = "{\"name\":\"a\",\"commit\":\"c\",\"date\":\"2023-05-07\",\"results\":{\"tests\":01,\"passes\":1,\"failures\":0}}";
    assert_eq!(TestsuiteResult::from_bytes(payload.as_bytes()).unwrap_err(), Error::Validation);
}

#[test]
fn encoder_escapes_specials() {
    let rec = mk_record("a\"b", "c\\d", Date { year: 2023, month: 5, day: 7 }, 1, 1, 0);
    let bytes = rec.to_bytes();
    let expected = "{\"name\":\"a\\\"b\",\"commit\":\"c\\\\d\",\"date\":\"2023-05-07\",\"results\":{\"tests\":1,\"passes\":1,\"failures\":0}}";
    assert_eq!(bytes, expected.as_bytes().to_vec());
    assert_eq!(TestsuiteResult::from_bytes(bytes.as_slice()).unwrap(), rec);
}

#[test]
fn from_bytes_rejects_counter_overflow() {
    let payload = "{\"name\":\"n\",\"commit\":\"c\",\"date\":\"2023-01-02\",\"results\":{\"tests\":18446744073709551616,\"passes\":0,\"failures\":0}}";
    assert_eq!(TestsuiteResult::from_bytes(payload.as_bytes()).unwrap_err(), Error::Validation);
}

#[test]
fn from_bytes_accepts_top_counter() {
    let payload = "{\"name\":\"n\",\"commit\":\"c\",\"date\":\"2023-01-02\",\"results\":{\"tests\":18446744073709551615,\"passes\":0,\"failures\":0}}";
    let rec = TestsuiteResult::from_bytes(payload.as_bytes()).unwrap();
    assert_eq!(rec.results.tests, u64::MAX);
}

#[test]
fn from_bytes_accepts_anomalous_counters() {
    // upstream data can be sloppy: passes + failures may exceed tests
    let payload = "{\"name\":\"n\",\"commit\":\"c\",\"date\":\"2023-01-02\",\"results\":{\"tests\":1,\"passes\":5,\"failures\":5}}";
    let rec = TestsuiteResult::from_bytes(payload.as_bytes()).unwrap();
    assert_eq!(rec.results.passes, 5);
}

#[test]
fn file_name_exact() {
    let rec = mk_record("gcc", "abc", Date { year: 2023, month: 5, day: 7 }, 1, 1, 0);
    assert_eq!(rec.file_name(), String::from("gcc-2023-05-07.json"));
}

#[test]
fn error_descriptions() {
    assert_eq!(Error::Upstream.describe(), "upstream service failure");
    assert_eq!(Error::Archive.describe(), "corrupt result archive");
    assert_eq!(Error::Validation.describe(), "invalid result payload");
    assert_eq!(Error::Disk.describe(), "disk write failure");
}
