use std::io::Write;

use bottlecache::archive::{extract_json, Archive};
use bottlecache::cache::{plan_writes, Cache};
use bottlecache::date::Date;
use bottlecache::error::Error;
use bottlecache::record::{RunResults, TestsuiteResult};

fn mk_record(name: &str, date: Date, t: u64, p: u64, f: u64) -> TestsuiteResult {
    TestsuiteResult {
        name: String::from(name),
        commit: String::from("abc123"),
        date,
        results: RunResults { tests: t, passes: p, failures: f },
    }
}

fn zip_of(payload: &[u8]) -> Archive {
    let mut writer = zip::ZipWriter::new(std::io::Cursor::new(Vec::new()));
    writer
        .start_file("results.json", zip::write::SimpleFileOptions::default())
        .unwrap();
    writer.write_all(payload).unwrap();
    let cursor = writer.finish().unwrap();
    Archive(cursor.into_inner())
}

#[test]
fn extract_json_returns_first_entry() {
    let archive = zip_of(b"hello payload");
    assert_eq!(extract_json(&archive).unwrap(), b"hello payload".to_vec());
}

#[test]
fn extract_json_rejects_garbage() {
    let archive = Archive(vec![1, 2, 3, 4]);
    assert_eq!(extract_json(&archive).unwrap_err(), Error::Archive);
}

#[test]
fn rehydration_idempotent() {
    let r1 = mk_record("gcc", Date { year: 2023, month: 5, day: 7 }, 10, 8, 2);
    let r2 = mk_record("libcore", Date { year: 2023, month: 5, day: 8 }, 20, 20, 0);
    let files = vec![r1.to_bytes(), r2.to_bytes()];
    let cache = Cache::new(None, false, &files);
    assert_eq!(cache.data(), vec![r1, r2]);
    assert_eq!(cache.processed_runs(), Vec::<u64>::new());
}

#[test]
fn rehydration_skips_corrupt_file() {
    let r1 = mk_record("gcc", Date { year: 2023, month: 5, day: 7 }, 10, 8, 2);
    let files = vec![b"{ corrupted".to_vec(), r1.to_bytes()];
    let cache = Cache::new(None, false, &files);
    assert_eq!(cache.data(), vec![r1]);
}

#[test]
fn update_merges_valid_archive() {
    let rec = mk_record("gcc", Date { year: 2023, month: 5, day: 7 }, 10, 8, 2);
    let batch = vec![(41u64, zip_of(rec.to_bytes().as_slice()))];
    let mut cache = Cache::new(None, false, &Vec::new());
    cache.apply_cycle(1_000, &batch);
    assert_eq!(cache.data(), vec![rec]);
    assert_eq!(cache.processed_runs(), vec![41u64]);
}

#[test]
fn run_dedup_across_cycles() {
    let rec = mk_record("gcc", Date { year: 2023, month: 5, day: 7 }, 10, 8, 2);
    let listed = vec![41u64];
    let mut cache = Cache::new(None, false, &Vec::new());

    let first = cache.new_runs(&listed);
    assert_eq!(first, vec![41u64]);
    let batch = vec![(41u64, zip_of(rec.to_bytes().as_slice()))];
    cache.apply_cycle(1_000, &batch);

    // the same listing a cycle later selects nothing: the run is processed
    let second = cache.new_runs(&listed);
    assert_eq!(second, Vec::<u64>::new());
    cache.apply_cycle(2_000, &Vec::new());
    assert_eq!(cache.data(), vec![rec]);
}

#[test]
fn malformed_payload_isolation() {
    let rec = mk_record("gcc", Date { year: 2023, month: 5, day: 7 }, 10, 8, 2);
    let batch = vec![
        (1u64, zip_of(rec.to_bytes().as_slice())),
        (2u64, zip_of(b"{ not a record")),
    ];
    let mut cache = Cache::new(None, false, &Vec::new());
    cache.apply_cycle(1_000, &batch);
    assert_eq!(cache.data(), vec![rec]);
    assert_eq!(cache.processed_runs(), vec![1u64, 2]);
}

#[test]
fn last_write_wins() {
    let date = Date { year: 2023, month: 5, day: 7 };
    let first = mk_record("gcc", date, 10, 8, 2);
    let second = mk_record("gcc", date, 11, 9, 2);
    let batch = vec![
        (1u64, zip_of(first.to_bytes().as_slice())),
        (2u64, zip_of(second.to_bytes().as_slice())),
    ];
    let mut cache = Cache::new(None, false, &Vec::new());
    cache.apply_cycle(1_000, &batch);
    assert_eq!(cache.data(), vec![second]);
}

#[test]
fn upstream_failure_leaves_state_untouched() {
    let rec = mk_record("gcc", Date { year: 2023, month: 5, day: 7 }, 10, 8, 2);
    let mut cache = Cache::new(None, false, &Vec::new());
    cache.apply_cycle(1_000, &vec![(1u64, zip_of(rec.to_bytes().as_slice()))]);

    let records_before = cache.data();
    let processed_before = cache.processed_runs();

    // a cycle whose listing or download fails never reaches apply_cycle;
    // the read-only steps it did take change nothing
    let _ = cache.new_runs(&vec![1u64, 2, 3]);

    assert_eq!(cache.data(), records_before);
    assert_eq!(cache.processed_runs(), processed_before);
}

#[test]
fn ttl_boundary() {
    let mut cache = Cache::new(Some(3_600), false, &Vec::new());
    cache.apply_cycle(10_000, &Vec::new());
    // one second inside the time-to-live: fresh
    assert!(!cache.is_invalidated(10_000 + 3_600 - 1));
    // one second past it: stale
    assert!(cache.is_invalidated(10_000 + 3_600 + 1));
}

#[test]
fn fresh_cache_starts_stale() {
    let cache = Cache::new(Some(3_600), false, &Vec::new());
    // last_refresh starts at the epoch, so any realistic clock is stale
    assert!(cache.is_invalidated(1_700_000_000));
}

#[test]
fn pinned_mode_never_invalidates() {
    let r1 = mk_record("gcc", Date { year: 2023, month: 5, day: 7 }, 10, 8, 2);
    let cache = Cache::new(Some(1), true, &vec![r1.to_bytes()]);
    assert!(!cache.is_invalidated(0));
    assert!(!cache.is_invalidated(u64::MAX));
    assert_eq!(cache.data(), vec![r1]);
}

#[test]
fn plan_writes_names_and_contents() {
    let rec = mk_record("gcc", Date { year: 2023, month: 5, day: 7 }, 10, 8, 2);
    let batch = vec![
        (1u64, zip_of(rec.to_bytes().as_slice())),
        (2u64, zip_of(b"junk payload")),
    ];
    let writes = plan_writes(&batch);
    assert_eq!(writes.len(), 1);
    assert_eq!(writes[0].0, String::from("gcc-2023-05-07.json"));
    assert_eq!(writes[0].1, rec.to_bytes());
    // what the store writes reads back as the same record
    let back = TestsuiteResult::from_bytes(writes[0].1.as_slice()).unwrap();
    assert_eq!(back, rec);
}

#[test]
fn duplicate_batch_ids_processed_once() {
    let rec = mk_record("gcc", Date { year: 2023, month: 5, day: 7 }, 10, 8, 2);
    let batch = vec![
        (7u64, zip_of(rec.to_bytes().as_slice())),
        (7u64, zip_of(b"junk")),
    ];
    let mut cache = Cache::new(None, false, &Vec::new());
    cache.apply_cycle(1_000, &batch);
    assert_eq!(cache.processed_runs(), vec![7u64]);
}
