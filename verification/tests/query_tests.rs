use bottlecache::chart::{get_date_range, get_limits, series_points, DateRange, Metric};
use bottlecache::date::Date;
use bottlecache::query::{
    all_run_dates, runs_by_date, testsuite_by_key, testsuite_by_key_date, testsuites,
};
use bottlecache::record::{RunResults, TestsuiteResult};

fn mk_record(name: &str, date: Date, t: u64, p: u64, f: u64) -> TestsuiteResult {
    TestsuiteResult {
        name: String::from(name),
        commit: String::from("abc123"),
        date,
        results: RunResults { tests: t, passes: p, failures: f },
    }
}

fn sample() -> Vec<TestsuiteResult> {
    vec![
        mk_record("gcc", Date { year: 2023, month: 5, day: 7 }, 10, 8, 2),
        mk_record("libcore", Date { year: 2023, month: 5, day: 7 }, 20, 20, 0),
        mk_record("gcc", Date { year: 2023, month: 5, day: 9 }, 11, 9, 2),
    ]
}

#[test]
fn by_key_filters_names() {
    let data = sample();
    let gcc = testsuite_by_key(&data, &String::from("gcc"));
    assert_eq!(gcc, vec![data[0].clone(), data[2].clone()]);
    let none = testsuite_by_key(&data, &String::from("unknown"));
    assert_eq!(none, Vec::<TestsuiteResult>::new());
}

#[test]
fn by_date_filters_dates() {
    let data = sample();
    let day = runs_by_date(&data, &Date { year: 2023, month: 5, day: 7 });
    assert_eq!(day, vec![data[0].clone(), data[1].clone()]);
}

#[test]
fn by_key_date_finds_single_record() {
    let data = sample();
    let hit = testsuite_by_key_date(
        &data,
        &String::from("gcc"),
        &Date { year: 2023, month: 5, day: 9 },
    );
    assert_eq!(hit, Some(data[2].clone()));
    let miss = testsuite_by_key_date(
        &data,
        &String::from("libcore"),
        &Date { year: 2023, month: 5, day: 9 },
    );
    assert_eq!(miss, None);
}

#[test]
fn testsuites_lists_distinct_names() {
    let data = sample();
    assert_eq!(testsuites(&data), vec![String::from("gcc"), String::from("libcore")]);
}

#[test]
fn all_run_dates_distinct() {
    let data = sample();
    assert_eq!(
        all_run_dates(&data),
        vec![
            Date { year: 2023, month: 5, day: 7 },
            Date { year: 2023, month: 5, day: 9 },
        ]
    );
}

#[test]
fn date_range_spans_snapshot() {
    let data = sample();
    let range = get_date_range(&data);
    assert_eq!(range.0, Date { year: 2023, month: 5, day: 7 });
    assert_eq!(range.1, Date { year: 2023, month: 5, day: 9 });
}

#[test]
fn limits_exceed_largest_count() {
    let data = sample();
    assert_eq!(get_limits(&data), 21);
}

#[test]
fn series_skips_missing_days() {
    let data = sample();
    let gcc = testsuite_by_key(&data, &String::from("gcc"));
    let range = DateRange(
        Date { year: 2023, month: 5, day: 7 },
        Date { year: 2023, month: 5, day: 9 },
    );
    let passes = series_points(&gcc, &range, Metric::Passes);
    assert_eq!(
        passes,
        vec![
            (Date { year: 2023, month: 5, day: 7 }, 8),
            (Date { year: 2023, month: 5, day: 9 }, 9),
        ]
    );
    let tests = series_points(&gcc, &range, Metric::Tests);
    assert_eq!(tests[0].1, 10);
    let failures = series_points(&gcc, &range, Metric::Failures);
    assert_eq!(failures, vec![
        (Date { year: 2023, month: 5, day: 7 }, 2),
        (Date { year: 2023, month: 5, day: 9 }, 2),
    ]);
}
