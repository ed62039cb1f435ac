use bottlecache::chart::DateRange;
use bottlecache::codec::parse_date_str;
use bottlecache::date::{days_in_month, Date};

#[test]
fn succ_within_month() {
    let d = Date { year: 2023, month: 5, day: 7 };
    assert_eq!(d.succ(), Some(Date { year: 2023, month: 5, day: 8 }));
}

#[test]
fn succ_month_end() {
    let d = Date { year: 2023, month: 4, day: 30 };
    assert_eq!(d.succ(), Some(Date { year: 2023, month: 5, day: 1 }));
}

#[test]
fn succ_leap_february() {
    let d = Date { year: 2024, month: 2, day: 28 };
    assert_eq!(d.succ(), Some(Date { year: 2024, month: 2, day: 29 }));
    let d = Date { year: 2024, month: 2, day: 29 };
    assert_eq!(d.succ(), Some(Date { year: 2024, month: 3, day: 1 }));
}

#[test]
fn succ_plain_february() {
    let d = Date { year: 2023, month: 2, day: 28 };
    assert_eq!(d.succ(), Some(Date { year: 2023, month: 3, day: 1 }));
}

#[test]
fn succ_year_end() {
    let d = Date { year: 2023, month: 12, day: 31 };
    assert_eq!(d.succ(), Some(Date { year: 2024, month: 1, day: 1 }));
}

#[test]
fn succ_calendar_end() {
    let d = Date { year: 9999, month: 12, day: 31 };
    assert_eq!(d.succ(), None);
}

#[test]
fn century_leap_rules() {
    assert_eq!(days_in_month(2000, 2), 29);
    assert_eq!(days_in_month(1900, 2), 28);
    assert_eq!(days_in_month(2024, 2), 29);
    assert_eq!(days_in_month(2023, 2), 28);
}

#[test]
fn date_ordering() {
    let a = Date { year: 2023, month: 5, day: 7 };
    let b = Date { year: 2023, month: 5, day: 8 };
    let c = Date { year: 2023, month: 6, day: 1 };
    let d = Date { year: 2024, month: 1, day: 1 };
    assert!(a.le(&a));
    assert!(a.le(&b));
    assert!(!b.le(&a));
    assert!(b.le(&c));
    assert!(c.le(&d));
    assert!(!d.le(&a));
}

#[test]
fn date_range_walks_days() {
    let mut range = DateRange(
        Date { year: 2023, month: 2, day: 27 },
        Date { year: 2023, month: 3, day: 1 },
    );
    let mut seen = Vec::new();
    while let Some(d) = range.next() {
        seen.push(d);
    }
    assert_eq!(
        seen,
        vec![
            Date { year: 2023, month: 2, day: 27 },
            Date { year: 2023, month: 2, day: 28 },
            Date { year: 2023, month: 3, day: 1 },
        ]
    );
}

#[test]
fn date_range_empty_when_reversed() {
    let mut range = DateRange(
        Date { year: 2023, month: 3, day: 1 },
        Date { year: 2023, month: 2, day: 27 },
    );
    assert_eq!(range.next(), None);
}

#[test]
fn parse_date_str_round_trip() {
    assert_eq!(
        parse_date_str("2023-05-07"),
        Some(Date { year: 2023, month: 5, day: 7 })
    );
    assert_eq!(parse_date_str("2024-02-29"), Some(Date { year: 2024, month: 2, day: 29 }));
    assert_eq!(parse_date_str("2023-02-29"), None);
    assert_eq!(parse_date_str("2023-13-01"), None);
    assert_eq!(parse_date_str("2023-5-7"), None);
    assert_eq!(parse_date_str("2023-05-07x"), None);
    assert_eq!(parse_date_str(""), None);
}
