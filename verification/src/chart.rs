//! Pure helpers behind the dashboard's charts.
//!
//! Rendering itself is presentation work outside this crate; what is
//! verified here is the data extraction: the date axis of a snapshot, the
//! counter axis limit, and the per-day series of one counter over a date
//! range, skipping days without a record.

use vstd::prelude::*;

use crate::cache::views_of;
use crate::date::Date;
use crate::record::{RecordView, TestsuiteResult};

verus! {

/// An inclusive range of calendar dates, stepped one day at a time.
pub struct DateRange(pub Date, pub Date);

/// Which counter of a record a series plots.
#[derive(Clone, Copy, Debug, PartialEq, Eq, Structural)]
pub enum Metric {
    Tests,
    Passes,
    Failures,
}

/// The plotted counter of one record.
pub open spec fn metric_of(v: RecordView, m: Metric) -> u64 {
    match m {
        Metric::Tests => v.results.tests,
        Metric::Passes => v.results.passes,
        Metric::Failures => v.results.failures,
    }
}

/// The first record completed on `date`, if any.
pub open spec fn spec_find_date(s: Seq<RecordView>, date: Date) -> Option<RecordView>
    decreases s.len(),
{
    if s.len() == 0 {
        None
    } else if s[0].date == date {
        Some(s[0])
    } else {
        spec_find_date(s.drop_first(), date)
    }
}

/// How many days of range remain from `lo` to `hi`, as a loose bound.
pub open spec fn range_measure(lo: Date, hi: Date) -> int {
    (hi.year - lo.year) * 372 + (12 - lo.month) * 31 + (31 - lo.day)
}

/// One `(date, counter)` point per day of `[lo, hi]` that has a record,
/// in ascending date order, days without a record skipped.
pub open spec fn spec_series(s: Seq<RecordView>, lo: Date, hi: Date, m: Metric) -> Seq<(Date, u64)>
    decreases range_measure(lo, hi),
{
    if !lo.valid() || !lo.spec_le(hi) {
        Seq::empty()
    } else {
        let rest = match lo.spec_succ() {
            Some(n) => if n.spec_le(hi) {
                spec_series(s, n, hi, m)
            } else {
                Seq::empty()
            },
            None => Seq::empty(),
        };
        match spec_find_date(s, lo) {
            Some(v) => seq![(lo, metric_of(v, m))] + rest,
            None => rest,
        }
    }
}

impl DateRange {
    /// The lower bound of the range, then each following day in turn.
    ///
    /// Yields the current lower bound and advances it by one day; the
    /// range is exhausted once the lower bound passes the upper one (or
    /// the calendar ends).
    pub fn next(&mut self) -> (r: Option<Date>)
        requires
            old(self).0.valid(),
        ensures
            match r {
                Some(d) => {
                    &&& d == old(self).0
                    &&& old(self).0.spec_le(old(self).1)
                    &&& old(self).0.spec_succ() == Some(final(self).0)
                    &&& final(self).0.valid()
                    &&& final(self).1 == old(self).1
                },
                None => *final(self) == *old(self) && (!old(self).0.spec_le(old(self).1)
                    || old(self).0.spec_succ() is None),
            },
    {
        if self.0.le(&self.1) {
            let cur = self.0;
            match cur.succ() {
                Some(n) => {
                    self.0 = n;
                    Some(cur)
                },
                None => None,
            }
        } else {
            None
        }
    }
}

/// The first record of the snapshot completed on `date`, if any.
fn find_by_date<'a>(data: &'a Vec<TestsuiteResult>, date: &Date) -> (r: Option<&'a TestsuiteResult>)
    ensures
        match r {
            Some(t) => spec_find_date(views_of(data@), *date) == Some(t@),
            None => spec_find_date(views_of(data@), *date) is None,
        },
{
    let ghost s = views_of(data@);
    let mut i: usize = 0;
    proof {
        assert(s.skip(0) =~= s);
    }
    while i < data.len()
        invariant
            0 <= i <= data@.len(),
            s == views_of(data@),
            spec_find_date(s, *date) == spec_find_date(s.skip(i as int), *date),
        decreases data@.len() - i,
    {
        proof {
            assert(s.skip(i as int)[0] == s[i as int]);
            assert(s.skip(i as int).drop_first() =~= s.skip(i as int + 1));
        }
        if data[i].date == *date {
            return Some(&data[i]);
        }
        i += 1;
    }
    proof {
        assert(s.skip(s.len() as int) =~= Seq::<RecordView>::empty());
    }
    None
}

/// The smallest and largest run date of a non-empty snapshot.
pub fn get_date_range(data: &Vec<TestsuiteResult>) -> (r: DateRange)
    requires
        data@.len() > 0,
    ensures
        exists|k: int| 0 <= k < data@.len() && (#[trigger] data@[k])@.date == r.0,
        forall|k: int| 0 <= k < data@.len() ==> r.0.spec_le((#[trigger] data@[k])@.date),
        forall|k: int| 0 <= k < data@.len() ==> (#[trigger] data@[k])@.date.spec_le(r.1),
        exists|k: int| 0 <= k < data@.len() && (#[trigger] data@[k])@.date == r.1,
{
    let mut lo = data[0].date;
    let mut hi = data[0].date;
    let mut i: usize = 1;
    while i < data.len()
        invariant
            1 <= i <= data@.len(),
            data@.len() > 0,
            exists|k: int| 0 <= k < i && (#[trigger] data@[k])@.date == lo,
            forall|k: int| 0 <= k < i ==> lo.spec_le((#[trigger] data@[k])@.date),
            exists|k: int| 0 <= k < i && (#[trigger] data@[k])@.date == hi,
            forall|k: int| 0 <= k < i ==> (#[trigger] data@[k])@.date.spec_le(hi),
        decreases data@.len() - i,
    {
        if data[i].date.le(&lo) {
            lo = data[i].date;
        }
        if hi.le(&data[i].date) {
            hi = data[i].date;
        }
        i += 1;
    }
    DateRange(lo, hi)
}

/// One more than the largest test count of a non-empty snapshot: the
/// exclusive upper limit of the chart's counter axis.
pub fn get_limits(data: &Vec<TestsuiteResult>) -> (r: u64)
    requires
        data@.len() > 0,
        forall|k: int| 0 <= k < data@.len() ==> (#[trigger] data@[k])@.results.tests < u64::MAX,
    ensures
        forall|k: int| 0 <= k < data@.len() ==> (#[trigger] data@[k])@.results.tests < r,
        exists|k: int| 0 <= k < data@.len() && (#[trigger] data@[k])@.results.tests + 1 == r,
{
    let mut max = data[0].results.tests;
    let mut i: usize = 1;
    while i < data.len()
        invariant
            1 <= i <= data@.len(),
            data@.len() > 0,
            forall|k: int| 0 <= k < data@.len() ==> (#[trigger] data@[k])@.results.tests
                < u64::MAX,
            exists|k: int| 0 <= k < i && (#[trigger] data@[k])@.results.tests == max,
            forall|k: int| 0 <= k < i ==> (#[trigger] data@[k])@.results.tests <= max,
        decreases data@.len() - i,
    {
        if max < data[i].results.tests {
            max = data[i].results.tests;
        }
        i += 1;
    }
    max + 1
}

/// The series of one counter over a date range: one point per day that
/// has a record, skipping the days that do not.
pub fn series_points(data: &Vec<TestsuiteResult>, range: &DateRange, metric: Metric) -> (r: Vec<
    (Date, u64),
>)
    requires
        range.0.valid(),
    ensures
        r@ == spec_series(views_of(data@), range.0, range.1, metric),
{
    let ghost s = views_of(data@);
    let hi = range.1;
    let mut cur = range.0;
    let mut done = false;
    let mut out: Vec<(Date, u64)> = Vec::new();
    proof {
        assert(out@ + spec_series(s, cur, hi, metric) =~= spec_series(s, cur, hi, metric));
    }
    while !done
        invariant
            cur.valid(),
            s == views_of(data@),
            hi == range.1,
            spec_series(s, range.0, hi, metric) == out@ + (if done {
                Seq::<(Date, u64)>::empty()
            } else {
                spec_series(s, cur, hi, metric)
            }),
        decreases (if done {
            0int
        } else if !cur.spec_le(hi) {
            1int
        } else {
            range_measure(cur, hi) + 2
        }),
    {
        if !cur.le(&hi) {
            proof {
                assert(spec_series(s, cur, hi, metric) =~= Seq::<(Date, u64)>::empty());
                assert(out@ + Seq::<(Date, u64)>::empty() =~= out@);
            }
            done = true;
        } else {
            let ghost prev = out@;
            let found = match find_by_date(data, &cur) {
                Some(t) => Some((cur, match metric {
                    Metric::Tests => t.results.tests,
                    Metric::Passes => t.results.passes,
                    Metric::Failures => t.results.failures,
                })),
                None => None,
            };
            if let Some(pt) = found {
                out.push(pt);
            }
            proof {
                if spec_find_date(s, cur) is Some {
                    assert(out@ =~= prev.push(
                        (cur, metric_of(spec_find_date(s, cur)->Some_0, metric)),
                    ));
                }
            }
            proof {
                assert(crate::date::spec_days_in_month(cur.year, cur.month) <= 31);
                assert(range_measure(cur, hi) >= 0);
            }
            match cur.succ() {
                Some(n) => {
                    if n.le(&hi) {
                        proof {
                            if spec_find_date(s, cur) is Some {
                                let v = spec_find_date(s, cur)->Some_0;
                                assert(prev.push((cur, metric_of(v, metric))) =~= prev + seq![
                                    (cur, metric_of(v, metric)),
                                ]);
                                vstd::seq_lib::lemma_concat_associative(
                                    prev,
                                    seq![(cur, metric_of(v, metric))],
                                    spec_series(s, n, hi, metric),
                                );
                            }
                        }
                        proof {
                            assert(Some(n) == cur.spec_succ());
                            assert(crate::date::spec_days_in_month(cur.year, cur.month) <= 31);
                            assert(range_measure(n, hi) < range_measure(cur, hi)) by {
                                if cur.day < crate::date::spec_days_in_month(
                                    cur.year,
                                    cur.month,
                                ) {
                                    assert(n == Date {
                                        year: cur.year,
                                        month: cur.month,
                                        day: (cur.day + 1) as u8,
                                    });
                                } else if cur.month < 12 {
                                    assert(n == Date {
                                        year: cur.year,
                                        month: (cur.month + 1) as u8,
                                        day: 1u8,
                                    });
                                } else {
                                    assert(n == Date {
                                        year: (cur.year + 1) as u16,
                                        month: 1u8,
                                        day: 1u8,
                                    });
                                }
                            }
                        }
                        cur = n;
                    } else {
                        proof {
                            if spec_find_date(s, cur) is Some {
                                let v = spec_find_date(s, cur)->Some_0;
                                assert(spec_series(s, cur, hi, metric) =~= seq![
                                    (cur, metric_of(v, metric)),
                                ]);
                                assert(out@ =~= prev + spec_series(s, cur, hi, metric));
                            } else {
                                assert(spec_series(s, cur, hi, metric) =~= Seq::<(
                                    Date,
                                    u64,
                                )>::empty());
                                assert(out@ + Seq::<(Date, u64)>::empty() =~= out@);
                            }
                        }
                        done = true;
                    }
                },
                None => {
                    proof {
                        if spec_find_date(s, cur) is Some {
                            let v = spec_find_date(s, cur)->Some_0;
                            assert(spec_series(s, cur, hi, metric) =~= seq![
                                (cur, metric_of(v, metric)),
                            ]);
                            assert(out@ =~= prev + spec_series(s, cur, hi, metric));
                        } else {
                            assert(spec_series(s, cur, hi, metric) =~= Seq::<(
                                Date,
                                u64,
                            )>::empty());
                            assert(out@ + Seq::<(Date, u64)>::empty() =~= out@);
                        }
                    }
                    done = true;
                },
            }
        }
    }
    out
}

} // verus!
