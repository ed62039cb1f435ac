//! Calendar dates for result records.
//!
//! A record's temporal axis is a plain calendar date (no time of day).
//! Dates are held as year/month/day fields with the Gregorian validity
//! rules as an invariant, so that ordering, successor computation and the
//! fixed `YYYY-MM-DD` rendering can all be verified directly.

use vstd::prelude::*;

verus! {

/// A calendar date: year, month and day of month.
#[derive(Clone, Copy, Debug, PartialEq, Eq, Hash, Structural)]
pub struct Date {
    pub year: u16,
    pub month: u8,
    pub day: u8,
}

/// A leap year in the Gregorian calendar.
pub open spec fn spec_is_leap_year(year: u16) -> bool {
    year % 4 == 0 && (year % 100 != 0 || year % 400 == 0)
}

/// Number of days in a month of a given year; 0 for an invalid month.
pub open spec fn spec_days_in_month(year: u16, month: u8) -> u8 {
    if month == 1 || month == 3 || month == 5 || month == 7 || month == 8 || month == 10
        || month == 12 {
        31
    } else if month == 4 || month == 6 || month == 9 || month == 11 {
        30
    } else if month == 2 {
        if spec_is_leap_year(year) {
            29
        } else {
            28
        }
    } else {
        0
    }
}

impl Date {
    /// A well-formed date: the year has at most four digits, the month
    /// exists and the day exists within that month.
    pub open spec fn valid(self) -> bool {
        1 <= self.year <= 9999 && 1 <= self.month <= 12 && 1 <= self.day
            <= spec_days_in_month(self.year, self.month)
    }

    /// Order dates by year, then month, then day.
    pub open spec fn spec_le(self, other: Date) -> bool {
        if self.year != other.year {
            self.year < other.year
        } else if self.month != other.month {
            self.month < other.month
        } else {
            self.day <= other.day
        }
    }

    /// `self` is strictly before `other`.
    pub open spec fn spec_lt(self, other: Date) -> bool {
        self.spec_le(other) && self != other
    }

    /// Whether `self` is on or before `other`.
    pub fn le(&self, other: &Date) -> (r: bool)
        ensures
            r == self.spec_le(*other),
    {
        if self.year != other.year {
            self.year < other.year
        } else if self.month != other.month {
            self.month < other.month
        } else {
            self.day <= other.day
        }
    }

    /// The day after `self`, or `None` past the last representable date.
    pub open spec fn spec_succ(self) -> Option<Date> {
        if self.day < spec_days_in_month(self.year, self.month) {
            Some(Date { year: self.year, month: self.month, day: (self.day + 1) as u8 })
        } else if self.month < 12 {
            Some(Date { year: self.year, month: (self.month + 1) as u8, day: 1 })
        } else if self.year < 9999 {
            Some(Date { year: (self.year + 1) as u16, month: 1, day: 1 })
        } else {
            None
        }
    }

    /// The day after `self`, or `None` past the last representable date.
    pub fn succ(&self) -> (r: Option<Date>)
        requires
            self.valid(),
        ensures
            r == self.spec_succ(),
            match r {
                Some(d) => d.valid() && self.spec_lt(d) && forall|m: Date|
                    m.valid() && self.spec_lt(m) ==> d.spec_le(m),
                None => self.year == 9999 && self.month == 12 && self.day == 31,
            },
    {
        let days = days_in_month(self.year, self.month);
        if self.day < days {
            Some(Date { year: self.year, month: self.month, day: self.day + 1 })
        } else if self.month < 12 {
            Some(Date { year: self.year, month: self.month + 1, day: 1 })
        } else if self.year < 9999 {
            Some(Date { year: self.year + 1, month: 1, day: 1 })
        } else {
            None
        }
    }
}

/// Number of days in a month of a given year.
pub fn days_in_month(year: u16, month: u8) -> (r: u8)
    ensures
        r == spec_days_in_month(year, month),
{
    if month == 1 || month == 3 || month == 5 || month == 7 || month == 8 || month == 10
        || month == 12 {
        31
    } else if month == 4 || month == 6 || month == 9 || month == 11 {
        30
    } else if month == 2 {
        if year % 4 == 0 && (year % 100 != 0 || year % 400 == 0) {
            29
        } else {
            28
        }
    } else {
        0
    }
}

} // verus!
