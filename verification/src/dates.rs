//! Calendar dates of the proleptic Gregorian calendar, and the spans of time
//! that a listing can be asked for.

use vstd::prelude::*;

verus! {

/// A calendar date without a time of day.
#[derive(Clone, Copy, Debug, PartialEq, Eq, Structural, Hash)]
pub struct Date {
    pub year: i32,
    pub month: u32,
    pub day: u32,
}

/// What a text that was read as a date and time of day gives for a day.
#[derive(Clone, Copy, Debug, PartialEq, Eq, Structural)]
pub enum LocalDay {
    /// The text is no date and time of day.
    NoMoment,
    /// The text is a date and time of day, and its day in the local time
    /// zone is beyond the days that can be held.
    OutOfReach,
    /// The day in the local time zone of the date and time of day that the
    /// text is.
    Day(Date),
}

/// Which tasks a listing shows.
#[derive(Clone, Copy, Debug, PartialEq, Eq, Structural)]
pub enum Timeframe {
    /// The tasks of the current day.
    Today,
    /// Every task.
    All,
}

impl Timeframe {
    /// A listing of this span on the day `today` shows what is due on `due`:
    /// everything, or for the current day what is due by then.
    pub open spec fn includes(self, due: Date, today: Date) -> bool {
        match self {
            Timeframe::Today => due.not_after(today),
            Timeframe::All => true,
        }
    }

    /// Whether a listing of this span on the day `today` shows what is due on
    /// `due`.
    pub fn shows(self, due: Date, today: Date) -> (r: bool)
        ensures
            r == self.includes(due, today),
    {
        match self {
            Timeframe::Today => !today.precedes(&due),
            Timeframe::All => true,
        }
    }
}

/// Whether `year` has a 29th of February.
pub open spec fn is_leap_year(year: int) -> bool {
    year % 4 == 0 && (year % 100 != 0 || year % 400 == 0)
}

/// The number of days of `month` in `year`, for a month from 1 to 12.
pub open spec fn days_in_month(year: int, month: int) -> int {
    if month == 2 {
        if is_leap_year(year) {
            29
        } else {
            28
        }
    } else if month == 4 || month == 6 || month == 9 || month == 11 {
        30
    } else {
        31
    }
}

impl Date {
    /// The date names a day that the calendar has.
    pub open spec fn is_valid(self) -> bool {
        &&& 1 <= self.month <= 12
        &&& 1 <= self.day <= days_in_month(self.year as int, self.month as int)
    }

    /// `self` is an earlier day than `other`.
    pub open spec fn is_before(self, other: Date) -> bool {
        ||| self.year < other.year
        ||| self.year == other.year && self.month < other.month
        ||| self.year == other.year && self.month == other.month && self.day < other.day
    }

    /// `self` is the same day as `other` or an earlier one.
    pub open spec fn not_after(self, other: Date) -> bool {
        self == other || self.is_before(other)
    }

    /// The last day of the last year that fits the year's type: the one date
    /// without a following day.
    pub open spec fn is_last(self) -> bool {
        self.year == i32::MAX && self.month == 12 && self.day == 31
    }

    /// The day that follows `self`.
    pub open spec fn day_after(self) -> Date {
        if self.day < days_in_month(self.year as int, self.month as int) {
            Date { year: self.year, month: self.month, day: (self.day + 1) as u32 }
        } else if self.month < 12 {
            Date { year: self.year, month: (self.month + 1) as u32, day: 1 }
        } else {
            Date { year: (self.year + 1) as i32, month: 1, day: 1 }
        }
    }

    /// The date `year`-`month`-`day`, if the calendar has such a day.
    pub fn new(year: i32, month: u32, day: u32) -> (r: Option<Date>)
        ensures
            r == if (Date { year, month, day }).is_valid() {
                Some(Date { year, month, day })
            } else {
                None
            },
    {
        if 1 <= month && month <= 12 && 1 <= day && day <= month_length(year, month) {
            Some(Date { year, month, day })
        } else {
            None
        }
    }

    /// Whether `self` is an earlier day than `other`.
    pub fn precedes(&self, other: &Date) -> (r: bool)
        ensures
            r == self.is_before(*other),
    {
        self.year < other.year || (self.year == other.year && (self.month < other.month || (
        self.month == other.month && self.day < other.day)))
    }

    /// The day that follows `self`.
    pub fn tomorrow(self) -> (r: Date)
        requires
            self.is_valid(),
            !self.is_last(),
        ensures
            r == self.day_after(),
            r.is_valid(),
            self.is_before(r),
    {
        if self.day < month_length(self.year, self.month) {
            Date { year: self.year, month: self.month, day: self.day + 1 }
        } else if self.month < 12 {
            Date { year: self.year, month: self.month + 1, day: 1 }
        } else {
            Date { year: self.year + 1, month: 1, day: 1 }
        }
    }
}

/// The days stand in a line: of two different days one is before the
/// other, no day is before itself, and what is before an earlier day is
/// before a later one.
pub proof fn lemma_days_in_line(a: Date, b: Date, c: Date)
    ensures
        a == b || a.is_before(b) || b.is_before(a),
        !a.is_before(a),
        !(a.is_before(b) && b.is_before(a)),
        a.is_before(b) && b.is_before(c) ==> a.is_before(c),
{
}

/// The day after a day is the next one: it is later, it is a day of the
/// calendar, and no day of the calendar lies between the two.
pub proof fn lemma_day_after_is_next(day: Date, other: Date)
    requires
        day.is_valid(),
        !day.is_last(),
    ensures
        day.day_after().is_valid(),
        day.is_before(day.day_after()),
        other.is_valid() && day.is_before(other) ==> day.day_after().not_after(other),
{
}

/// Whether `year` has a 29th of February.
pub fn leap_year(year: i32) -> (r: bool)
    ensures
        r == is_leap_year(year as int),
{
    year % 4 == 0 && (year % 100 != 0 || year % 400 == 0)
}

/// The number of days of `month` in `year`.
pub fn month_length(year: i32, month: u32) -> (r: u32)
    requires
        1 <= month <= 12,
    ensures
        r == days_in_month(year as int, month as int),
{
    if month == 2 {
        if leap_year(year) {
            29
        } else {
            28
        }
    } else if month == 4 || month == 6 || month == 9 || month == 11 {
        30
    } else {
        31
    }
}

} // verus!
