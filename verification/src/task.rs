//! A single task, and the reading of dates that a user writes.

use crate::dates::{Date, LocalDay};
use crate::platform::{
    calendar_date_in, from_chrono, is_date_and_time, local_date_of_datetime, parse_calendar_date,
    today,
};
use vstd::prelude::*;
use vstd::string::StringExecFns;

verus! {

/// One item of the list.
#[derive(Clone, Debug)]
pub struct Task {
    pub id: u8,
    pub name: String,
    pub date: Date,
    pub complete: bool,
}

/// A task as a value: what the contracts speak of.
pub struct TaskView {
    pub id: nat,
    pub name: Seq<char>,
    pub date: Date,
    pub complete: bool,
}

impl View for Task {
    type V = TaskView;

    open spec fn view(&self) -> TaskView {
        TaskView { id: self.id as nat, name: self.name@, date: self.date, complete: self.complete }
    }
}

impl TaskView {
    /// The task once it is done.
    pub open spec fn finished(self) -> TaskView {
        TaskView { complete: true, ..self }
    }

    /// The task once it is due on `date`.
    pub open spec fn moved_to(self, date: Date) -> TaskView {
        TaskView { date, ..self }
    }

    /// The task once it is put off on the day `today`: due on the day after.
    pub open spec fn pushed(self, today: Date) -> TaskView {
        self.moved_to(today.day_after())
    }
}

/// The name of a task that was given none.
pub open spec fn placeholder_name() -> Seq<char> {
    "Some Task"@
}

impl Task {
    /// A task that is not in any store yet, due on `today`.
    pub fn blank(today: Date) -> (task: Task)
        ensures
            task@ == (TaskView { id: 0, name: placeholder_name(), date: today, complete: false }),
    {
        Task { id: 0, name: String::from_str("Some Task"), date: today, complete: false }
    }

    /// Puts the task off to the day after `today`, whatever its date was.
    pub fn push_from(&mut self, today: Date)
        requires
            today.is_valid(),
            !today.is_last(),
        ensures
            final(self)@ == old(self)@.pushed(today),
            final(self).date.is_valid(),
    {
        self.date = today.tomorrow();
    }

    /// Puts the task off to the day after the current local day, whatever its
    /// date was.
    pub fn push(&mut self)
        ensures
            exists|today: Date| from_chrono(today) && final(self)@ == old(self)@.pushed(today),
            final(self).date.is_valid(),
    {
        let now = today();
        self.push_from(now);
    }

    /// Marks the task as done. On a task that is done nothing changes.
    pub fn finish(&mut self)
        ensures
            final(self)@ == old(self)@.finished(),
    {
        self.complete = true;
    }
}

impl Default for Task {
    /// A task that is not in any store yet, due on the current local day.
    fn default() -> (task: Task)
        ensures
            task@.id == 0,
            task@.name == placeholder_name(),
            !task@.complete,
            from_chrono(task@.date),
    {
        Task::blank(today())
    }
}

/// Why a text is no date.
#[derive(Clone, Copy, Debug, PartialEq, Eq, Structural)]
pub enum DateFault {
    /// The text is neither a date and time of day nor a calendar date.
    NotADate,
    /// The text is a date and time of day whose day in the local time zone
    /// is beyond the days that can be held.
    DayOutOfReach,
}

/// A text that was given for a date and is none.
#[derive(Clone, Debug)]
pub struct InvalidDate {
    /// The text as it was given.
    pub text: String,
    /// Why it is no date.
    pub fault: DateFault,
    /// What is wrong with it, in words.
    pub message: String,
}

/// What starts the message of every `InvalidDate`.
pub open spec fn invalid_date_prefix() -> Seq<char> {
    "Need a valid RFC3339-formatted date or datetime: "@
}

/// What the message says of a day that is out of reach.
pub open spec fn out_of_reach_reason() -> Seq<char> {
    "local date is out of range"@
}

/// `text` names no date: it is neither a date and time of day nor a
/// calendar date.
pub open spec fn names_no_date(text: Seq<char>) -> bool {
    !is_date_and_time(text) && calendar_date_in(text) is None
}

/// `e` is an error that reading `text` as a date can give: it holds the text,
/// its message starts as every such message does, and its fault is true of the
/// text.
pub open spec fn is_refusal_of(e: InvalidDate, text: Seq<char>) -> bool {
    &&& e.text@ == text
    &&& invalid_date_prefix().is_prefix_of(e.message@)
    &&& calendar_date_in(text) is None
    &&& match e.fault {
        DateFault::NotADate => names_no_date(text),
        DateFault::DayOutOfReach => is_date_and_time(text),
    }
}

/// Decides on a date for `value` from its two readings: `as_moment` is what
/// reading it as a date and time of day gave, and `as_day` the calendar date
/// that it names, or what is wrong with it as one. The reading as date and
/// time comes first; a calendar date counts only where that reading found no
/// date and time.
pub fn date_of_readings(value: String, as_moment: LocalDay, as_day: Result<Date, String>) -> (r:
    Result<Date, InvalidDate>)
    ensures
        match (as_moment, as_day) {
            (LocalDay::Day(date), _) => r == Ok::<Date, InvalidDate>(date),
            (LocalDay::OutOfReach, _) => {
                &&& r matches Err(e)
                &&& e.text@ == value@
                &&& e.fault == DateFault::DayOutOfReach
                &&& e.message@ == invalid_date_prefix() + out_of_reach_reason()
            },
            (LocalDay::NoMoment, Ok(date)) => r == Ok::<Date, InvalidDate>(date),
            (LocalDay::NoMoment, Err(reason)) => {
                &&& r matches Err(e)
                &&& e.text@ == value@
                &&& e.fault == DateFault::NotADate
                &&& e.message@ == invalid_date_prefix() + reason@
            },
        },
{
    match as_moment {
        LocalDay::Day(date) => Ok(date),
        LocalDay::OutOfReach => {
            let prefix = String::from_str("Need a valid RFC3339-formatted date or datetime: ");
            Err(
                InvalidDate {
                    text: value,
                    fault: DateFault::DayOutOfReach,
                    message: prefix.concat("local date is out of range"),
                },
            )
        },
        LocalDay::NoMoment => match as_day {
            Ok(date) => Ok(date),
            Err(reason) => {
                let prefix = String::from_str("Need a valid RFC3339-formatted date or datetime: ");
                Err(
                    InvalidDate {
                        text: value,
                        fault: DateFault::NotADate,
                        message: prefix.concat(reason.as_str()),
                    },
                )
            },
        },
    }
}

/// Reads a date that a user wrote: either a date and time of day with an
/// offset, of which the day in the local time zone is kept, or a calendar
/// date alone, which is kept as it is. A text that is neither is an error,
/// and so is a date and time of day whose local day is out of reach; every
/// other text gives a date.
pub fn parse_date(value: String) -> (r: Result<Date, InvalidDate>)
    ensures
        calendar_date_in(value@) matches Some(date) ==> r == Ok::<Date, InvalidDate>(date),
        names_no_date(value@) ==> r is Err,
        is_date_and_time(value@) ==> r is Ok || (r matches Err(e) && e.fault
            == DateFault::DayOutOfReach),
        r matches Ok(date) ==> from_chrono(date) && !names_no_date(value@),
        r matches Err(e) ==> is_refusal_of(e, value@),
{
    let as_moment = local_date_of_datetime(value.as_str());
    let as_day = parse_calendar_date(value.as_str());
    date_of_readings(value, as_moment, as_day)
}

} // verus!
