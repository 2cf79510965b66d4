//! What the library takes from the clock, the environment and other crates.
//! The contracts in this file are believed, not proved.

use crate::dates::{Date, LocalDay};
use chrono::Datelike;
use vstd::prelude::*;

verus! {

/// No date that `chrono` hands out has a year below this one.
pub const CHRONO_FIRST_YEAR: i32 = -262_144;

/// No date that `chrono` hands out has a year above this one.
pub const CHRONO_LAST_YEAR: i32 = 262_143;

/// A date as `chrono` hands it out: a day of the calendar, in a year that
/// `chrono::NaiveDate` can hold.
pub open spec fn from_chrono(date: Date) -> bool {
    date.is_valid() && CHRONO_FIRST_YEAR <= date.year <= CHRONO_LAST_YEAR
}

/// What `chrono::NaiveDate::from_str` makes of `text`: the date that it
/// parses to, or `None` where it returns an error.
pub uninterp spec fn calendar_date_in(text: Seq<char>) -> Option<Date>;

/// Whether `chrono::DateTime::<chrono::Local>::from_str` accepts `text`, that
/// is, returns `Ok`: whether `text` is a date and time of day with an offset,
/// in the form that `chrono` reads.
pub uninterp spec fn is_date_and_time(text: Seq<char>) -> bool;

/// The current day in the local time zone: `chrono::Local::now().date_naive()`,
/// read through `Datelike::year`, `month` and `day`. Nothing is claimed of which
/// day comes back, only that it is a day that `chrono` can hold. `chrono` does
/// not return where the clock of the system stands before the year 1970.
#[verifier::external_body]
pub(crate) fn today() -> (date: Date)
    ensures
        from_chrono(date),
{
    let now = chrono::Local::now().date_naive();
    Date { year: now.year(), month: now.month(), day: now.day() }
}

/// `text.parse::<chrono::DateTime<chrono::Local>>()`, reduced to the calendar
/// date that the parsed moment has in the local time zone. The result is
/// `NoMoment` exactly where the parse fails, that is, where `is_date_and_time`
/// does not hold. The local date is taken with `checked_add_offset`: a moment
/// whose local date `chrono` cannot hold gives `OutOfReach`, where `date_naive`
/// would not return. Which date comes back depends on the time zone of the
/// machine: of the date no more is claimed than that it is a day that `chrono`
/// can hold. A text that the parser accepts does not parse as a calendar date:
/// the parser wants a time of day behind the day, where
/// `chrono::NaiveDate::from_str` accepts white space alone.
#[verifier::external_body]
pub(crate) fn local_date_of_datetime(text: &str) -> (reading: LocalDay)
    ensures
        reading is NoMoment <==> !is_date_and_time(text@),
        reading matches LocalDay::Day(d) ==> from_chrono(d),
        !(reading is NoMoment) ==> calendar_date_in(text@) is None,
{
    match text.parse::<chrono::DateTime<chrono::Local>>() {
        Ok(moment) => match moment.naive_utc().checked_add_offset(*moment.offset()) {
            Some(local) => {
                let day = local.date();
                LocalDay::Day(Date { year: day.year(), month: day.month(), day: day.day() })
            },
            None => LocalDay::OutOfReach,
        },
        Err(_) => LocalDay::NoMoment,
    }
}

/// `text.parse::<chrono::NaiveDate>()`: the parsed date, or the text of
/// `chrono`'s error. The result is `Ok` exactly where `calendar_date_in` has a
/// date, and holds that date, which is a day that `chrono` can hold.
#[verifier::external_body]
pub(crate) fn parse_calendar_date(text: &str) -> (parsed: Result<Date, String>)
    ensures
        parsed is Ok <==> calendar_date_in(text@) is Some,
        parsed matches Ok(d) ==> calendar_date_in(text@) == Some(d) && from_chrono(d),
{
    match text.parse::<chrono::NaiveDate>() {
        Ok(day) => Ok(Date { year: day.year(), month: day.month(), day: day.day() }),
        Err(fault) => Err(fault.to_string()),
    }
}

/// `home::home_dir()`, as text: the home directory of the user that runs the
/// process, `None` where there is none or where its path is not Unicode.
/// Nothing is claimed of the result.
#[verifier::external_body]
pub(crate) fn home_directory() -> Option<String> {
    match home::home_dir() {
        Some(path) => path.into_os_string().into_string().ok(),
        None => None,
    }
}

/// A plain file name: not empty, without a separator of either kind and
/// without a colon, and neither `.` nor `..`.
pub open spec fn is_file_name(leaf: Seq<char>) -> bool {
    &&& leaf.len() > 0
    &&& forall|i: int|
        0 <= i < leaf.len() ==> leaf[i] != '/' && leaf[i] != '\\' && leaf[i] != ':'
    &&& leaf != seq!['.']
    &&& leaf != seq!['.', '.']
}

/// The directory starts as a verbatim path of Windows does: `\\?\`.
pub open spec fn is_verbatim(directory: Seq<char>) -> bool {
    seq!['\\', '\\', '?', '\\'].is_prefix_of(directory)
}

/// `path` is the file `leaf` in `directory`: it ends with `leaf`, is at most
/// one separator longer than the two, and starts with `directory` unless
/// that is a verbatim path.
pub open spec fn is_path_in(path: Seq<char>, directory: Seq<char>, leaf: Seq<char>) -> bool {
    &&& leaf.is_suffix_of(path)
    &&& path.len() <= directory.len() + 1 + leaf.len()
    &&& !is_verbatim(directory) ==> directory.is_prefix_of(path)
}

/// `std::path::Path::new(directory).join(leaf)`, as text. For a plain file
/// name `join` adjoins the name to the directory: the result is the directory,
/// the platform's separator where the directory does not end in one, and the
/// name. Which separator that is, and whether it is needed, is the
/// platform's, so the claim is that of `is_path_in`. On Windows std rebuilds
/// a directory with a verbatim prefix from its components, so the start is
/// not claimed there.
#[verifier::external_body]
pub(crate) fn path_in(directory: &str, leaf: &str) -> (path: String)
    ensures
        is_file_name(leaf@) ==> is_path_in(path@, directory@, leaf@),
{
    std::path::Path::new(directory).join(leaf).to_string_lossy().into_owned()
}

} // verus!
