use chrono::{Datelike, Days, Local, NaiveDate};
use shittd::dates::{leap_year, month_length, Date, LocalDay, Timeframe};
use shittd::task::{date_of_readings, parse_date, DateFault, InvalidDate};

fn date(year: i32, month: u32, day: u32) -> Date {
    Date::new(year, month, day).unwrap()
}

fn of_chrono(naive: NaiveDate) -> Date {
    date(naive.year(), naive.month(), naive.day())
}

#[test]
fn new_takes_the_days_that_the_calendar_has() {
    assert_eq!(Date::new(2024, 3, 15), Some(Date { year: 2024, month: 3, day: 15 }));
    assert_eq!(Date::new(2024, 2, 29), Some(Date { year: 2024, month: 2, day: 29 }));
    assert_eq!(Date::new(2023, 2, 29), None);
    assert_eq!(Date::new(1900, 2, 29), None);
    assert_eq!(Date::new(2000, 2, 29), Some(Date { year: 2000, month: 2, day: 29 }));
    assert_eq!(Date::new(2024, 4, 31), None);
    assert_eq!(Date::new(2024, 4, 30), Some(Date { year: 2024, month: 4, day: 30 }));
    assert_eq!(Date::new(2024, 0, 1), None);
    assert_eq!(Date::new(2024, 13, 1), None);
    assert_eq!(Date::new(2024, 1, 0), None);
    assert_eq!(Date::new(2024, 1, 32), None);
    assert_eq!(Date::new(-4, 2, 29), Some(Date { year: -4, month: 2, day: 29 }));
    assert_eq!(Date::new(i32::MAX, 12, 31), Some(Date { year: i32::MAX, month: 12, day: 31 }));
}

#[test]
fn leap_years_and_month_lengths() {
    assert!(leap_year(2024));
    assert!(!leap_year(2023));
    assert!(!leap_year(1900));
    assert!(leap_year(2000));
    assert!(leap_year(0));
    assert!(leap_year(-4));
    assert!(!leap_year(-1));
    assert!(!leap_year(-100));
    assert!(leap_year(-400));
    let lengths: Vec<u32> = (1..=12).map(|m| month_length(2023, m)).collect();
    assert_eq!(lengths, vec![31, 28, 31, 30, 31, 30, 31, 31, 30, 31, 30, 31]);
    assert_eq!(month_length(2024, 2), 29);
}

#[test]
fn tomorrow_is_the_next_day_of_the_calendar() {
    assert_eq!(date(2024, 3, 15).tomorrow(), date(2024, 3, 16));
    assert_eq!(date(2024, 2, 28).tomorrow(), date(2024, 2, 29));
    assert_eq!(date(2024, 2, 29).tomorrow(), date(2024, 3, 1));
    assert_eq!(date(2023, 2, 28).tomorrow(), date(2023, 3, 1));
    assert_eq!(date(2024, 4, 30).tomorrow(), date(2024, 5, 1));
    assert_eq!(date(2024, 12, 31).tomorrow(), date(2025, 1, 1));
    assert_eq!(date(-1, 12, 31).tomorrow(), date(0, 1, 1));
    assert_eq!(date(i32::MAX, 12, 30).tomorrow(), date(i32::MAX, 12, 31));
}

#[test]
fn tomorrow_agrees_with_chrono_over_eight_years() {
    let mut naive = NaiveDate::from_ymd_opt(1897, 1, 1).unwrap();
    for _ in 0..(366 * 8) {
        let next = naive + Days::new(1);
        assert_eq!(of_chrono(naive).tomorrow(), of_chrono(next));
        assert!(of_chrono(naive).precedes(&of_chrono(next)));
        naive = next;
    }
}

#[test]
fn precedes_is_the_order_of_the_calendar() {
    assert!(date(2024, 3, 15).precedes(&date(2024, 3, 16)));
    assert!(!date(2024, 3, 16).precedes(&date(2024, 3, 15)));
    assert!(!date(2024, 3, 15).precedes(&date(2024, 3, 15)));
    assert!(date(2024, 3, 31).precedes(&date(2024, 4, 1)));
    assert!(date(2023, 12, 31).precedes(&date(2024, 1, 1)));
    assert!(!date(2024, 1, 1).precedes(&date(2023, 12, 31)));
    assert!(date(-5, 1, 1).precedes(&date(-4, 1, 1)));
}

#[test]
fn parse_date_reads_a_calendar_date() {
    assert_eq!(parse_date("2024-03-15".to_string()).unwrap(), date(2024, 3, 15));
    assert_eq!(parse_date("2024-02-29".to_string()).unwrap(), date(2024, 2, 29));
    assert_eq!(parse_date("1999-12-31".to_string()).unwrap(), date(1999, 12, 31));
    assert_eq!(parse_date("2024-3-5".to_string()).unwrap(), date(2024, 3, 5));
}

#[test]
fn parse_date_keeps_a_calendar_date_as_chrono_reads_it() {
    let texts = [
        "2024-03-15",
        "2024-03-15 ",
        " 2024-03-15",
        "2024- 03 -15",
        "+12345-6-7",
        "-0044-03-15",
        "0001-01-01",
        "9999-12-31",
        "2024-03-15T",
        "2024-03-15 10",
        "2024-03-15T10:00:00Z",
        "2024-03-15 10:00:00 +01:00",
        "2024-03-15t10:00:00.5-0330",
        "2024-03-15 10:00:00 UTC",
        "2024-02-30",
        "20240315",
    ];
    for text in texts {
        let as_day = text.parse::<NaiveDate>();
        let as_moment = text.parse::<chrono::DateTime<Local>>();
        assert!(!(as_day.is_ok() && as_moment.is_ok()));
        let parsed = parse_date(text.to_string());
        match (as_day, as_moment) {
            (Ok(day), _) => assert_eq!(parsed.unwrap(), of_chrono(day)),
            (_, Ok(moment)) => assert_eq!(parsed.unwrap(), of_chrono(moment.date_naive())),
            _ => assert_eq!(parsed.unwrap_err().text, text),
        }
    }
}

#[test]
fn parse_date_reads_a_date_and_time_in_local_time() {
    let text = "2024-03-15T12:30:00+00:00";
    let expected = text.parse::<chrono::DateTime<Local>>().unwrap().date_naive();
    let parsed = parse_date(text.to_string()).unwrap();
    assert_eq!(parsed, of_chrono(expected));
    assert!(date(2024, 3, 13).precedes(&parsed));
    assert!(parsed.precedes(&date(2024, 3, 17)));

    let late = "2024-12-31T23:59:59-12:00";
    let expected = late.parse::<chrono::DateTime<Local>>().unwrap().date_naive();
    assert_eq!(parse_date(late.to_string()).unwrap(), of_chrono(expected));
    assert!(parse_date("2024-03-15 08:00:00Z".to_string()).is_ok());
}

#[test]
fn parse_date_refuses_what_is_no_date() {
    for text in ["", "tomorrow", "2024-13-01", "2023-02-29", "15/03/2024", "2024-03-15T25:00:00Z"] {
        let error: InvalidDate = parse_date(text.to_string()).unwrap_err();
        assert_eq!(error.text, text);
        assert_eq!(error.fault, DateFault::NotADate);
        assert!(error.message.starts_with("Need a valid RFC3339-formatted date or datetime: "));
        assert!(error.message.len() > "Need a valid RFC3339-formatted date or datetime: ".len());
    }
    let error = parse_date("foo".to_string()).unwrap_err();
    assert_eq!(
        error.message,
        "Need a valid RFC3339-formatted date or datetime: input contains invalid characters"
    );
    let error = parse_date("2024-13-01".to_string()).unwrap_err();
    assert_eq!(
        error.message,
        "Need a valid RFC3339-formatted date or datetime: input is out of range"
    );
}

#[test]
fn date_of_readings_takes_the_moment_first() {
    let moment = date(2024, 3, 16);
    let bare = date(2024, 3, 15);
    assert_eq!(
        date_of_readings("x".to_string(), LocalDay::Day(moment), Ok(bare)).unwrap(),
        moment
    );
    assert_eq!(
        date_of_readings("x".to_string(), LocalDay::Day(moment), Err("no".to_string())).unwrap(),
        moment
    );
    assert_eq!(date_of_readings("x".to_string(), LocalDay::NoMoment, Ok(bare)).unwrap(), bare);
    let error =
        date_of_readings("x".to_string(), LocalDay::NoMoment, Err("no".to_string())).unwrap_err();
    assert_eq!(error.text, "x");
    assert_eq!(error.fault, DateFault::NotADate);
    assert_eq!(error.message, "Need a valid RFC3339-formatted date or datetime: no");
}

#[test]
fn date_of_readings_refuses_a_day_out_of_reach() {
    for as_day in [Ok(date(2024, 3, 15)), Err("no".to_string())] {
        let error = date_of_readings("x".to_string(), LocalDay::OutOfReach, as_day).unwrap_err();
        assert_eq!(error.text, "x");
        assert_eq!(error.fault, DateFault::DayOutOfReach);
        assert_eq!(
            error.message,
            "Need a valid RFC3339-formatted date or datetime: local date is out of range"
        );
    }
}

#[test]
fn parse_date_tells_a_day_out_of_reach_from_no_date() {
    let error = parse_date("not a date".to_string()).unwrap_err();
    assert_eq!(error.fault, DateFault::NotADate);
    for text in ["+262142-12-31T23:59:59+00:00", "-262143-01-01T00:00:00+00:00"] {
        let moment = text.parse::<chrono::DateTime<Local>>().unwrap();
        let local = moment.naive_utc().checked_add_offset(*moment.offset());
        match (local, parse_date(text.to_string())) {
            (Some(held), Ok(day)) => assert_eq!(day, of_chrono(held.date())),
            (None, Err(error)) => {
                assert_eq!(error.fault, DateFault::DayOutOfReach);
                assert_eq!(error.text, text);
            },
            (held, read) => panic!("{held:?} and {read:?} disagree"),
        }
    }
}

#[test]
fn a_listing_for_today_shows_what_is_due_by_then() {
    let today = date(2024, 3, 15);
    assert!(Timeframe::Today.shows(date(2024, 3, 15), today));
    assert!(Timeframe::Today.shows(date(2024, 3, 14), today));
    assert!(Timeframe::Today.shows(date(2023, 12, 31), today));
    assert!(!Timeframe::Today.shows(date(2024, 3, 16), today));
    assert!(!Timeframe::Today.shows(date(2025, 1, 1), today));
    assert!(Timeframe::All.shows(date(2024, 3, 16), today));
    assert!(Timeframe::All.shows(date(2000, 1, 1), today));
}
