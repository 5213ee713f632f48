use task_tree::session::timestamp::{local_utc, parse_date, parse_time, TimeOfDay, Ts, TsErr};
use task_tree::time::{Date, LocalDateTime, Zone};

fn zone() -> Zone {
    Zone::new("America/Santiago").unwrap()
}

fn date(year: i32, month: u32, day: u32) -> Date {
    Date { year, month, day }
}

fn time(hour: u32, minute: u32, second: u32) -> TimeOfDay {
    TimeOfDay { hour, minute, second }
}

#[test]
fn parse_date_full() {
    assert_eq!(parse_date("24/12/31"), Ok(date(2024, 12, 31)))
}

#[test]
fn parse_date_default_day() {
    assert_eq!(parse_date("24/12"), Ok(date(2024, 12, 1)))
}

#[test]
fn parse_date_default_month_day() {
    assert_eq!(parse_date("24"), Ok(date(2024, 1, 1)))
}

#[test]
fn parse_date_invalid_format() {
    assert!(matches!(parse_date("not-a-date"), Err(TsErr::NotNumber(_))));
}

#[test]
fn parse_date_invalid_date() {
    assert_eq!(parse_date("24/13/32"), Err(TsErr::InvalidDate));
}

#[test]
fn parse_time_full() {
    assert_eq!(parse_time("14:30:45"), Ok(time(14, 30, 45)))
}

#[test]
fn parse_time_default_second() {
    assert_eq!(parse_time("14:30"), Ok(time(14, 30, 0)))
}

#[test]
fn parse_time_default_minute_second() {
    assert_eq!(parse_time("14"), Ok(time(14, 0, 0)))
}

#[test]
fn parse_time_invalid_format() {
    assert!(matches!(parse_time("not-a-time"), Err(TsErr::NotNumber(_))));
}

#[test]
fn parse_time_invalid_time() {
    assert_eq!(parse_time("25:70:99"), Err(TsErr::InvalidTime));
}

#[test]
fn dt_from_str_date_only() {
    let expected_date = date(2024, 12, 31);
    assert_eq!(Ts::from_str(&zone(), "24/12/31"), Ok(Ts::Date(expected_date)));
}

#[test]
fn dt_from_str_with_time() {
    let expected_dt = LocalDateTime { date: date(2024, 12, 31), hour: 14, minute: 30, second: 45 };
    assert_eq!(
        Ts::from_str(&zone(), "24/12/31_14:30:45"),
        Ok(Ts::Timed(local_utc(&zone(), &expected_dt).unwrap()))
    );
}

#[test]
fn timestamps_in_clock_changes() {
    // Santiago skips from 00:00 to 01:00 on 2025-09-07 and repeats 23:00 on 2025-04-05.
    assert_eq!(Ts::from_str(&zone(), "25/09/07_00:30"), Err(TsErr::InvalidInTimezone));
    assert_eq!(Ts::from_str(&zone(), "25/04/05_23:30"), Err(TsErr::AmbiguousInTimezone));
}

#[test]
fn as_utc_of_a_day() {
    assert_eq!(Ts::Date(date(1970, 1, 2)).as_utc(), 86400);
    assert_eq!(Ts::Date(date(1900, 3, 1)).as_utc(), -2203891200);
    assert_eq!(Ts::Date(date(2000, 2, 29)).as_utc(), 951782400);
    assert_eq!(Ts::Date(date(1, 1, 1)).as_utc(), -62135596800);
    let t = Ts::from_str(&zone(), "25/01/01_00").unwrap();
    // Santiago is three hours behind UTC in January
    assert_eq!(t.as_utc(), 1735700400);
}
