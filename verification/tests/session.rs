use task_tree::session::repeat::{Freq, Repeat, RepeatErr};
use task_tree::session::range::{Range, Span};
use task_tree::session::{Session, SessionErr};
use task_tree::time::Zone;

fn zone() -> Zone {
    Zone::new("America/Santiago").unwrap()
}

#[test]
fn session_parsing() -> Result<(), SessionErr> {
    let str = "25/08/22-25|monthly";
    let session = Session::from_str(str, &zone())?;
    assert_eq!(str, session.to_string());
    Ok(())
}

#[test]
fn time_delta() -> Result<(), SessionErr> {
    // Session in range
    test("25/10/10_13-14", "25/10/10-11", 3600)?;
    // Range in session
    test("25/10/10-11", "25/10/10_13-14", 3600)?;
    // Session during range start
    test("25/10/10-11", "25/10/09_22-10_01", 3600)?;
    // Session during range end
    test("25/10/10-11", "25/10/10_23-11_02", 3600)?;
    // Repeated session
    test("25/10/10_14-15|daily", "25/11/10-14", 4 * 3600)?;
    // Repeated session on range boundary
    test("25/10/10_23:15-11_00:15|daily", "25/11/10-14", 4 * 3600)?;

    fn test(session: &str, range: &str, time_delta: i64) -> Result<(), SessionErr> {
        let z = zone();
        let range = Range::from_str(range, &z).map_err(SessionErr::Range)?;
        let span = Span::new(range.start().dt(&z).unwrap(), range.end().dt(&z).unwrap());
        assert_eq!(Session::from_str(session, &z)?.time_delta(&span, &z), Some(time_delta));
        Ok(())
    }

    Ok(())
}

#[test]
fn session_without_repeat_round_trips() -> Result<(), SessionErr> {
    let str = "25/08/01_17-18";
    let session = Session::from_str(str, &zone())?;
    assert!(session.repeat.is_none());
    assert_eq!(session.to_string(), str);
    Ok(())
}

#[test]
fn session_bad_repeat() {
    assert!(matches!(
        Session::from_str("25/08/22-25|fortnightly", &zone()),
        Err(SessionErr::Repeat(_))
    ));
    assert!(matches!(Session::from_str("25/08/22", &zone()), Err(SessionErr::Range(_))));
}

#[test]
fn ics_dates() -> Result<(), SessionErr> {
    let all_day = Session::from_str("25/08/22-25", &zone())?;
    assert_eq!(all_day.dt_start().value, "20250822");
    assert_eq!(all_day.dt_end().value, "20250825");
    assert!(all_day.dt_start().date_only);
    let timed = Session::from_str("25/08/22_10-11", &zone())?;
    // Santiago is four hours behind UTC in August
    assert_eq!(timed.dt_start().value, "20250822T140000Z");
    assert_eq!(timed.dt_end().value, "20250822T150000Z");
    Ok(())
}

#[test]
fn ics_rule_of_repeating_session() -> Result<(), SessionErr> {
    let s = Session::from_str("25/08/22-25|monthly", &zone())?;
    assert!(s.is_exportable());
    let rule = s.ics_rule().unwrap();
    assert!(rule.starts_with("FREQ=MONTHLY"));
    assert!(Session::from_str("25/08/22-25", &zone())?.ics_rule().is_none());
    Ok(())
}

#[test]
fn session_between_instants() {
    // 2025-10-10 13:00:30 to 14:00:59 UTC-3, cut to whole minutes
    let start = 1760112030;
    let end = 1760115659;
    let s = Session::from_utc(&zone(), start, end, 60).unwrap();
    assert_eq!(s.to_string(), "25/10/10_13-14");
    assert!(Session::from_utc(&zone(), start, start + 10, 60).is_none());
}

#[test]
fn next_hour_session() {
    // 2025-10-10 13:20 in Santiago (UTC-3); the next full hour is 14:00
    let now = 1760113200;
    let s = Session::next_hour(&zone(), now, 0).unwrap();
    assert_eq!(s.to_string(), "25/10/10_14-15");
}

#[test]
fn next_hour_label_offers_written_sessions() {
    let now = 1760113200;
    assert_eq!(Session::next_hour_label(&zone(), now, 0), Some("25/10/10_14-15".to_string()));
    assert_eq!(Session::next_hour_label(&zone(), now, 2), Some("25/10/10_16-17".to_string()));
    assert_eq!(Session::next_hour_label(&zone(), i64::MAX, 0), None);
}

#[test]
fn repeat_components() {
    let z = zone();
    let range = Range::from_str("25/03/01_10-11", &z).unwrap();
    let rule = |s: &str| Repeat::from_str_in_range(s, &range, &z).map(|r| r.rule);

    let daily = rule("daily").unwrap();
    assert_eq!((daily.freq, daily.interval, daily.count, daily.until), (Freq::Daily, 1, None, None));
    let weekly = rule("weekly_%3").unwrap();
    assert_eq!((weekly.freq, weekly.interval, weekly.count), (Freq::Weekly, 3, None));
    let counted = rule("daily_#42").unwrap();
    assert_eq!((counted.freq, counted.interval, counted.count), (Freq::Daily, 1, Some(42)));
    // 2025-03-10 starts at 03:00 UTC in Santiago
    let until = rule("monthly-25/03/10").unwrap();
    assert_eq!((until.freq, until.until), (Freq::Monthly, Some(1741575600)));
    let both = rule("yearly_%9_#42").unwrap();
    assert_eq!((both.freq, both.interval, both.count), (Freq::Yearly, 9, Some(42)));
    let interval_until = rule("yearly_%9-25/03/10").unwrap();
    assert_eq!((interval_until.interval, interval_until.until), (9, Some(1741575600)));

    assert_eq!(rule("fortnightly").unwrap_err(), RepeatErr::Frequency);
    assert!(matches!(rule("daily_%x"), Err(RepeatErr::ParseInt(_))));
}

#[test]
fn repeat_error_messages() {
    let z = zone();
    let range = Range::from_str("25/03/01_10-11", &z).unwrap();
    let msg = |s: &str| Repeat::from_str_in_range(s, &range, &z).unwrap_err().message();
    assert_eq!(msg("daily_%x"), "Not an integer: invalid digit found in string");
    assert_eq!(msg("fortnightly"), "Invalid frequency");
    let e = Session::from_str("25/07/08-07", &z).unwrap_err();
    assert_eq!(e.message(), "Range: Empty or inverse range");
}
