use task_tree::session::range::{in_timezone, overlay, Align, Range, RangeErr, Span};
use task_tree::time::{Date, LocalDateTime, Zone, ZonedDateTime};

fn zone() -> Zone {
    Zone::new("America/Santiago").unwrap()
}

fn d(y: i32, m: u32, d: u32) -> Date {
    Date { year: y, month: m, day: d }
}

fn dt(y: i32, m: u32, day: u32, h: u32, min: u32, s: u32) -> ZonedDateTime {
    let t = LocalDateTime { date: d(y, m, day), hour: h, minute: min, second: s };
    in_timezone(&t, &zone()).unwrap()
}

#[test]
fn range_display() {
    test("25/08-09", Range::AllDay(Span::new(d(2025, 8, 1), d(2025, 9, 1))));
    test("25/01/28-30", Range::AllDay(Span::new(d(2025, 1, 28), d(2025, 1, 30))));
    test("25-28", Range::AllDay(Span::new(d(2025, 1, 1), d(2028, 1, 1))));
    test(
        "25/08/01_17-18",
        Range::Timed(Span::new(dt(2025, 8, 1, 17, 0, 0), dt(2025, 8, 1, 18, 0, 0))),
    );
    test(
        "25/03/02_15:45-04/01_11:46",
        Range::Timed(Span::new(dt(2025, 3, 2, 15, 45, 00), dt(2025, 4, 1, 11, 46, 00))),
    );

    fn test(str: &str, range: Range) {
        assert_eq!(&range.to_string(), str);
        assert_eq!(Range::from_str(str, &zone()), Ok(range));
    }
}

#[test]
fn range_error() {
    test("25/07/08", RangeErr::MissingEndBound);
    test("25/07/08-07", RangeErr::Empty);
    test("25/09/07_00:30-40", RangeErr::InvalidInTimezone);
    test("25/04/05_23:30-40", RangeErr::AmbiguousInTimezone);

    fn test(str: &str, err: RangeErr) {
        assert_eq!(Range::from_str(str, &zone()), Err(err));
    }
}

#[test]
fn all_day_range() -> Result<(), RangeErr> {
    let range = Range::from_str("25/09/07-08", &zone())?;
    let dt = range.start().dt(&zone()).unwrap();
    // This day starts at 01:00
    assert_eq!(dt.local.hour, 1);
    // And has 23 hours
    assert_eq!(range.time_delta(&zone()), Some(23 * 3600));
    Ok(())
}

#[test]
fn string_overlay() {
    assert_eq!(overlay("abc", "123456", Align::Leading), Ok("abc456".to_string()));
    assert_eq!(overlay("abc", "123456", Align::Trailing), Ok("123abc".to_string()));
    assert_eq!(overlay("hello", "world", Align::Leading), Ok("hello".to_string()));
    assert_eq!(overlay("toolong", "short", Align::Leading), Err(RangeErr::TooLong));
}

#[test]
fn month_and_week_ranges() {
    assert_eq!(
        Range::month(2025, 12),
        Some(Range::AllDay(Span::new(d(2025, 12, 1), d(2026, 1, 1))))
    );
    assert_eq!(Range::month(2025, 13), None);
    assert_eq!(
        Range::week(2025, 1),
        Some(Range::AllDay(Span::new(d(2024, 12, 30), d(2025, 1, 6))))
    );
    assert_eq!(Range::week(2025, 54), None);
}

#[test]
fn range_parse_errors() {
    assert!(matches!(Range::from_str("xx-yy", &zone()), Err(RangeErr::Parse(_))));
    assert_eq!(Range::from_str("25/07/08_10-09", &zone()), Err(RangeErr::Empty));
}

#[test]
fn overlay_counts_bytes() {
    assert_eq!(overlay("éé", "25", Align::Trailing), Err(RangeErr::TooLong));
    assert_eq!(overlay("é", "abc", Align::Leading), Ok("éc".to_string()));
    assert_eq!(overlay("x", "aé", Align::Trailing), Err(RangeErr::TooLong));
}
