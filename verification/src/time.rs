//! Calendar dates, wall-clock times and instants in a named time zone.
//! Time zone data and the calendar rules come from `chrono` and `chrono-tz`.
use vstd::prelude::*;
use chrono::{Datelike, Timelike};
use crate::text::{two_digits, four_digits};
use chrono::format::ParseErrorKind;

verus! {

/// `chrono`'s wall-clock reading, carried opaquely between conversions.
#[verifier::external_type_specification]
#[verifier::external_body]
pub struct ExNaiveDateTime(chrono::NaiveDateTime);

/// `chrono`'s kind of parse error, carried opaquely into a conversion.
#[verifier::external_type_specification]
#[verifier::external_body]
pub struct ExParseErrorKind(ParseErrorKind);

/// A calendar date (proleptic Gregorian).
#[derive(Debug, Clone, Copy, PartialEq, Eq, Structural)]
pub struct Date {
    pub year: i32,
    pub month: u32,
    pub day: u32,
}

/// A date and a wall-clock time, without a time zone.
#[derive(Debug, Clone, Copy, PartialEq, Eq, Structural)]
pub struct LocalDateTime {
    pub date: Date,
    pub hour: u32,
    pub minute: u32,
    pub second: u32,
}

/// An instant (seconds since the Unix epoch) together with its wall-clock
/// reading in the zone it was made in.
#[derive(Debug, Clone, Copy, PartialEq, Eq, Structural)]
pub struct ZonedDateTime {
    pub timestamp: i64,
    pub local: LocalDateTime,
}

/// Earliest instant that `chrono` represents, in seconds since the epoch.
pub const MIN_TIMESTAMP: i64 = -8334601228800i64;

/// Latest whole-second instant that `chrono` represents.
pub const MAX_TIMESTAMP: i64 = 8210266876799i64;

/// Largest duration, in whole seconds, that `chrono::TimeDelta` holds.
pub const MAX_DELTA: i64 = 9223372036854775i64;

/// Earliest year of a `chrono` date.
pub const MIN_YEAR: i32 = -262143i32;

/// Latest year of a `chrono` date.
pub const MAX_YEAR: i32 = 262142i32;

/// Whether `y` is a leap year.
pub open spec fn is_leap_year(y: int) -> bool {
    (y % 4 == 0 && y % 100 != 0) || y % 400 == 0
}

/// Number of days of month `m` (1 to 12) of year `y`.
pub open spec fn days_in_month(y: int, m: int) -> int {
    if m == 2 {
        if is_leap_year(y) {
            29
        } else {
            28
        }
    } else if m == 4 || m == 6 || m == 9 || m == 11 {
        30
    } else {
        31
    }
}

/// Whether year, month and day name a date that `chrono` represents.
pub open spec fn valid_ymd(y: int, m: int, d: int) -> bool {
    &&& MIN_YEAR <= y <= MAX_YEAR
    &&& 1 <= m <= 12
    &&& 1 <= d <= days_in_month(y, m)
}

/// Whether a date is a real calendar date in `chrono`'s range.
pub open spec fn valid_date(d: Date) -> bool {
    valid_ymd(d.year as int, d.month as int, d.day as int)
}

/// Whether a wall-clock reading is a real date and time of day.
pub open spec fn valid_naive(t: LocalDateTime) -> bool {
    valid_date(t.date) && t.hour < 24 && t.minute < 60 && t.second < 60
}

/// Strict calendar order of dates.
pub open spec fn date_lt(a: Date, b: Date) -> bool {
    a.year < b.year || (a.year == b.year && (a.month < b.month || (a.month == b.month && a.day
        < b.day)))
}

/// The start of a day.
pub open spec fn midnight(d: Date) -> LocalDateTime {
    LocalDateTime { date: d, hour: 0, minute: 0, second: 0 }
}

/// Whether `d < e` in calendar order.
pub fn date_less(d: &Date, e: &Date) -> (r: bool)
    ensures
        r == date_lt(*d, *e),
{
    d.year < e.year || (d.year == e.year && (d.month < e.month || (d.month == e.month && d.day
        < e.day)))
}

/// The date with the given year, month and day, if it exists
/// (`chrono::NaiveDate::from_ymd_opt`).
#[verifier::external_body]
pub fn date_from_ymd(year: i32, month: u32, day: u32) -> (r: Option<Date>)
    ensures
        r is Some <==> valid_ymd(year as int, month as int, day as int),
        r matches Some(d) ==> d == (Date { year, month, day }),
{
    chrono::NaiveDate::from_ymd_opt(year, month, day).map(|_| Date { year, month, day })
}

/// The same day one month later, clamped to the length of that month, when
/// that month's year is in range.
pub open spec fn one_month_later(d: Date) -> Option<Date> {
    let y: int = if d.month == 12 { d.year + 1 } else { d.year as int };
    let m: int = if d.month == 12 { 1 } else { d.month + 1 };
    let day: int = if d.day <= days_in_month(y, m) { d.day as int } else { days_in_month(y, m) };
    if y <= MAX_YEAR {
        Some(Date { year: y as i32, month: m as u32, day: day as u32 })
    } else {
        None
    }
}

/// The date seven days later, when its year is in range.
pub open spec fn one_week_later(d: Date) -> Option<Date> {
    let dim = days_in_month(d.year as int, d.month as int);
    let y: int = if d.day + 7 <= dim || d.month < 12 { d.year as int } else { d.year + 1 };
    let m: int = if d.day + 7 <= dim { d.month as int } else if d.month < 12 { d.month + 1 } else { 1 };
    let day: int = if d.day + 7 <= dim { d.day + 7 } else { d.day + 7 - dim };
    if y <= MAX_YEAR {
        Some(Date { year: y as i32, month: m as u32, day: day as u32 })
    } else {
        None
    }
}

/// The same day one month later (`chrono::NaiveDate::checked_add_months` with
/// one month).
#[verifier::external_body]
pub fn add_one_month(d: Date) -> (r: Option<Date>)
    requires
        valid_date(d),
    ensures
        r == one_month_later(d),
{
    chrono::NaiveDate::from_ymd_opt(d.year, d.month, d.day).unwrap().checked_add_months(
        chrono::Months::new(1),
    ).map(|e| Date { year: e.year(), month: e.month(), day: e.day() })
}

/// The date seven days later (`chrono::NaiveDate::checked_add_days` with seven days).
#[verifier::external_body]
pub fn add_one_week(d: Date) -> (r: Option<Date>)
    requires
        valid_date(d),
    ensures
        r == one_week_later(d),
{
    chrono::NaiveDate::from_ymd_opt(d.year, d.month, d.day).unwrap().checked_add_days(
        chrono::Days::new(7),
    ).map(|e| Date { year: e.year(), month: e.month(), day: e.day() })
}

/// The Monday of ISO week `week` of ISO year `year`, as `chrono` computes it.
pub uninterp spec fn iso_week_monday(year: i32, week: u32) -> Option<Date>;

/// Monday of an ISO week (`chrono::NaiveDate::from_isoywd_opt`).
#[verifier::external_body]
pub fn monday_of_iso_week(year: i32, week: u32) -> (r: Option<Date>)
    ensures
        r == iso_week_monday(year, week),
        r matches Some(d) ==> valid_date(d),
{
    chrono::NaiveDate::from_isoywd_opt(year, week, chrono::Weekday::Mon).map(
        |e| Date { year: e.year(), month: e.month(), day: e.day() },
    )
}

/// Why `chrono` could not parse a date or time (`chrono::format::ParseErrorKind`).
#[derive(Debug, Clone, Copy, PartialEq, Eq, Structural)]
pub enum ParseKind {
    OutOfRange,
    Impossible,
    NotEnough,
    Invalid,
    TooShort,
    TooLong,
    BadFormat,
}

/// A date as `%y/%m/%d` writes it for a year from 2000 to 2069: the year
/// less 2000, the month and the day, two digits each.
pub open spec fn short_date_text(d: Date) -> Seq<char> {
    two_digits((d.year - 2000) as nat) + seq!['/'] + two_digits(d.month as nat) + seq!['/']
        + two_digits(d.day as nat)
}

/// A date and time as `%y/%m/%d_%H:%M:%S` writes it for a year from 2000 to
/// 2069.
pub open spec fn short_date_time_text(t: LocalDateTime) -> Seq<char> {
    short_date_text(t.date) + seq!['_'] + two_digits(t.hour as nat) + seq![':'] + two_digits(
        t.minute as nat,
    ) + seq![':'] + two_digits(t.second as nat)
}

/// Whether a date is one that `%y/%m/%d` reads from its two-digit form:
/// a calendar date from 2000 to 2069.
pub open spec fn short_date(d: Date) -> bool {
    valid_date(d) && 2000 <= d.year <= 2069
}

/// Whether a date and time is one that `%y/%m/%d_%H:%M:%S` reads from its
/// two-digit form.
pub open spec fn short_date_time(t: LocalDateTime) -> bool {
    valid_naive(t) && 2000 <= t.date.year <= 2069
}

/// What `chrono` reads from a full date text: the date it writes, for a
/// date from 2000 to 2069 in two-digit form, else what it makes of it.
pub open spec fn read_date(full: Seq<char>) -> Result<Date, ParseKind> {
    if exists|d: Date| short_date(d) && #[trigger] short_date_text(d) == full {
        Ok(choose|d: Date| short_date(d) && #[trigger] short_date_text(d) == full)
    } else {
        parsed_date(full)
    }
}

/// What `chrono` reads from a full date-and-time text (see [`read_date`]).
pub open spec fn read_date_time(full: Seq<char>) -> Result<LocalDateTime, ParseKind> {
    if exists|t: LocalDateTime| short_date_time(t) && #[trigger] short_date_time_text(t) == full {
        Ok(choose|t: LocalDateTime| short_date_time(t) && #[trigger] short_date_time_text(t) == full)
    } else {
        parsed_date_time(full)
    }
}

/// What `chrono` makes of a text read with the format `%y/%m/%d_%H:%M:%S`.
pub uninterp spec fn parsed_date_time(s: Seq<char>) -> Result<LocalDateTime, ParseKind>;

/// What `chrono` makes of a text read with the format `%y/%m/%d`.
pub uninterp spec fn parsed_date(s: Seq<char>) -> Result<Date, ParseKind>;

/// Reads `s` with the format `%y/%m/%d_%H:%M:%S`
/// (`chrono::NaiveDateTime::parse_from_str`). What it reads is named; the
/// contract also claims that the two-digit form of a date and time from
/// 2000 to 2069 reads back as itself (`%y` below 70 is 20xx, see
/// `Parsed::to_naive_date`).
#[verifier::external_body]
pub fn parse_date_time_text(s: &str) -> (r: Result<LocalDateTime, ParseKind>)
    ensures
        r == parsed_date_time(s@),
        r matches Ok(t) ==> valid_naive(t),
        r == read_date_time(s@),
{
    match chrono::NaiveDateTime::parse_from_str(s, "%y/%m/%d_%H:%M:%S") {
        Ok(t) => Ok(LocalDateTime {
            date: Date { year: t.year(), month: t.month(), day: t.day() },
            hour: t.hour(),
            minute: t.minute(),
            second: t.second(),
        }),
        Err(e) => Err(parse_kind(e.kind())),
    }
}

/// Reads `s` with the format `%y/%m/%d` (`chrono::NaiveDate::parse_from_str`).
/// What it reads is named; the contract also claims that the two-digit form
/// of a date from 2000 to 2069 reads back as itself.
#[verifier::external_body]
pub fn parse_date_text(s: &str) -> (r: Result<Date, ParseKind>)
    ensures
        r == parsed_date(s@),
        r matches Ok(d) ==> valid_date(d),
        r == read_date(s@),
{
    match chrono::NaiveDate::parse_from_str(s, "%y/%m/%d") {
        Ok(d) => Ok(Date { year: d.year(), month: d.month(), day: d.day() }),
        Err(e) => Err(parse_kind(e.kind())),
    }
}

/// The kind of a `chrono` parse error, variant for variant.
#[verifier::external_body]
fn parse_kind(k: ParseErrorKind) -> ParseKind {
    match k {
        ParseErrorKind::OutOfRange => ParseKind::OutOfRange,
        ParseErrorKind::Impossible => ParseKind::Impossible,
        ParseErrorKind::NotEnough => ParseKind::NotEnough,
        ParseErrorKind::Invalid => ParseKind::Invalid,
        ParseErrorKind::TooShort => ParseKind::TooShort,
        ParseErrorKind::TooLong => ParseKind::TooLong,
        _ => ParseKind::BadFormat,
    }
}

// ---------------------------------------------------------------------------
// Time zones

/// Whether `chrono-tz` knows a time zone of this IANA name.
pub uninterp spec fn zone_known(name: Seq<char>) -> bool;

/// How a wall-clock reading maps to instants in a zone.
#[derive(Debug, Clone, Copy, PartialEq, Eq, Structural)]
pub enum LocalResult {
    /// Exactly one instant.
    Single(ZonedDateTime),
    /// Two instants (clocks were set back); earliest first.
    Ambiguous(ZonedDateTime, ZonedDateTime),
    /// No instant (clocks were set forward over it).
    Gap,
}

/// How `chrono-tz` maps a wall-clock reading to instants in the named zone.
pub uninterp spec fn zone_resolve(zone: Seq<char>, t: LocalDateTime) -> LocalResult;

/// The first instant after the gap that holds a wall-clock reading, as
/// `chrono_tz::GapInfo` reports it.
pub uninterp spec fn zone_gap_end(zone: Seq<char>, t: LocalDateTime) -> Option<ZonedDateTime>;

/// The wall-clock reading of an instant in the named zone.
pub uninterp spec fn zone_local(zone: Seq<char>, timestamp: i64) -> Option<ZonedDateTime>;

/// A time zone known to `chrono-tz`, by its IANA name.
#[derive(Debug)]
pub struct Zone {
    name: String,
}

impl View for Zone {
    type V = Seq<char>;

    closed spec fn view(&self) -> Seq<char> {
        self.name@
    }
}

impl Clone for Zone {
    fn clone(&self) -> (r: Zone)
        ensures
            r@ == self@,
    {
        proof {
            use_type_invariant(self);
        }
        Zone { name: self.name.clone() }
    }
}

/// Whether `chrono-tz` knows the zone (`chrono_tz::Tz::from_str`).
#[verifier::external_body]
fn is_zone_name(name: &str) -> (r: bool)
    ensures
        r == zone_known(name@),
{
    name.parse::<chrono_tz::Tz>().is_ok()
}

impl Zone {
    #[verifier::type_invariant]
    spec fn known(&self) -> bool {
        zone_known(self.name@)
    }

    /// The zone of that IANA name, if `chrono-tz` knows it.
    pub fn new(name: &str) -> (r: Option<Zone>)
        ensures
            r is Some <==> zone_known(name@),
            r matches Some(z) ==> z@ == name@,
    {
        if is_zone_name(name) {
            Some(Zone { name: name.to_owned() })
        } else {
            None
        }
    }

    /// The IANA name of the zone.
    pub fn name(&self) -> (r: &str)
        ensures
            r@ == self@,
            zone_known(self@),
    {
        proof {
            use_type_invariant(self);
        }
        self.name.as_str()
    }
}

/// The instants that a wall-clock reading denotes in a zone
/// (`chrono::NaiveDateTime::and_local_timezone` with a `chrono_tz::Tz`).
#[verifier::external_body]
pub fn resolve_local(zone: &str, t: &LocalDateTime) -> (r: LocalResult)
    requires
        zone_known(zone@),
        valid_naive(*t),
    ensures
        r == zone_resolve(zone@, *t),
        r matches LocalResult::Single(x) ==> x.local == *t,
        r matches LocalResult::Ambiguous(a, b) ==> a.local == *t && b.local == *t,
{
    let tz: chrono_tz::Tz = zone.parse().unwrap();
    match naive_of(t).and_local_timezone(tz) {
        chrono::LocalResult::Single(a) => LocalResult::Single(zoned_of(a.timestamp(), a.naive_local())),
        chrono::LocalResult::Ambiguous(a, b) => LocalResult::Ambiguous(
            zoned_of(a.timestamp(), a.naive_local()),
            zoned_of(b.timestamp(), b.naive_local()),
        ),
        chrono::LocalResult::None => LocalResult::Gap,
    }
}

/// The first instant after the gap that holds `t`, when there is one
/// (`chrono_tz::GapInfo::new` and its `end`).
#[verifier::external_body]
pub fn gap_end(zone: &str, t: &LocalDateTime) -> (r: Option<ZonedDateTime>)
    requires
        zone_known(zone@),
        valid_naive(*t),
    ensures
        r == zone_gap_end(zone@, *t),
{
    let tz: chrono_tz::Tz = zone.parse().unwrap();
    chrono_tz::GapInfo::new(&naive_of(t), &tz).and_then(|g| g.end).map(
        |e| zoned_of(e.timestamp(), e.naive_local()),
    )
}

/// The wall-clock reading of an instant in a zone, when the instant and that
/// reading are in `chrono`'s range (`chrono::DateTime::from_timestamp`, then
/// `with_timezone` and the zone's offset added with `checked_add_offset`).
#[verifier::external_body]
pub fn local_of(zone: &str, timestamp: i64) -> (r: Option<ZonedDateTime>)
    requires
        zone_known(zone@),
    ensures
        r == zone_local(zone@, timestamp),
        r is Some ==> MIN_TIMESTAMP <= timestamp <= MAX_TIMESTAMP,
        r matches Some(z) ==> z.timestamp == timestamp && valid_naive(z.local),
{
    let tz: chrono_tz::Tz = zone.parse().unwrap();
    chrono::DateTime::from_timestamp(timestamp, 0).and_then(|u| {
        let z = u.with_timezone(&tz);
        z.naive_utc().checked_add_offset(chrono::Offset::fix(z.offset())).map(|l| zoned_of(z.timestamp(), l))
    })
}

/// `chrono`'s form of a wall-clock reading.
#[verifier::external_body]
fn naive_of(t: &LocalDateTime) -> chrono::NaiveDateTime
    requires
        valid_naive(*t),
{
    chrono::NaiveDate::from_ymd_opt(t.date.year, t.date.month, t.date.day).unwrap().and_hms_opt(
        t.hour,
        t.minute,
        t.second,
    ).unwrap()
}

/// An instant with the wall-clock reading that `chrono` gives for it.
#[verifier::external_body]
fn zoned_of(timestamp: i64, l: chrono::NaiveDateTime) -> ZonedDateTime {
    ZonedDateTime {
        timestamp,
        local: LocalDateTime {
            date: Date { year: l.year(), month: l.month(), day: l.day() },
            hour: l.hour(),
            minute: l.minute(),
            second: l.second(),
        },
    }
}

/// The instant as `chrono` writes it with `%Y%m%dT%H%M%SZ`, in UTC.
pub uninterp spec fn utc_compact_text(timestamp: i64) -> Seq<char>;

/// The date as `chrono` writes it with `%Y%m%d`.
pub uninterp spec fn date_compact_text(d: Date) -> Seq<char>;

/// An instant as `%Y%m%dT%H%M%SZ` in UTC, given the date of its day: that
/// date in eight digits, `T`, hours, minutes and seconds in two each, `Z`.
pub open spec fn utc_digits(timestamp: int, d: Date) -> Seq<char> {
    let s = timestamp % 86400;
    date_digits(d) + seq!['T'] + two_digits((s / 3600) as nat) + two_digits((s % 3600 / 60) as nat)
        + two_digits((s % 60) as nat) + seq!['Z']
}

/// Whether `t` is the instant written as `%Y%m%dT%H%M%SZ` in UTC, when the
/// instant falls in a year from 0 to 9999.
pub open spec fn utc_written(timestamp: int, t: Seq<char>) -> bool {
    forall|d: Date|
        #[trigger] civil_days(d) == timestamp / 86400 && valid_date(d) && 0 <= d.year <= 9999
            ==> t == utc_digits(timestamp, d)
}

/// Writes an instant in UTC as `%Y%m%dT%H%M%SZ`, when it is in range
/// (`chrono::DateTime::from_timestamp`, then `format`).
#[verifier::external_body]
pub fn utc_compact(timestamp: i64) -> (r: Option<String>)
    ensures
        r is Some <==> MIN_TIMESTAMP <= timestamp <= MAX_TIMESTAMP,
        r matches Some(t) ==> t@ == utc_compact_text(timestamp) && utc_written(
            timestamp as int,
            t@,
        ),
{
    chrono::DateTime::from_timestamp(timestamp, 0).map(|u| u.format("%Y%m%dT%H%M%SZ").to_string())
}

/// A date in eight digits: year, month and day, zero-padded (for a year
/// from 0 to 9999).
pub open spec fn date_digits(d: Date) -> Seq<char> {
    four_digits(d.year as nat) + two_digits(d.month as nat) + two_digits(d.day as nat)
}

/// Writes a date as `%Y%m%d` (`chrono::NaiveDate::format`): for a year from
/// 0 to 9999, the year in four digits, then month and day in two, each
/// zero-padded.
#[verifier::external_body]
pub fn date_compact(d: &Date) -> (r: String)
    requires
        valid_date(*d),
    ensures
        r@ == date_compact_text(*d),
        0 <= d.year <= 9999 ==> r@ == date_digits(*d),
{
    chrono::NaiveDate::from_ymd_opt(d.year, d.month, d.day).unwrap().format("%Y%m%d").to_string()
}

/// Days from 1970-01-01 to the date in the proleptic Gregorian calendar,
/// counting years in eras of 400 years from a March 1st.
pub open spec fn civil_days(d: Date) -> int {
    let y: int = if d.month <= 2 { d.year - 1 } else { d.year as int };
    let era: int = y / 400;
    let yoe: int = y - era * 400;
    let mp: int = if d.month > 2 { d.month - 3 } else { d.month + 9 };
    let doy: int = (153 * mp + 2) / 5 + d.day - 1;
    let doe: int = yoe * 365 + yoe / 4 - yoe / 100 + doy;
    era * 146097 + doe - 719468
}

/// The instant at which a day starts in UTC, in seconds since the epoch.
pub open spec fn utc_midnight(d: Date) -> int {
    civil_days(d) * 86400
}

/// The start of a day in UTC (`chrono::NaiveDate::and_hms_opt(0, 0, 0)`,
/// `and_utc`, then `timestamp`).
#[verifier::external_body]
pub fn utc_midnight_timestamp(d: &Date) -> (r: i64)
    requires
        valid_date(*d),
    ensures
        r == utc_midnight(*d),
{
    chrono::NaiveDate::from_ymd_opt(d.year, d.month, d.day).unwrap().and_hms_opt(0, 0, 0).unwrap().and_utc().timestamp()
}

} // verus!
