//! Timestamps written as `yy/mm/dd_hh:mm:ss`, where every part after the
//! year or the hour may be left out.
use vstd::prelude::*;
use crate::text::{int_error_text, push_str};
use crate::text::{IntErrorKind, parse_i32, parse_unsigned, signed_value, unsigned_value};
use crate::time::{valid_naive,
    Date, LocalDateTime, ZonedDateTime, Zone, LocalResult, valid_ymd, valid_date, zone_resolve,
    resolve_local, utc_midnight, utc_midnight_timestamp,
};
use crate::session::range::{find_char, find_char_from};

verus! {

/// A day, or an instant in a zone.
#[derive(Debug, Clone, Copy, PartialEq, Eq, Structural)]
pub enum Ts {
    Date(Date),
    Timed(ZonedDateTime),
}

/// Why a text is not a timestamp.
#[derive(Debug, Clone, Copy, PartialEq, Eq, Structural)]
pub enum TsErr {
    /// A part is not a number.
    NotNumber(IntErrorKind),
    /// The year, month and day name no day.
    InvalidDate,
    /// The hour, minute and second name no time of day.
    InvalidTime,
    /// The reading occurs twice in the zone (clocks were set back).
    AmbiguousInTimezone,
    /// The reading does not occur in the zone (clocks were set forward).
    InvalidInTimezone,
}

/// A time of day.
#[derive(Debug, Clone, Copy, PartialEq, Eq, Structural)]
pub struct TimeOfDay {
    pub hour: u32,
    pub minute: u32,
    pub second: u32,
}

/// The views of an optional text.
pub open spec fn opt_view(t: Option<&str>) -> Option<Seq<char>> {
    match t {
        Some(x) => Some(x@),
        None => None,
    }
}

/// `s` cut at its first `sep`: the text before it and, if there is one,
/// the text after it (`str::splitn(2, sep)`).
pub open spec fn split2(s: Seq<char>, sep: char) -> (Seq<char>, Option<Seq<char>>) {
    match find_char_from(s, sep, 0) {
        None => (s, None),
        Some(i) => (s.subrange(0, i), Some(s.subrange(i + 1, s.len() as int))),
    }
}

/// `s` cut at its first two `sep`s; the last part keeps any further `sep`
/// (`str::splitn(3, sep)`).
pub open spec fn split3(s: Seq<char>, sep: char) -> (
    Seq<char>,
    Option<Seq<char>>,
    Option<Seq<char>>,
) {
    let (head, rest) = split2(s, sep);
    match rest {
        None => (head, None, None),
        Some(r) => {
            let (mid, tail) = split2(r, sep);
            (head, Some(mid), tail)
        },
    }
}

/// Cuts `s` at its first `sep`, as [`split2`].
fn cut_once<'a>(s: &'a str, sep: char) -> (r: (&'a str, Option<&'a str>))
    ensures
        (r.0@, opt_view(r.1)) == split2(s@, sep),
{
    match find_char(s, sep) {
        None => (s, None),
        Some(i) => {
            let n = s.unicode_len();
            (s.substring_char(0, i), Some(s.substring_char(i + 1, n)))
        },
    }
}

/// Cuts `s` at its first two `sep`s, as [`split3`].
fn cut_twice<'a>(s: &'a str, sep: char) -> (r: (&'a str, Option<&'a str>, Option<&'a str>))
    ensures
        (r.0@, opt_view(r.1), opt_view(r.2)) == split3(s@, sep),
{
    let (head, rest) = cut_once(s, sep);
    match rest {
        None => (head, None, None),
        Some(r) => {
            let (mid, tail) = cut_once(r, sep);
            (head, Some(mid), tail)
        },
    }
}

/// The value of an optional unsigned part, `default` when it is left out.
pub open spec fn part_value(t: Option<Seq<char>>, default: int) -> Result<int, IntErrorKind> {
    match t {
        None => Ok(default),
        Some(x) => unsigned_value(x, u32::MAX as int),
    }
}

/// Reads an optional unsigned part, as [`part_value`].
fn read_part(t: Option<&str>, default: u32) -> (r: Result<u32, IntErrorKind>)
    ensures
        match r {
            Ok(v) => part_value(opt_view(t), default as int) == Ok::<int, IntErrorKind>(v as int),
            Err(e) => part_value(opt_view(t), default as int) == Err::<int, IntErrorKind>(e),
        },
{
    match t {
        None => Ok(default),
        Some(x) => match parse_unsigned(x, 4294967295) {
            Ok(v) => Ok(v as u32),
            Err(e) => Err(e),
        },
    }
}

/// Whether the year part of a date text, if it is a number, leaves room
/// for the 2000 that is added to it.
pub open spec fn year_fits(s: Seq<char>) -> bool {
    match signed_value(split3(s, '/').0, i32::MIN as int, i32::MAX as int) {
        Ok(y) => y + 2000 <= i32::MAX,
        Err(_) => true,
    }
}

/// The day that `yy/mm/dd` names, the year counted from 2000 and the month
/// and day `1` when left out, or why it names none.
pub open spec fn parse_date_spec(s: Seq<char>) -> Result<Date, TsErr> {
    let (a, b, c) = split3(s, '/');
    match signed_value(a, i32::MIN as int, i32::MAX as int) {
        Err(e) => Err(TsErr::NotNumber(e)),
        Ok(y) => match part_value(b, 1) {
            Err(e) => Err(TsErr::NotNumber(e)),
            Ok(m) => match part_value(c, 1) {
                Err(e) => Err(TsErr::NotNumber(e)),
                Ok(d) => if valid_ymd(y + 2000, m, d) {
                    Ok(Date { year: (y + 2000) as i32, month: m as u32, day: d as u32 })
                } else {
                    Err(TsErr::InvalidDate)
                },
            },
        },
    }
}

/// Whether an hour, minute and second name a time of day.
pub open spec fn valid_hms(h: int, m: int, s: int) -> bool {
    0 <= h < 24 && 0 <= m < 60 && 0 <= s < 60
}

/// The time of day that `hh:mm:ss` names, the minute and second `0` when
/// left out, or why it names none.
pub open spec fn parse_time_spec(s: Seq<char>) -> Result<TimeOfDay, TsErr> {
    let (a, b, c) = split3(s, ':');
    match unsigned_value(a, u32::MAX as int) {
        Err(e) => Err(TsErr::NotNumber(e)),
        Ok(h) => match part_value(b, 0) {
            Err(e) => Err(TsErr::NotNumber(e)),
            Ok(m) => match part_value(c, 0) {
                Err(e) => Err(TsErr::NotNumber(e)),
                Ok(sec) => if valid_hms(h, m, sec) {
                    Ok(TimeOfDay { hour: h as u32, minute: m as u32, second: sec as u32 })
                } else {
                    Err(TsErr::InvalidTime)
                },
            },
        },
    }
}

/// Reads a date written `yy/mm/dd`; only the year is required.
pub fn parse_date(s: &str) -> (r: Result<Date, TsErr>)
    requires
        year_fits(s@),
    ensures
        r == parse_date_spec(s@),
{
    let (a, b, c) = cut_twice(s, '/');
    let y = match parse_i32(a) {
        Ok(v) => v,
        Err(e) => return Err(TsErr::NotNumber(e)),
    };
    let m = match read_part(b, 1) {
        Ok(v) => v,
        Err(e) => return Err(TsErr::NotNumber(e)),
    };
    let d = match read_part(c, 1) {
        Ok(v) => v,
        Err(e) => return Err(TsErr::NotNumber(e)),
    };
    match crate::time::date_from_ymd(y + 2000, m, d) {
        Some(date) => Ok(date),
        None => Err(TsErr::InvalidDate),
    }
}

/// Reads a time of day written `hh:mm:ss`; only the hour is required.
pub fn parse_time(s: &str) -> (r: Result<TimeOfDay, TsErr>)
    ensures
        r == parse_time_spec(s@),
{
    let (a, b, c) = cut_twice(s, ':');
    let h = match parse_unsigned(a, 4294967295) {
        Ok(v) => v as u32,
        Err(e) => return Err(TsErr::NotNumber(e)),
    };
    let m = match read_part(b, 0) {
        Ok(v) => v,
        Err(e) => return Err(TsErr::NotNumber(e)),
    };
    let sec = match read_part(c, 0) {
        Ok(v) => v,
        Err(e) => return Err(TsErr::NotNumber(e)),
    };
    if h < 24 && m < 60 && sec < 60 {
        Ok(TimeOfDay { hour: h, minute: m, second: sec })
    } else {
        Err(TsErr::InvalidTime)
    }
}

/// The one instant that a wall-clock reading denotes in the zone, or why
/// there is not exactly one.
pub open spec fn local_utc_spec(zone: Seq<char>, t: LocalDateTime) -> Result<ZonedDateTime, TsErr> {
    match zone_resolve(zone, t) {
        LocalResult::Single(x) => Ok(x),
        LocalResult::Ambiguous(_, _) => Err(TsErr::AmbiguousInTimezone),
        LocalResult::Gap => Err(TsErr::InvalidInTimezone),
    }
}

/// The one instant that a wall-clock reading denotes in the zone; an error
/// when clocks were set back (two instants) or forward (none) over it.
pub fn local_utc(zone: &Zone, t: &LocalDateTime) -> (r: Result<ZonedDateTime, TsErr>)
    requires
        valid_naive(*t),
    ensures
        r == local_utc_spec(zone@, *t),
{
    match resolve_local(zone.name(), t) {
        LocalResult::Single(x) => Ok(x),
        LocalResult::Ambiguous(_, _) => Err(TsErr::AmbiguousInTimezone),
        LocalResult::Gap => Err(TsErr::InvalidInTimezone),
    }
}

/// The timestamp that `date` or `date_time` denotes in the zone, or why it
/// denotes none.
pub open spec fn ts_spec(zone: Seq<char>, s: Seq<char>) -> Result<Ts, TsErr> {
    let (d, t) = split2(s, '_');
    match parse_date_spec(d) {
        Err(e) => Err(e),
        Ok(date) => match t {
            None => Ok(Ts::Date(date)),
            Some(ts) => match parse_time_spec(ts) {
                Err(e) => Err(e),
                Ok(tod) => match local_utc_spec(
                    zone,
                    LocalDateTime {
                        date,
                        hour: tod.hour,
                        minute: tod.minute,
                        second: tod.second,
                    },
                ) {
                    Err(e) => Err(e),
                    Ok(x) => Ok(Ts::Timed(x)),
                },
            },
        },
    }
}

impl Ts {
    /// Reads a timestamp: a date, optionally followed by `_` and a time of
    /// day, read on the zone's clock.
    pub fn from_str(zone: &Zone, s: &str) -> (r: Result<Ts, TsErr>)
        requires
            year_fits(split2(s@, '_').0),
        ensures
            r == ts_spec(zone@, s@),
    {
        let (d, t) = cut_once(s, '_');
        let date = parse_date(d)?;
        match t {
            None => Ok(Ts::Date(date)),
            Some(ts) => {
                let tod = parse_time(ts)?;
                let reading = LocalDateTime {
                    date,
                    hour: tod.hour,
                    minute: tod.minute,
                    second: tod.second,
                };
                let x = local_utc(zone, &reading)?;
                Ok(Ts::Timed(x))
            },
        }
    }

    /// The instant, in seconds since the epoch: for a day, its start in UTC.
    pub fn as_utc(&self) -> (r: i64)
        requires
            *self matches Ts::Date(d) ==> valid_date(d),
        ensures
            r == match *self {
                Ts::Date(d) => utc_midnight(d),
                Ts::Timed(x) => x.timestamp as int,
            },
    {
        match self {
            Ts::Date(d) => utc_midnight_timestamp(d),
            Ts::Timed(x) => x.timestamp,
        }
    }
}


/// The message of a timestamp error; a wrong date reads "Invalid time" and
/// a wrong time "Invalid date", as the messages have always read.
pub open spec fn ts_err_text(e: TsErr) -> Seq<char> {
    match e {
        TsErr::NotNumber(k) => "Not a number: "@ + int_error_text(k),
        TsErr::InvalidDate => "Invalid time"@,
        TsErr::InvalidTime => "Invalid date"@,
        TsErr::AmbiguousInTimezone => "Ambiguous in timezone"@,
        TsErr::InvalidInTimezone => "Invalid in timezone"@,
    }
}

impl TsErr {
    /// The message of the error (see [`ts_err_text`]).
    pub fn message(&self) -> (r: String)
        ensures
            r@ == ts_err_text(*self),
    {
        match self {
            TsErr::NotNumber(k) => {
                let mut out = "Not a number: ".to_owned();
                push_str(&mut out, k.message().as_str());
                out
            },
            TsErr::InvalidDate => "Invalid time".to_owned(),
            TsErr::InvalidTime => "Invalid date".to_owned(),
            TsErr::AmbiguousInTimezone => "Ambiguous in timezone".to_owned(),
            TsErr::InvalidInTimezone => "Invalid in timezone".to_owned(),
        }
    }
}

} // verus!
