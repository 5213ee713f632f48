//! Time ranges written as `start-end`, where the end omits what it shares
//! with the start and both omit trailing default components:
//! `25/08-09` is August 2025, `25/08/01_17-18` is one hour.
use vstd::prelude::*;
use crate::text::{digit_char, decimal, chars_of, string_of, string_of_range, push_char, push_str, push_two_digits, two_digits, has_char, contains_char};
use crate::time::{valid_naive, short_date_text, short_date_time_text, short_date, short_date_time, read_date, read_date_time,
    Date, LocalDateTime, ZonedDateTime, Zone, LocalResult, ParseKind, date_lt, midnight,
    valid_date, zone_known, zone_resolve, zone_gap_end, parsed_date, parsed_date_time,
    resolve_local, gap_end, parse_date_text, parse_date_time_text, date_less, date_from_ymd,
    add_one_month, add_one_week, monday_of_iso_week, one_month_later, one_week_later,
    iso_week_monday, valid_ymd, MAX_YEAR, MAX_DELTA,
};

verus! {

/// A span of time from `start` to `end`.
#[derive(Debug, Clone, Copy, PartialEq, Eq)]
pub struct Span<T> {
    pub start: T,
    pub end: T,
}

impl<T: Copy> Span<T> {
    /// The span from `start` to `end`.
    pub fn new(start: T, end: T) -> (r: Span<T>)
        ensures
            r.start == start,
            r.end == end,
    {
        Span { start, end }
    }
}

impl Span<Date> {
    /// Whether the span holds no day: its end is not after its start.
    pub fn is_empty(&self) -> (r: bool)
        ensures
            r == !date_lt(self.start, self.end),
    {
        !date_less(&self.start, &self.end)
    }
}

impl Span<ZonedDateTime> {
    /// Whether the span holds no time: its end is not after its start.
    pub fn is_empty(&self) -> (r: bool)
        ensures
            r == (self.start.timestamp >= self.end.timestamp),
    {
        self.start.timestamp >= self.end.timestamp
    }
}

/// A range of whole days or of instants.
#[derive(Debug, Clone, Copy, PartialEq, Eq)]
pub enum Range {
    AllDay(Span<Date>),
    Timed(Span<ZonedDateTime>),
}

/// One end of a [`Range`].
#[derive(Debug, Clone, Copy, PartialEq, Eq)]
pub enum Bound {
    AllDay(Date),
    Timed(ZonedDateTime),
}

/// Why a text is not a range.
#[derive(Debug, Clone, Copy, PartialEq, Eq, Structural)]
pub enum RangeErr {
    /// There is no `-` and so no end.
    MissingEndBound,
    /// The end is not after the start.
    Empty,
    /// A bound is not a date or date and time.
    Parse(ParseKind),
    /// The wall-clock time occurs twice in the zone.
    AmbiguousInTimezone,
    /// The wall-clock time does not occur in the zone.
    InvalidInTimezone,
    /// The end is written with more characters than the start.
    TooLong,
}

/// Which side of the base an overlay covers.
#[derive(Debug, Clone, Copy, PartialEq, Eq, Structural)]
pub enum Align {
    Leading,
    Trailing,
}

impl Range {
    /// The start of the range.
    pub fn start(&self) -> (r: Bound)
        ensures
            r == range_start(*self),
    {
        match self {
            Range::AllDay(s) => Bound::AllDay(s.start),
            Range::Timed(s) => Bound::Timed(s.start),
        }
    }

    /// The end of the range.
    pub fn end(&self) -> (r: Bound)
        ensures
            r == range_end(*self),
    {
        match self {
            Range::AllDay(s) => Bound::AllDay(s.end),
            Range::Timed(s) => Bound::Timed(s.end),
        }
    }
}

/// The start of a range.
pub open spec fn range_start(r: Range) -> Bound {
    match r {
        Range::AllDay(s) => Bound::AllDay(s.start),
        Range::Timed(s) => Bound::Timed(s.start),
    }
}

/// The end of a range.
pub open spec fn range_end(r: Range) -> Bound {
    match r {
        Range::AllDay(s) => Bound::AllDay(s.end),
        Range::Timed(s) => Bound::Timed(s.end),
    }
}

// ---------------------------------------------------------------------------
// Overlaying a short text over a longer one

/// Bytes that a character takes in UTF-8.
pub open spec fn char_bytes(c: char) -> nat {
    if (c as u32) < 0x80 {
        1
    } else if (c as u32) < 0x800 {
        2
    } else if (c as u32) < 0x10000 {
        3
    } else {
        4
    }
}

/// Bytes that a text takes in UTF-8 (`str::len`).
pub open spec fn utf8_len(s: Seq<char>) -> nat
    decreases s.len(),
{
    if s.len() == 0 {
        0
    } else {
        utf8_len(s.drop_last()) + char_bytes(s.last())
    }
}

/// The first `i` from `from` on such that the first `i` characters of `s`
/// take `k` bytes: byte `k` is the `i`-th character boundary; none when `k`
/// falls inside a character or past the end.
pub open spec fn boundary_from(s: Seq<char>, k: int, from: int) -> Option<int>
    decreases s.len() + 1 - from,
{
    if from < 0 || from > s.len() {
        None
    } else if utf8_len(s.take(from)) == k {
        Some(from)
    } else {
        boundary_from(s, k, from + 1)
    }
}

/// `over` written over `base`, at its start or at its end, measured in
/// UTF-8 bytes as `String::replace_range` does: too long when `over` takes
/// more bytes than `base`. Where the byte at which `over` starts or ends
/// is no character boundary of `base`, nothing is written either.
pub open spec fn overlay_spec(over: Seq<char>, base: Seq<char>, align: Align) -> Result<
    Seq<char>,
    RangeErr,
> {
    let ob = utf8_len(over) as int;
    let bb = utf8_len(base) as int;
    if bb >= ob {
        match align {
            Align::Leading => match boundary_from(base, ob, 0) {
                Some(i) => Ok(over + base.skip(i)),
                None => Err(RangeErr::TooLong),
            },
            Align::Trailing => match boundary_from(base, bb - ob, 0) {
                Some(i) => Ok(base.take(i) + over),
                None => Err(RangeErr::TooLong),
            },
        }
    } else {
        Err(RangeErr::TooLong)
    }
}

/// Bytes that a character takes in UTF-8.
fn char_width(c: char) -> (r: u128)
    ensures
        r == char_bytes(c),
{
    let n = c as u32;
    if n < 0x80 {
        1
    } else if n < 0x800 {
        2
    } else if n < 0x10000 {
        3
    } else {
        4
    }
}

proof fn lemma_utf8_len_bound(s: Seq<char>)
    ensures
        utf8_len(s) <= 4 * s.len(),
    decreases s.len(),
{
    if s.len() > 0 {
        lemma_utf8_len_bound(s.drop_last());
    }
}

/// Bytes that the characters take in UTF-8.
fn utf8_count(v: &Vec<char>) -> (r: u128)
    ensures
        r == utf8_len(v@),
{
    let mut acc: u128 = 0;
    let mut i: usize = 0;
    proof {
        assert(v@.take(0) =~= Seq::<char>::empty());
    }
    while i < v.len()
        invariant
            i <= v@.len(),
            acc == utf8_len(v@.take(i as int)),
        decreases v.len() - i,
    {
        proof {
            lemma_utf8_len_bound(v@.take(i as int));
            assert(v@.take(i + 1).drop_last() =~= v@.take(i as int));
        }
        acc = acc + char_width(v[i]);
        i = i + 1;
    }
    proof {
        assert(v@.take(v@.len() as int) =~= v@);
    }
    acc
}

/// The character index at which byte `k` falls, when it is a character
/// boundary (see [`boundary_from`]).
fn boundary_index(v: &Vec<char>, k: u128) -> (r: Option<usize>)
    ensures
        match r {
            Some(i) => boundary_from(v@, k as int, 0) == Some(i as int),
            None => boundary_from(v@, k as int, 0) is None,
        },
        r matches Some(i) ==> i <= v@.len(),
{
    let mut acc: u128 = 0;
    let mut i: usize = 0;
    proof {
        assert(v@.take(0) =~= Seq::<char>::empty());
    }
    loop
        invariant
            i <= v@.len(),
            acc == utf8_len(v@.take(i as int)),
            boundary_from(v@, k as int, 0) == boundary_from(v@, k as int, i as int),
        decreases v.len() - i,
    {
        if acc == k {
            return Some(i);
        }
        if i == v.len() {
            proof {
                assert(boundary_from(v@, k as int, i + 1) is None);
            }
            return None;
        }
        proof {
            lemma_utf8_len_bound(v@.take(i as int));
            assert(v@.take(i + 1).drop_last() =~= v@.take(i as int));
        }
        acc = acc + char_width(v[i]);
        i = i + 1;
    }
}

/// Writes `over` over `base`, keeping the rest of `base` (see
/// [`overlay_spec`]).
pub fn overlay(over: &str, base: &str, align: Align) -> (r: Result<String, RangeErr>)
    ensures
        match r {
            Ok(s) => overlay_spec(over@, base@, align) == Ok::<Seq<char>, RangeErr>(s@),
            Err(e) => overlay_spec(over@, base@, align) == Err::<Seq<char>, RangeErr>(e),
        },
{
    let o = chars_of(over);
    let b = chars_of(base);
    let ob = utf8_count(&o);
    let bb = utf8_count(&b);
    if bb >= ob {
        match align {
            Align::Leading => match boundary_index(&b, ob) {
                Some(i) => {
                    let mut out = string_of(o.as_slice());
                    let rest = string_of_range(b.as_slice(), i, b.len());
                    push_str(&mut out, rest.as_str());
                    assert(b@.subrange(i as int, b@.len() as int) =~= b@.skip(i as int));
                    Ok(out)
                },
                None => Err(RangeErr::TooLong),
            },
            Align::Trailing => match boundary_index(&b, bb - ob) {
                Some(i) => {
                    let mut out = string_of_range(b.as_slice(), 0, i);
                    let tail = string_of(o.as_slice());
                    push_str(&mut out, tail.as_str());
                    assert(b@.subrange(0, i as int) =~= b@.take(i as int));
                    Ok(out)
                },
                None => Err(RangeErr::TooLong),
            },
        }
    } else {
        Err(RangeErr::TooLong)
    }
}

// ---------------------------------------------------------------------------
// Reading bounds

/// The instant of a wall-clock time in the zone, when there is exactly one.
pub open spec fn in_timezone_spec(zone: Seq<char>, t: LocalDateTime) -> Result<ZonedDateTime, RangeErr> {
    match zone_resolve(zone, t) {
        LocalResult::Single(x) => Ok(x),
        LocalResult::Ambiguous(_, _) => Err(RangeErr::AmbiguousInTimezone),
        LocalResult::Gap => Err(RangeErr::InvalidInTimezone),
    }
}

/// Interprets a wall-clock time in the zone; errs when the time is ambiguous
/// or skipped by a clock change.
pub fn in_timezone(t: &LocalDateTime, zone: &Zone) -> (r: Result<ZonedDateTime, RangeErr>)
    requires
        valid_naive(*t),
    ensures
        r == in_timezone_spec(zone@, *t),
{
    let name = zone.name();
    match resolve_local(name, t) {
        LocalResult::Single(x) => Ok(x),
        LocalResult::Ambiguous(_, _) => Err(RangeErr::AmbiguousInTimezone),
        LocalResult::Gap => Err(RangeErr::InvalidInTimezone),
    }
}

/// The first instant of a day in the zone: midnight, the earlier midnight
/// when it occurs twice, or the end of the clock change that skips it;
/// none for a date that the calendar does not hold.
pub open spec fn first_time_spec(zone: Seq<char>, d: Date) -> Option<ZonedDateTime> {
    if !valid_date(d) {
        None
    } else {
        match zone_resolve(zone, midnight(d)) {
            LocalResult::Single(x) => Some(x),
            LocalResult::Ambiguous(e, _) => Some(e),
            LocalResult::Gap => zone_gap_end(zone, midnight(d)),
        }
    }
}

/// The first instant of a day in the zone; `None` for a date that the
/// calendar does not hold, or when midnight falls in a clock change whose
/// end the zone data does not hold.
pub fn first_time(d: &Date, zone: &Zone) -> (r: Option<ZonedDateTime>)
    ensures
        r == first_time_spec(zone@, *d),
{
    if date_from_ymd(d.year, d.month, d.day).is_none() {
        return None;
    }
    let name = zone.name();
    let t = LocalDateTime { date: *d, hour: 0, minute: 0, second: 0 };
    match resolve_local(name, &t) {
        LocalResult::Single(x) => Some(x),
        LocalResult::Ambiguous(e, _) => Some(e),
        LocalResult::Gap => gap_end(name, &t),
    }
}

/// A date with omitted trailing components, which default to the first.
pub open spec fn date_spec(s: Seq<char>) -> Result<Date, RangeErr> {
    match overlay_spec(s, "XX/01/01"@, Align::Leading) {
        Err(e) => Err(e),
        Ok(full) => match read_date(full) {
            Ok(d) => Ok(d),
            Err(k) => Err(RangeErr::Parse(k)),
        },
    }
}

/// Parses a date whose omitted trailing components default to the first
/// month and day.
pub fn date(s: &str) -> (r: Result<Date, RangeErr>)
    ensures
        r == date_spec(s@),
{
    let full = overlay(s, "XX/01/01", Align::Leading)?;
    match parse_date_text(full.as_str()) {
        Ok(d) => Ok(d),
        Err(k) => Err(RangeErr::Parse(k)),
    }
}

/// A date and time with omitted trailing components, in the zone.
pub open spec fn date_time_spec(zone: Seq<char>, s: Seq<char>) -> Result<ZonedDateTime, RangeErr> {
    match overlay_spec(s, "XX/01/01_00:00:00"@, Align::Leading) {
        Err(e) => Err(e),
        Ok(full) => match read_date_time(full) {
            Ok(t) => in_timezone_spec(zone, t),
            Err(k) => Err(RangeErr::Parse(k)),
        },
    }
}

/// Parses a date and time whose omitted trailing components default to the
/// first month and day and to zero, then places it in the zone.
pub fn date_time(s: &str, zone: &Zone) -> (r: Result<ZonedDateTime, RangeErr>)
    ensures
        r == date_time_spec(zone@, s@),
{
    let full = overlay(s, "XX/01/01_00:00:00", Align::Leading)?;
    match parse_date_time_text(full.as_str()) {
        Ok(t) => in_timezone(&t, zone),
        Err(k) => Err(RangeErr::Parse(k)),
    }
}

/// A bound: with a time when the text holds `_`, else a whole day.
pub open spec fn bound_spec(zone: Seq<char>, s: Seq<char>) -> Result<Bound, RangeErr> {
    if has_char(s, '_') {
        match date_time_spec(zone, s) {
            Ok(t) => Ok(Bound::Timed(t)),
            Err(e) => Err(e),
        }
    } else {
        match date_spec(s) {
            Ok(d) => Ok(Bound::AllDay(d)),
            Err(e) => Err(e),
        }
    }
}

impl Bound {
    /// Parses a bound; a `_` separates date and time.
    pub fn from_str(s: &str, zone: &Zone) -> (r: Result<Bound, RangeErr>)
        ensures
            r == bound_spec(zone@, s@),
    {
        if contains_char(s, '_') {
            Ok(Bound::Timed(date_time(s, zone)?))
        } else {
            Ok(Bound::AllDay(date(s)?))
        }
    }

    /// The instant of the bound; a whole day starts at its first instant.
    pub fn dt(self, zone: &Zone) -> (r: Option<ZonedDateTime>)
        ensures
            r == bound_instant(zone@, self),
    {
        match self {
            Bound::AllDay(d) => first_time(&d, zone),
            Bound::Timed(t) => Some(t),
        }
    }
}

/// The instant of a bound in the zone.
pub open spec fn bound_instant(zone: Seq<char>, b: Bound) -> Option<ZonedDateTime> {
    match b {
        Bound::AllDay(d) => first_time_spec(zone, d),
        Bound::Timed(t) => Some(t),
    }
}

/// Index of the first `c` in `s` at or after `i`, if any.
pub open spec fn find_char_from(s: Seq<char>, c: char, i: int) -> Option<int>
    decreases s.len() - i,
{
    if i >= s.len() {
        None
    } else if s[i] == c {
        Some(i)
    } else {
        find_char_from(s, c, i + 1)
    }
}

/// Index of the first `c` in `s`, if any.
pub fn find_char(s: &str, c: char) -> (r: Option<usize>)
    ensures
        match r {
            Some(i) => find_char_from(s@, c, 0) == Some(i as int),
            None => find_char_from(s@, c, 0) is None,
        },
        r matches Some(i) ==> i < s@.len() && s@[i as int] == c,
{
    let n = s.unicode_len();
    let mut i: usize = 0;
    while i < n
        invariant
            n == s@.len(),
            i <= n,
            find_char_from(s@, c, 0) == find_char_from(s@, c, i as int),
        decreases n - i,
    {
        if s.get_char(i) == c {
            return Some(i);
        }
        i = i + 1;
    }
    None
}

/// The range that a text denotes in the zone, or why it denotes none.
pub open spec fn range_spec(zone: Seq<char>, s: Seq<char>) -> Result<Range, RangeErr> {
    match find_char_from(s, '-', 0) {
        None => Err(RangeErr::MissingEndBound),
        Some(i) => {
            let start = s.take(i);
            match overlay_spec(s.skip(i + 1), start, Align::Trailing) {
                Err(e) => Err(e),
                Ok(end) => match bound_spec(zone, start) {
                    Err(e) => Err(e),
                    Ok(Bound::AllDay(nd)) => match date_spec(end) {
                        Err(e) => Err(e),
                        Ok(ed) => if !date_lt(nd, ed) {
                            Err(RangeErr::Empty)
                        } else {
                            Ok(Range::AllDay(Span { start: nd, end: ed }))
                        },
                    },
                    Ok(Bound::Timed(dt)) => match date_time_spec(zone, end) {
                        Err(e) => Err(e),
                        Ok(et) => if dt.timestamp >= et.timestamp {
                            Err(RangeErr::Empty)
                        } else {
                            Ok(Range::Timed(Span { start: dt, end: et }))
                        },
                    },
                },
            }
        },
    }
}

impl Range {
    /// Parses `start-end`; the end is written over the tail of the start.
    pub fn from_str(s: &str, zone: &Zone) -> (r: Result<Range, RangeErr>)
        ensures
            r == range_spec(zone@, s@),
    {
        let i = match find_char(s, '-') {
            Some(i) => i,
            None => return Err(RangeErr::MissingEndBound),
        };
        let n = s.unicode_len();
        let start = s.substring_char(0, i);
        let rest = s.substring_char(i + 1, n);
        assert(s@.subrange(0, i as int) =~= s@.take(i as int));
        assert(s@.subrange(i + 1, n as int) =~= s@.skip(i + 1));
        let end = overlay(rest, start, Align::Trailing)?;
        match Bound::from_str(start, zone)? {
            Bound::AllDay(nd) => {
                let span = Span::new(nd, date(end.as_str())?);
                if span.is_empty() {
                    return Err(RangeErr::Empty);
                }
                Ok(Range::AllDay(span))
            },
            Bound::Timed(dt) => {
                let span = Span::new(dt, date_time(end.as_str(), zone)?);
                if span.is_empty() {
                    return Err(RangeErr::Empty);
                }
                Ok(Range::Timed(span))
            },
        }
    }

    /// The calendar month `month` of `year`, from its first day to the first
    /// day of the next month; `None` when there is no such month.
    pub fn month(year: i32, month: u32) -> (r: Option<Range>)
        requires
            !(year == MAX_YEAR && month == 12),
        ensures
            r == month_range(year, month),
    {
        let start = date_from_ymd(year, month, 1)?;
        match add_one_month(start) {
            Some(end) => Some(Range::AllDay(Span::new(start, end))),
            None => None,
        }
    }

    /// ISO week `week` of `year`, from its Monday to the next Monday; `None`
    /// when there is no such week.
    pub fn week(year: i32, week: u32) -> (r: Option<Range>)
        ensures
            r == week_range(year, week),
    {
        let start = monday_of_iso_week(year, week)?;
        match add_one_week(start) {
            Some(end) => Some(Range::AllDay(Span::new(start, end))),
            None => None,
        }
    }

    /// The span of instants that the range covers; days run from their first
    /// instants. `None` when a day has no first instant in the zone data.
    pub fn into_dt_span(self, zone: &Zone) -> (r: Option<Span<ZonedDateTime>>)
        ensures
            r == instant_span(zone@, self),
    {
        match self {
            Range::AllDay(span) => {
                let s = first_time(&span.start, zone)?;
                let e = first_time(&span.end, zone)?;
                Some(Span::new(s, e))
            },
            Range::Timed(span) => Some(span),
        }
    }

    /// Seconds from the start to the end of the range; `None` when a day has
    /// no first instant in the zone data, or beyond what a time delta holds.
    pub fn time_delta(&self, zone: &Zone) -> (r: Option<i64>)
        ensures
            r == range_delta(zone@, *self),
    {
        let s = self.start().dt(zone)?;
        let e = self.end().dt(zone)?;
        seconds_between(&s, &e)
    }
}

/// The month as a range of days.
pub open spec fn month_range(year: i32, month: u32) -> Option<Range> {
    if valid_ymd(year as int, month as int, 1) {
        let start = Date { year, month, day: 1 };
        match one_month_later(start) {
            Some(end) => Some(Range::AllDay(Span { start, end })),
            None => None,
        }
    } else {
        None
    }
}

/// The ISO week as a range of days.
pub open spec fn week_range(year: i32, week: u32) -> Option<Range> {
    match iso_week_monday(year, week) {
        None => None,
        Some(start) => match one_week_later(start) {
            Some(end) => Some(Range::AllDay(Span { start, end })),
            None => None,
        },
    }
}

/// The span of instants of a range in the zone.
pub open spec fn instant_span(zone: Seq<char>, r: Range) -> Option<Span<ZonedDateTime>> {
    match r {
        Range::AllDay(span) => match (first_time_spec(zone, span.start), first_time_spec(
            zone,
            span.end,
        )) {
            (Some(s), Some(e)) => Some(Span { start: s, end: e }),
            _ => None,
        },
        Range::Timed(span) => Some(span),
    }
}

/// Whether a number of seconds fits a time delta.
pub open spec fn delta_fits(x: int) -> bool {
    -MAX_DELTA <= x <= MAX_DELTA
}

/// Seconds from one instant to another, when they fit a time delta.
pub open spec fn between(s: ZonedDateTime, e: ZonedDateTime) -> Option<i64> {
    if delta_fits(e.timestamp - s.timestamp) {
        Some((e.timestamp - s.timestamp) as i64)
    } else {
        None
    }
}

/// Seconds from the start to the end of a range in the zone.
pub open spec fn range_delta(zone: Seq<char>, r: Range) -> Option<i64> {
    match (bound_instant(zone, range_start(r)), bound_instant(zone, range_end(r))) {
        (Some(s), Some(e)) => between(s, e),
        _ => None,
    }
}

/// Seconds from `s` to `e`, when they fit a time delta.
pub fn seconds_between(s: &ZonedDateTime, e: &ZonedDateTime) -> (r: Option<i64>)
    ensures
        r == between(*s, *e),
{
    let d: i128 = (e.timestamp as i128) - (s.timestamp as i128);
    if -(MAX_DELTA as i128) <= d && d <= (MAX_DELTA as i128) {
        Some(d as i64)
    } else {
        None
    }
}

// ---------------------------------------------------------------------------
// Writing ranges

/// Year, month and day, then for a timed bound hour, minute and second.
pub open spec fn bound_components(b: Bound) -> Seq<int> {
    match b {
        Bound::AllDay(d) => seq![d.year as int, d.month as int, d.day as int],
        Bound::Timed(t) => seq![
            t.local.date.year as int,
            t.local.date.month as int,
            t.local.date.day as int,
            t.local.hour as int,
            t.local.minute as int,
            t.local.second as int,
        ],
    }
}

/// The value that a component takes when it is omitted.
pub open spec fn component_default(i: int) -> int {
    if i < 3 {
        1
    } else {
        0
    }
}

/// The separator written before component `i + 1`.
pub open spec fn separator(i: int) -> char {
    if i < 2 {
        '/'
    } else if i == 2 {
        '_'
    } else {
        ':'
    }
}

/// Largest `i < k` where start or end differs from the default; -1 if none.
pub open spec fn last_non_default(sc: Seq<int>, ec: Seq<int>, k: int) -> int
    decreases k,
{
    if k <= 0 {
        -1
    } else if sc[k - 1] != component_default(k - 1) || ec[k - 1] != component_default(k - 1) {
        k - 1
    } else {
        last_non_default(sc, ec, k - 1)
    }
}

/// Smallest `i` with `k <= i < n` where start and end differ; `n` if none.
pub open spec fn first_difference(sc: Seq<int>, ec: Seq<int>, k: int, n: int) -> int
    decreases n - k,
{
    if k >= n {
        n
    } else if sc[k] != ec[k] {
        k
    } else {
        first_difference(sc, ec, k + 1, n)
    }
}

/// A component as written: the year as its offset from 2000.
pub open spec fn written_value(c: Seq<int>, i: int) -> int {
    if i == 0 {
        c[0] - 2000
    } else {
        c[i]
    }
}

/// Components `from..=to`, two digits each, with separators between them.
pub open spec fn components_text(c: Seq<int>, from: int, to: int) -> Seq<char>
    decreases to - from,
{
    if to <= from {
        two_digits(written_value(c, from) as nat)
    } else {
        components_text(c, from, to - 1) + seq![separator(to - 1)] + two_digits(
            written_value(c, to) as nat,
        )
    }
}

/// Index of the last component that is written.
pub open spec fn last_written(r: Range) -> int {
    let sc = bound_components(range_start(r));
    let ec = bound_components(range_end(r));
    match r {
        Range::AllDay(_) => last_non_default(sc, ec, 3),
        Range::Timed(_) => {
            let k = last_non_default(sc, ec, 6);
            if k < 3 {
                3
            } else {
                k
            }
        },
    }
}

/// Index of the first component of the end that is written.
pub open spec fn first_written(r: Range) -> int {
    let sc = bound_components(range_start(r));
    let ec = bound_components(range_end(r));
    first_difference(sc, ec, 0, sc.len() as int)
}

/// The range as written: start up to its last non-default component, `-`,
/// end from its first component that differs from the start.
pub open spec fn range_text(r: Range) -> Seq<char> {
    let sc = bound_components(range_start(r));
    let ec = bound_components(range_end(r));
    components_text(sc, 0, last_written(r)) + seq!['-'] + components_text(
        ec,
        first_written(r),
        last_written(r),
    )
}

/// Whether a range can be written: both years from 2000 on, and start and
/// end differing in some component.
pub open spec fn range_writable(r: Range) -> bool {
    let sc = bound_components(range_start(r));
    let ec = bound_components(range_end(r));
    &&& sc[0] >= 2000
    &&& ec[0] >= 2000
    &&& first_difference(sc, ec, 0, sc.len() as int) < sc.len()
}

proof fn lemma_last_non_default_bounds(sc: Seq<int>, ec: Seq<int>, k: int)
    ensures
        -1 <= last_non_default(sc, ec, k) < if k < 0 { 0 } else { k },
        sc.len() >= k && k >= 1 && sc[0] != 1 ==> last_non_default(sc, ec, k) >= 0,
    decreases k,
{
    if k > 0 {
        lemma_last_non_default_bounds(sc, ec, k - 1);
    }
}

proof fn lemma_first_difference_bounds(sc: Seq<int>, ec: Seq<int>, k: int, n: int)
    requires
        k <= n,
    ensures
        k <= first_difference(sc, ec, k, n) <= n,
        first_difference(sc, ec, k, n) < n ==> sc[first_difference(sc, ec, k, n)]
            != ec[first_difference(sc, ec, k, n)],
        forall|i: int| k <= i < first_difference(sc, ec, k, n) ==> sc[i] == ec[i],
    decreases n - k,
{
    if k < n && sc[k] == ec[k] {
        lemma_first_difference_bounds(sc, ec, k + 1, n);
    }
}

/// The first written component of the end is not after the last one.
proof fn lemma_first_written_le_last(r: Range)
    requires
        range_writable(r),
    ensures
        0 <= first_written(r) <= last_written(r) < bound_components(range_start(r)).len(),
{
    let sc = bound_components(range_start(r));
    let ec = bound_components(range_end(r));
    let n = sc.len() as int;
    let p = first_difference(sc, ec, 0, n);
    lemma_first_difference_bounds(sc, ec, 0, n);
    lemma_last_non_default_bounds(sc, ec, n);
    lemma_last_non_default_at_least(sc, ec, n, p);
}

/// Any component that differs between start and end is at or before the last
/// non-default one.
proof fn lemma_last_non_default_at_least(sc: Seq<int>, ec: Seq<int>, k: int, p: int)
    requires
        0 <= p < k,
        sc[p] != ec[p],
    ensures
        p <= last_non_default(sc, ec, k),
    decreases k,
{
    if k - 1 != p && !(sc[k - 1] != component_default(k - 1) || ec[k - 1] != component_default(
        k - 1,
    )) {
        lemma_last_non_default_at_least(sc, ec, k - 1, p);
    }
}

impl Bound {
    /// Year, month and day, then for a timed bound hour, minute and second.
    fn components(&self) -> (r: Vec<u32>)
        requires
            bound_components(*self)[0] >= 0,
        ensures
            r@.map_values(|x: u32| x as int) == bound_components(*self),
    {
        let v = match self {
            Bound::AllDay(d) => vec![d.year as u32, d.month, d.day],
            Bound::Timed(t) => vec![
                t.local.date.year as u32,
                t.local.date.month,
                t.local.date.day,
                t.local.hour,
                t.local.minute,
                t.local.second,
            ],
        };
        assert(v@.map_values(|x: u32| x as int) =~= bound_components(*self));
        v
    }
}

/// Writes components `from..=to`, two digits each, separated as in
/// `25/08/01_17:30:00`; the year is written as its offset from 2000.
fn write(out: &mut String, components: &Vec<u32>, from: usize, to: usize)
    requires
        from <= to < components@.len() <= 6,
        from == 0 ==> components@[0] >= 2000,
    ensures
        final(out)@ == old(out)@ + components_text(
            components@.map_values(|x: u32| x as int),
            from as int,
            to as int,
        ),
{
    let ghost c = components@.map_values(|x: u32| x as int);
    let ghost start = out@;
    let mut i: usize = from;
    while i <= to
        invariant
            from <= i <= to + 1,
            to < components@.len() <= 6,
            from == 0 ==> components@[0] >= 2000,
            c == components@.map_values(|x: u32| x as int),
            out@ == start + if i == from {
                Seq::<char>::empty()
            } else {
                components_text(c, from as int, i - 1)
            },
        decreases to + 1 - i,
    {
        if i != from {
            let sep = if i - 1 < 2 {
                '/'
            } else if i - 1 == 2 {
                '_'
            } else {
                ':'
            };
            push_char(out, sep);
        }
        let value: u32 = if i > 0 {
            components[i]
        } else {
            components[0] - 2000
        };
        push_two_digits(out, value as u64);
        assert(out@ =~= start + components_text(c, from as int, i as int));
        i = i + 1;
    }
}

impl Range {
    /// Whether the range can be written (see [`Range::to_string`]).
    pub fn is_writable(&self) -> (r: bool)
        ensures
            r == range_writable(*self),
    {
        let (sy, ey) = match self {
            Range::AllDay(s) => (s.start.year, s.end.year),
            Range::Timed(s) => (s.start.local.date.year, s.end.local.date.year),
        };
        if sy < 2000 || ey < 2000 {
            return false;
        }
        let sc = self.start().components();
        let ec = self.end().components();
        assert(sc@.len() == sc@.map_values(|x: u32| x as int).len());
        assert(ec@.len() == ec@.map_values(|x: u32| x as int).len());
        let p = first_mismatch(&sc, &ec);
        p < sc.len()
    }

    /// The range as written: the start without trailing default components,
    /// `-`, then the end from its first component that differs from the
    /// start; timed ranges always show the hour.
    pub fn to_string(&self) -> (r: String)
        requires
            range_writable(*self),
        ensures
            r@ == range_text(*self),
    {
        proof {
            lemma_first_written_le_last(*self);
        }
        let sc = self.start().components();
        let ec = self.end().components();
        assert(sc@.len() == sc@.map_values(|x: u32| x as int).len());
        assert(ec@.len() == ec@.map_values(|x: u32| x as int).len());
        let ghost scv = sc@.map_values(|x: u32| x as int);
        let ghost ecv = ec@.map_values(|x: u32| x as int);
        let n = sc.len();
        // last component where start or end differs from its default
        let mut i: usize = n;
        while i > 0 && sc[i - 1] == default_component(i - 1) && ec[i - 1] == default_component(i - 1)
            invariant
                i <= n,
                n == sc@.len(),
                n == ec@.len(),
                scv == sc@.map_values(|x: u32| x as int),
                ecv == ec@.map_values(|x: u32| x as int),
                last_non_default(scv, ecv, n as int) == last_non_default(scv, ecv, i as int),
            decreases i,
        {
            i = i - 1;
        }
        proof {
            lemma_last_non_default_bounds(scv, ecv, i as int);
        }
        let last: usize = if i > 0 {
            i - 1
        } else {
            0
        };
        let suffix = match self {
            Range::AllDay(_) => last,
            Range::Timed(_) => if last < 3 {
                3
            } else {
                last
            },
        };
        let prefix = first_mismatch(&sc, &ec);
        let mut out = String::new();
        write(&mut out, &sc, 0, suffix);
        push_char(&mut out, '-');
        write(&mut out, &ec, prefix, suffix);
        out
    }
}

/// The value that component `i` takes when it is omitted.
fn default_component(i: usize) -> (r: u32)
    ensures
        r as int == component_default(i as int),
{
    if i < 3 {
        1
    } else {
        0
    }
}

/// Index of the first position where the two lists differ; their length if none.
fn first_mismatch(a: &Vec<u32>, b: &Vec<u32>) -> (r: usize)
    requires
        a@.len() == b@.len(),
    ensures
        r as int == first_difference(
            a@.map_values(|x: u32| x as int),
            b@.map_values(|x: u32| x as int),
            0,
            a@.len() as int,
        ),
{
    let ghost av = a@.map_values(|x: u32| x as int);
    let ghost bv = b@.map_values(|x: u32| x as int);
    let mut k: usize = 0;
    while k < a.len()
        invariant
            a@.len() == b@.len(),
            k <= a@.len(),
            av == a@.map_values(|x: u32| x as int),
            bv == b@.map_values(|x: u32| x as int),
            first_difference(av, bv, 0, a@.len() as int) == first_difference(
                av,
                bv,
                k as int,
                a@.len() as int,
            ),
        decreases a.len() - k,
    {
        if a[k] != b[k] {
            return k;
        }
        k = k + 1;
    }
    k
}


// ---------------------------------------------------------------------------
// Reading a written range back

/// A character that a written range is made of, other than `-`: a digit
/// or a separator, each one byte in UTF-8.
pub open spec fn plain_char(c: char) -> bool {
    ('0' <= c <= '9') || c == '/' || c == '_' || c == ':'
}

/// Whether every component `from..=to` is written in two digits.
pub open spec fn two_digit_components(c: Seq<int>, from: int, to: int) -> bool {
    forall|i: int| from <= i <= to ==> 0 <= #[trigger] written_value(c, i) < 100
}

/// The two digits of a number below 100.
proof fn lemma_two_digits(n: nat)
    requires
        n < 100,
    ensures
        two_digits(n) == seq![digit_char(n / 10), digit_char(n % 10)],
        '0' <= digit_char(n / 10) <= '9',
        '0' <= digit_char(n % 10) <= '9',
{
    reveal_with_fuel(decimal, 2);
    if n < 10 {
        assert(digit_char(0) == '0');
        assert(two_digits(n) =~= seq![digit_char(n / 10), digit_char(n % 10)]);
    } else {
        assert(decimal(n / 10) == seq![digit_char(n / 10)]);
        assert(two_digits(n) =~= seq![digit_char(n / 10), digit_char(n % 10)]);
    }
}

/// Two numbers below 100 with the same two digits are equal.
proof fn lemma_two_digits_injective(a: nat, b: nat)
    requires
        a < 100,
        b < 100,
        two_digits(a) == two_digits(b),
    ensures
        a == b,
{
    lemma_two_digits(a);
    lemma_two_digits(b);
    assert(two_digits(a)[0] == two_digits(b)[0]);
    assert(two_digits(a)[1] == two_digits(b)[1]);
    assert(a / 10 == b / 10);
    assert(a % 10 == b % 10);
}

/// Written components have two digits each and a separator between each
/// two; a date alone has no `_`.
proof fn lemma_components_text(c: Seq<int>, from: int, to: int)
    requires
        0 <= from <= to,
        two_digit_components(c, from, to),
    ensures
        components_text(c, from, to).len() == 3 * (to - from) + 2,
        forall|j: int|
            0 <= j < components_text(c, from, to).len() ==> plain_char(
                #[trigger] components_text(c, from, to)[j],
            ),
        to <= 2 ==> forall|j: int|
            0 <= j < components_text(c, from, to).len() ==> #[trigger] components_text(
                c,
                from,
                to,
            )[j] != '_',
    decreases to - from,
{
    assert(0 <= written_value(c, to) < 100);
    lemma_two_digits(written_value(c, to) as nat);
    if to > from {
        lemma_components_text(c, from, to - 1);
    }
}


/// The written components split before component `f`.
proof fn lemma_components_split(c: Seq<int>, f: int, to: int)
    requires
        0 < f <= to,
    ensures
        components_text(c, 0, to) == components_text(c, 0, f - 1) + seq![separator(f - 1)]
            + components_text(c, f, to),
    decreases to - f,
{
    if to > f {
        lemma_components_split(c, f, to - 1);
        assert(components_text(c, 0, to) =~= components_text(c, 0, f - 1) + seq![
            separator(f - 1),
        ] + components_text(c, f, to));
    } else {
        assert(components_text(c, 0, to) =~= components_text(c, 0, f - 1) + seq![
            separator(f - 1),
        ] + components_text(c, f, to));
    }
}

/// Components that agree are written alike.
proof fn lemma_components_agree(a: Seq<int>, b: Seq<int>, from: int, to: int)
    requires
        from <= to,
        forall|i: int| from <= i <= to ==> a[i] == b[i],
    ensures
        components_text(a, from, to) == components_text(b, from, to),
    decreases to - from,
{
    assert(written_value(a, to) == written_value(b, to));
    if to > from {
        lemma_components_agree(a, b, from, to - 1);
    }
}

/// A date written up to component `l`, completed with the defaults of
/// `XX/01/01`, is the date written in full.
proof fn lemma_date_defaults(c: Seq<int>, l: int)
    requires
        0 <= l <= 2,
        c.len() == 3,
        forall|i: int| l < i <= 2 ==> c[i] == 1,
        two_digit_components(c, 0, l),
    ensures
        components_text(c, 0, l) + "XX/01/01"@.skip(3 * l + 2) == components_text(c, 0, 2),
{
    reveal_strlit("XX/01/01");
    reveal_with_fuel(components_text, 3);
    lemma_components_text(c, 0, l);
    lemma_two_digits(1);
    if l == 0 {
        assert(written_value(c, 1) == 1 && written_value(c, 2) == 1);
        assert(components_text(c, 0, l) + "XX/01/01"@.skip(3 * l + 2) =~= components_text(c, 0, 2));
    } else if l == 1 {
        assert(written_value(c, 2) == 1);
        assert(components_text(c, 0, l) + "XX/01/01"@.skip(3 * l + 2) =~= components_text(c, 0, 2));
    } else {
        assert(components_text(c, 0, l) + "XX/01/01"@.skip(3 * l + 2) =~= components_text(c, 0, 2));
    }
}

/// A date and time written up to component `l`, completed with the
/// defaults of `XX/01/01_00:00:00`, is the date and time written in full.
proof fn lemma_date_time_defaults(c: Seq<int>, l: int)
    requires
        3 <= l <= 5,
        c.len() == 6,
        forall|i: int| l < i <= 5 ==> c[i] == 0,
        two_digit_components(c, 0, l),
    ensures
        components_text(c, 0, l) + "XX/01/01_00:00:00"@.skip(3 * l + 2) == components_text(c, 0, 5),
{
    reveal_strlit("XX/01/01_00:00:00");
    reveal_with_fuel(components_text, 3);
    lemma_components_text(c, 0, l);
    lemma_two_digits(0);
    if l == 3 {
        assert(written_value(c, 4) == 0 && written_value(c, 5) == 0);
        assert(components_text(c, 0, l) + "XX/01/01_00:00:00"@.skip(3 * l + 2) =~= components_text(c, 0, 5));
    } else if l == 4 {
        assert(written_value(c, 5) == 0);
        assert(components_text(c, 0, l) + "XX/01/01_00:00:00"@.skip(3 * l + 2) =~= components_text(c, 0, 5));
    } else {
        assert(components_text(c, 0, l) + "XX/01/01_00:00:00"@.skip(3 * l + 2) =~= components_text(c, 0, 5));
    }
}

/// A date written in full is its two-digit form.
proof fn lemma_date_full_text(d: Date)
    ensures
        components_text(bound_components(Bound::AllDay(d)), 0, 2) == short_date_text(d),
{
    let c = bound_components(Bound::AllDay(d));
    reveal_with_fuel(components_text, 3);
    assert(components_text(c, 0, 2) =~= short_date_text(d));
}

/// A date and time written in full is its two-digit form.
proof fn lemma_date_time_full_text(z: ZonedDateTime)
    ensures
        components_text(bound_components(Bound::Timed(z)), 0, 5) == short_date_time_text(z.local),
{
    let c = bound_components(Bound::Timed(z));
    reveal_with_fuel(components_text, 6);
    assert(components_text(c, 0, 5) =~= short_date_time_text(z.local));
}

/// Two dates from 2000 to 2069 with the same two-digit form are equal.
proof fn lemma_short_date_injective(d: Date, e: Date)
    requires
        short_date(d),
        short_date(e),
        short_date_text(d) == short_date_text(e),
    ensures
        d == e,
{
    lemma_two_digits((e.year - 2000) as nat);
    lemma_two_digits((d.year - 2000) as nat);
    lemma_two_digits(e.month as nat);
    lemma_two_digits(d.month as nat);
    lemma_two_digits(e.day as nat);
    lemma_two_digits(d.day as nat);
    let a = short_date_text(e);
    let b = short_date_text(d);
    assert(a.subrange(0, 2) =~= two_digits((e.year - 2000) as nat));
    assert(b.subrange(0, 2) =~= two_digits((d.year - 2000) as nat));
    assert(a.subrange(3, 5) =~= two_digits(e.month as nat));
    assert(b.subrange(3, 5) =~= two_digits(d.month as nat));
    assert(a.subrange(6, 8) =~= two_digits(e.day as nat));
    assert(b.subrange(6, 8) =~= two_digits(d.day as nat));
    lemma_two_digits_injective((e.year - 2000) as nat, (d.year - 2000) as nat);
    lemma_two_digits_injective(e.month as nat, d.month as nat);
    lemma_two_digits_injective(e.day as nat, d.day as nat);
}

/// `chrono` reads a two-digit date back as itself.
proof fn lemma_read_short_date(d: Date)
    requires
        short_date(d),
    ensures
        read_date(short_date_text(d)) == Ok::<Date, ParseKind>(d),
{
    let t = short_date_text(d);
    assert(short_date(d) && short_date_text(d) == t);
    let e = choose|e: Date| short_date(e) && #[trigger] short_date_text(e) == t;
    assert(short_date_text(e) == t);
    lemma_short_date_injective(d, e);
}

/// Two readings from 2000 to 2069 with the same two-digit form are equal.
#[verifier::spinoff_prover]
proof fn lemma_short_date_time_injective(t: LocalDateTime, e: LocalDateTime)
    requires
        short_date_time(t),
        short_date_time(e),
        short_date_time_text(t) == short_date_time_text(e),
    ensures
        t == e,
{
    let a = short_date_time_text(e);
    let b = short_date_time_text(t);
    lemma_two_digits((e.date.year - 2000) as nat);
    lemma_two_digits((t.date.year - 2000) as nat);
    lemma_two_digits(e.date.month as nat);
    lemma_two_digits(t.date.month as nat);
    lemma_two_digits(e.date.day as nat);
    lemma_two_digits(t.date.day as nat);
    assert(a.subrange(0, 8) =~= short_date_text(e.date));
    assert(b.subrange(0, 8) =~= short_date_text(t.date));
    lemma_short_date_injective(t.date, e.date);
    lemma_two_digits(e.hour as nat);
    lemma_two_digits(t.hour as nat);
    lemma_two_digits(e.minute as nat);
    lemma_two_digits(t.minute as nat);
    lemma_two_digits(e.second as nat);
    lemma_two_digits(t.second as nat);
    assert(a.subrange(9, 11) =~= two_digits(e.hour as nat));
    assert(b.subrange(9, 11) =~= two_digits(t.hour as nat));
    assert(a.subrange(12, 14) =~= two_digits(e.minute as nat));
    assert(b.subrange(12, 14) =~= two_digits(t.minute as nat));
    assert(a.subrange(15, 17) =~= two_digits(e.second as nat));
    assert(b.subrange(15, 17) =~= two_digits(t.second as nat));
    lemma_two_digits_injective(e.hour as nat, t.hour as nat);
    lemma_two_digits_injective(e.minute as nat, t.minute as nat);
    lemma_two_digits_injective(e.second as nat, t.second as nat);
}

/// `chrono` reads a two-digit date and time back as itself.
proof fn lemma_read_short_date_time(t: LocalDateTime)
    requires
        short_date_time(t),
    ensures
        read_date_time(short_date_time_text(t)) == Ok::<LocalDateTime, ParseKind>(t),
{
    let x = short_date_time_text(t);
    assert(short_date_time(t) && short_date_time_text(t) == x);
    let e = choose|e: LocalDateTime| short_date_time(e) && #[trigger] short_date_time_text(e) == x;
    assert(short_date_time_text(e) == x);
    lemma_short_date_time_injective(t, e);
}

/// Whether every character of a text takes one byte in UTF-8.
pub open spec fn ascii_text(s: Seq<char>) -> bool {
    forall|j: int| 0 <= j < s.len() ==> (#[trigger] s[j] as u32) < 0x80
}

proof fn lemma_ascii_len(s: Seq<char>)
    requires
        ascii_text(s),
    ensures
        utf8_len(s) == s.len(),
    decreases s.len(),
{
    if s.len() > 0 {
        assert((s[s.len() - 1] as u32) < 0x80);
        lemma_ascii_len(s.drop_last());
    }
}

proof fn lemma_ascii_boundary(s: Seq<char>, k: int, j: int)
    requires
        ascii_text(s),
        0 <= j <= k <= s.len(),
    ensures
        boundary_from(s, k, j) == Some(k),
    decreases k - j,
{
    assert(ascii_text(s.take(j)));
    lemma_ascii_len(s.take(j));
    if j < k {
        lemma_ascii_boundary(s, k, j + 1);
    }
}

/// Overlaying one-byte texts is overlaying their characters.
proof fn lemma_ascii_overlay(over: Seq<char>, base: Seq<char>)
    requires
        ascii_text(over),
        ascii_text(base),
        over.len() <= base.len(),
    ensures
        overlay_spec(over, base, Align::Leading) == Ok::<Seq<char>, RangeErr>(
            over + base.skip(over.len() as int),
        ),
        overlay_spec(over, base, Align::Trailing) == Ok::<Seq<char>, RangeErr>(
            base.take(base.len() - over.len()) + over,
        ),
{
    lemma_ascii_len(over);
    lemma_ascii_len(base);
    lemma_ascii_boundary(base, over.len() as int, 0);
    lemma_ascii_boundary(base, base.len() - over.len(), 0);
}

/// Written components are one-byte characters without `-` or `|`.
proof fn lemma_components_plain(c: Seq<int>, from: int, to: int)
    requires
        0 <= from <= to,
        two_digit_components(c, from, to),
    ensures
        ascii_text(components_text(c, from, to)),
        forall|j: int|
            0 <= j < components_text(c, from, to).len() ==> #[trigger] components_text(
                c,
                from,
                to,
            )[j] != '-' && components_text(c, from, to)[j] != '|',
{
    lemma_components_text(c, from, to);
    let t = components_text(c, from, to);
    assert forall|j: int| 0 <= j < t.len() implies (#[trigger] t[j] as u32) < 0x80 && t[j] != '-'
        && t[j] != '|' by {
        assert(plain_char(t[j]));
    }
}

/// The first `c` at or after `j` is at `k` when none comes between.
proof fn lemma_find_char_at(s: Seq<char>, c: char, j: int, k: int)
    requires
        0 <= j <= k < s.len(),
        s[k] == c,
        forall|i: int| j <= i < k ==> s[i] != c,
    ensures
        find_char_from(s, c, j) == Some(k),
    decreases k - j,
{
    if j < k {
        lemma_find_char_at(s, c, j + 1, k);
    }
}

/// A date from 2000 to 2069, written up to component `l`, reads back as
/// itself.
proof fn lemma_date_reads_back(d: Date, l: int)
    requires
        short_date(d),
        0 <= l <= 2,
        forall|i: int| l < i <= 2 ==> #[trigger] bound_components(Bound::AllDay(d))[i] == 1,
    ensures
        date_spec(components_text(bound_components(Bound::AllDay(d)), 0, l)) == Ok::<Date, RangeErr>(d),
{
    let c = bound_components(Bound::AllDay(d));
    assert(two_digit_components(c, 0, 2)) by {
        assert forall|i: int| 0 <= i <= 2 implies 0 <= #[trigger] written_value(c, i) < 100 by {}
    }
    reveal_strlit("XX/01/01");
    let base = "XX/01/01"@;
    assert(ascii_text(base));
    let text = components_text(c, 0, l);
    lemma_components_plain(c, 0, l);
    lemma_components_text(c, 0, l);
    lemma_ascii_overlay(text, base);
    lemma_date_defaults(c, l);
    lemma_date_full_text(d);
    lemma_read_short_date(d);
}

/// A date and time from 2000 to 2069, written up to component `l`, reads
/// back as itself where the zone gives its reading exactly one instant.
proof fn lemma_date_time_reads_back(zone: Seq<char>, z: ZonedDateTime, l: int)
    requires
        short_date_time(z.local),
        zone_resolve(zone, z.local) == LocalResult::Single(z),
        3 <= l <= 5,
        forall|i: int| l < i <= 5 ==> #[trigger] bound_components(Bound::Timed(z))[i] == 0,
    ensures
        date_time_spec(zone, components_text(bound_components(Bound::Timed(z)), 0, l))
            == Ok::<ZonedDateTime, RangeErr>(z),
{
    let c = bound_components(Bound::Timed(z));
    assert(two_digit_components(c, 0, 5)) by {
        assert forall|i: int| 0 <= i <= 5 implies 0 <= #[trigger] written_value(c, i) < 100 by {}
    }
    reveal_strlit("XX/01/01_00:00:00");
    let base = "XX/01/01_00:00:00"@;
    assert(ascii_text(base));
    let text = components_text(c, 0, l);
    lemma_components_plain(c, 0, l);
    lemma_components_text(c, 0, l);
    lemma_ascii_overlay(text, base);
    lemma_date_time_defaults(c, l);
    lemma_date_time_full_text(z);
    lemma_read_short_date_time(z.local);
}

/// Every component after the last non-default one is the default.
proof fn lemma_defaults_after(sc: Seq<int>, ec: Seq<int>, k: int)
    ensures
        forall|i: int|
            last_non_default(sc, ec, k) < i < k ==> sc[i] == component_default(i) && ec[i]
                == component_default(i),
    decreases k,
{
    if k > 0 {
        lemma_defaults_after(sc, ec, k - 1);
    }
}

/// Whether a range reads back from its text in the zone: it can be written,
/// both bounds fall in the years 2000 to 2069 and are real dates or times,
/// the start comes before the end, and each timed bound is the one instant
/// that its wall-clock reading denotes in the zone.
pub open spec fn range_reads_back(zone: Seq<char>, r: Range) -> bool {
    &&& range_writable(r)
    &&& match r {
        Range::AllDay(span) => short_date(span.start) && short_date(span.end) && date_lt(
            span.start,
            span.end,
        ),
        Range::Timed(span) => {
            &&& short_date_time(span.start.local)
            &&& short_date_time(span.end.local)
            &&& span.start.timestamp < span.end.timestamp
            &&& zone_resolve(zone, span.start.local) == LocalResult::Single(span.start)
            &&& zone_resolve(zone, span.end.local) == LocalResult::Single(span.end)
        },
    }
}

/// A written range is one-byte characters without `|`.
pub proof fn lemma_range_text_plain(zone: Seq<char>, r: Range)
    requires
        range_reads_back(zone, r),
    ensures
        ascii_text(range_text(r)),
        forall|j: int| 0 <= j < range_text(r).len() ==> #[trigger] range_text(r)[j] != '|',
{
    lemma_range_parts(zone, r);
}

/// The parts of a written range: the start up to its last written
/// component, `-`, and the end from its first written one.
proof fn lemma_range_parts(zone: Seq<char>, r: Range)
    requires
        range_reads_back(zone, r),
    ensures
        ({
            let sc = bound_components(range_start(r));
            let ec = bound_components(range_end(r));
            let l = last_written(r);
            let f = first_written(r);
            &&& 0 <= f <= l < sc.len()
            &&& sc.len() == ec.len()
            &&& two_digit_components(sc, 0, sc.len() - 1)
            &&& two_digit_components(ec, 0, ec.len() - 1)
            &&& forall|i: int| 0 <= i < f ==> sc[i] == ec[i]
            &&& forall|i: int| l < i < sc.len() ==> sc[i] == component_default(i) && ec[i]
                == component_default(i)
            &&& ascii_text(range_text(r))
            &&& forall|j: int| 0 <= j < range_text(r).len() ==> #[trigger] range_text(r)[j] != '|'
        }),
{
    let sc = bound_components(range_start(r));
    let ec = bound_components(range_end(r));
    let n = sc.len() as int;
    let l = last_written(r);
    let f = first_written(r);
    lemma_first_written_le_last(r);
    lemma_first_difference_bounds(sc, ec, 0, n);
    lemma_defaults_after(sc, ec, n);
    lemma_last_non_default_bounds(sc, ec, n);
    assert(two_digit_components(sc, 0, n - 1)) by {
        assert forall|i: int| 0 <= i <= n - 1 implies 0 <= #[trigger] written_value(sc, i) < 100 by {}
    }
    assert(two_digit_components(ec, 0, n - 1)) by {
        assert forall|i: int| 0 <= i <= n - 1 implies 0 <= #[trigger] written_value(ec, i) < 100 by {}
    }
    assert forall|i: int| l < i < n implies sc[i] == component_default(i) && ec[i] == component_default(i) by {
        if r is Timed && last_non_default(sc, ec, 6) < 3 {
            assert(last_non_default(sc, ec, 6) < i);
        }
    }
    let st = components_text(sc, 0, l);
    let et = components_text(ec, f, l);
    lemma_components_plain(sc, 0, l);
    lemma_components_plain(ec, f, l);
    let t = range_text(r);
    assert(t == st + seq!['-'] + et);
    assert forall|j: int| 0 <= j < t.len() implies (#[trigger] t[j] as u32) < 0x80 && t[j] != '|' by {
        if j < st.len() {
            assert(t[j] == st[j]);
        } else if j > st.len() {
            assert(t[j] == et[j - st.len() - 1]);
        }
    }
}

/// A range written out and read again in the same zone is the same range,
/// for ranges whose bounds fall in the years 2000 to 2069 (those that
/// `%y` reads back), are real dates or times, come in order, and, when
/// timed, are the one instant that their reading denotes in the zone.
pub proof fn lemma_range_round_trip(zone: Seq<char>, r: Range)
    requires
        range_reads_back(zone, r),
    ensures
        range_spec(zone, range_text(r)) == Ok::<Range, RangeErr>(r),
{
    lemma_range_parts(zone, r);
    let sc = bound_components(range_start(r));
    let ec = bound_components(range_end(r));
    let n = sc.len() as int;
    let l = last_written(r);
    let f = first_written(r);
    let st = components_text(sc, 0, l);
    let et = components_text(ec, f, l);
    lemma_components_plain(sc, 0, l);
    lemma_components_text(sc, 0, l);
    lemma_components_text(ec, f, l);
    let t = range_text(r);
    assert(t == st + seq!['-'] + et);
    // The first `-` ends the start.
    assert forall|i: int| 0 <= i < st.len() implies t[i] != '-' by {
        assert(t[i] == st[i]);
    }
    lemma_find_char_at(t, '-', 0, st.len() as int);
    assert(t.take(st.len() as int) =~= st);
    assert(t.skip(st.len() as int + 1) =~= et);
    // The end written over the start is the end written in full.
    lemma_components_plain(ec, f, l);
    lemma_ascii_overlay(et, st);
    let full_end = st.take(st.len() - et.len()) + et;
    if f == 0 {
        assert(full_end =~= components_text(ec, 0, l));
    } else {
        lemma_components_split(sc, f, l);
        lemma_components_split(ec, f, l);
        lemma_components_agree(sc, ec, 0, f - 1);
        lemma_components_text(sc, 0, f - 1);
        assert(st.take(st.len() - et.len()) =~= components_text(sc, 0, f - 1) + seq![separator(f - 1)]);
        assert(full_end =~= components_text(ec, 0, l));
    }
    assert(overlay_spec(t.skip(st.len() as int + 1), t.take(st.len() as int), Align::Trailing) == Ok::<
        Seq<char>,
        RangeErr,
    >(components_text(ec, 0, l)));
    match r {
        Range::AllDay(span) => {
            assert(l <= 2);
            lemma_components_text(sc, 0, l);
            assert(!has_char(st, '_'));
            assert forall|i: int| l < i <= 2 implies #[trigger] bound_components(
                Bound::AllDay(span.start),
            )[i] == 1 by {
                assert(sc[i] == component_default(i));
            }
            assert forall|i: int| l < i <= 2 implies #[trigger] bound_components(
                Bound::AllDay(span.end),
            )[i] == 1 by {
                assert(ec[i] == component_default(i));
            }
            lemma_date_reads_back(span.start, l);
            lemma_date_reads_back(span.end, l);
        },
        Range::Timed(span) => {
            assert(3 <= l <= 5);
            lemma_components_split(sc, 3, l);
            lemma_components_text(sc, 0, 2);
            assert(st[8] == '_');
            assert(has_char(st, '_'));
            assert forall|i: int| l < i <= 5 implies #[trigger] bound_components(
                Bound::Timed(span.start),
            )[i] == 0 by {
                assert(sc[i] == component_default(i));
            }
            assert forall|i: int| l < i <= 5 implies #[trigger] bound_components(
                Bound::Timed(span.end),
            )[i] == 0 by {
                assert(ec[i] == component_default(i));
            }
            lemma_date_time_reads_back(zone, span.start, l);
            lemma_date_time_reads_back(zone, span.end, l);
        },
    }
}


/// The message of a range error.
pub open spec fn range_err_text(e: RangeErr) -> Seq<char> {
    match e {
        RangeErr::MissingEndBound => "Missing end date/time"@,
        RangeErr::Empty => "Empty or inverse range"@,
        RangeErr::Parse(_) => "Time parsing error"@,
        RangeErr::AmbiguousInTimezone => "Ambiguous in timezone"@,
        RangeErr::InvalidInTimezone => "Invalid in timezone"@,
        RangeErr::TooLong => "End too long"@,
    }
}

impl RangeErr {
    /// The message of the error (see [`range_err_text`]).
    pub fn message(&self) -> (r: String)
        ensures
            r@ == range_err_text(*self),
    {
        match self {
            RangeErr::MissingEndBound => "Missing end date/time".to_owned(),
            RangeErr::Empty => "Empty or inverse range".to_owned(),
            RangeErr::Parse(_) => "Time parsing error".to_owned(),
            RangeErr::AmbiguousInTimezone => "Ambiguous in timezone".to_owned(),
            RangeErr::InvalidInTimezone => "Invalid in timezone".to_owned(),
            RangeErr::TooLong => "End too long".to_owned(),
        }
    }
}

} // verus!
