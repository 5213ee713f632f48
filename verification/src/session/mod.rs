//! Sessions: the time ranges, optionally repeating, spent on a task,
//! written as `range` or `range|repeat`.
pub mod range;
pub mod repeat;
pub mod timestamp;

use vstd::prelude::*;
use crate::session::range::range_err_text;
use crate::session::repeat::repeat_err_text;
use crate::text::{push_char, push_str};
use crate::time::{
    ZonedDateTime, LocalDateTime, Zone, LocalResult, valid_date, zone_resolve, zone_local,
    resolve_local, local_of, utc_compact, date_compact, utc_compact_text, date_compact_text,
    date_digits, utc_written,
    MIN_TIMESTAMP, MAX_TIMESTAMP, MAX_DELTA,
};
use crate::session::range::{
    Range, Span, RangeErr, range_spec, range_text, range_writable, range_delta, range_start,
    bound_instant, find_char, find_char_from, range_reads_back, lemma_range_round_trip,
    lemma_range_text_plain,
};
use crate::session::repeat::{
    Repeat, RepeatView, RepeatErr, RepeatErrView, repeat_spec, repeat_text, rrule_occurrences,
    occurrences, rrule_text, rule_text,
};
use crate::time::date_from_ymd;

verus! {

/// A time range spent on a task, possibly repeating.
#[derive(Debug, Clone, PartialEq, Eq)]
pub struct Session {
    pub range: Range,
    pub repeat: Option<Repeat>,
}

/// Mathematical model of a [`Session`].
pub struct SessionView {
    pub range: Range,
    pub repeat: Option<RepeatView>,
}

impl View for Session {
    type V = SessionView;

    open spec fn view(&self) -> SessionView {
        SessionView {
            range: self.range,
            repeat: match &self.repeat {
                Some(r) => Some(r@),
                None => None,
            },
        }
    }
}

/// Why a text is not a session.
#[derive(Debug, Clone, PartialEq, Eq)]
pub enum SessionErr {
    Range(RangeErr),
    Repeat(RepeatErr),
}

/// Mathematical model of a [`SessionErr`].
pub enum SessionErrView {
    Range(RangeErr),
    Repeat(RepeatErrView),
}

impl View for SessionErr {
    type V = SessionErrView;

    open spec fn view(&self) -> SessionErrView {
        match self {
            SessionErr::Range(e) => SessionErrView::Range(*e),
            SessionErr::Repeat(e) => SessionErrView::Repeat(e@),
        }
    }
}

/// The session that a text denotes in the zone: a range, then optionally
/// `|` and a repeat rule.
pub open spec fn session_spec(zone: Seq<char>, s: Seq<char>) -> Result<SessionView, SessionErrView> {
    let (range_text, repeat_text) = match find_char_from(s, '|', 0) {
        None => (s, None),
        Some(i) => (s.take(i), Some(s.skip(i + 1))),
    };
    match range_spec(zone, range_text) {
        Err(e) => Err(SessionErrView::Range(e)),
        Ok(range) => match repeat_text {
            None => Ok(SessionView { range, repeat: None }),
            Some(t) => match repeat_spec(zone, t, range) {
                Err(e) => Err(SessionErrView::Repeat(e)),
                Ok(rep) => Ok(SessionView { range, repeat: Some(rep) }),
            },
        },
    }
}

/// A session as written: its range, then `|` and its repeat rule, if any.
pub open spec fn session_text(s: SessionView) -> Seq<char> {
    match s.repeat {
        None => range_text(s.range),
        Some(r) => range_text(s.range) + seq!['|'] + repeat_text(r),
    }
}

/// Whether a session can be written.
pub open spec fn session_writable(s: SessionView) -> bool {
    range_writable(s.range)
}

impl Session {
    /// Parses `range` or `range|repeat` in the zone.
    pub fn from_str(s: &str, zone: &Zone) -> (r: Result<Session, SessionErr>)
        ensures
            match r {
                Ok(v) => session_spec(zone@, s@) == Ok::<SessionView, SessionErrView>(v@),
                Err(e) => session_spec(zone@, s@) == Err::<SessionView, SessionErrView>(e@),
            },
    {
        let n = s.unicode_len();
        let (range_text, repeat_text) = match find_char(s, '|') {
            None => (s, None),
            Some(i) => {
                assert(s@.subrange(0, i as int) =~= s@.take(i as int));
                assert(s@.subrange(i + 1, n as int) =~= s@.skip(i + 1));
                (s.substring_char(0, i), Some(s.substring_char(i + 1, n)))
            },
        };
        let range = match Range::from_str(range_text, zone) {
            Ok(r) => r,
            Err(e) => return Err(SessionErr::Range(e)),
        };
        match repeat_text {
            None => Ok(Session { range, repeat: None }),
            Some(t) => match Repeat::from_str_in_range(t, &range, zone) {
                Ok(rep) => Ok(Session { range, repeat: Some(rep) }),
                Err(e) => Err(SessionErr::Repeat(e)),
            },
        }
    }

    /// Whether the session can be written (see [`Range::to_string`]).
    pub fn is_writable(&self) -> (r: bool)
        ensures
            r == session_writable(self@),
    {
        self.range.is_writable()
    }

    /// The session as written, `range` or `range|repeat`.
    pub fn to_string(&self) -> (r: String)
        requires
            session_writable(self@),
        ensures
            r@ == session_text(self@),
    {
        let mut out = self.range.to_string();
        if let Some(rep) = &self.repeat {
            push_char(&mut out, '|');
            let t = rep.to_string();
            push_str(&mut out, t.as_str());
        }
        out
    }
}

// ---------------------------------------------------------------------------
// Time spent within a span

/// Whether an instant is in `chrono`'s range.
pub open spec fn instant_in_range(x: int) -> bool {
    MIN_TIMESTAMP <= x <= MAX_TIMESTAMP
}

/// Seconds that an occurrence from `r` lasting `d` seconds shares with the
/// span from `ss` to `se`.
pub open spec fn overlap(ss: int, se: int, r: int, d: int) -> int {
    let s = if ss > r { ss } else { r };
    let e = if se < r + d { se } else { r + d };
    if e - s > 0 {
        e - s
    } else {
        0
    }
}

/// Adds to `acc` the overlaps of the occurrences from `i` on; `None` when an
/// occurrence ends out of range or the total exceeds a time delta.
pub open spec fn add_overlaps(occ: Seq<i64>, ss: int, se: int, d: int, i: int, acc: int) -> Option<
    int,
>
    decreases occ.len() - i,
{
    if i >= occ.len() || i < 0 {
        Some(acc)
    } else if !instant_in_range(occ[i] + d) {
        None
    } else if acc + overlap(ss, se, occ[i] as int, d) > MAX_DELTA {
        None
    } else {
        add_overlaps(occ, ss, se, d, i + 1, acc + overlap(ss, se, occ[i] as int, d))
    }
}

/// The starts of the occurrences of a session that may meet the span.
pub open spec fn session_occurrences(
    zone: Seq<char>,
    s: SessionView,
    span: Span<ZonedDateTime>,
    start: i64,
    d: i64,
) -> Option<Seq<i64>> {
    match s.repeat {
        None => Some(seq![start]),
        Some(rep) => if instant_in_range(span.start.timestamp - d) {
            Some(
                rrule_occurrences(
                    rep.rule,
                    zone,
                    start,
                    (span.start.timestamp - d) as i64,
                    span.end.timestamp,
                ),
            )
        } else {
            None
        },
    }
}

/// Seconds of the span that the session, with all its occurrences, covers.
pub open spec fn session_time(zone: Seq<char>, s: SessionView, span: Span<ZonedDateTime>) -> Option<
    i64,
> {
    match range_delta(zone, s.range) {
        None => None,
        Some(d) => match bound_instant(zone, range_start(s.range)) {
            None => None,
            Some(st) => match session_occurrences(zone, s, span, st.timestamp, d) {
                None => None,
                Some(occ) => match add_overlaps(
                    occ,
                    span.start.timestamp as int,
                    span.end.timestamp as int,
                    d as int,
                    0,
                    0,
                ) {
                    None => None,
                    Some(t) => Some(t as i64),
                },
            },
        },
    }
}

proof fn lemma_add_overlaps_bounds(occ: Seq<i64>, ss: int, se: int, d: int, i: int, acc: int)
    requires
        0 <= acc <= MAX_DELTA,
    ensures
        add_overlaps(occ, ss, se, d, i, acc) matches Some(t) ==> acc <= t <= MAX_DELTA,
    decreases occ.len() - i,
{
    if i < occ.len() && i >= 0 && instant_in_range(occ[i] + d) && acc + overlap(
        ss,
        se,
        occ[i] as int,
        d,
    ) <= MAX_DELTA {
        lemma_add_overlaps_bounds(occ, ss, se, d, i + 1, acc + overlap(ss, se, occ[i] as int, d));
    }
}

/// Seconds shared by the span from `ss` to `se` and the occurrence from `r`.
fn clipped(ss: i64, se: i64, r: i64, d: i64) -> (c: i128)
    ensures
        c == overlap(ss as int, se as int, r as int, d as int),
{
    let end: i128 = (r as i128) + (d as i128);
    let s: i128 = if ss > r {
        ss as i128
    } else {
        r as i128
    };
    let e: i128 = if (se as i128) < end {
        se as i128
    } else {
        end
    };
    if e - s > 0 {
        e - s
    } else {
        0
    }
}

impl Session {
    /// Seconds of the span covered by the session and its repetitions;
    /// `None` when a day has no first instant in the zone data, an
    /// occurrence ends out of range, or the total exceeds a time delta.
    pub fn time_delta(&self, span: &Span<ZonedDateTime>, zone: &Zone) -> (r: Option<i64>)
        ensures
            r == session_time(zone@, self@, *span),
            r matches Some(t) ==> 0 <= t,
    {
        let d = self.range.time_delta(zone)?;
        let start = self.range.start().dt(zone)?;
        let occ: Vec<i64> = match &self.repeat {
            None => vec![start.timestamp],
            Some(rep) => {
                let a: i128 = (span.start.timestamp as i128) - (d as i128);
                if !((MIN_TIMESTAMP as i128) <= a && a <= (MAX_TIMESTAMP as i128)) {
                    return None;
                }
                occurrences(&rep.rule, zone, start.timestamp, a as i64, span.end.timestamp)
            },
        };
        let ghost ov = occ@;
        assert(session_occurrences(zone@, self@, *span, start.timestamp, d) == Some(ov)) by {
            if self.repeat is None {
                assert(ov =~= seq![start.timestamp]);
            }
        }
        let ghost ss = span.start.timestamp as int;
        let ghost se = span.end.timestamp as int;
        let mut total: i128 = 0;
        let mut i: usize = 0;
        while i < occ.len()
            invariant
                i <= occ@.len(),
                ov == occ@,
                range_delta(zone@, self.range) == Some(d),
                bound_instant(zone@, range_start(self.range)) == Some(start),
                session_occurrences(zone@, self@, *span, start.timestamp, d) == Some(ov),
                ss == span.start.timestamp,
                se == span.end.timestamp,
                0 <= total <= MAX_DELTA,
                add_overlaps(ov, ss, se, d as int, 0, 0) == add_overlaps(
                    ov,
                    ss,
                    se,
                    d as int,
                    i as int,
                    total as int,
                ),
            decreases occ.len() - i,
        {
            let r = occ[i];
            let end: i128 = (r as i128) + (d as i128);
            if !((MIN_TIMESTAMP as i128) <= end && end <= (MAX_TIMESTAMP as i128)) {
                return None;
            }
            let c = clipped(span.start.timestamp, span.end.timestamp, r, d);
            if total + c > (MAX_DELTA as i128) {
                return None;
            }
            total = total + c;
            i = i + 1;
        }
        proof {
            lemma_add_overlaps_bounds(ov, ss, se, d as int, 0, 0);
        }
        Some(total as i64)
    }
}

// ---------------------------------------------------------------------------
// Suggesting a session, exporting sessions

/// The one-hour session that starts at the next full hour `offset` hours
/// after `now`, as reckoned on the zone's clock.
pub open spec fn next_hour_spec(zone: Seq<char>, now: i64, offset: i64) -> Option<SessionView> {
    let t = now + (offset + 1) * 3600;
    match zone_local(zone, t as i64) {
        None => None,
        Some(cur) => match zone_resolve(zone, LocalDateTime { minute: 0, ..cur.local }) {
            LocalResult::Single(x1) => match zone_resolve(
                zone,
                LocalDateTime { second: 0, ..x1.local },
            ) {
                LocalResult::Single(x2) => if instant_in_range(x2.timestamp + 3600) {
                    match zone_local(zone, (x2.timestamp + 3600) as i64) {
                        Some(e) => Some(
                            SessionView {
                                range: Range::Timed(Span { start: x2, end: e }),
                                repeat: None,
                            },
                        ),
                        None => None,
                    }
                } else {
                    None
                },
                _ => None,
            },
            _ => None,
        },
    }
}

/// The instant `h` hours after `t`, in the zone; `None` out of range.
fn hours_later(zone: &Zone, t: &ZonedDateTime, h: i64) -> (r: Option<ZonedDateTime>)
    requires
        -2562047788015 <= h <= 2562047788015,
    ensures
        r == (if instant_in_range(t.timestamp + h * 3600) {
            zone_local(zone@, (t.timestamp + h * 3600) as i64)
        } else {
            None
        }),
{
    let x: i128 = (t.timestamp as i128) + (h as i128) * 3600;
    if (MIN_TIMESTAMP as i128) <= x && x <= (MAX_TIMESTAMP as i128) {
        local_of(zone.name(), x as i64)
    } else {
        None
    }
}

impl Session {
    /// The one-hour session that starts at the next full hour, `offset`
    /// hours after `now` (seconds since the epoch), on the zone's clock;
    /// `None` when a full hour falls in a clock change.
    pub fn next_hour(zone: &Zone, now: i64, offset: i64) -> (r: Option<Session>)
        requires
            -2562047788015 <= offset + 1 <= 2562047788015,
            instant_in_range(now as int),
            instant_in_range(now + (offset + 1) * 3600),
        ensures
            match r {
                Some(s) => next_hour_spec(zone@, now, offset) == Some(s@),
                None => next_hour_spec(zone@, now, offset) is None,
            },
    {
        let name = zone.name();
        let t: i64 = ((now as i128) + ((offset as i128) + 1) * 3600) as i64;
        let cur = local_of(name, t)?;
        let on_hour = LocalDateTime { minute: 0, ..cur.local };
        let x1 = match resolve_local(name, &on_hour) {
            LocalResult::Single(x) => x,
            _ => return None,
        };
        let whole = LocalDateTime { second: 0, ..x1.local };
        let start = match resolve_local(name, &whole) {
            LocalResult::Single(x) => x,
            _ => return None,
        };
        let end = match hours_later(zone, &start, 1) {
            Some(e) => e,
            None => return None,
        };
        Some(Session { range: Range::Timed(Span::new(start, end)), repeat: None })
    }
}

/// The text of the one-hour session at the next full hour `offset` hours
/// after `now` (see [`next_hour_spec`]), when the instants are in range and
/// the session can be written.
pub open spec fn next_hour_label_spec(zone: Seq<char>, now: i64, offset: i64) -> Option<Seq<char>> {
    if !(instant_in_range(now as int) && -2562047788015 <= offset + 1 <= 2562047788015
        && instant_in_range(now + (offset + 1) * 3600)) {
        None
    } else {
        match next_hour_spec(zone, now, offset) {
            Some(s) => if session_writable(s) {
                Some(session_text(s))
            } else {
                None
            },
            None => None,
        }
    }
}

impl Session {
    /// The text of the one-hour session at the next full hour, `offset`
    /// hours after `now`, to offer as a completion (see
    /// [`next_hour_label_spec`]).
    pub fn next_hour_label(zone: &Zone, now: i64, offset: i64) -> (r: Option<String>)
        ensures
            match r {
                Some(t) => next_hour_label_spec(zone@, now, offset) == Some(t@),
                None => next_hour_label_spec(zone@, now, offset) is None,
            },
    {
        if !(MIN_TIMESTAMP <= now && now <= MAX_TIMESTAMP) {
            return None;
        }
        if !(-2562047788015 <= offset && offset <= 2562047788014) {
            return None;
        }
        let later: i128 = (now as i128) + ((offset as i128) + 1) * 3600;
        if !((MIN_TIMESTAMP as i128) <= later && later <= (MAX_TIMESTAMP as i128)) {
            return None;
        }
        match Session::next_hour(zone, now, offset) {
            Some(s) => if s.is_writable() {
                Some(s.to_string())
            } else {
                None
            },
            None => None,
        }
    }
}

/// An instant in UTC, as iCalendar writes it: `20250830T170000Z`.
pub fn ics_format(dt: &ZonedDateTime) -> (r: String)
    requires
        instant_in_range(dt.timestamp as int),
    ensures
        r@ == utc_compact_text(dt.timestamp),
        utc_written(dt.timestamp as int, r@),
{
    match utc_compact(dt.timestamp) {
        Some(t) => t,
        None => String::new(),
    }
}

/// A start or end of an iCalendar event: a date (`VALUE=DATE`) or an
/// instant in UTC.
#[derive(Debug, Clone, PartialEq, Eq)]
pub struct IcsTime {
    pub value: String,
    pub date_only: bool,
}

/// Whether the session's bounds can be written for iCalendar.
pub open spec fn session_exportable(s: SessionView) -> bool {
    match s.range {
        Range::AllDay(span) => valid_date(span.start) && valid_date(span.end),
        Range::Timed(span) => instant_in_range(span.start.timestamp as int) && instant_in_range(
            span.end.timestamp as int,
        ),
    }
}

/// Whether `t` is the start of the session's event: the first day as
/// `%Y%m%d`, or the start instant in UTC.
pub open spec fn ics_start(s: SessionView, t: IcsTime) -> bool {
    match s.range {
        Range::AllDay(span) => t.date_only && t.value@ == date_compact_text(span.start) && (0
            <= span.start.year <= 9999 ==> t.value@ == date_digits(span.start)),
        Range::Timed(span) => !t.date_only && t.value@ == utc_compact_text(span.start.timestamp)
            && utc_written(span.start.timestamp as int, t.value@),
    }
}

/// Whether `t` is the end of the session's event: the day after the last
/// as `%Y%m%d`, or the end instant in UTC.
pub open spec fn ics_end(s: SessionView, t: IcsTime) -> bool {
    match s.range {
        Range::AllDay(span) => t.date_only && t.value@ == date_compact_text(span.end) && (0
            <= span.end.year <= 9999 ==> t.value@ == date_digits(span.end)),
        Range::Timed(span) => !t.date_only && t.value@ == utc_compact_text(span.end.timestamp)
            && utc_written(span.end.timestamp as int, t.value@),
    }
}

/// The repeat rule of the session's event, as `rrule` writes it: none when
/// the session does not repeat or its rule ends at an instant out of range.
pub open spec fn event_rule(s: SessionView) -> Option<Seq<char>> {
    match s.repeat {
        None => None,
        Some(rep) => if rep.rule.until matches Some(u) && !(MIN_TIMESTAMP <= u <= MAX_TIMESTAMP) {
            None
        } else {
            Some(rrule_text(rep.rule))
        },
    }
}

impl Session {
    /// The event start: the first day as `%Y%m%d`, or the start instant in UTC.
    pub fn dt_start(&self) -> (r: IcsTime)
        requires
            session_exportable(self@),
        ensures
            ics_start(self@, r),
    {
        match &self.range {
            Range::AllDay(span) => IcsTime { value: date_compact(&span.start), date_only: true },
            Range::Timed(span) => IcsTime { value: ics_format(&span.start), date_only: false },
        }
    }

    /// The event end: the day after the last as `%Y%m%d`, or the end instant in UTC.
    pub fn dt_end(&self) -> (r: IcsTime)
        requires
            session_exportable(self@),
        ensures
            ics_end(self@, r),
    {
        match &self.range {
            Range::AllDay(span) => IcsTime { value: date_compact(&span.end), date_only: true },
            Range::Timed(span) => IcsTime { value: ics_format(&span.end), date_only: false },
        }
    }

    /// The repeat rule of the session's event (see [`event_rule`]).
    pub fn event_rule(&self) -> (r: Option<String>)
        ensures
            match r {
                Some(t) => event_rule(self@) == Some(t@),
                None => event_rule(self@) is None,
            },
    {
        if let Some(rep) = &self.repeat {
            if let Some(u) = rep.rule.until {
                if !(MIN_TIMESTAMP <= u && u <= MAX_TIMESTAMP) {
                    return None;
                }
            }
        }
        self.ics_rule()
    }
}

impl Session {
    /// Whether the session's bounds can be written for iCalendar (see
    /// [`session_exportable`]).
    pub fn is_exportable(&self) -> (r: bool)
        ensures
            r == session_exportable(self@),
    {
        match &self.range {
            Range::AllDay(span) => date_from_ymd(span.start.year, span.start.month, span.start.day).is_some()
                && date_from_ymd(span.end.year, span.end.month, span.end.day).is_some(),
            Range::Timed(span) => MIN_TIMESTAMP <= span.start.timestamp && span.start.timestamp
                <= MAX_TIMESTAMP && MIN_TIMESTAMP <= span.end.timestamp && span.end.timestamp
                <= MAX_TIMESTAMP,
        }
    }

    /// The repeat rule as iCalendar writes it (`RRULE` value), when the
    /// session repeats.
    pub fn ics_rule(&self) -> (r: Option<String>)
        requires
            self.repeat matches Some(rep) ==> (rep.rule.until matches Some(u) ==> MIN_TIMESTAMP <= u
                <= MAX_TIMESTAMP),
        ensures
            r is Some <==> self.repeat is Some,
            r matches Some(t) ==> t@ == rrule_text(self.repeat->0.rule@),
    {
        match &self.repeat {
            Some(rep) => Some(rule_text(&rep.rule)),
            None => None,
        }
    }
}

/// `t` rounded down to a whole number of `step` seconds.
pub open spec fn round_down(t: int, step: int) -> int {
    t - t % step
}

/// The timed session between two instants, each rounded down to a whole
/// number of `step` seconds and read on the zone's clock; `None` when it
/// would be empty or an instant is out of range.
pub open spec fn between_spec(zone: Seq<char>, start: i64, end: i64, step: i64) -> Option<SessionView> {
    let s = round_down(start as int, step as int);
    let e = round_down(end as int, step as int);
    if e <= s || !instant_in_range(s) || !instant_in_range(e) {
        None
    } else {
        match (zone_local(zone, s as i64), zone_local(zone, e as i64)) {
            (Some(a), Some(b)) => Some(
                SessionView { range: Range::Timed(Span { start: a, end: b }), repeat: None },
            ),
            _ => None,
        }
    }
}

/// `t` rounded down to a whole number of `step` seconds.
fn round_down_exec(t: i64, step: i64) -> (r: i128)
    requires
        step > 0,
    ensures
        r == round_down(t as int, step as int),
{
    if t >= 0 {
        (t - t % step) as i128
    } else {
        let a: i128 = -(t as i128);
        let m: i128 = a % (step as i128);
        proof {
            let q: int = (a as int) / (step as int);
            vstd::arithmetic::div_mod::lemma_fundamental_div_mod(a as int, step as int);
            assert(a == (step as int) * q + m);
            if m == 0 {
                assert(t == (-q) * (step as int) + 0) by (nonlinear_arith)
                    requires
                        a == (step as int) * q + m,
                        m == 0,
                        t == -a,
                ;
                vstd::arithmetic::div_mod::lemma_fundamental_div_mod_converse_mod(
                    t as int,
                    step as int,
                    -q,
                    0,
                );
            } else {
                assert(t == (-q - 1) * (step as int) + (step - m)) by (nonlinear_arith)
                    requires
                        a == (step as int) * q + m,
                        t == -a,
                ;
                vstd::arithmetic::div_mod::lemma_fundamental_div_mod_converse_mod(
                    t as int,
                    step as int,
                    -q - 1,
                    step - m,
                );
            }
        }
        if m == 0 {
            t as i128
        } else {
            (t as i128) - ((step as i128) - m)
        }
    }
}

impl Session {
    /// The timed session from `start` to `end` (seconds since the epoch),
    /// each rounded down to a whole number of `step` seconds, on the zone's
    /// clock (see [`between_spec`]).
    pub fn from_utc(zone: &Zone, start: i64, end: i64, step: i64) -> (r: Option<Session>)
        requires
            step > 0,
        ensures
            match r {
                Some(x) => between_spec(zone@, start, end, step) == Some(x@),
                None => between_spec(zone@, start, end, step) is None,
            },
    {
        let s128 = round_down_exec(start, step);
        let e128 = round_down_exec(end, step);
        if e128 <= s128 || !((MIN_TIMESTAMP as i128) <= s128 && s128 <= (MAX_TIMESTAMP as i128))
            || !((MIN_TIMESTAMP as i128) <= e128 && e128 <= (MAX_TIMESTAMP as i128)) {
            return None;
        }
        let s = s128 as i64;
        let e = e128 as i64;
        let name = zone.name();
        match (local_of(name, s), local_of(name, e)) {
            (Some(a), Some(b)) => Some(
                Session { range: Range::Timed(Span::new(a, b)), repeat: None },
            ),
            _ => None,
        }
    }
}


/// A session written out and read again in the same zone has the same
/// range, for ranges that read back (see [`range_reads_back`]); without a
/// repeat it is the same session, and with one, its repeat is read again
/// from the repeat's text against that range.
pub proof fn lemma_session_round_trip(zone: Seq<char>, s: SessionView)
    requires
        range_reads_back(zone, s.range),
    ensures
        s.repeat is None ==> session_spec(zone, session_text(s)) == Ok::<
            SessionView,
            SessionErrView,
        >(s),
        s.repeat matches Some(rep) ==> session_spec(zone, session_text(s)) == match repeat_spec(
            zone,
            repeat_text(rep),
            s.range,
        ) {
            Ok(x) => Ok::<SessionView, SessionErrView>(SessionView { range: s.range, repeat: Some(x) }),
            Err(e) => Err::<SessionView, SessionErrView>(SessionErrView::Repeat(e)),
        },
{
    lemma_range_round_trip(zone, s.range);
    lemma_range_text_plain(zone, s.range);
    let rt = range_text(s.range);
    let t = session_text(s);
    match s.repeat {
        None => {
            assert forall|i: int| 0 <= i < t.len() implies t[i] != '|' by {
                assert(rt[i] != '|');
            }
            lemma_no_char(t, '|', 0);
        },
        Some(rep) => {
            assert(t == rt + seq!['|'] + repeat_text(rep));
            assert forall|i: int| 0 <= i < rt.len() implies t[i] != '|' by {
                assert(t[i] == rt[i]);
                assert(rt[i] != '|');
            }
            lemma_find_char_first(t, '|', 0, rt.len() as int);
            assert(t.take(rt.len() as int) =~= rt);
            assert(t.skip(rt.len() as int + 1) =~= repeat_text(rep));
        },
    }
}

/// A text without `c` from `j` on has no `c` there.
proof fn lemma_no_char(s: Seq<char>, c: char, j: int)
    requires
        0 <= j,
        forall|i: int| j <= i < s.len() ==> s[i] != c,
    ensures
        find_char_from(s, c, j) is None,
    decreases s.len() - j,
{
    if j < s.len() {
        lemma_no_char(s, c, j + 1);
    }
}

/// The first `c` at or after `j` is at `k` when none comes between.
proof fn lemma_find_char_first(s: Seq<char>, c: char, j: int, k: int)
    requires
        0 <= j <= k < s.len(),
        s[k] == c,
        forall|i: int| j <= i < k ==> s[i] != c,
    ensures
        find_char_from(s, c, j) == Some(k),
    decreases k - j,
{
    if j < k {
        lemma_find_char_first(s, c, j + 1, k);
    }
}


/// The message of a session error.
pub open spec fn session_err_text(e: SessionErrView) -> Seq<char> {
    match e {
        SessionErrView::Range(r) => "Range: "@ + range_err_text(r),
        SessionErrView::Repeat(r) => "Repeat: "@ + repeat_err_text(r),
    }
}

impl SessionErr {
    /// The message of the error (see [`session_err_text`]).
    pub fn message(&self) -> (r: String)
        ensures
            r@ == session_err_text(self@),
    {
        let (mut out, inner) = match self {
            SessionErr::Range(e) => ("Range: ".to_owned(), e.message()),
            SessionErr::Repeat(e) => ("Repeat: ".to_owned(), e.message()),
        };
        push_str(&mut out, inner.as_str());
        out
    }
}


/// The seconds of a span that a session covers are a time from zero up to
/// the largest time delta.
pub proof fn lemma_session_time_bounds(zone: Seq<char>, s: SessionView, span: Span<ZonedDateTime>)
    ensures
        session_time(zone, s, span) matches Some(t) ==> 0 <= t <= MAX_DELTA,
{
    if let Some(d) = range_delta(zone, s.range) {
        if let Some(st) = bound_instant(zone, range_start(s.range)) {
            if let Some(occ) = session_occurrences(zone, s, span, st.timestamp, d) {
                lemma_add_overlaps_bounds(
                    occ,
                    span.start.timestamp as int,
                    span.end.timestamp as int,
                    d as int,
                    0,
                    0,
                );
            }
        }
    }
}


/// The seconds that the occurrences share with the span, all added up.
pub open spec fn overlaps_total(occ: Seq<i64>, ss: int, se: int, d: int) -> int
    decreases occ.len(),
{
    if occ.len() == 0 {
        0
    } else {
        overlap(ss, se, occ[0] as int, d) + overlaps_total(occ.drop_first(), ss, se, d)
    }
}

/// Whether every occurrence ends in `chrono`'s range.
pub open spec fn ends_in_range(occ: Seq<i64>, d: int) -> bool {
    forall|j: int| 0 <= j < occ.len() ==> instant_in_range(#[trigger] occ[j] + d)
}

proof fn lemma_overlaps_total_nonneg(occ: Seq<i64>, ss: int, se: int, d: int)
    ensures
        overlaps_total(occ, ss, se, d) >= 0,
    decreases occ.len(),
{
    if occ.len() > 0 {
        lemma_overlaps_total_nonneg(occ.drop_first(), ss, se, d);
    }
}

proof fn lemma_add_overlaps_total(occ: Seq<i64>, ss: int, se: int, d: int, i: int, acc: int)
    requires
        0 <= i <= occ.len(),
        0 <= acc <= MAX_DELTA,
    ensures
        add_overlaps(occ, ss, se, d, i, acc) == if ends_in_range(occ.skip(i), d) && acc
            + overlaps_total(occ.skip(i), ss, se, d) <= MAX_DELTA {
            Some(acc + overlaps_total(occ.skip(i), ss, se, d))
        } else {
            None
        },
    decreases occ.len() - i,
{
    let rest = occ.skip(i);
    if i == occ.len() {
        assert(rest.len() == 0);
    } else {
        assert(rest[0] == occ[i]);
        assert(rest.drop_first() =~= occ.skip(i + 1));
        lemma_overlaps_total_nonneg(rest.drop_first(), ss, se, d);
        let ov = overlap(ss, se, occ[i] as int, d);
        if !instant_in_range(occ[i] + d) {
            assert(!ends_in_range(rest, d));
        } else if acc + ov > MAX_DELTA {
        } else {
            lemma_add_overlaps_total(occ, ss, se, d, i + 1, acc + ov);
            assert(ends_in_range(rest, d) == ends_in_range(occ.skip(i + 1), d)) by {
                if ends_in_range(occ.skip(i + 1), d) {
                    assert forall|j: int| 0 <= j < rest.len() implies instant_in_range(
                        #[trigger] rest[j] + d,
                    ) by {
                        if j > 0 {
                            assert(rest[j] == occ.skip(i + 1)[j - 1]);
                        }
                    }
                }
                if ends_in_range(rest, d) {
                    assert forall|j: int| 0 <= j < occ.skip(i + 1).len() implies instant_in_range(
                        #[trigger] occ.skip(i + 1)[j] + d,
                    ) by {
                        assert(occ.skip(i + 1)[j] == rest[j + 1]);
                    }
                }
            }
        }
    }
}

/// Adding up the occurrences counts every one: the time is the sum, over
/// all the occurrences, of the seconds each shares with the span, and it
/// is unknown exactly when an occurrence ends out of range or that sum
/// exceeds a time delta.
pub proof fn lemma_add_overlaps_sum(occ: Seq<i64>, ss: int, se: int, d: int)
    ensures
        add_overlaps(occ, ss, se, d, 0, 0) == if ends_in_range(occ, d) && overlaps_total(
            occ,
            ss,
            se,
            d,
        ) <= MAX_DELTA {
            Some(overlaps_total(occ, ss, se, d))
        } else {
            None
        },
{
    lemma_add_overlaps_total(occ, ss, se, d, 0, 0);
    assert(occ.skip(0) =~= occ);
}


/// A session without a repeat rule covers the seconds that its one
/// occurrence shares with the span.
pub proof fn lemma_single_session_time(zone: Seq<char>, s: SessionView, span: Span<ZonedDateTime>)
    requires
        s.repeat is None,
    ensures
        session_time(zone, s, span) == match (
            range_delta(zone, s.range),
            bound_instant(zone, range_start(s.range)),
        ) {
            (Some(d), Some(st)) => {
                let o = overlap(
                    span.start.timestamp as int,
                    span.end.timestamp as int,
                    st.timestamp as int,
                    d as int,
                );
                if instant_in_range(st.timestamp + d) && o <= MAX_DELTA {
                    Some(o as i64)
                } else {
                    None
                }
            },
            _ => None,
        },
{
    if let Some(d) = range_delta(zone, s.range) {
        if let Some(st) = bound_instant(zone, range_start(s.range)) {
            let occ = seq![st.timestamp];
            let (ss, se) = (span.start.timestamp as int, span.end.timestamp as int);
            lemma_add_overlaps_sum(occ, ss, se, d as int);
            assert(occ.drop_first() =~= Seq::<i64>::empty());
            assert(overlaps_total(occ.drop_first(), ss, se, d as int) == 0);
            assert(occ[0] == st.timestamp);
            assert(overlaps_total(occ, ss, se, d as int) == overlap(ss, se, st.timestamp as int, d as int));
            assert(ends_in_range(occ, d as int) == instant_in_range(st.timestamp + d)) by {
                assert(occ[0] == st.timestamp);
            }
            lemma_overlap_nonneg(ss, se, st.timestamp as int, d as int);
        }
    }
}

proof fn lemma_overlap_nonneg(ss: int, se: int, r: int, d: int)
    ensures
        overlap(ss, se, r, d) >= 0,
{
}


/// The seconds an occurrence shares with a span: none when they do not
/// meet, the whole occurrence when the span holds it, never more than the
/// occurrence lasts, and a span cut in two shares with the occurrence the
/// sum of what its two halves share.
pub proof fn lemma_overlap_laws(ss: int, m: int, se: int, r: int, d: int)
    requires
        ss <= m <= se,
        d >= 0,
    ensures
        0 <= overlap(ss, se, r, d) <= d,
        overlap(ss, se, r, d) <= se - ss,
        ss <= r && r + d <= se ==> overlap(ss, se, r, d) == d,
        r + d <= ss || se <= r ==> overlap(ss, se, r, d) == 0,
        overlap(ss, se, r, d) == overlap(ss, m, r, d) + overlap(m, se, r, d),
{
}

} // verus!
