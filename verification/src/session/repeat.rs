//! Repeat rules of sessions, written as `daily`, `weekly_%2_#10`,
//! `mo,we` or `monthly-25/12`; the recurrence itself is computed by `rrule`.
use vstd::prelude::*;
use crate::text::{int_error_text, lemma_decimal_reads_back};
use crate::text::{
    push_char, push_str, push_decimal, push_two_digits, decimal, two_digits, IntErrorKind,
    unsigned_value, parse_unsigned,
};
use crate::time::{LocalDateTime, ZonedDateTime, Zone, MIN_TIMESTAMP, MAX_TIMESTAMP};
use crate::session::range::{
    Range, Bound, RangeErr, bound_spec, bound_instant, range_start, find_char, find_char_from,
};

verus! {

/// `rrule`'s rule, carried opaquely between conversions.
#[verifier::external_type_specification]
#[verifier::external_body]
#[verifier::reject_recursive_types(Stage)]
pub struct ExRRule<Stage>(rrule::RRule<Stage>);

/// `rrule`'s marker of a rule not yet validated.
#[verifier::external_type_specification]
#[verifier::external_body]
pub struct ExUnvalidated(rrule::Unvalidated);

/// `rrule`'s marker of a validated rule.
#[verifier::external_type_specification]
#[verifier::external_body]
pub struct ExValidated(rrule::Validated);

/// `rrule`'s frequency, carried opaquely into conversions.
#[verifier::external_type_specification]
#[verifier::external_body]
pub struct ExFrequency(rrule::Frequency);

/// `chrono`'s day of the week, carried opaquely into conversions.
#[verifier::external_type_specification]
#[verifier::external_body]
pub struct ExWeekday(chrono::Weekday);

/// How often a rule recurs (`rrule::Frequency`).
#[derive(Debug, Clone, Copy, PartialEq, Eq, Structural)]
pub enum Freq {
    Yearly,
    Monthly,
    Weekly,
    Daily,
    Hourly,
    Minutely,
    Secondly,
}

/// A day of the week (`chrono::Weekday`).
#[derive(Debug, Clone, Copy, PartialEq, Eq, Structural)]
pub enum Day {
    Mon,
    Tue,
    Wed,
    Thu,
    Fri,
    Sat,
    Sun,
}

/// A month of the year.
#[derive(Debug, Clone, Copy, PartialEq, Eq, Structural)]
pub enum Month {
    January,
    February,
    March,
    April,
    May,
    June,
    July,
    August,
    September,
    October,
    November,
    December,
}

/// The number of a month, January being 1.
pub open spec fn month_index(m: Month) -> u8 {
    match m {
        Month::January => 1,
        Month::February => 2,
        Month::March => 3,
        Month::April => 4,
        Month::May => 5,
        Month::June => 6,
        Month::July => 7,
        Month::August => 8,
        Month::September => 9,
        Month::October => 10,
        Month::November => 11,
        Month::December => 12,
    }
}

/// The number of a month, January being 1.
pub fn month_number(m: Month) -> (r: u8)
    ensures
        r == month_index(m),
        1 <= r <= 12,
{
    match m {
        Month::January => 1,
        Month::February => 2,
        Month::March => 3,
        Month::April => 4,
        Month::May => 5,
        Month::June => 6,
        Month::July => 7,
        Month::August => 8,
        Month::September => 9,
        Month::October => 10,
        Month::November => 11,
        Month::December => 12,
    }
}

/// The month of a number from 1 to 12.
pub fn month_of_number(n: u8) -> (r: Option<Month>)
    ensures
        r is Some <==> 1 <= n <= 12,
        r matches Some(m) ==> month_index(m) == n,
{
    match n {
        1 => Some(Month::January),
        2 => Some(Month::February),
        3 => Some(Month::March),
        4 => Some(Month::April),
        5 => Some(Month::May),
        6 => Some(Month::June),
        7 => Some(Month::July),
        8 => Some(Month::August),
        9 => Some(Month::September),
        10 => Some(Month::October),
        11 => Some(Month::November),
        12 => Some(Month::December),
        _ => None,
    }
}

/// The parts of a recurrence rule that this library sets or reads, as
/// `rrule` holds them.
#[derive(Debug, Clone, PartialEq, Eq)]
pub struct Rule {
    pub freq: Freq,
    pub interval: u16,
    pub count: Option<u32>,
    /// Last instant, in seconds since the epoch.
    pub until: Option<i64>,
    pub by_weekday: Vec<Day>,
    pub by_month: Vec<Month>,
    pub by_month_day: Vec<i8>,
    pub by_hour: Vec<u8>,
    pub by_minute: Vec<u8>,
    pub by_second: Vec<u8>,
}

/// Mathematical model of a [`Rule`].
pub struct RuleView {
    pub freq: Freq,
    pub interval: u16,
    pub count: Option<u32>,
    pub until: Option<i64>,
    pub by_weekday: Seq<Day>,
    pub by_month: Seq<Month>,
    pub by_month_day: Seq<i8>,
    pub by_hour: Seq<u8>,
    pub by_minute: Seq<u8>,
    pub by_second: Seq<u8>,
}

impl View for Rule {
    type V = RuleView;

    open spec fn view(&self) -> RuleView {
        RuleView {
            freq: self.freq,
            interval: self.interval,
            count: self.count,
            until: self.until,
            by_weekday: self.by_weekday@,
            by_month: self.by_month@,
            by_month_day: self.by_month_day@,
            by_hour: self.by_hour@,
            by_minute: self.by_minute@,
            by_second: self.by_second@,
        }
    }
}

/// A new rule of the given frequency: every time, no limit.
pub open spec fn plain_rule(freq: Freq, by_weekday: Seq<Day>) -> RuleView {
    RuleView {
        freq,
        interval: 1,
        count: None,
        until: None,
        by_weekday,
        by_month: seq![],
        by_month_day: seq![],
        by_hour: seq![],
        by_minute: seq![],
        by_second: seq![],
    }
}

/// The frequency that `rrule` reads from a name (`rrule::Frequency::from_str`).
pub uninterp spec fn rrule_frequency(s: Seq<char>) -> Option<Freq>;

/// What `rrule` makes of a rule validated against a start instant: the
/// completed rule, or its error message.
pub uninterp spec fn rrule_validated(rule: RuleView, start: i64) -> Result<RuleView, Seq<char>>;

/// The occurrences, as `rrule` computes them, of a rule started at `start`
/// in the named zone, kept between `after` and `before`.
pub uninterp spec fn rrule_occurrences(
    rule: RuleView,
    zone: Seq<char>,
    start: i64,
    after: i64,
    before: i64,
) -> Seq<i64>;

/// The frequency of that name, in any letter case (`rrule::Frequency::from_str`).
#[verifier::external_body]
pub(crate) fn frequency_from_str(s: &str) -> (r: Option<Freq>)
    ensures
        r == rrule_frequency(s@),
{
    s.parse::<rrule::Frequency>().ok().map(freq_of_rrule)
}

/// Validates a rule against its start (`rrule::RRule::validate`, at the
/// start instant in UTC), and reads back the completed rule.
#[verifier::external_body]
pub(crate) fn validate_rule(rule: &Rule, start: i64) -> (r: Result<Rule, String>)
    ensures
        match r {
            Ok(v) => rrule_validated(rule@, start) == Ok::<RuleView, Seq<char>>(v@),
            Err(m) => rrule_validated(rule@, start) == Err::<RuleView, Seq<char>>(m@),
        },
{
    let start = chrono::DateTime::from_timestamp(start, 0).map(|d| d.with_timezone(&rrule::Tz::UTC));
    match (rrule_of(rule), start) {
        (Some(u), Some(s)) => u.validate(s).map(|v| rule_of_rrule(&v)).map_err(|e| e.to_string()),
        _ => Err("instant out of range".to_string()),
    }
}

/// Occurrences of a rule started at `start` in the zone, between `after` and
/// `before` (`rrule::RRuleSet` with `after`, `before` and `all_unchecked`).
#[verifier::external_body]
pub(crate) fn occurrences(rule: &Rule, zone: &Zone, start: i64, after: i64, before: i64) -> (r: Vec<i64>)
    ensures
        r@ == rrule_occurrences(rule@, zone@, start, after, before),
{
    let tz = rrule::Tz::Tz(zone.name().parse().unwrap());
    let at = |t: i64| chrono::DateTime::from_timestamp(t, 0).map(|d| d.with_timezone(&tz));
    match (rrule_of(rule), at(start), at(after), at(before)) {
        (Some(u), Some(s), Some(a), Some(b)) => match u.validate(s) {
            Ok(v) => rrule::RRuleSet::new(s).rrule(v).after(a).before(b).all_unchecked().iter().map(
                |d| d.timestamp(),
            ).collect(),
            Err(_) => Vec::new(),
        },
        _ => Vec::new(),
    }
}

/// The rule as iCalendar writes it (`RRULE` value), as `rrule` prints it.
pub uninterp spec fn rrule_text(rule: RuleView) -> Seq<char>;

/// The rule as iCalendar writes it, without the `RRULE:` prefix (the
/// `Display` of `rrule::RRule`); its last instant must be in `chrono`'s
/// range.
#[verifier::external_body]
pub(crate) fn rule_text(rule: &Rule) -> (r: String)
    requires
        rule.until matches Some(u) ==> MIN_TIMESTAMP <= u <= MAX_TIMESTAMP,
    ensures
        r@ == rrule_text(rule@),
{
    rrule_of(rule).unwrap().to_string()
}

/// `rrule`'s form of a rule; `None` when its last instant is out of range.
#[verifier::external_body]
fn rrule_of(rule: &Rule) -> Option<rrule::RRule<rrule::Unvalidated>> {
    let mut r = rrule_parts(rule).by_month(
        &rule.by_month.iter().map(|m| chrono::Month::try_from(month_number(*m)).unwrap()).collect::<Vec<_>>(),
    );
    if let Some(c) = rule.count {
        r = r.count(c);
    }
    match rule.until {
        Some(u) => chrono::DateTime::from_timestamp(u, 0).map(|d| r.until(d.with_timezone(&rrule::Tz::UTC))),
        None => Some(r),
    }
}

/// `rrule`'s form of the frequency, interval and `by_` lists of a rule
/// but its months.
#[verifier::external_body]
fn rrule_parts(rule: &Rule) -> rrule::RRule<rrule::Unvalidated> {
    rrule::RRule::new(rrule_freq(rule.freq)).interval(rule.interval).by_weekday(
        rule.by_weekday.iter().map(|d| rrule::NWeekday::Every(rrule_day(*d))).collect(),
    ).by_month_day(rule.by_month_day.clone()).by_hour(rule.by_hour.clone()).by_minute(
        rule.by_minute.clone(),
    ).by_second(rule.by_second.clone())
}

/// The parts of a validated `rrule` rule.
#[verifier::external_body]
fn rule_of_rrule(r: &rrule::RRule<rrule::Validated>) -> Rule {
    Rule {
        freq: freq_of_rrule(r.get_freq()),
        interval: r.get_interval(),
        count: r.get_count(),
        until: r.get_until().map(|u| u.timestamp()),
        by_weekday: r.get_by_weekday().iter().map(|w| match w {
            rrule::NWeekday::Every(d) | rrule::NWeekday::Nth(_, d) => day_of_chrono(*d),
        }).collect(),
        by_month: r.get_by_month().iter().map(|m| month_of_number(*m).unwrap()).collect(),
        by_month_day: r.get_by_month_day().to_vec(),
        by_hour: r.get_by_hour().to_vec(),
        by_minute: r.get_by_minute().to_vec(),
        by_second: r.get_by_second().to_vec(),
    }
}

/// `rrule`'s frequency, variant for variant.
#[verifier::external_body]
fn rrule_freq(f: Freq) -> rrule::Frequency {
    match f {
        Freq::Yearly => rrule::Frequency::Yearly,
        Freq::Monthly => rrule::Frequency::Monthly,
        Freq::Weekly => rrule::Frequency::Weekly,
        Freq::Daily => rrule::Frequency::Daily,
        Freq::Hourly => rrule::Frequency::Hourly,
        Freq::Minutely => rrule::Frequency::Minutely,
        Freq::Secondly => rrule::Frequency::Secondly,
    }
}

/// The frequency of `rrule`'s, variant for variant.
#[verifier::external_body]
fn freq_of_rrule(f: rrule::Frequency) -> Freq {
    match f {
        rrule::Frequency::Yearly => Freq::Yearly,
        rrule::Frequency::Monthly => Freq::Monthly,
        rrule::Frequency::Weekly => Freq::Weekly,
        rrule::Frequency::Daily => Freq::Daily,
        rrule::Frequency::Hourly => Freq::Hourly,
        rrule::Frequency::Minutely => Freq::Minutely,
        rrule::Frequency::Secondly => Freq::Secondly,
    }
}

/// `chrono`'s day of the week, variant for variant.
#[verifier::external_body]
fn rrule_day(d: Day) -> chrono::Weekday {
    match d {
        Day::Mon => chrono::Weekday::Mon,
        Day::Tue => chrono::Weekday::Tue,
        Day::Wed => chrono::Weekday::Wed,
        Day::Thu => chrono::Weekday::Thu,
        Day::Fri => chrono::Weekday::Fri,
        Day::Sat => chrono::Weekday::Sat,
        Day::Sun => chrono::Weekday::Sun,
    }
}

/// The day of the week of `chrono`'s, variant for variant.
#[verifier::external_body]
fn day_of_chrono(d: chrono::Weekday) -> Day {
    match d {
        chrono::Weekday::Mon => Day::Mon,
        chrono::Weekday::Tue => Day::Tue,
        chrono::Weekday::Wed => Day::Wed,
        chrono::Weekday::Thu => Day::Thu,
        chrono::Weekday::Fri => Day::Fri,
        chrono::Weekday::Sat => Day::Sat,
        chrono::Weekday::Sun => Day::Sun,
    }
}

// ---------------------------------------------------------------------------
// Splitting at every separator

/// Scans `s` from `i` where the current part began at `start`; every `sep`
/// ends a part (`str::split`).
pub open spec fn split_plain(s: Seq<char>, sep: char, i: int, start: int) -> Seq<Seq<char>>
    decreases s.len() - i,
{
    if i >= s.len() {
        seq![s.subrange(start, s.len() as int)]
    } else if s[i] == sep {
        seq![s.subrange(start, i)] + split_plain(s, sep, i + 1, i + 1)
    } else {
        split_plain(s, sep, i + 1, start)
    }
}

/// The parts of `s` between its separators.
pub open spec fn split_all(s: Seq<char>, sep: char) -> Seq<Seq<char>> {
    split_plain(s, sep, 0, 0)
}

proof fn lemma_split_plain_nonempty(s: Seq<char>, sep: char, i: int, start: int)
    ensures
        split_plain(s, sep, i, start).len() >= 1,
    decreases s.len() - i,
{
    if i < s.len() {
        if s[i] == sep {
            lemma_split_plain_nonempty(s, sep, i + 1, i + 1);
        } else {
            lemma_split_plain_nonempty(s, sep, i + 1, start);
        }
    }
}

/// The views of a list of string slices.
pub open spec fn slices_view(v: Seq<&str>) -> Seq<Seq<char>> {
    v.map_values(|p: &str| p@)
}

/// Splits `s` at every `sep`.
pub fn split_on<'a>(s: &'a str, sep: char) -> (parts: Vec<&'a str>)
    ensures
        slices_view(parts@) == split_all(s@, sep),
        parts@.len() >= 1,
{
    proof {
        lemma_split_plain_nonempty(s@, sep, 0, 0);
    }
    let n = s.unicode_len();
    let mut parts: Vec<&'a str> = Vec::new();
    let mut start: usize = 0;
    let mut i: usize = 0;
    while i < n
        invariant
            n == s@.len(),
            start <= i <= n,
            slices_view(parts@) + split_plain(s@, sep, i as int, start as int) == split_all(s@, sep),
        decreases n - i,
    {
        if s.get_char(i) == sep {
            let ghost before = slices_view(parts@);
            let piece = s.substring_char(start, i);
            parts.push(piece);
            assert(slices_view(parts@) =~= before.push(piece@));
            assert(before + split_plain(s@, sep, i as int, start as int) =~= slices_view(parts@)
                + split_plain(s@, sep, i + 1, i + 1));
            start = i + 1;
        }
        i = i + 1;
    }
    let ghost before = slices_view(parts@);
    let piece = s.substring_char(start, n);
    parts.push(piece);
    assert(slices_view(parts@) =~= before.push(piece@));
    assert(slices_view(parts@) =~= before + split_plain(s@, sep, n as int, start as int));
    parts
}

// ---------------------------------------------------------------------------
// Repeat rules

/// A validated repeat rule and the last instant, as written, if any.
#[derive(Debug, Clone, PartialEq, Eq)]
pub struct Repeat {
    pub rule: Rule,
    pub until: Option<ZonedDateTime>,
}

/// Mathematical model of a [`Repeat`].
pub struct RepeatView {
    pub rule: RuleView,
    pub until: Option<ZonedDateTime>,
}

impl View for Repeat {
    type V = RepeatView;

    open spec fn view(&self) -> RepeatView {
        RepeatView { rule: self.rule@, until: self.until }
    }
}

/// Why a text is not a repeat rule.
#[derive(Debug, Clone, PartialEq, Eq)]
pub enum RepeatErr {
    /// Neither a frequency nor a list of days.
    Frequency,
    /// An interval or count is not a number of its type.
    ParseInt(IntErrorKind),
    /// `rrule` rejects the rule; its message is attached.
    Validation(String),
    /// The last day or time is not a bound.
    Until(RangeErr),
    /// A day has no first instant in the zone data.
    NoInstant,
}

/// Mathematical model of a [`RepeatErr`].
pub enum RepeatErrView {
    Frequency,
    ParseInt(IntErrorKind),
    Validation(Seq<char>),
    Until(RangeErr),
    NoInstant,
}

impl View for RepeatErr {
    type V = RepeatErrView;

    open spec fn view(&self) -> RepeatErrView {
        match self {
            RepeatErr::Frequency => RepeatErrView::Frequency,
            RepeatErr::ParseInt(k) => RepeatErrView::ParseInt(*k),
            RepeatErr::Validation(m) => RepeatErrView::Validation(m@),
            RepeatErr::Until(e) => RepeatErrView::Until(*e),
            RepeatErr::NoInstant => RepeatErrView::NoInstant,
        }
    }
}

/// The day of a two-letter code, `mo` to `su`.
pub open spec fn day_of_code(s: Seq<char>) -> Option<Day> {
    if s == seq!['m', 'o'] {
        Some(Day::Mon)
    } else if s == seq!['t', 'u'] {
        Some(Day::Tue)
    } else if s == seq!['w', 'e'] {
        Some(Day::Wed)
    } else if s == seq!['t', 'h'] {
        Some(Day::Thu)
    } else if s == seq!['f', 'r'] {
        Some(Day::Fri)
    } else if s == seq!['s', 'a'] {
        Some(Day::Sat)
    } else if s == seq!['s', 'u'] {
        Some(Day::Sun)
    } else {
        None
    }
}

/// The day of a two-letter code, `mo` to `su`.
pub fn from_str(s: &str) -> (r: Option<Day>)
    ensures
        r == day_of_code(s@),
{
    if s.unicode_len() != 2 {
        return None;
    }
    let a = s.get_char(0);
    let b = s.get_char(1);
    assert(s@ =~= seq![a, b]);
    if a == 'm' && b == 'o' {
        Some(Day::Mon)
    } else if a == 't' && b == 'u' {
        Some(Day::Tue)
    } else if a == 'w' && b == 'e' {
        Some(Day::Wed)
    } else if a == 't' && b == 'h' {
        Some(Day::Thu)
    } else if a == 'f' && b == 'r' {
        Some(Day::Fri)
    } else if a == 's' && b == 'a' {
        Some(Day::Sat)
    } else if a == 's' && b == 'u' {
        Some(Day::Sun)
    } else {
        None
    }
}

/// Whether every text is a day code.
pub open spec fn all_day_codes(codes: Seq<Seq<char>>) -> bool {
    forall|i: int| 0 <= i < codes.len() ==> (#[trigger] day_of_code(codes[i])) is Some
}

/// A weekly rule on the listed days, `mo,we,fr`.
pub open spec fn days_rule(first: Seq<char>) -> Result<RuleView, RepeatErrView> {
    let codes = split_all(first, ',');
    if all_day_codes(codes) {
        Ok(plain_rule(Freq::Weekly, codes.map_values(|c: Seq<char>| day_of_code(c).unwrap())))
    } else {
        Err(RepeatErrView::Frequency)
    }
}

/// The rule that the first part names: a frequency, or a list of days.
pub open spec fn head_rule(first: Seq<char>) -> Result<RuleView, RepeatErrView> {
    match rrule_frequency(first) {
        Some(f) => Ok(plain_rule(f, seq![])),
        None => days_rule(first),
    }
}

/// Applies the parts from `i` on: `%n` sets the interval, `#n` the count,
/// anything else is skipped.
pub open spec fn apply_parts(parts: Seq<Seq<char>>, i: int, rule: RuleView) -> Result<
    RuleView,
    RepeatErrView,
>
    decreases parts.len() - i,
{
    if i >= parts.len() || i < 0 {
        Ok(rule)
    } else {
        let p = parts[i];
        if p.len() > 0 && p[0] == '%' {
            match unsigned_value(p.skip(1), 65535) {
                Err(k) => Err(RepeatErrView::ParseInt(k)),
                Ok(v) => apply_parts(parts, i + 1, RuleView { interval: v as u16, ..rule }),
            }
        } else if p.len() > 0 && p[0] == '#' {
            match unsigned_value(p.skip(1), 4294967295) {
                Err(k) => Err(RepeatErrView::ParseInt(k)),
                Ok(v) => apply_parts(parts, i + 1, RuleView { count: Some(v as u32), ..rule }),
            }
        } else {
            apply_parts(parts, i + 1, rule)
        }
    }
}

/// The rule before its last instant is added.
pub open spec fn body_rule(body: Seq<char>) -> Result<RuleView, RepeatErrView> {
    let parts = split_all(body, '_');
    match head_rule(parts[0]) {
        Err(e) => Err(e),
        Ok(r) => apply_parts(parts, 1, r),
    }
}

/// The text before the first `-`.
pub open spec fn repeat_body(s: Seq<char>) -> Seq<char> {
    match find_char_from(s, '-', 0) {
        None => s,
        Some(i) => s.take(i),
    }
}

/// The text after the first `-`, if any.
pub open spec fn repeat_until_text(s: Seq<char>) -> Option<Seq<char>> {
    match find_char_from(s, '-', 0) {
        None => None,
        Some(i) => Some(s.skip(i + 1)),
    }
}

/// The repeat rule that a text denotes for a range starting in the zone.
pub open spec fn repeat_spec(zone: Seq<char>, s: Seq<char>, range: Range) -> Result<
    RepeatView,
    RepeatErrView,
> {
    let until_text = repeat_until_text(s);
    match body_rule(repeat_body(s)) {
        Err(e) => Err(e),
        Ok(r) => {
            let limited: Result<(RuleView, Option<ZonedDateTime>), RepeatErrView> = match until_text {
                None => Ok((r, None)),
                Some(u) => match bound_spec(zone, u) {
                    Err(e) => Err(RepeatErrView::Until(e)),
                    Ok(b) => match bound_instant(zone, b) {
                        None => Err(RepeatErrView::NoInstant),
                        Some(t) => Ok((RuleView { until: Some(t.timestamp), ..r }, Some(t))),
                    },
                },
            };
            match limited {
                Err(e) => Err(e),
                Ok((r2, until)) => match bound_instant(zone, range_start(range)) {
                    None => Err(RepeatErrView::NoInstant),
                    Some(st) => match rrule_validated(r2, st.timestamp) {
                        Err(m) => Err(RepeatErrView::Validation(m)),
                        Ok(v) => Ok(RepeatView { rule: v, until }),
                    },
                },
            }
        },
    }
}

/// A rule of this frequency, every time, without limit.
fn plain(freq: Freq, by_weekday: Vec<Day>) -> (r: Rule)
    ensures
        r@ == plain_rule(freq, by_weekday@),
{
    let r = Rule {
        freq,
        interval: 1,
        count: None,
        until: None,
        by_weekday,
        by_month: Vec::new(),
        by_month_day: Vec::new(),
        by_hour: Vec::new(),
        by_minute: Vec::new(),
        by_second: Vec::new(),
    };
    assert(r@.by_month =~= Seq::<Month>::empty());
    assert(r@.by_month_day =~= Seq::<i8>::empty());
    assert(r@.by_hour =~= Seq::<u8>::empty());
    assert(r@.by_minute =~= Seq::<u8>::empty());
    assert(r@.by_second =~= Seq::<u8>::empty());
    r
}

/// The rule that the first part names.
fn read_head(first: &str) -> (r: Result<Rule, RepeatErr>)
    ensures
        match r {
            Ok(v) => head_rule(first@) == Ok::<RuleView, RepeatErrView>(v@),
            Err(e) => head_rule(first@) == Err::<RuleView, RepeatErrView>(e@),
        },
{
    if let Some(f) = frequency_from_str(first) {
        return Ok(plain(f, Vec::new()));
    }
    let codes = split_on(first, ',');
    let ghost cv = split_all(first@, ',');
    assert(cv.len() == codes@.len());
    let mut days: Vec<Day> = Vec::new();
    let mut i: usize = 0;
    while i < codes.len()
        invariant
            slices_view(codes@) == cv,
            cv == split_all(first@, ','),
            rrule_frequency(first@) is None,
            i <= codes@.len(),
            forall|j: int| 0 <= j < i ==> (#[trigger] day_of_code(cv[j])) is Some,
            days@ =~= cv.take(i as int).map_values(|c: Seq<char>| day_of_code(c).unwrap()),
        decreases codes.len() - i,
    {
        assert(codes@[i as int]@ == cv[i as int]);
        match from_str(codes[i]) {
            Some(d) => {
                days.push(d);
                assert(cv.take(i + 1).map_values(|c: Seq<char>| day_of_code(c).unwrap())
                    =~= cv.take(i as int).map_values(|c: Seq<char>| day_of_code(c).unwrap()).push(d));
            },
            None => {
                assert(day_of_code(cv[i as int]) is None);
                assert(!all_day_codes(cv));
                assert(days_rule(first@) == Err::<RuleView, RepeatErrView>(RepeatErrView::Frequency));
                return Err(RepeatErr::Frequency);
            },
        }
        i = i + 1;
    }
    assert(cv.take(codes@.len() as int) =~= cv);
    Ok(plain(Freq::Weekly, days))
}

/// Parses a repeat rule for a session in `range`, and validates it against
/// the start of the range.
impl Repeat {
    pub fn from_str_in_range(s: &str, range: &Range, zone: &Zone) -> (r: Result<Repeat, RepeatErr>)
        ensures
            match r {
                Ok(v) => repeat_spec(zone@, s@, *range) == Ok::<RepeatView, RepeatErrView>(v@),
                Err(e) => repeat_spec(zone@, s@, *range) == Err::<RepeatView, RepeatErrView>(e@),
            },
    {
        let n = s.unicode_len();
        let (body, until_text) = match find_char(s, '-') {
            None => (s, None),
            Some(i) => {
                assert(s@.subrange(0, i as int) =~= s@.take(i as int));
                assert(s@.subrange(i + 1, n as int) =~= s@.skip(i + 1));
                (s.substring_char(0, i), Some(s.substring_char(i + 1, n)))
            },
        };
        let parts = split_on(body, '_');
        let ghost pv = split_all(body@, '_');
        assert(parts[0]@ == pv[0]);
        let mut rule = read_head(parts[0])?;
        let ghost r0 = rule@;
        assert(body_rule(body@) == apply_parts(pv, 1, r0));
        let mut i: usize = 1;
        while i < parts.len()
            invariant
                slices_view(parts@) == pv,
                body_rule(body@) == apply_parts(pv, 1, r0),
                body@ == repeat_body(s@),
                1 <= i <= parts@.len(),
                apply_parts(pv, 1, r0) == apply_parts(pv, i as int, rule@),
            decreases parts.len() - i,
        {
            let p = parts[i];
            let m = p.unicode_len();
            assert(p@ == pv[i as int]);
            if m > 0 && p.get_char(0) == '%' {
                let digits = p.substring_char(1, m);
                assert(digits@ =~= p@.skip(1));
                assert(p@ == pv[i as int]);
                match parse_unsigned(digits, 65535) {
                    Ok(v) => {
                        assert(apply_parts(pv, i as int, rule@) == apply_parts(pv, i + 1, RuleView { interval: v as u16, ..rule@ }));
                        rule.interval = v as u16;
                    },
                    Err(k) => {
                        assert(apply_parts(pv, i as int, rule@) == Err::<RuleView, RepeatErrView>(RepeatErrView::ParseInt(k)));
                        assert(body_rule(body@) == Err::<RuleView, RepeatErrView>(RepeatErrView::ParseInt(k)));
                        return Err(RepeatErr::ParseInt(k));
                    },
                }
            } else if m > 0 && p.get_char(0) == '#' {
                let digits = p.substring_char(1, m);
                assert(digits@ =~= p@.skip(1));
                assert(p@ == pv[i as int]);
                match parse_unsigned(digits, 4294967295) {
                    Ok(v) => {
                        assert(apply_parts(pv, i as int, rule@) == apply_parts(pv, i + 1, RuleView { count: Some(v as u32), ..rule@ }));
                        rule.count = Some(v as u32);
                    },
                    Err(k) => {
                        assert(apply_parts(pv, i as int, rule@) == Err::<RuleView, RepeatErrView>(RepeatErrView::ParseInt(k)));
                        assert(body_rule(body@) == Err::<RuleView, RepeatErrView>(RepeatErrView::ParseInt(k)));
                        return Err(RepeatErr::ParseInt(k));
                    },
                }
            }
            i = i + 1;
        }
        let until = match until_text {
            None => None,
            Some(u) => {
                let b = match Bound::from_str(u, zone) {
                    Ok(b) => b,
                    Err(e) => return Err(RepeatErr::Until(e)),
                };
                match b.dt(zone) {
                    None => return Err(RepeatErr::NoInstant),
                    Some(t) => {
                        rule.until = Some(t.timestamp);
                        Some(t)
                    },
                }
            },
        };
        let start = match range.start().dt(zone) {
            None => return Err(RepeatErr::NoInstant),
            Some(t) => t,
        };
        match validate_rule(&rule, start.timestamp) {
            Ok(v) => Ok(Repeat { rule: v, until }),
            Err(m) => Err(RepeatErr::Validation(m)),
        }
    }
}

// ---------------------------------------------------------------------------
// Writing repeat rules

/// The two-letter code of a day.
pub open spec fn day_text(d: Day) -> Seq<char> {
    match d {
        Day::Mon => seq!['m', 'o'],
        Day::Tue => seq!['t', 'u'],
        Day::Wed => seq!['w', 'e'],
        Day::Thu => seq!['t', 'h'],
        Day::Fri => seq!['f', 'r'],
        Day::Sat => seq!['s', 'a'],
        Day::Sun => seq!['s', 'u'],
    }
}

/// The codes of the days, separated by commas.
pub open spec fn days_text(ds: Seq<Day>) -> Seq<char>
    decreases ds.len(),
{
    if ds.len() == 0 {
        seq![]
    } else if ds.len() == 1 {
        day_text(ds[0])
    } else {
        days_text(ds.drop_last()) + seq![','] + day_text(ds.last())
    }
}

/// The name of a frequency, in lower case.
pub open spec fn freq_text(f: Freq) -> Seq<char> {
    match f {
        Freq::Yearly => "yearly"@,
        Freq::Monthly => "monthly"@,
        Freq::Weekly => "weekly"@,
        Freq::Daily => "daily"@,
        Freq::Hourly => "hourly"@,
        Freq::Minutely => "minutely"@,
        Freq::Secondly => "secondly"@,
    }
}

/// The last instant as written, `%y/%m/%d_%H:%M:%S` without the trailing
/// components that are at their defaults.
pub open spec fn until_text(t: LocalDateTime) -> Seq<char> {
    let y = two_digits((t.date.year as int % 100) as nat);
    let m = seq!['/'] + two_digits(t.date.month as nat);
    let d = seq!['/'] + two_digits(t.date.day as nat);
    let h = seq!['_'] + two_digits(t.hour as nat);
    let mi = seq![':'] + two_digits(t.minute as nat);
    let s = seq![':'] + two_digits(t.second as nat);
    if t.second != 0 {
        y + m + d + h + mi + s
    } else if t.minute != 0 {
        y + m + d + h + mi
    } else if t.hour != 0 {
        y + m + d + h
    } else if t.date.day != 1 {
        y + m + d
    } else if t.date.month != 1 {
        y + m
    } else {
        y
    }
}

/// A repeat rule as written: the days when there are several, else the
/// frequency; then `_%interval` unless it is 1, `_#count`, `-until`.
pub open spec fn repeat_text(r: RepeatView) -> Seq<char> {
    let head = if r.rule.by_weekday.len() > 1 {
        days_text(r.rule.by_weekday)
    } else {
        freq_text(r.rule.freq)
    };
    let interval = if r.rule.interval != 1 {
        seq!['_', '%'] + decimal(r.rule.interval as nat)
    } else {
        seq![]
    };
    let count = match r.rule.count {
        Some(c) => seq!['_', '#'] + decimal(c as nat),
        None => seq![],
    };
    let until = match r.until {
        Some(u) => seq!['-'] + until_text(u.local),
        None => seq![],
    };
    head + interval + count + until
}

/// Writes the code of a day.
fn write_day(out: &mut String, d: Day)
    ensures
        final(out)@ == old(out)@ + day_text(d),
{
    let (a, b) = match d {
        Day::Mon => ('m', 'o'),
        Day::Tue => ('t', 'u'),
        Day::Wed => ('w', 'e'),
        Day::Thu => ('t', 'h'),
        Day::Fri => ('f', 'r'),
        Day::Sat => ('s', 'a'),
        Day::Sun => ('s', 'u'),
    };
    let ghost before = out@;
    push_char(out, a);
    push_char(out, b);
    assert(out@ =~= before + day_text(d));
}

/// Year modulo 100, from 0 to 99 (as `%y` writes it).
fn year_mod_100(y: i32) -> (r: u64)
    ensures
        r as int == y as int % 100,
{
    if y >= 0 {
        (y as u64) % 100
    } else {
        let a: u64 = ((-(y as i64)) as u64) % 100;
        if a == 0 {
            0
        } else {
            100 - a
        }
    }
}

/// Writes the last instant, without trailing default components.
#[verifier::spinoff_prover]
fn write_until(out: &mut String, t: &LocalDateTime)
    ensures
        final(out)@ == old(out)@ + until_text(*t),
{
    let ghost before = out@;
    let ghost y = two_digits((t.date.year as int % 100) as nat);
    let ghost m = seq!['/'] + two_digits(t.date.month as nat);
    let ghost d = seq!['/'] + two_digits(t.date.day as nat);
    let ghost h = seq!['_'] + two_digits(t.hour as nat);
    let ghost mi = seq![':'] + two_digits(t.minute as nat);
    let ghost sec = seq![':'] + two_digits(t.second as nat);
    let level: u8 = if t.second != 0 {
        5
    } else if t.minute != 0 {
        4
    } else if t.hour != 0 {
        3
    } else if t.date.day != 1 {
        2
    } else if t.date.month != 1 {
        1
    } else {
        0
    };
    push_two_digits(out, year_mod_100(t.date.year));
    let ghost w0 = out@;
    assert(w0 =~= before + y);
    if level >= 1 {
        push_char(out, '/');
        push_two_digits(out, t.date.month as u64);
    }
    let ghost w1 = out@;
    assert(level >= 1 ==> w1 =~= w0 + m);
    assert(level < 1 ==> w1 == w0);
    if level >= 2 {
        push_char(out, '/');
        push_two_digits(out, t.date.day as u64);
    }
    let ghost w2 = out@;
    assert(level >= 2 ==> w2 =~= w1 + d);
    assert(level < 2 ==> w2 == w1);
    if level >= 3 {
        push_char(out, '_');
        push_two_digits(out, t.hour as u64);
    }
    let ghost w3 = out@;
    assert(level >= 3 ==> w3 =~= w2 + h);
    assert(level < 3 ==> w3 == w2);
    if level >= 4 {
        push_char(out, ':');
        push_two_digits(out, t.minute as u64);
    }
    let ghost w4 = out@;
    assert(level >= 4 ==> w4 =~= w3 + mi);
    assert(level < 4 ==> w4 == w3);
    if level >= 5 {
        push_char(out, ':');
        push_two_digits(out, t.second as u64);
    }
    let ghost w5 = out@;
    assert(level >= 5 ==> w5 =~= w4 + sec);
    assert(level < 5 ==> w5 == w4);
    assert(out@ =~= before + until_text(*t));
}

impl Repeat {
    /// The rule as written (see [`repeat_text`]).
    #[verifier::spinoff_prover]
    #[verifier::rlimit(50)]
    pub fn to_string(&self) -> (r: String)
        ensures
            r@ == repeat_text(self@),
    {
        let mut out = String::new();
        let ws = &self.rule.by_weekday;
        if ws.len() > 1 {
            let mut i: usize = 0;
            while i < ws.len()
                invariant
                    i <= ws@.len(),
                    ws@.len() > 1,
                    out@ == days_text(ws@.take(i as int)),
                decreases ws.len() - i,
            {
                let ghost before = out@;
                if i > 0 {
                    push_char(&mut out, ',');
                }
                write_day(&mut out, ws[i]);
                proof {
                    let t = ws@.take(i + 1);
                    assert(t.drop_last() =~= ws@.take(i as int));
                    if i == 0 {
                        assert(ws@.take(0) =~= Seq::<Day>::empty());
                    }
                }
                i = i + 1;
            }
            assert(ws@.take(ws@.len() as int) =~= ws@);
        } else {
            let name = match self.rule.freq {
                Freq::Yearly => "yearly",
                Freq::Monthly => "monthly",
                Freq::Weekly => "weekly",
                Freq::Daily => "daily",
                Freq::Hourly => "hourly",
                Freq::Minutely => "minutely",
                Freq::Secondly => "secondly",
            };
            push_str(&mut out, name);
        }
        let ghost head = out@;
        if self.rule.interval != 1 {
            push_char(&mut out, '_');
            push_char(&mut out, '%');
            push_decimal(&mut out, self.rule.interval as u64);
        }
        let ghost with_interval = out@;
        if let Some(c) = self.rule.count {
            push_char(&mut out, '_');
            push_char(&mut out, '#');
            push_decimal(&mut out, c as u64);
        }
        let ghost with_count = out@;
        if let Some(u) = &self.until {
            push_char(&mut out, '-');
            write_until(&mut out, &u.local);
        }
        assert(out@ =~= repeat_text(self@));
        out
    }
}


/// The message of a repeat error.
pub open spec fn repeat_err_text(e: RepeatErrView) -> Seq<char> {
    match e {
        RepeatErrView::Frequency => "Invalid frequency"@,
        RepeatErrView::ParseInt(k) => "Not an integer: "@ + int_error_text(k),
        RepeatErrView::Validation(m) => "Invalid repeat rule: "@ + m,
        RepeatErrView::Until(_) => "Range error"@,
        RepeatErrView::NoInstant => "No first instant of the day"@,
    }
}

impl RepeatErr {
    /// The message of the error (see [`repeat_err_text`]).
    pub fn message(&self) -> (r: String)
        ensures
            r@ == repeat_err_text(self@),
    {
        match self {
            RepeatErr::Frequency => "Invalid frequency".to_owned(),
            RepeatErr::ParseInt(k) => {
                let mut out = "Not an integer: ".to_owned();
                push_str(&mut out, k.message().as_str());
                out
            },
            RepeatErr::Validation(m) => {
                let mut out = "Invalid repeat rule: ".to_owned();
                push_str(&mut out, m.as_str());
                out
            },
            RepeatErr::Until(_) => "Range error".to_owned(),
            RepeatErr::NoInstant => "No first instant of the day".to_owned(),
        }
    }
}


/// Reading the code that a day is written with gives that day, and a code
/// names only the day written with it.
pub proof fn lemma_day_codes_round_trip(d: Day, s: Seq<char>)
    ensures
        day_of_code(day_text(d)) == Some(d),
        day_of_code(s) == Some(d) ==> s == day_text(d),
{
}


// ---------------------------------------------------------------------------
// Reading a written rule's numbers back

/// Whether `c` does not occur in `s`.
pub open spec fn free_of(s: Seq<char>, c: char) -> bool {
    forall|j: int| 0 <= j < s.len() ==> #[trigger] s[j] != c
}

proof fn lemma_split_plain_rest(s: Seq<char>, sep: char, i: int, st: int)
    requires
        0 <= st <= i <= s.len(),
        forall|j: int| i <= j < s.len() ==> s[j] != sep,
    ensures
        split_plain(s, sep, i, st) == seq![s.subrange(st, s.len() as int)],
    decreases s.len() - i,
{
    if i < s.len() {
        lemma_split_plain_rest(s, sep, i + 1, st);
    }
}

proof fn lemma_split_plain_to(s: Seq<char>, sep: char, i: int, st: int, k: int)
    requires
        0 <= st <= i <= k < s.len(),
        s[k] == sep,
        forall|j: int| i <= j < k ==> s[j] != sep,
    ensures
        split_plain(s, sep, i, st) == seq![s.subrange(st, k)] + split_plain(s, sep, k + 1, k + 1),
    decreases k - i,
{
    if i < k {
        lemma_split_plain_to(s, sep, i + 1, st, k);
    }
}

proof fn lemma_split_plain_shift(s: Seq<char>, sep: char, k: int, i: int, st: int)
    requires
        0 <= k,
        0 <= st <= i,
        k + i <= s.len(),
    ensures
        split_plain(s, sep, k + i, k + st) == split_plain(s.skip(k), sep, i, st),
    decreases s.len() - (k + i),
{
    let t = s.skip(k);
    if k + i >= s.len() {
        assert(s.subrange(k + st, s.len() as int) =~= t.subrange(st, t.len() as int));
    } else {
        assert(s[k + i] == t[i]);
        if s[k + i] == sep {
            lemma_split_plain_shift(s, sep, k, i + 1, i + 1);
            assert(s.subrange(k + st, k + i) =~= t.subrange(st, i));
        } else {
            lemma_split_plain_shift(s, sep, k, i + 1, st);
        }
    }
}

/// A part without the separator, then the separator, then the rest: the
/// part comes first, then the parts of the rest.
proof fn lemma_split_front(a: Seq<char>, sep: char, b: Seq<char>)
    requires
        free_of(a, sep),
    ensures
        split_all(a + seq![sep] + b, sep) == seq![a] + split_all(b, sep),
{
    let s = a + seq![sep] + b;
    let k = a.len() as int;
    assert(s[k] == sep);
    assert forall|j: int| 0 <= j < k implies s[j] != sep by {
        assert(s[j] == a[j]);
    }
    lemma_split_plain_to(s, sep, 0, 0, k);
    lemma_split_plain_shift(s, sep, k + 1, 0, 0);
    assert(s.skip(k + 1) =~= b);
    assert(s.subrange(0, k) =~= a);
}

/// A text without the separator is one part.
proof fn lemma_split_whole(a: Seq<char>, sep: char)
    requires
        free_of(a, sep),
    ensures
        split_all(a, sep) == seq![a],
{
    lemma_split_plain_rest(a, sep, 0, 0);
    assert(a.subrange(0, a.len() as int) =~= a);
}

proof fn lemma_days_text_plain(ds: Seq<Day>)
    ensures
        free_of(days_text(ds), '_'),
        free_of(days_text(ds), '-'),
    decreases ds.len(),
{
    if ds.len() > 1 {
        lemma_days_text_plain(ds.drop_last());
    }
}

proof fn lemma_freq_text_plain(f: Freq)
    ensures
        free_of(freq_text(f), '_'),
        free_of(freq_text(f), '-'),
{
    reveal_strlit("yearly");
    reveal_strlit("monthly");
    reveal_strlit("weekly");
    reveal_strlit("daily");
    reveal_strlit("hourly");
    reveal_strlit("minutely");
    reveal_strlit("secondly");
}

proof fn lemma_no_char_from(s: Seq<char>, c: char, j: int)
    requires
        0 <= j,
        forall|i: int| j <= i < s.len() ==> s[i] != c,
    ensures
        find_char_from(s, c, j) is None,
    decreases s.len() - j,
{
    if j < s.len() {
        lemma_no_char_from(s, c, j + 1);
    }
}

proof fn lemma_char_first_at(s: Seq<char>, c: char, j: int, k: int)
    requires
        0 <= j <= k < s.len(),
        s[k] == c,
        forall|i: int| j <= i < k ==> s[i] != c,
    ensures
        find_char_from(s, c, j) == Some(k),
    decreases k - j,
{
    if j < k {
        lemma_char_first_at(s, c, j + 1, k);
    }
}

/// A written rule's interval and count read back: the parts after the
/// first of the text before its last instant set the interval it was
/// written with, unless that is 1, and the count it was written with, if
/// any, and nothing else.
#[verifier::rlimit(40)]
pub proof fn lemma_repeat_numbers_read_back(r: RepeatView, x: RuleView)
    ensures
        apply_parts(split_all(repeat_body(repeat_text(r)), '_'), 1, x) == Ok::<
            RuleView,
            RepeatErrView,
        >(
            RuleView {
                interval: if r.rule.interval != 1 {
                    r.rule.interval
                } else {
                    x.interval
                },
                count: match r.rule.count {
                    Some(c) => Some(c),
                    None => x.count,
                },
                ..x
            },
        ),
        split_all(repeat_body(repeat_text(r)), '_')[0] == if r.rule.by_weekday.len() > 1 {
            days_text(r.rule.by_weekday)
        } else {
            freq_text(r.rule.freq)
        },
{
    let head = if r.rule.by_weekday.len() > 1 {
        days_text(r.rule.by_weekday)
    } else {
        freq_text(r.rule.freq)
    };
    lemma_days_text_plain(r.rule.by_weekday);
    lemma_freq_text_plain(r.rule.freq);
    let iv_n = r.rule.interval as nat;
    lemma_decimal_reads_back(iv_n, 65535);
    let iv_part = seq!['%'] + decimal(iv_n);
    let iv = if r.rule.interval != 1 {
        seq!['_', '%'] + decimal(iv_n)
    } else {
        seq![]
    };
    let c_n: nat = match r.rule.count {
        Some(c) => c as nat,
        None => 0,
    };
    lemma_decimal_reads_back(c_n, 4294967295);
    let ct_part = seq!['#'] + decimal(c_n);
    let ct = match r.rule.count {
        Some(c) => seq!['_', '#'] + decimal(c_n),
        None => seq![],
    };
    let until = match r.until {
        Some(u) => seq!['-'] + until_text(u.local),
        None => seq![],
    };
    let body = head + iv + ct;
    let text = repeat_text(r);
    assert(text == body + until);
    // The text before the first `-` is the head and the numbers.
    assert forall|j: int| 0 <= j < body.len() implies body[j] != '-' by {
        if j < head.len() {
            assert(body[j] == head[j]);
        } else if j < head.len() + iv.len() {
            assert(body[j] == iv[j - head.len()]);
            if j - head.len() >= 2 {
                assert(iv[j - head.len()] == decimal(iv_n)[j - head.len() - 2]);
            }
        } else {
            assert(body[j] == ct[j - head.len() - iv.len()]);
            if j - head.len() - iv.len() >= 2 {
                assert(ct[j - head.len() - iv.len()] == decimal(c_n)[j - head.len() - iv.len() - 2]);
            }
        }
    }
    if r.until is Some {
        assert(text[body.len() as int] == '-');
        assert forall|i: int| 0 <= i < body.len() implies text[i] != '-' by {
            assert(text[i] == body[i]);
        }
        lemma_char_first_at(text, '-', 0, body.len() as int);
        assert(text.take(body.len() as int) =~= body);
    } else {
        assert(text =~= body);
        lemma_no_char_from(text, '-', 0);
    }
    assert(repeat_body(text) == body);
    // The parts of the body.
    assert(free_of(iv_part, '_')) by {
        assert forall|j: int| 0 <= j < iv_part.len() implies #[trigger] iv_part[j] != '_' by {
            if j > 0 {
                assert(iv_part[j] == decimal(iv_n)[j - 1]);
            }
        }
    }
    assert(free_of(ct_part, '_')) by {
        assert forall|j: int| 0 <= j < ct_part.len() implies #[trigger] ct_part[j] != '_' by {
            if j > 0 {
                assert(ct_part[j] == decimal(c_n)[j - 1]);
            }
        }
    }
    let want = RuleView {
        interval: if r.rule.interval != 1 {
            r.rule.interval
        } else {
            x.interval
        },
        count: match r.rule.count {
            Some(c) => Some(c),
            None => x.count,
        },
        ..x
    };
    assert(iv_part[0] == '%');
    assert(iv_part.skip(1) =~= decimal(iv_n));
    assert(ct_part[0] == '#');
    assert(ct_part.skip(1) =~= decimal(c_n));
    if r.rule.interval != 1 {
        if r.rule.count is Some {
            assert(body =~= head + seq!['_'] + (iv_part + seq!['_'] + ct_part));
            lemma_split_front(head, '_', iv_part + seq!['_'] + ct_part);
            lemma_split_front(iv_part, '_', ct_part);
            lemma_split_whole(ct_part, '_');
            let parts = seq![head, iv_part, ct_part];
            assert(split_all(body, '_') =~= parts);
            assert(apply_parts(parts, 3, want) == Ok::<RuleView, RepeatErrView>(want));
            assert(apply_parts(parts, 2, RuleView { interval: r.rule.interval, ..x }) == Ok::<
                RuleView,
                RepeatErrView,
            >(want));
        } else {
            assert(body =~= head + seq!['_'] + iv_part);
            lemma_split_front(head, '_', iv_part);
            lemma_split_whole(iv_part, '_');
            let parts = seq![head, iv_part];
            assert(split_all(body, '_') =~= parts);
            assert(apply_parts(parts, 2, want) == Ok::<RuleView, RepeatErrView>(want));
        }
    } else {
        if r.rule.count is Some {
            assert(body =~= head + seq!['_'] + ct_part);
            lemma_split_front(head, '_', ct_part);
            lemma_split_whole(ct_part, '_');
            let parts = seq![head, ct_part];
            assert(split_all(body, '_') =~= parts);
            assert(apply_parts(parts, 2, want) == Ok::<RuleView, RepeatErrView>(want));
        } else {
            assert(body =~= head);
            lemma_split_whole(head, '_');
            assert(split_all(body, '_') =~= seq![head]);
            assert(want == x);
        }
    }
}


// ---------------------------------------------------------------------------
// Reading written days back

/// Splitting at a separator between two texts splits each of them.
proof fn lemma_split_plain_join(a: Seq<char>, sep: char, b: Seq<char>, i: int, st: int)
    requires
        0 <= st <= i <= a.len(),
    ensures
        split_plain(a + seq![sep] + b, sep, i, st) == split_plain(a, sep, i, st) + split_all(b, sep),
    decreases a.len() - i,
{
    let s = a + seq![sep] + b;
    if i == a.len() {
        assert(s[i] == sep);
        lemma_split_plain_shift(s, sep, (a.len() + 1) as int, 0, 0);
        assert(s.skip((a.len() + 1) as int) =~= b);
        assert(s.subrange(st, i) =~= a.subrange(st, a.len() as int));
        assert(split_plain(a, sep, i, st) == seq![a.subrange(st, a.len() as int)]);
    } else {
        assert(s[i] == a[i]);
        if a[i] == sep {
            lemma_split_plain_join(a, sep, b, i + 1, i + 1);
            assert(s.subrange(st, i) =~= a.subrange(st, i));
            assert(split_plain(s, sep, i, st) =~= seq![a.subrange(st, i)] + (split_plain(a, sep, i + 1, i + 1)
                + split_all(b, sep)));
        } else {
            lemma_split_plain_join(a, sep, b, i + 1, st);
        }
    }
}

/// The parts of two texts joined by a separator are the parts of the one,
/// then the parts of the other.
pub proof fn lemma_split_join(a: Seq<char>, sep: char, b: Seq<char>)
    ensures
        split_all(a + seq![sep] + b, sep) == split_all(a, sep) + split_all(b, sep),
{
    lemma_split_plain_join(a, sep, b, 0, 0);
}

/// A list of days, written with commas, splits into the days' codes.
proof fn lemma_days_split(ds: Seq<Day>)
    requires
        ds.len() > 0,
    ensures
        split_all(days_text(ds), ',') == ds.map_values(|d: Day| day_text(d)),
    decreases ds.len(),
{
    if ds.len() == 1 {
        let t = day_text(ds[0]);
        assert(free_of(t, ','));
        lemma_split_whole(t, ',');
        assert(ds.map_values(|d: Day| day_text(d)) =~= seq![t]);
    } else {
        let dl = ds.drop_last();
        let t = day_text(ds.last());
        lemma_days_split(dl);
        assert(free_of(t, ','));
        lemma_split_whole(t, ',');
        lemma_split_join(days_text(dl), ',', t);
        assert(ds.map_values(|d: Day| day_text(d)) =~= dl.map_values(|d: Day| day_text(d)) + seq![t]);
    }
}

/// A list of days written and read back gives the weekly rule on those
/// same days, in the same order.
pub proof fn lemma_days_read_back(ds: Seq<Day>)
    requires
        ds.len() > 0,
    ensures
        days_rule(days_text(ds)) == Ok::<RuleView, RepeatErrView>(plain_rule(Freq::Weekly, ds)),
{
    lemma_days_split(ds);
    let codes = split_all(days_text(ds), ',');
    assert forall|i: int| 0 <= i < codes.len() implies (#[trigger] day_of_code(codes[i])) is Some by {
        assert(codes[i] == day_text(ds[i]));
        lemma_day_codes_round_trip(ds[i], codes[i]);
    }
    assert(codes.map_values(|c: Seq<char>| day_of_code(c).unwrap()) =~= ds) by {
        assert forall|i: int| 0 <= i < ds.len() implies codes.map_values(
            |c: Seq<char>| day_of_code(c).unwrap(),
        )[i] == ds[i] by {
            assert(codes[i] == day_text(ds[i]));
            lemma_day_codes_round_trip(ds[i], codes[i]);
        }
    }
}


/// A written rule's text before its last instant reads back as the rule
/// written: several days read back as the weekly rule on those days, a
/// frequency as a rule of that frequency (when `rrule` reads its own
/// name back), each with the interval and count it was written with.
pub proof fn lemma_repeat_body_read_back(r: RepeatView)
    ensures
        r.rule.by_weekday.len() > 1 && rrule_frequency(days_text(r.rule.by_weekday)) is None
            ==> body_rule(repeat_body(repeat_text(r))) == Ok::<RuleView, RepeatErrView>(
            RuleView {
                interval: r.rule.interval,
                count: r.rule.count,
                ..plain_rule(Freq::Weekly, r.rule.by_weekday)
            },
        ),
        r.rule.by_weekday.len() <= 1 && rrule_frequency(freq_text(r.rule.freq)) == Some(r.rule.freq)
            ==> body_rule(repeat_body(repeat_text(r))) == Ok::<RuleView, RepeatErrView>(
            RuleView { interval: r.rule.interval, count: r.rule.count, ..plain_rule(r.rule.freq, seq![]) },
        ),
{
    let ds = r.rule.by_weekday;
    if ds.len() > 1 {
        let x = plain_rule(Freq::Weekly, ds);
        lemma_repeat_numbers_read_back(r, x);
        lemma_days_read_back(ds);
    } else {
        let x = plain_rule(r.rule.freq, seq![]);
        lemma_repeat_numbers_read_back(r, x);
    }
}

} // verus!
