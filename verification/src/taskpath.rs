//! Task paths: `group/sub group:task/sub task`, with segments that hold
//! `/` or `:` written between double quotes.
use vstd::prelude::*;
use crate::text::{has_char, contains_char, push_char, push_str};
use crate::tree::{Path, PathView, strings_view};

verus! {

/// A task, located by the path of its group and its own path below that group.
#[derive(Debug, Clone, PartialEq, Eq)]
pub struct TaskPath {
    pub group: Path,
    pub task: Path,
}

/// Mathematical model of a [`TaskPath`].
pub struct TaskPathView {
    pub group: PathView,
    pub task: PathView,
}

impl View for TaskPath {
    type V = TaskPathView;

    open spec fn view(&self) -> TaskPathView {
        TaskPathView { group: self.group@, task: self.task@ }
    }
}

/// Why a string is not a task path.
#[derive(Debug, Clone, PartialEq, Eq)]
pub enum TaskPathErr {
    /// There is not exactly one unquoted `:`.
    MissingSeparator,
    /// The group part is not a path; the reason is attached.
    InvalidGroup(String),
    /// The task part is not a path; the reason is attached.
    InvalidTask(String),
}

/// Mathematical model of a [`TaskPathErr`].
pub enum TaskPathErrView {
    MissingSeparator,
    InvalidGroup(Seq<char>),
    InvalidTask(Seq<char>),
}

impl View for TaskPathErr {
    type V = TaskPathErrView;

    open spec fn view(&self) -> TaskPathErrView {
        match self {
            TaskPathErr::MissingSeparator => TaskPathErrView::MissingSeparator,
            TaskPathErr::InvalidGroup(m) => TaskPathErrView::InvalidGroup(m@),
            TaskPathErr::InvalidTask(m) => TaskPathErrView::InvalidTask(m@),
        }
    }
}

// ---------------------------------------------------------------------------
// Splitting on separators that stand outside double quotes

/// Number of double quotes in `s`.
pub open spec fn quote_count(s: Seq<char>) -> nat
    decreases s.len(),
{
    if s.len() == 0 {
        0
    } else {
        quote_count(s.drop_last()) + if s.last() == '"' { 1nat } else { 0nat }
    }
}

/// Scans `s` from index `i`, where the current part began at `start` and
/// `in_quotes` tells whether an odd number of quotes has been seen since the
/// last separator; every `sep` outside quotes ends a part.
pub open spec fn split_scan(s: Seq<char>, sep: char, i: int, start: int, in_quotes: bool) -> Seq<
    Seq<char>,
>
    decreases s.len() - i,
{
    if i >= s.len() {
        seq![s.subrange(start, s.len() as int)]
    } else if s[i] == '"' {
        split_scan(s, sep, i + 1, start, !in_quotes)
    } else if s[i] == sep && !in_quotes {
        seq![s.subrange(start, i)] + split_scan(s, sep, i + 1, i + 1, false)
    } else {
        split_scan(s, sep, i + 1, start, in_quotes)
    }
}

/// The parts of `s` between the separators that stand outside quotes.
pub open spec fn split_outside_quotes(s: Seq<char>, sep: char) -> Seq<Seq<char>> {
    split_scan(s, sep, 0, 0, false)
}

/// Splitting always yields at least one part.
pub proof fn lemma_split_scan_nonempty(s: Seq<char>, sep: char, i: int, start: int, in_quotes: bool)
    ensures
        split_scan(s, sep, i, start, in_quotes).len() >= 1,
    decreases s.len() - i,
{
    if i >= s.len() {
    } else if s[i] == '"' {
        lemma_split_scan_nonempty(s, sep, i + 1, start, !in_quotes);
    } else if s[i] == sep && !in_quotes {
        lemma_split_scan_nonempty(s, sep, i + 1, i + 1, false);
    } else {
        lemma_split_scan_nonempty(s, sep, i + 1, start, in_quotes);
    }
}

/// The views of a list of string slices.
pub open spec fn strs_view(v: Seq<&str>) -> Seq<Seq<char>> {
    v.map_values(|p: &str| p@)
}

/// Splits `s` at every `sep` that stands outside double quotes.
pub fn split_unquoted<'a>(s: &'a str, sep: char) -> (parts: Vec<&'a str>)
    ensures
        strs_view(parts@) == split_outside_quotes(s@, sep),
{
    let n = s.unicode_len();
    let mut parts: Vec<&'a str> = Vec::new();
    let mut start: usize = 0;
    let mut in_quotes = false;
    let mut i: usize = 0;
    while i < n
        invariant
            n == s@.len(),
            start <= i <= n,
            strs_view(parts@) + split_scan(s@, sep, i as int, start as int, in_quotes)
                == split_outside_quotes(s@, sep),
        decreases n - i,
    {
        let c = s.get_char(i);
        if c == '"' {
            in_quotes = !in_quotes;
        } else if c == sep && !in_quotes {
            let ghost before = strs_view(parts@);
            let piece = s.substring_char(start, i);
            parts.push(piece);
            assert(strs_view(parts@) =~= before.push(piece@));
            assert(before + split_scan(s@, sep, i as int, start as int, false) =~= strs_view(parts@)
                + split_scan(s@, sep, i + 1, i + 1, false));
            start = i + 1;
        }
        i = i + 1;
    }
    let ghost before = strs_view(parts@);
    let piece = s.substring_char(start, n);
    parts.push(piece);
    assert(strs_view(parts@) =~= before.push(piece@));
    assert(strs_view(parts@) =~= before + split_scan(s@, sep, n as int, start as int, in_quotes));
    parts
}

/// `s` without one pair of surrounding double quotes, if it has them.
pub open spec fn unquoted(s: Seq<char>) -> Seq<char> {
    if s.len() >= 2 && s[0] == '"' && s[s.len() - 1] == '"' {
        s.subrange(1, s.len() - 1)
    } else {
        s
    }
}

/// Removes one pair of surrounding double quotes.
pub fn unquote(s: &str) -> (r: String)
    ensures
        r@ == unquoted(s@),
{
    let n = s.unicode_len();
    if n >= 2 && s.get_char(0) == '"' && s.get_char(n - 1) == '"' {
        s.substring_char(1, n - 1).to_owned()
    } else {
        s.to_owned()
    }
}

/// The path that a string denotes, or the reason why it denotes none.
pub open spec fn parse_path_spec(s: Seq<char>) -> Result<PathView, Seq<char>> {
    if s.len() == 0 {
        Err("empty path"@)
    } else {
        let segments = split_outside_quotes(s, '/');
        Ok(
            PathView {
                parent_ids: segments.drop_last().map_values(|x: Seq<char>| unquoted(x)),
                child_id: unquoted(segments.last()),
            },
        )
    }
}

/// Parses `parent/…/child`, unquoting each segment.
pub fn parse_path(s: &str) -> (r: Result<Path, String>)
    ensures
        match r {
            Ok(p) => parse_path_spec(s@) == Ok::<PathView, Seq<char>>(p@),
            Err(e) => parse_path_spec(s@) == Err::<PathView, Seq<char>>(e@),
        },
{
    if s.is_empty() {
        return Err("empty path".to_owned());
    }
    let segments = split_unquoted(s, '/');
    proof {
        lemma_split_scan_nonempty(s@, '/', 0, 0, false);
    }
    let ghost segs = split_outside_quotes(s@, '/');
    let last = segments.len() - 1;
    let mut parent_ids: Vec<String> = Vec::new();
    let mut j: usize = 0;
    while j < last
        invariant
            last + 1 == segments@.len(),
            strs_view(segments@) == segs,
            j <= last,
            strings_view(parent_ids@) =~= segs.take(j as int).map_values(
                |x: Seq<char>| unquoted(x),
            ),
        decreases last - j,
    {
        let u = unquote(segments[j]);
        let ghost before = strings_view(parent_ids@);
        parent_ids.push(u);
        assert(strings_view(parent_ids@) =~= before.push(u@));
        assert(segs.take(j + 1).map_values(|x: Seq<char>| unquoted(x)) =~= segs.take(
            j as int,
        ).map_values(|x: Seq<char>| unquoted(x)).push(unquoted(segs[j as int])));
        j = j + 1;
    }
    let child_id = unquote(segments[last]);
    let p = Path { parent_ids, child_id };
    assert(segs.drop_last() =~= segs.take(last as int));
    assert(p@.parent_ids =~= segs.drop_last().map_values(|x: Seq<char>| unquoted(x)));
    Ok(p)
}

/// The task path that a string denotes, or why it denotes none.
pub open spec fn parse_task_path_spec(s: Seq<char>) -> Result<TaskPathView, TaskPathErrView> {
    let parts = split_outside_quotes(s, ':');
    if parts.len() != 2 {
        Err(TaskPathErrView::MissingSeparator)
    } else {
        match parse_path_spec(parts[0]) {
            Err(m) => Err(TaskPathErrView::InvalidGroup(m)),
            Ok(group) => match parse_path_spec(parts[1]) {
                Err(m) => Err(TaskPathErrView::InvalidTask(m)),
                Ok(task) => Ok(TaskPathView { group, task }),
            },
        }
    }
}

// ---------------------------------------------------------------------------
// Writing task paths

/// A segment as written: quoted when it holds `/` or `:`.
pub open spec fn segment_text(x: Seq<char>) -> Seq<char> {
    if has_char(x, '/') || has_char(x, ':') {
        seq!['"'] + x + seq!['"']
    } else {
        x
    }
}

/// The parts joined by `sep`, first part first.
pub open spec fn join_front(parts: Seq<Seq<char>>, sep: char) -> Seq<char>
    decreases parts.len(),
{
    if parts.len() <= 1 {
        if parts.len() == 0 {
            seq![]
        } else {
            parts[0]
        }
    } else {
        parts[0] + seq![sep] + join_front(parts.drop_first(), sep)
    }
}

/// The written segments of a path, ancestors first.
pub open spec fn path_segments(p: PathView) -> Seq<Seq<char>> {
    p.parent_ids.push(p.child_id).map_values(|x: Seq<char>| segment_text(x))
}

/// A path as written: its segments joined by `/`.
pub open spec fn path_text(p: PathView) -> Seq<char> {
    join_front(path_segments(p), '/')
}

/// A task path as written: group path, `:`, task path.
pub open spec fn task_path_text(t: TaskPathView) -> Seq<char> {
    path_text(t.group) + seq![':'] + path_text(t.task)
}

/// Writes one segment, quoting it when it holds `/` or `:`.
pub fn write_segment(out: &mut String, s: &str)
    ensures
        final(out)@ == old(out)@ + segment_text(s@),
{
    if contains_char(s, '/') || contains_char(s, ':') {
        let ghost before = out@;
        push_char(out, '"');
        push_str(out, s);
        push_char(out, '"');
        assert(out@ =~= before + segment_text(s@));
    } else {
        push_str(out, s);
    }
}

/// Writes a path: each ancestor followed by `/`, then the child.
pub fn write_path(out: &mut String, path: &Path)
    ensures
        final(out)@ == old(out)@ + path_text(path@),
{
    let ghost segs = path_segments(path@);
    let ghost start = out@;
    let n = path.parent_ids.len();
    assert(segs.skip(0) =~= segs);
    let mut j: usize = 0;
    while j < n
        invariant
            n == path.parent_ids@.len(),
            segs == path_segments(path@),
            segs.len() == n + 1,
            j <= n,
            out@ + join_front(segs.skip(j as int), '/') == start + join_front(segs, '/'),
        decreases n - j,
    {
        let ghost before = out@;
        write_segment(out, &path.parent_ids[j]);
        push_char(out, '/');
        proof {
            let rest = segs.skip(j as int);
            assert(rest[0] == segment_text(path.parent_ids@[j as int]@));
            assert(rest.drop_first() =~= segs.skip(j + 1));
            assert(out@ + join_front(segs.skip(j + 1), '/') =~= before + join_front(rest, '/'));
        }
        j = j + 1;
    }
    write_segment(out, &path.child_id);
    proof {
        assert(segs.skip(n as int) =~= seq![segment_text(path.child_id@)]);
    }
}

impl TaskPath {
    /// The task path as written, `group:task`.
    pub fn to_string(&self) -> (r: String)
        ensures
            r@ == task_path_text(self@),
    {
        let mut out = String::new();
        write_path(&mut out, &self.group);
        push_char(&mut out, ':');
        write_path(&mut out, &self.task);
        assert(out@ =~= task_path_text(self@));
        out
    }

    /// Parses `group:task`, where `:` is the one separator outside quotes.
    pub fn from_str(s: &str) -> (r: Result<TaskPath, TaskPathErr>)
        ensures
            match r {
                Ok(t) => parse_task_path_spec(s@) == Ok::<TaskPathView, TaskPathErrView>(t@),
                Err(e) => parse_task_path_spec(s@) == Err::<TaskPathView, TaskPathErrView>(e@),
            },
    {
        let parts = split_unquoted(s, ':');
        if parts.len() != 2 {
            return Err(TaskPathErr::MissingSeparator);
        }
        let group = match parse_path(parts[0]) {
            Ok(p) => p,
            Err(m) => return Err(TaskPathErr::InvalidGroup(m)),
        };
        let task = match parse_path(parts[1]) {
            Ok(p) => p,
            Err(m) => return Err(TaskPathErr::InvalidTask(m)),
        };
        Ok(TaskPath { group, task })
    }
}

// ---------------------------------------------------------------------------
// Writing then parsing gives back the task path

/// Every quote-free character count of `a + b` adds up.
proof fn lemma_quote_count_concat(a: Seq<char>, b: Seq<char>)
    ensures
        quote_count(a + b) == quote_count(a) + quote_count(b),
    decreases b.len(),
{
    if b.len() == 0 {
        assert(a + b =~= a);
    } else {
        lemma_quote_count_concat(a, b.drop_last());
        assert((a + b).drop_last() =~= a + b.drop_last());
    }
}

/// A sequence without double quotes counts none.
proof fn lemma_quote_count_none(a: Seq<char>)
    requires
        !has_char(a, '"'),
    ensures
        quote_count(a) == 0,
    decreases a.len(),
{
    if a.len() > 0 {
        assert(!has_char(a.drop_last(), '"')) by {
            if has_char(a.drop_last(), '"') {
                let i = choose|i: int| #![auto] 0 <= i < a.drop_last().len() && a.drop_last()[i] == '"';
                assert(a[i] == '"');
            }
        }
        lemma_quote_count_none(a.drop_last());
    }
}

/// One more character adds one to the count exactly when it is a quote.
proof fn lemma_quote_count_step(a: Seq<char>, j: int)
    requires
        0 <= j < a.len(),
    ensures
        quote_count(a.take(j + 1)) == quote_count(a.take(j)) + if a[j] == '"' { 1nat } else { 0nat },
{
    assert(a.take(j + 1).drop_last() =~= a.take(j));
}

/// Every `sep` in `s` stands inside quotes, and the quotes are balanced.
pub open spec fn sep_closed(s: Seq<char>, sep: char) -> bool {
    &&& quote_count(s) % 2 == 0
    &&& forall|i: int| 0 <= i < s.len() && s[i] == sep ==> quote_count(#[trigger] s.take(i)) % 2 == 1
}

/// Scanning a closed part that ends at a separator (or at the end) yields that
/// part, then continues after the separator.
proof fn lemma_scan_part(s: Seq<char>, sep: char, k: int, n: int, j: int)
    requires
        sep != '"',
        0 <= k <= j <= k + n <= s.len(),
        sep_closed(s.subrange(k, k + n), sep),
        k + n == s.len() || s[k + n] == sep,
    ensures
        split_scan(s, sep, j, k, quote_count(s.subrange(k, k + n).take(j - k)) % 2 == 1) == if k + n
            == s.len() {
            seq![s.subrange(k, k + n)]
        } else {
            seq![s.subrange(k, k + n)] + split_scan(s, sep, k + n + 1, k + n + 1, false)
        },
    decreases k + n - j,
{
    let a = s.subrange(k, k + n);
    if j == k + n {
        assert(a.take(j - k) =~= a);
    } else {
        lemma_scan_part(s, sep, k, n, j + 1);
        lemma_quote_count_step(a, j - k);
        assert(a[j - k] == s[j]);
        if s[j] == sep {
            assert(quote_count(a.take(j - k)) % 2 == 1);
        }
    }
}

/// Splitting parts that were joined by `sep` gives them back, when no part
/// holds an unquoted `sep`.
proof fn lemma_split_join(s: Seq<char>, sep: char, k: int, parts: Seq<Seq<char>>)
    requires
        sep != '"',
        parts.len() >= 1,
        0 <= k <= s.len(),
        s.subrange(k, s.len() as int) == join_front(parts, sep),
        forall|i: int| 0 <= i < parts.len() ==> sep_closed(#[trigger] parts[i], sep),
    ensures
        split_scan(s, sep, k, k, false) == parts,
    decreases parts.len(),
{
    let p0 = parts[0];
    let n = p0.len() as int;
    if parts.len() == 1 {
        assert(s.subrange(k, k + n) =~= p0);
        assert(p0.take(0) =~= Seq::<char>::empty());
        lemma_scan_part(s, sep, k, n, k);
        assert(split_scan(s, sep, k, k, false) =~= parts);
    } else {
        let rest = parts.drop_first();
        assert(s.subrange(k, s.len() as int) == p0 + seq![sep] + join_front(rest, sep));
        assert(s.subrange(k, k + n) =~= p0);
        assert(s[k + n] == (p0 + seq![sep] + join_front(rest, sep))[n]);
        assert(p0.take(0) =~= Seq::<char>::empty());
        lemma_scan_part(s, sep, k, n, k);
        let whole = s.subrange(k, s.len() as int);
        assert(whole.subrange(n + 1, whole.len() as int) =~= join_front(rest, sep));
        assert(s.subrange(k + n + 1, s.len() as int) =~= whole.subrange(n + 1, whole.len() as int));
        assert forall|i: int| 0 <= i < rest.len() implies sep_closed(#[trigger] rest[i], sep) by {
            assert(rest[i] == parts[i + 1]);
        }
        lemma_split_join(s, sep, k + n + 1, rest);
        assert(split_scan(s, sep, k, k, false) =~= parts);
    }
}

/// A quote-free segment, as written, is closed for `/` and for `:`.
proof fn lemma_segment_closed(x: Seq<char>, sep: char)
    requires
        !has_char(x, '"'),
        sep == '/' || sep == ':',
    ensures
        sep_closed(segment_text(x), sep),
{
    lemma_quote_count_none(x);
    if has_char(x, '/') || has_char(x, ':') {
        let t = seq!['"'] + x + seq!['"'];
        lemma_quote_count_concat(seq!['"'] + x, seq!['"']);
        lemma_quote_count_concat(seq!['"'], x);
        assert(quote_count(seq!['"']) == 1) by {
            assert(seq!['"'].drop_last() =~= Seq::<char>::empty());
            assert(quote_count(Seq::<char>::empty()) == 0);
        }
        assert forall|i: int| 0 <= i < t.len() && t[i] == sep implies quote_count(
            #[trigger] t.take(i),
        ) % 2 == 1 by {
            assert(1 <= i <= x.len());
            assert(t.take(i) =~= seq!['"'] + x.take(i - 1));
            lemma_quote_count_concat(seq!['"'], x.take(i - 1));
            let y = x.take(i - 1);
            assert(!has_char(y, '"')) by {
                if has_char(y, '"') {
                    let j = choose|j: int| 0 <= j < y.len() && #[trigger] y[j] == '"';
                    assert(x[j] == '"');
                }
            }
            lemma_quote_count_none(x.take(i - 1));
        }
    } else {
        assert forall|i: int| 0 <= i < x.len() && x[i] == sep implies quote_count(
            #[trigger] x.take(i),
        ) % 2 == 1 by {
            assert(has_char(x, sep));
        }
    }
}

/// Joining parts closed for `c` by another separator keeps the result closed for `c`.
proof fn lemma_join_closed(parts: Seq<Seq<char>>, sep: char, c: char)
    requires
        sep != c,
        sep != '"',
        forall|i: int| 0 <= i < parts.len() ==> sep_closed(#[trigger] parts[i], c),
    ensures
        sep_closed(join_front(parts, sep), c),
    decreases parts.len(),
{
    if parts.len() == 0 {
        assert(quote_count(Seq::<char>::empty()) == 0);
    } else if parts.len() == 1 {
        assert(sep_closed(parts[0], c));
    } else {
        let p0 = parts[0];
        let rest = parts.drop_first();
        assert forall|i: int| 0 <= i < rest.len() implies sep_closed(#[trigger] rest[i], c) by {
            assert(rest[i] == parts[i + 1]);
        }
        lemma_join_closed(rest, sep, c);
        let j = join_front(rest, sep);
        let t = p0 + seq![sep] + j;
        assert(sep_closed(p0, c));
        lemma_quote_count_concat(p0 + seq![sep], j);
        lemma_quote_count_concat(p0, seq![sep]);
        assert(quote_count(seq![sep]) == 0) by {
            assert(seq![sep].drop_last() =~= Seq::<char>::empty());
            assert(quote_count(Seq::<char>::empty()) == 0);
        }
        assert forall|i: int| 0 <= i < t.len() && t[i] == c implies quote_count(
            #[trigger] t.take(i),
        ) % 2 == 1 by {
            if i < p0.len() {
                assert(t.take(i) =~= p0.take(i));
                assert(p0[i] == c);
            } else {
                assert(i > p0.len());
                let m = i - p0.len() - 1;
                assert(t.take(i) =~= (p0 + seq![sep]) + j.take(m));
                lemma_quote_count_concat(p0 + seq![sep], j.take(m));
                assert(j[m] == c);
            }
        }
    }
}

/// A path whose segments hold no double quote and that is not one empty segment.
pub open spec fn writable_path(p: PathView) -> bool {
    &&& forall|i: int| 0 <= i < p.parent_ids.len() ==> !has_char(#[trigger] p.parent_ids[i], '"')
    &&& !has_char(p.child_id, '"')
    &&& !(p.parent_ids.len() == 0 && p.child_id.len() == 0)
}

/// A written segment of a quote-free id unquotes to the id.
proof fn lemma_unquote_segment(x: Seq<char>)
    requires
        !has_char(x, '"'),
    ensures
        unquoted(segment_text(x)) == x,
{
    if has_char(x, '/') || has_char(x, ':') {
        let t = seq!['"'] + x + seq!['"'];
        assert(t.subrange(1, t.len() - 1) =~= x);
    } else if x.len() >= 2 {
        assert(x[0] != '"');
    }
}

/// Parsing a written path gives back the path.
proof fn lemma_path_round_trip(p: PathView)
    requires
        writable_path(p),
    ensures
        parse_path_spec(path_text(p)) == Ok::<PathView, Seq<char>>(p),
        sep_closed(path_text(p), ':'),
{
    let segs = path_segments(p);
    let all = p.parent_ids.push(p.child_id);
    assert forall|i: int| 0 <= i < all.len() implies !has_char(#[trigger] all[i], '"') by {
        if i < p.parent_ids.len() {
            assert(all[i] == p.parent_ids[i]);
        }
    }
    assert forall|i: int| 0 <= i < segs.len() implies sep_closed(#[trigger] segs[i], '/') by {
        lemma_segment_closed(all[i], '/');
    }
    assert forall|i: int| 0 <= i < segs.len() implies sep_closed(#[trigger] segs[i], ':') by {
        lemma_segment_closed(all[i], ':');
    }
    let t = path_text(p);
    lemma_join_closed(segs, '/', ':');
    assert(t.subrange(0, t.len() as int) =~= t);
    lemma_split_join(t, '/', 0, segs);
    // the written path is not empty
    if p.parent_ids.len() == 0 {
        assert(segs =~= seq![segment_text(p.child_id)]);
        assert(p.child_id.len() > 0);
    } else {
        assert(t == segs[0] + seq!['/'] + join_front(segs.drop_first(), '/'));
    }
    assert(t.len() > 0);
    assert forall|i: int| 0 <= i < all.len() implies unquoted(#[trigger] segs[i]) == all[i] by {
        lemma_unquote_segment(all[i]);
    }
    let parsed = segs.drop_last().map_values(|x: Seq<char>| unquoted(x));
    assert(parsed =~= p.parent_ids) by {
        assert forall|i: int| 0 <= i < parsed.len() implies parsed[i] == p.parent_ids[i] by {
            assert(unquoted(segs[i]) == all[i]);
        }
    }
    assert(unquoted(segs.last()) == p.child_id) by {
        assert(unquoted(segs[segs.len() - 1]) == all[all.len() - 1]);
    }
}

/// Writing a task path whose segments hold no double quote, and whose group and
/// task paths are not a single empty segment, then parsing the text, gives back
/// the same task path.
pub proof fn lemma_task_path_round_trip(t: TaskPathView)
    requires
        writable_path(t.group),
        writable_path(t.task),
    ensures
        parse_task_path_spec(task_path_text(t)) == Ok::<TaskPathView, TaskPathErrView>(t),
{
    lemma_path_round_trip(t.group);
    lemma_path_round_trip(t.task);
    let s = task_path_text(t);
    let parts = seq![path_text(t.group), path_text(t.task)];
    assert(parts.drop_first() =~= seq![path_text(t.task)]);
    assert(join_front(seq![path_text(t.task)], ':') == path_text(t.task));
    assert(join_front(parts, ':') =~= s);
    assert(s.subrange(0, s.len() as int) =~= s);
    assert forall|i: int| 0 <= i < parts.len() implies sep_closed(#[trigger] parts[i], ':') by {}
    lemma_split_join(s, ':', 0, parts);
}

impl core::str::FromStr for TaskPath {
    type Err = TaskPathErr;

    fn from_str(s: &str) -> (r: Result<TaskPath, TaskPathErr>)
        ensures
            match r {
                Ok(t) => parse_task_path_spec(s@) == Ok::<TaskPathView, TaskPathErrView>(t@),
                Err(e) => parse_task_path_spec(s@) == Err::<TaskPathView, TaskPathErrView>(e@),
            },
    {
        TaskPath::from_str(s)
    }
}


/// The message of a task path error.
pub open spec fn task_path_err_text(e: TaskPathErrView) -> Seq<char> {
    match e {
        TaskPathErrView::MissingSeparator => "Missing separator ':' in task path"@,
        TaskPathErrView::InvalidGroup(m) => "Invalid group path: "@ + m,
        TaskPathErrView::InvalidTask(m) => "Invalid task path: "@ + m,
    }
}

impl TaskPathErr {
    /// The message of the error (see [`task_path_err_text`]).
    pub fn message(&self) -> (r: String)
        ensures
            r@ == task_path_err_text(self@),
    {
        match self {
            TaskPathErr::MissingSeparator => "Missing separator ':' in task path".to_owned(),
            TaskPathErr::InvalidGroup(m) => {
                let mut out = "Invalid group path: ".to_owned();
                push_str(&mut out, m.as_str());
                out
            },
            TaskPathErr::InvalidTask(m) => {
                let mut out = "Invalid task path: ".to_owned();
                push_str(&mut out, m.as_str());
                out
            },
        }
    }
}

} // verus!
