//! Groups: the sections of a task file, one per heading, holding the list
//! of tasks under the heading and the sections of the headings below it.
use vstd::prelude::*;
use crate::task::{
    Task, TaskView, task_views, tasks_text, tasks_writable, write_tasks, lemma_task_views,
    tasks_are_writable,
};
use crate::text::{push_char, push_str};
use crate::task::{add_time, add_times, tasks_time, tasks_time_delta, time_ok};
use crate::task::{lemma_add_time_assoc, lemma_tasks_time_small, small_time};
use crate::session::range::Span;
use crate::time::{Zone, ZonedDateTime};

verus! {

/// A group of tasks under a heading, with its sub-groups.
#[derive(Debug, PartialEq, Eq)]
pub struct Group {
    pub text: String,
    pub sub_groups: Vec<Group>,
    pub tasks: Vec<Task>,
}

/// Mathematical model of a [`Group`].
pub struct GroupView {
    pub text: Seq<char>,
    pub sub_groups: Seq<GroupView>,
    pub tasks: Seq<TaskView>,
}

/// The model of a group.
pub open spec fn group_view(g: Group) -> GroupView
    decreases g,
{
    GroupView { text: g.text@, sub_groups: group_views(g.sub_groups@), tasks: task_views(g.tasks@) }
}

/// The models of a list of groups.
pub open spec fn group_views(s: Seq<Group>) -> Seq<GroupView>
    decreases s,
{
    if s.len() == 0 {
        Seq::empty()
    } else {
        group_views(s.drop_last()).push(group_view(s.last()))
    }
}

impl View for Group {
    type V = GroupView;

    open spec fn view(&self) -> GroupView {
        group_view(*self)
    }
}

/// The models of a list of groups are the models of its items, in order.
pub proof fn lemma_group_views(s: Seq<Group>)
    ensures
        group_views(s).len() == s.len(),
        forall|i: int| 0 <= i < s.len() ==> #[trigger] group_views(s)[i] == group_view(s[i]),
    decreases s.len(),
{
    if s.len() > 0 {
        lemma_group_views(s.drop_last());
        assert forall|i: int| 0 <= i < s.len() implies #[trigger] group_views(s)[i] == group_view(
            s[i],
        ) by {
            if i < s.len() - 1 {
                assert(s.drop_last()[i] == s[i]);
            }
        }
    }
}

/// The model of a list pushed with one more group.
pub proof fn lemma_group_views_push(s: Seq<Group>, g: Group)
    ensures
        group_views(s.push(g)) == group_views(s).push(group_view(g)),
{
    assert(s.push(g).drop_last() =~= s);
}

/// The model of a list with one group replaced.
pub proof fn lemma_group_views_update(s: Seq<Group>, i: int, g: Group)
    requires
        0 <= i < s.len(),
    ensures
        group_views(s.update(i, g)) == group_views(s).update(i, group_view(g)),
{
    lemma_group_views(s);
    lemma_group_views(s.update(i, g));
    assert(group_views(s.update(i, g)) =~= group_views(s).update(i, group_view(g)));
}

/// A group with the given heading text and nothing in it.
pub open spec fn empty_group(text: Seq<char>) -> GroupView {
    GroupView { text, sub_groups: Seq::empty(), tasks: Seq::empty() }
}

impl Group {
    /// A group with the given heading text and nothing in it.
    pub fn new(text: String) -> (r: Group)
        ensures
            r@ == empty_group(text@),
    {
        let r = Group { text, sub_groups: Vec::new(), tasks: Vec::new() };
        proof {
            assert(group_views(r.sub_groups@) =~= Seq::<GroupView>::empty());
            assert(task_views(r.tasks@) =~= Seq::<TaskView>::empty());
        }
        r
    }

    /// True when the group holds any sub-group or task.
    pub fn is_empty(&self) -> (r: bool)
        ensures
            r == (self@.sub_groups.len() > 0 || self@.tasks.len() > 0),
    {
        proof {
            lemma_group_views(self.sub_groups@);
            lemma_task_views(self.tasks@);
        }
        self.sub_groups.len() > 0 || self.tasks.len() > 0
    }
}

// ---------------------------------------------------------------------------
// Writing groups back as Markdown

/// A group as a heading of the given `#`s, its tasks, a blank line after
/// them if there are any, then its sub-groups one level deeper.
pub open spec fn group_text(g: GroupView, hashes: Seq<char>) -> Seq<char>
    decreases g,
{
    hashes + seq![' '] + g.text + seq!['\n', '\n'] + tasks_text(g.tasks, Seq::empty()) + (if g.tasks.len()
        > 0 {
        seq!['\n']
    } else {
        Seq::empty()
    }) + groups_text(g.sub_groups, hashes + seq!['#'])
}

/// Groups, one after the other, with headings of the given `#`s.
pub open spec fn groups_text(gs: Seq<GroupView>, hashes: Seq<char>) -> Seq<char>
    decreases gs,
{
    if gs.len() == 0 {
        Seq::empty()
    } else {
        groups_text(gs.drop_last(), hashes) + group_text(gs.last(), hashes)
    }
}

/// Whether every session in a group and its sub-groups can be written.
pub open spec fn group_writable(g: GroupView) -> bool
    decreases g,
{
    tasks_writable(g.tasks) && groups_writable(g.sub_groups)
}

/// Whether [`group_writable`] holds of every group of a list.
pub open spec fn groups_writable(gs: Seq<GroupView>) -> bool
    decreases gs,
{
    gs.len() == 0 || (groups_writable(gs.drop_last()) && group_writable(gs.last()))
}

/// [`groups_writable`] holds exactly when each group is writable.
pub proof fn lemma_groups_writable(gs: Seq<GroupView>)
    ensures
        groups_writable(gs) <==> forall|i: int| 0 <= i < gs.len() ==> #[trigger] group_writable(gs[i]),
    decreases gs.len(),
{
    if gs.len() > 0 {
        lemma_groups_writable(gs.drop_last());
        if groups_writable(gs) {
            assert forall|i: int| 0 <= i < gs.len() implies #[trigger] group_writable(gs[i]) by {
                if i < gs.len() - 1 {
                    assert(group_writable(gs.drop_last()[i]));
                }
            }
        }
        if forall|i: int| 0 <= i < gs.len() ==> #[trigger] group_writable(gs[i]) {
            assert forall|i: int| 0 <= i < gs.drop_last().len() implies #[trigger] group_writable(
                gs.drop_last()[i],
            ) by {
                assert(group_writable(gs[i]));
            }
            assert(group_writable(gs[gs.len() - 1]));
        }
    }
}

/// Writes a group and its sub-groups (see [`group_text`]).
pub fn write_group(out: &mut String, g: &Group, hashes: &str)
    requires
        group_writable(g@),
    ensures
        final(out)@ == old(out)@ + group_text(g@, hashes@),
    decreases g,
{
    let ghost start = out@;
    push_str(out, hashes);
    push_char(out, ' ');
    push_str(out, g.text.as_str());
    push_char(out, '\n');
    push_char(out, '\n');
    write_tasks(out, &g.tasks, "");
    proof {
        reveal_strlit("");
        lemma_task_views(g.tasks@);
    }
    if g.tasks.len() > 0 {
        push_char(out, '\n');
    }
    let mut deeper = hashes.to_owned();
    push_char(&mut deeper, '#');
    write_groups(out, &g.sub_groups, deeper.as_str());
    proof {
        assert(deeper@ =~= hashes@ + seq!['#']);
        assert(""@ =~= Seq::<char>::empty());
        assert(out@ =~= start + group_text(g@, hashes@));
    }
}

/// Writes groups one after the other (see [`groups_text`]).
pub fn write_groups(out: &mut String, gs: &Vec<Group>, hashes: &str)
    requires
        groups_writable(group_views(gs@)),
    ensures
        final(out)@ == old(out)@ + groups_text(group_views(gs@), hashes@),
    decreases gs,
{
    let ghost start = out@;
    proof {
        lemma_group_views(gs@);
        lemma_groups_writable(group_views(gs@));
        assert(group_views(gs@).take(0) =~= Seq::<GroupView>::empty());
    }
    let mut i: usize = 0;
    while i < gs.len()
        invariant
            i <= gs@.len(),
            group_views(gs@).len() == gs@.len(),
            forall|j: int|
                0 <= j < gs@.len() ==> #[trigger] group_views(gs@)[j] == group_view(gs@[j]),
            forall|j: int| 0 <= j < gs@.len() ==> #[trigger] group_writable(group_views(gs@)[j]),
            out@ == start + groups_text(group_views(gs@).take(i as int), hashes@),
        decreases gs.len() - i,
    {
        proof {
            assert(group_writable(group_views(gs@)[i as int]));
        }
        write_group(out, &gs[i], hashes);
        proof {
            let p = group_views(gs@).take(i + 1);
            assert(p.drop_last() =~= group_views(gs@).take(i as int));
            assert(p.last() == group_views(gs@)[i as int]);
        }
        i = i + 1;
    }
    proof {
        assert(group_views(gs@).take(gs@.len() as int) =~= group_views(gs@));
    }
}

impl Group {
    /// The group as Markdown, its heading of rank 1.
    pub fn to_string(&self) -> (r: String)
        requires
            group_writable(self@),
        ensures
            r@ == group_text(self@, seq!['#']),
    {
        let mut out = String::new();
        write_group(&mut out, self, "#");
        proof {
            reveal_strlit("#");
            assert("#"@ =~= seq!['#']);
        }
        out
    }
}

/// Whether every session in the group and its sub-groups can be written.
pub fn group_is_writable(g: &Group) -> (r: bool)
    ensures
        r == group_writable(g@),
    decreases g,
{
    tasks_are_writable(&g.tasks) && groups_are_writable(&g.sub_groups)
}

/// Whether every group of the list is writable (see [`group_is_writable`]).
pub fn groups_are_writable(gs: &Vec<Group>) -> (r: bool)
    ensures
        r == groups_writable(group_views(gs@)),
    decreases gs,
{
    proof {
        lemma_group_views(gs@);
        lemma_groups_writable(group_views(gs@));
    }
    let mut i: usize = 0;
    while i < gs.len()
        invariant
            i <= gs@.len(),
            group_views(gs@).len() == gs@.len(),
            forall|j: int|
                0 <= j < gs@.len() ==> #[trigger] group_views(gs@)[j] == group_view(gs@[j]),
            forall|j: int| 0 <= j < i ==> #[trigger] group_writable(group_views(gs@)[j]),
            groups_writable(group_views(gs@)) <==> forall|j: int|
                0 <= j < gs@.len() ==> #[trigger] group_writable(group_views(gs@)[j]),
        decreases gs.len() - i,
    {
        if !group_is_writable(&gs[i]) {
            proof {
                assert(!group_writable(group_views(gs@)[i as int]));
            }
            return false;
        }
        i = i + 1;
    }
    true
}

// ---------------------------------------------------------------------------
// Dropping groups with nothing in them

/// Whether a group holds any sub-group or task.
pub open spec fn has_content(g: GroupView) -> bool {
    g.sub_groups.len() > 0 || g.tasks.len() > 0
}

/// A group whose sub-groups, pruned in turn, are kept only when they
/// still hold something.
pub open spec fn pruned(g: GroupView) -> GroupView
    decreases g,
{
    GroupView { sub_groups: prune_all(g.sub_groups), ..g }
}

/// The pruned groups of a list that still hold something, in order.
pub open spec fn prune_all(gs: Seq<GroupView>) -> Seq<GroupView>
    decreases gs,
{
    if gs.len() == 0 {
        Seq::empty()
    } else {
        let rest = prune_all(gs.drop_last());
        let p = pruned(gs.last());
        if has_content(p) {
            rest.push(p)
        } else {
            rest
        }
    }
}

/// Prunes each group of a list, then drops those left with nothing
/// (see [`prune_all`]).
pub fn prune_groups(gs: &mut Vec<Group>)
    ensures
        group_views(final(gs)@) == prune_all(group_views(old(gs)@)),
    decreases *old(gs),
{
    let ghost orig = gs@;
    let ghost views = group_views(orig);
    proof {
        lemma_group_views(orig);
    }
    let n = gs.len();
    let mut i: usize = 0;
    while i < n
        invariant
            n == gs@.len(),
            n == orig.len(),
            orig == old(gs)@,
            i <= n,
            views == group_views(orig),
            views.len() == n,
            forall|j: int| 0 <= j < n ==> #[trigger] views[j] == group_view(orig[j]),
            forall|j: int| i <= j < n ==> #[trigger] gs@[j] == orig[j],
            forall|j: int| 0 <= j < i ==> #[trigger] group_view(gs@[j]) == pruned(views[j]),
        decreases n - i,
    {
        proof {
            assert(decreases_to!(*old(gs) => old(gs)@));
            assert(decreases_to!(old(gs)@ => old(gs)@[i as int]));
        }
        gs[i].remove_empty();
        i = i + 1;
    }
    let mut rest: Vec<Group> = Vec::new();
    std::mem::swap(&mut rest, gs);
    let ghost mid = rest@;
    let mut kept: Vec<Group> = Vec::new();
    let mut k: usize = 0;
    proof {
        assert(views.take(0) =~= Seq::<GroupView>::empty());
        assert(group_views(kept@) =~= Seq::<GroupView>::empty());
        assert(mid.skip(0) =~= mid);
    }
    while rest.len() > 0
        invariant
            k <= n,
            mid.len() == n,
            rest@ == mid.skip(k as int),
            views.len() == n,
            forall|j: int| 0 <= j < n ==> #[trigger] group_view(mid[j]) == pruned(views[j]),
            group_views(kept@) == prune_all(views.take(k as int)),
        decreases rest.len(),
    {
        let g = rest.remove(0);
        proof {
            assert(g == mid[k as int]);
            assert(rest@ =~= mid.skip(k + 1));
            assert(views.take(k + 1).drop_last() =~= views.take(k as int));
            assert(views.take(k + 1).last() == views[k as int]);
            lemma_group_views(g.sub_groups@);
            lemma_task_views(g.tasks@);
        }
        if g.is_empty() {
            proof {
                lemma_group_views_push(kept@, g);
            }
            kept.push(g);
        }
        k = k + 1;
    }
    proof {
        assert(views.take(n as int) =~= views);
    }
    *gs = kept;
}

impl Group {
    /// Prunes the sub-groups, dropping those left with nothing (see
    /// [`pruned`]).
    pub fn remove_empty(&mut self)
        ensures
            final(self)@ == pruned(old(self)@),
        decreases *old(self),
    {
        prune_groups(&mut self.sub_groups);
    }
}

// ---------------------------------------------------------------------------
// Time spent

/// Seconds of the span spent on a group: its tasks, then its sub-groups.
pub open spec fn group_time(zone: Seq<char>, g: GroupView, span: Span<ZonedDateTime>) -> Option<i64>
    decreases g,
{
    add_time(tasks_time(zone, g.tasks, span), groups_time(zone, g.sub_groups, span))
}

/// Seconds of the span spent on groups, summed in order.
pub open spec fn groups_time(zone: Seq<char>, gs: Seq<GroupView>, span: Span<ZonedDateTime>) -> Option<
    i64,
>
    decreases gs,
{
    if gs.len() == 0 {
        Some(0)
    } else {
        add_time(groups_time(zone, gs.drop_last(), span), group_time(zone, gs.last(), span))
    }
}

impl Group {
    /// Seconds of the span spent on the group (see [`group_time`]); `None`
    /// when a session's time is unknown or the sum exceeds a time delta.
    pub fn time_delta(&self, span: &Span<ZonedDateTime>, zone: &Zone) -> (r: Option<i64>)
        ensures
            r == group_time(zone@, self@, *span),
            time_ok(r),
            r matches Some(t) ==> 0 <= t,
        decreases self,
    {
        let tasks = tasks_time_delta(&self.tasks, span, zone);
        let subs = groups_time_delta(&self.sub_groups, span, zone);
        add_times(tasks, subs)
    }
}

/// Seconds of the span spent on groups (see [`groups_time`]).
pub fn groups_time_delta(gs: &Vec<Group>, span: &Span<ZonedDateTime>, zone: &Zone) -> (r: Option<i64>)
    ensures
        r == groups_time(zone@, group_views(gs@), *span),
        time_ok(r),
        r matches Some(t) ==> 0 <= t,
    decreases gs,
{
    proof {
        lemma_group_views(gs@);
        assert(group_views(gs@).take(0) =~= Seq::<GroupView>::empty());
    }
    let mut total: Option<i64> = Some(0);
    let mut i: usize = 0;
    while i < gs.len()
        invariant
            i <= gs@.len(),
            group_views(gs@).len() == gs@.len(),
            forall|j: int|
                0 <= j < gs@.len() ==> #[trigger] group_views(gs@)[j] == group_view(gs@[j]),
            total == groups_time(zone@, group_views(gs@).take(i as int), *span),
            time_ok(total),
            total matches Some(t) ==> 0 <= t,
        decreases gs.len() - i,
    {
        let d = gs[i].time_delta(span, zone);
        proof {
            let p = group_views(gs@).take(i + 1);
            assert(p.drop_last() =~= group_views(gs@).take(i as int));
            assert(p.last() == group_views(gs@)[i as int]);
        }
        total = add_times(total, d);
        i = i + 1;
    }
    proof {
        assert(group_views(gs@).take(gs@.len() as int) =~= group_views(gs@));
    }
    total
}

/// Times of groups are from zero up to the largest time delta, or unknown.
proof fn lemma_groups_time_small(zone: Seq<char>, gs: Seq<GroupView>, span: Span<ZonedDateTime>)
    ensures
        small_time(groups_time(zone, gs, span)),
    decreases gs,
{
    if gs.len() > 0 {
        lemma_groups_time_small(zone, gs.drop_last(), span);
        lemma_tasks_time_small(zone, gs.last().tasks, span);
        lemma_groups_time_small(zone, gs.last().sub_groups, span);
        assert(small_time(group_time(zone, gs.last(), span)));
    }
}

/// The time of two lists of groups one after the other is the sum of their
/// times: every group counts, each once.
pub proof fn lemma_groups_time_concat(
    zone: Seq<char>,
    gs: Seq<GroupView>,
    hs: Seq<GroupView>,
    span: Span<ZonedDateTime>,
)
    ensures
        groups_time(zone, gs + hs, span) == add_time(
            groups_time(zone, gs, span),
            groups_time(zone, hs, span),
        ),
    decreases hs.len(),
{
    lemma_groups_time_small(zone, gs, span);
    if hs.len() == 0 {
        assert(gs + hs =~= gs);
    } else {
        lemma_groups_time_concat(zone, gs, hs.drop_last(), span);
        assert((gs + hs).drop_last() =~= gs + hs.drop_last());
        assert((gs + hs).last() == hs.last());
        lemma_groups_time_small(zone, hs.drop_last(), span);
        lemma_tasks_time_small(zone, hs.last().tasks, span);
        lemma_groups_time_small(zone, hs.last().sub_groups, span);
        assert(small_time(group_time(zone, hs.last(), span)));
        lemma_add_time_assoc(
            groups_time(zone, gs, span),
            groups_time(zone, hs.drop_last(), span),
            group_time(zone, hs.last(), span),
        );
    }
}

/// The time of one group alone is that group's time.
pub proof fn lemma_groups_time_single(zone: Seq<char>, g: GroupView, span: Span<ZonedDateTime>)
    ensures
        groups_time(zone, seq![g], span) == group_time(zone, g, span),
{
    lemma_tasks_time_small(zone, g.tasks, span);
    lemma_groups_time_small(zone, g.sub_groups, span);
    assert(small_time(group_time(zone, g, span)));
    assert(seq![g].drop_last() =~= Seq::<GroupView>::empty());
    assert(groups_time(zone, seq![g].drop_last(), span) == Some(0i64));
    assert(seq![g].last() == g);
}

} // verus!
