//! The tree of minutes spent in a span, by group and task, that the chart
//! draws: only nodes with at least one minute are kept.
use vstd::prelude::*;
use crate::group::{Group, GroupView, group_view, group_views, lemma_group_views, group_time, groups_time};
use crate::session::range::Span;
use crate::task::{Task, TaskView, task_view, task_views, lemma_task_views, task_time};
use crate::tasktree::TaskTree;
use crate::time::{Zone, ZonedDateTime, MAX_YEAR};
use crate::session::range::{Range, month_range, week_range};
use crate::text::{push_char, push_str, push_decimal, push_signed, decimal, signed_decimal};

verus! {

/// A node of the chart: a name, the minutes spent, and the nodes below.
#[derive(Debug, PartialEq, Eq)]
pub struct Node {
    pub name: String,
    pub value: i64,
    pub children: Vec<Node>,
}

/// Mathematical model of a [`Node`].
pub struct NodeView {
    pub name: Seq<char>,
    pub value: i64,
    pub children: Seq<NodeView>,
}

/// The model of a node.
pub open spec fn node_view(n: Node) -> NodeView
    decreases n,
{
    NodeView { name: n.name@, value: n.value, children: node_views(n.children@) }
}

/// The models of a list of nodes.
pub open spec fn node_views(s: Seq<Node>) -> Seq<NodeView>
    decreases s,
{
    if s.len() == 0 {
        Seq::empty()
    } else {
        node_views(s.drop_last()).push(node_view(s.last()))
    }
}

impl View for Node {
    type V = NodeView;

    open spec fn view(&self) -> NodeView {
        node_view(*self)
    }
}

/// The model of a list pushed with one more node.
proof fn lemma_node_views_push(s: Seq<Node>, n: Node)
    ensures
        node_views(s.push(n)) == node_views(s).push(node_view(n)),
{
    assert(s.push(n).drop_last() =~= s);
}

/// Whole minutes in a number of seconds.
pub open spec fn minutes(secs: i64) -> i64 {
    (secs / 60) as i64
}

/// `nodes` followed by `n` when `n` has at least one minute.
pub open spec fn keep_node(nodes: Seq<NodeView>, n: NodeView) -> Seq<NodeView> {
    if n.value > 0 {
        nodes.push(n)
    } else {
        nodes
    }
}

/// The node of a task: its text, its minutes, and the nodes of its
/// sub-tasks; `None` when a time is unknown.
pub open spec fn task_node(zone: Seq<char>, t: TaskView, span: Span<ZonedDateTime>) -> Option<NodeView>
    decreases t,
{
    match task_time(zone, t, span) {
        None => None,
        Some(v) => match task_nodes(zone, t.sub_tasks, span) {
            None => None,
            Some(cs) => Some(NodeView { name: t.text, value: minutes(v), children: cs }),
        },
    }
}

/// The nodes of tasks with at least one minute, in order.
pub open spec fn task_nodes(zone: Seq<char>, ts: Seq<TaskView>, span: Span<ZonedDateTime>) -> Option<
    Seq<NodeView>,
>
    decreases ts,
{
    if ts.len() == 0 {
        Some(Seq::empty())
    } else {
        match task_nodes(zone, ts.drop_last(), span) {
            None => None,
            Some(a) => match task_node(zone, ts.last(), span) {
                None => None,
                Some(n) => Some(keep_node(a, n)),
            },
        }
    }
}

/// The node of a group: its text, its minutes, the nodes of its
/// sub-groups, then those of its tasks.
pub open spec fn group_node(zone: Seq<char>, g: GroupView, span: Span<ZonedDateTime>) -> Option<
    NodeView,
>
    decreases g,
{
    match group_time(zone, g, span) {
        None => None,
        Some(v) => match group_nodes(zone, g.sub_groups, span) {
            None => None,
            Some(gn) => match task_nodes(zone, g.tasks, span) {
                None => None,
                Some(tn) => Some(NodeView { name: g.text, value: minutes(v), children: gn + tn }),
            },
        },
    }
}

/// The nodes of groups with at least one minute, in order.
pub open spec fn group_nodes(zone: Seq<char>, gs: Seq<GroupView>, span: Span<ZonedDateTime>) -> Option<
    Seq<NodeView>,
>
    decreases gs,
{
    if gs.len() == 0 {
        Some(Seq::empty())
    } else {
        match group_nodes(zone, gs.drop_last(), span) {
            None => None,
            Some(a) => match group_node(zone, gs.last(), span) {
                None => None,
                Some(n) => Some(keep_node(a, n)),
            },
        }
    }
}

/// The chart of a tree: the given name, the tree's minutes, and the nodes
/// of its groups.
pub open spec fn root_spec(
    zone: Seq<char>,
    tree: Seq<GroupView>,
    span: Span<ZonedDateTime>,
    name: Seq<char>,
) -> Option<NodeView> {
    match groups_time(zone, tree, span) {
        None => None,
        Some(v) => match group_nodes(zone, tree, span) {
            None => None,
            Some(cs) => Some(NodeView { name, value: minutes(v), children: cs }),
        },
    }
}

/// Adds `n` to `nodes` when it has at least one minute.
fn keep(nodes: &mut Vec<Node>, n: Node)
    ensures
        node_views(final(nodes)@) == keep_node(node_views(old(nodes)@), n@),
{
    if n.value > 0 {
        proof {
            lemma_node_views_push(nodes@, n);
        }
        nodes.push(n);
    }
}

/// The node of a task (see [`task_node`]).
fn node_from_task(t: &Task, span: Span<ZonedDateTime>, zone: &Zone) -> (r: Option<Node>)
    ensures
        match r {
            Some(n) => task_node(zone@, t@, span) == Some(n@),
            None => task_node(zone@, t@, span) is None,
        },
    decreases t,
{
    let v = t.time_delta(&span, zone)?;
    let children = nodes_from_tasks(&t.sub_tasks, span, zone)?;
    Some(Node { name: t.text.clone(), value: v / 60, children })
}

/// The nodes of tasks with at least one minute (see [`task_nodes`]).
fn nodes_from_tasks(ts: &Vec<Task>, span: Span<ZonedDateTime>, zone: &Zone) -> (r: Option<Vec<Node>>)
    ensures
        match r {
            Some(ns) => task_nodes(zone@, task_views(ts@), span) == Some(node_views(ns@)),
            None => task_nodes(zone@, task_views(ts@), span) is None,
        },
    decreases ts,
{
    proof {
        lemma_task_views(ts@);
        assert(task_views(ts@).take(0) =~= Seq::<TaskView>::empty());
    }
    let mut out: Vec<Node> = Vec::new();
    proof {
        assert(node_views(out@) =~= Seq::<NodeView>::empty());
    }
    let mut i: usize = 0;
    while i < ts.len()
        invariant
            i <= ts@.len(),
            task_views(ts@).len() == ts@.len(),
            forall|j: int| 0 <= j < ts@.len() ==> #[trigger] task_views(ts@)[j] == task_view(ts@[j]),
            task_nodes(zone@, task_views(ts@).take(i as int), span) == Some(node_views(out@)),
        decreases ts.len() - i,
    {
        proof {
            let p = task_views(ts@).take(i + 1);
            assert(p.drop_last() =~= task_views(ts@).take(i as int));
            assert(p.last() == task_views(ts@)[i as int]);
        }
        match node_from_task(&ts[i], span, zone) {
            None => {
                proof {
                    lemma_task_nodes_none(zone@, task_views(ts@), span, i + 1);
                }
                return None;
            },
            Some(n) => keep(&mut out, n),
        }
        i = i + 1;
    }
    proof {
        assert(task_views(ts@).take(ts@.len() as int) =~= task_views(ts@));
    }
    Some(out)
}

/// Once the nodes of a prefix are unknown, so are those of the whole list.
proof fn lemma_task_nodes_none(zone: Seq<char>, ts: Seq<TaskView>, span: Span<ZonedDateTime>, k: int)
    requires
        0 <= k <= ts.len(),
        task_nodes(zone, ts.take(k), span) is None,
    ensures
        task_nodes(zone, ts, span) is None,
    decreases ts.len() - k,
{
    if k < ts.len() {
        assert(ts.take(k + 1).drop_last() =~= ts.take(k));
        lemma_task_nodes_none(zone, ts, span, k + 1);
    } else {
        assert(ts.take(k) =~= ts);
    }
}

/// Once the nodes of a prefix are unknown, so are those of the whole list.
proof fn lemma_group_nodes_none(
    zone: Seq<char>,
    gs: Seq<GroupView>,
    span: Span<ZonedDateTime>,
    k: int,
)
    requires
        0 <= k <= gs.len(),
        group_nodes(zone, gs.take(k), span) is None,
    ensures
        group_nodes(zone, gs, span) is None,
    decreases gs.len() - k,
{
    if k < gs.len() {
        assert(gs.take(k + 1).drop_last() =~= gs.take(k));
        lemma_group_nodes_none(zone, gs, span, k + 1);
    } else {
        assert(gs.take(k) =~= gs);
    }
}

/// The node of a group (see [`group_node`]).
fn node_from_group(g: &Group, span: Span<ZonedDateTime>, zone: &Zone) -> (r: Option<Node>)
    ensures
        match r {
            Some(n) => group_node(zone@, g@, span) == Some(n@),
            None => group_node(zone@, g@, span) is None,
        },
    decreases g,
{
    let v = g.time_delta(&span, zone)?;
    let mut children = nodes_from_groups(&g.sub_groups, span, zone)?;
    let mut task_children = nodes_from_tasks(&g.tasks, span, zone)?;
    let ghost c0 = children@;
    let ghost t0 = task_children@;
    children.append(&mut task_children);
    proof {
        assert(children@ == c0 + t0);
        lemma_node_views_append(children@, c0.len() as int);
        assert(children@.take(c0.len() as int) =~= c0);
        assert(children@.skip(c0.len() as int) =~= t0);
    }
    Some(Node { name: g.text.clone(), value: v / 60, children })
}

/// The models of a list are those of its two parts, joined.
proof fn lemma_node_views_append(s: Seq<Node>, k: int)
    requires
        0 <= k <= s.len(),
    ensures
        node_views(s) == node_views(s.take(k)) + node_views(s.skip(k)),
    decreases s.len(),
{
    if s.len() > k {
        lemma_node_views_append(s.drop_last(), k);
        assert(s.drop_last().take(k) =~= s.take(k));
        assert(s.drop_last().skip(k) =~= s.skip(k).drop_last());
        assert(s.skip(k).last() == s.last());
        assert(node_views(s.skip(k)) == node_views(s.skip(k).drop_last()).push(
            node_view(s.skip(k).last()),
        ));
        assert(node_views(s) =~= node_views(s.take(k)) + node_views(s.skip(k)));
    } else {
        assert(s.take(k) =~= s);
        assert(s.skip(k) =~= Seq::<Node>::empty());
        assert(node_views(s) =~= node_views(s.take(k)) + node_views(s.skip(k)));
    }
}

/// The nodes of groups with at least one minute (see [`group_nodes`]).
fn nodes_from_groups(gs: &Vec<Group>, span: Span<ZonedDateTime>, zone: &Zone) -> (r: Option<
    Vec<Node>,
>)
    ensures
        match r {
            Some(ns) => group_nodes(zone@, group_views(gs@), span) == Some(node_views(ns@)),
            None => group_nodes(zone@, group_views(gs@), span) is None,
        },
    decreases gs,
{
    proof {
        lemma_group_views(gs@);
        assert(group_views(gs@).take(0) =~= Seq::<GroupView>::empty());
    }
    let mut out: Vec<Node> = Vec::new();
    proof {
        assert(node_views(out@) =~= Seq::<NodeView>::empty());
    }
    let mut i: usize = 0;
    while i < gs.len()
        invariant
            i <= gs@.len(),
            group_views(gs@).len() == gs@.len(),
            forall|j: int|
                0 <= j < gs@.len() ==> #[trigger] group_views(gs@)[j] == group_view(gs@[j]),
            group_nodes(zone@, group_views(gs@).take(i as int), span) == Some(node_views(out@)),
        decreases gs.len() - i,
    {
        proof {
            let p = group_views(gs@).take(i + 1);
            assert(p.drop_last() =~= group_views(gs@).take(i as int));
            assert(p.last() == group_views(gs@)[i as int]);
        }
        match node_from_group(&gs[i], span, zone) {
            None => {
                proof {
                    lemma_group_nodes_none(zone@, group_views(gs@), span, i + 1);
                }
                return None;
            },
            Some(n) => keep(&mut out, n),
        }
        i = i + 1;
    }
    proof {
        assert(group_views(gs@).take(gs@.len() as int) =~= group_views(gs@));
    }
    Some(out)
}

/// The chart of a tree in a span (see [`root_spec`]); `None` when a
/// session's time is unknown or a sum exceeds a time delta.
pub fn root_node(task_tree: TaskTree, span: Span<ZonedDateTime>, name: String, zone: &Zone) -> (r:
    Option<Node>)
    ensures
        match r {
            Some(n) => root_spec(zone@, task_tree@, span, name@) == Some(n@),
            None => root_spec(zone@, task_tree@, span, name@) is None,
        },
{
    let v = task_tree.time_delta(&span, zone)?;
    let children = nodes_from_groups(&task_tree.groups, span, zone)?;
    Some(Node { name, value: v / 60, children })
}

/// What the chart is asked for: a month, or an ISO week, of a year.
#[derive(Debug, Clone, Copy, PartialEq, Eq)]
pub struct RawParams {
    pub year: i32,
    pub month: Option<u8>,
    pub week: Option<u8>,
}

impl RawParams {
    /// The month or the week asked for; `None` when both or neither are
    /// given, or when there is no such month or week.
    pub fn range(&self) -> (r: Option<Range>)
        requires
            self.month matches Some(m) ==> !(self.year == MAX_YEAR && m == 12),
        ensures
            r == match (self.month, self.week) {
                (Some(m), None) => month_range(self.year, m as u32),
                (None, Some(w)) => week_range(self.year, w as u32),
                _ => None,
            },
    {
        match (self.month, self.week) {
            (Some(m), None) => Range::month(self.year, m as u32),
            (None, Some(w)) => Range::week(self.year, w as u32),
            _ => None,
        }
    }
}


/// The English name of month `m`, 1 for January to 12 for December, as
/// `chrono::Month::name` gives it; none for another number.
pub open spec fn month_name_spec(m: u8) -> Option<Seq<char>> {
    if m == 1 {
        Some("January"@)
    } else if m == 2 {
        Some("February"@)
    } else if m == 3 {
        Some("March"@)
    } else if m == 4 {
        Some("April"@)
    } else if m == 5 {
        Some("May"@)
    } else if m == 6 {
        Some("June"@)
    } else if m == 7 {
        Some("July"@)
    } else if m == 8 {
        Some("August"@)
    } else if m == 9 {
        Some("September"@)
    } else if m == 10 {
        Some("October"@)
    } else if m == 11 {
        Some("November"@)
    } else if m == 12 {
        Some("December"@)
    } else {
        None
    }
}

/// The name of a month by its number (`chrono::Month::try_from`, then
/// `name`); none for a number outside 1 to 12.
#[verifier::external_body]
fn month_name(m: u8) -> (r: Option<String>)
    ensures
        match r {
            Some(t) => month_name_spec(m) == Some(t@),
            None => month_name_spec(m) is None,
        },
{
    chrono::Month::try_from(m).ok().map(|month| month.name().to_string())
}

/// The chart's title: the year and a line break, then the month's name, if
/// a month from 1 to 12 is asked for, then `Week: ` and the week, if one is.
pub open spec fn params_text(p: RawParams) -> Seq<char> {
    let year = signed_decimal(p.year as int) + seq!['\n'];
    let month = match p.month {
        Some(m) => match month_name_spec(m) {
            Some(n) => n,
            None => Seq::empty(),
        },
        None => Seq::empty(),
    };
    let week = match p.week {
        Some(w) => "Week: "@ + decimal(w as nat),
        None => Seq::empty(),
    };
    year + month + week
}

impl RawParams {
    /// The chart's title (see [`params_text`]).
    pub fn to_string(&self) -> (r: String)
        ensures
            r@ == params_text(*self),
    {
        let mut out = String::new();
        push_signed(&mut out, self.year);
        push_char(&mut out, '\n');
        let ghost head = out@;
        if let Some(m) = self.month {
            if let Some(name) = month_name(m) {
                push_str(&mut out, name.as_str());
            }
        }
        let ghost mid = out@;
        if let Some(w) = self.week {
            push_str(&mut out, "Week: ");
            push_decimal(&mut out, w as u64);
        }
        proof {
            assert(out@ =~= params_text(*self));
        }
        out
    }
}

} // verus!
