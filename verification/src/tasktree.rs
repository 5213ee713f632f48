//! A task file: groups of tasks under Markdown headings. A heading of rank
//! `n` opens a group inside the last group of rank `n - 1`; a list holds
//! the tasks of the group of the heading above it.
use vstd::prelude::*;
use crate::text::push_str;
use crate::task::task_err_text;
use crate::group::{
    Group, GroupView, group_view, group_views, lemma_group_views, lemma_group_views_push,
    empty_group, groups_text, groups_writable, write_groups, groups_are_writable,
};
use crate::syntax::{
    MdKind, MdNode, MdNodeView, MdPosition, md_view, md_views, lemma_md_views, markdown_tree,
    parse_markdown,
};
use crate::ranged::{Ranged, ranged, ranged_spec, position_fits};
use crate::task::{
    Task, TaskView, TaskErr, TaskErrView, task_views, tasks_spec, md_fits, all_fit,
    lemma_all_fit, node_fits, position_fits_check,
};
use crate::time::Zone;
use crate::tree::{
    IteratorItem, group_walk, group_items_view, task_walk, task_items_view, walk_groups, strings_view, find_group, find_group_index, group_insert, insert_group, task_insert,
    insert_task, extract_tasks, extract_tasks_in, TaskMove, moves_view, clone_strings,
};
use crate::group::{
    lemma_group_views_update, prune_all, prune_groups, groups_time, groups_time_delta,
};
use crate::session::range::Span;
use crate::time::ZonedDateTime;
use crate::task::time_ok;
use crate::task::{task_view, lemma_task_views, lemma_task_views_update, sessions_view};
use crate::session::{Session, SessionView, IcsTime, ics_start, ics_end, event_rule, session_exportable};
use crate::taskpath::{TaskPath, TaskPathView};
use crate::tree::{Path, PathView};
use crate::tree::{group_add_session, add_group_session};

verus! {

/// A task file: its top-level groups.
#[derive(Debug, PartialEq, Eq)]
pub struct TaskTree {
    pub groups: Vec<Group>,
}

impl View for TaskTree {
    type V = Seq<GroupView>;

    open spec fn view(&self) -> Seq<GroupView> {
        group_views(self.groups@)
    }
}

/// Why a text is not a task file.
#[derive(Debug, Clone, PartialEq, Eq)]
pub enum TaskTreeErr {
    /// A heading is more than one rank below the one before it.
    HeadingOrder,
    /// A list stands before any heading.
    LooseTasks,
    /// A list item is not a task.
    Task(TaskErr),
    /// The text is not Markdown.
    Markdown(String),
}

/// Mathematical model of a [`TaskTreeErr`].
pub enum TaskTreeErrView {
    HeadingOrder,
    LooseTasks,
    Task(TaskErrView),
    Markdown(Seq<char>),
}

impl View for TaskTreeErr {
    type V = TaskTreeErrView;

    open spec fn view(&self) -> TaskTreeErrView {
        match self {
            TaskTreeErr::HeadingOrder => TaskTreeErrView::HeadingOrder,
            TaskTreeErr::LooseTasks => TaskTreeErrView::LooseTasks,
            TaskTreeErr::Task(e) => TaskTreeErrView::Task(e@),
            TaskTreeErr::Markdown(m) => TaskTreeErrView::Markdown(m@),
        }
    }
}

// ---------------------------------------------------------------------------
// The last group at each level

/// The groups at `level` below the top of the tree along the last group of
/// each level, if every level above has a group.
pub open spec fn last_children(gs: Seq<GroupView>, level: nat) -> Option<Seq<GroupView>>
    decreases level,
{
    if level == 0 {
        Some(gs)
    } else if gs.len() == 0 {
        None
    } else {
        last_children(gs.last().sub_groups, (level - 1) as nat)
    }
}

/// The tree with `g` added after the groups at `level` (see [`last_children`]).
pub open spec fn push_at(gs: Seq<GroupView>, level: nat, g: GroupView) -> Seq<GroupView>
    decreases level,
{
    if level == 0 {
        gs.push(g)
    } else if gs.len() == 0 {
        gs
    } else {
        gs.drop_last().push(
            GroupView {
                sub_groups: push_at(gs.last().sub_groups, (level - 1) as nat, g),
                ..gs.last()
            },
        )
    }
}

/// The tree with the tasks of the last group at `level` replaced.
pub open spec fn set_tasks_at(gs: Seq<GroupView>, level: nat, tasks: Seq<TaskView>) -> Seq<
    GroupView,
>
    decreases level,
{
    if gs.len() == 0 {
        gs
    } else if level == 0 {
        gs.drop_last().push(GroupView { tasks, ..gs.last() })
    } else {
        gs.drop_last().push(
            GroupView {
                sub_groups: set_tasks_at(gs.last().sub_groups, (level - 1) as nat, tasks),
                ..gs.last()
            },
        )
    }
}

/// After a push at a level, that level ends with the new group.
proof fn lemma_push_at(gs: Seq<GroupView>, level: nat, g: GroupView)
    requires
        last_children(gs, level) is Some,
    ensures
        last_children(push_at(gs, level, g), level) == Some(
            last_children(gs, level)->0.push(g),
        ),
    decreases level,
{
    if level > 0 {
        lemma_push_at(gs.last().sub_groups, (level - 1) as nat, g);
    }
}

/// Replacing tasks at a level leaves that level's groups in number.
proof fn lemma_set_tasks_at(gs: Seq<GroupView>, level: nat, tasks: Seq<TaskView>)
    requires
        last_children(gs, level) is Some,
    ensures
        last_children(set_tasks_at(gs, level, tasks), level) is Some,
        last_children(set_tasks_at(gs, level, tasks), level)->0.len() == last_children(
            gs,
            level,
        )->0.len(),
    decreases level,
{
    if level > 0 && gs.len() > 0 {
        lemma_set_tasks_at(gs.last().sub_groups, (level - 1) as nat, tasks);
    }
}

/// The models of the sub-groups of the last group of a list.
proof fn lemma_last_group(gs: Seq<Group>)
    requires
        gs.len() > 0,
    ensures
        group_views(gs).last() == group_view(gs.last()),
        group_views(gs).drop_last() == group_views(gs.drop_last()),
{
}

/// Whether the tree has the level (see [`last_children`]).
fn has_level(gs: &Vec<Group>, level: u8) -> (r: bool)
    ensures
        r == last_children(group_views(gs@), level as nat) is Some,
    decreases level,
{
    if level == 0 {
        true
    } else {
        let n = gs.len();
        if n == 0 {
            proof {
                lemma_group_views(gs@);
            }
            false
        } else {
            proof {
                lemma_last_group(gs@);
            }
            has_level(&gs[n - 1].sub_groups, level - 1)
        }
    }
}

/// Adds a group after the groups at a level (see [`push_at`]).
fn push_group_at(gs: &mut Vec<Group>, level: u8, g: Group)
    requires
        last_children(group_views(old(gs)@), level as nat) is Some,
    ensures
        group_views(final(gs)@) == push_at(group_views(old(gs)@), level as nat, g@),
    decreases level,
{
    if level == 0 {
        proof {
            lemma_group_views_push(gs@, g);
        }
        gs.push(g);
    } else {
        proof {
            lemma_group_views(gs@);
        }
        let ghost before = gs@;
        let mut last = gs.pop().unwrap();
        proof {
            lemma_last_group(before);
        }
        push_group_at(&mut last.sub_groups, level - 1, g);
        proof {
            lemma_group_views_push(gs@, last);
        }
        gs.push(last);
    }
}

/// Replaces the tasks of the last group at a level (see [`set_tasks_at`]).
fn set_group_tasks_at(gs: &mut Vec<Group>, level: u8, tasks: Vec<Task>)
    requires
        last_children(group_views(old(gs)@), level as nat) is Some,
        old(gs)@.len() > 0,
    ensures
        group_views(final(gs)@) == set_tasks_at(
            group_views(old(gs)@),
            level as nat,
            task_views(tasks@),
        ),
    decreases level,
{
    proof {
        lemma_group_views(gs@);
    }
    let ghost before = gs@;
    let mut last = gs.pop().unwrap();
    proof {
        lemma_last_group(before);
    }
    let ghost old_last = last;
    if level == 0 {
        last.tasks = tasks;
        proof {
            assert(group_view(last) == GroupView { tasks: task_views(tasks@), ..group_view(old_last) });
        }
    } else {
        if last.sub_groups.len() > 0 {
            set_group_tasks_at(&mut last.sub_groups, level - 1, tasks);
        } else {
            proof {
                lemma_group_views(last.sub_groups@);
            }
        }
        proof {
            assert(group_view(last) == GroupView {
                sub_groups: set_tasks_at(group_views(old_last.sub_groups@), (level - 1) as nat, task_views(tasks@)),
                ..group_view(old_last)
            });
        }
    }
    proof {
        lemma_group_views_push(gs@, last);
        assert(group_views(gs@) == group_views(old(gs)@).drop_last());
    }
    gs.push(last);
}

// ---------------------------------------------------------------------------
// Reading a task file

/// One block of the file read into the groups so far, with the rank of
/// the last heading: a heading adds a group below the last group of the
/// rank above, a list sets the tasks of the last group of its heading's
/// rank, and anything else is skipped.
pub open spec fn build_step(
    zone: Seq<char>,
    gs: Seq<GroupView>,
    depth: u8,
    c: MdNodeView,
) -> Result<(Seq<GroupView>, u8), Ranged<TaskTreeErrView>> {
    match c.kind {
        MdKind::Heading(d) => match last_children(gs, (d - 1) as nat) {
            None => Err(ranged_spec(TaskTreeErrView::HeadingOrder, c.position)),
            Some(_) => Ok((push_at(gs, (d - 1) as nat, empty_group(c.text)), d)),
        },
        MdKind::List => match tasks_spec(zone, c) {
            Err(e) => Err(Ranged { error: TaskTreeErrView::Task(e.error), range: e.range }),
            Ok(tasks) => if depth == 0 {
                Err(ranged_spec(TaskTreeErrView::LooseTasks, c.position))
            } else {
                match last_children(gs, (depth - 1) as nat) {
                    None => Err(ranged_spec(TaskTreeErrView::HeadingOrder, c.position)),
                    Some(_) => Ok((set_tasks_at(gs, (depth - 1) as nat, tasks), depth)),
                }
            },
        },
        _ => Ok((gs, depth)),
    }
}

/// The blocks of a file read in order from an empty tree (see [`build_step`]).
pub open spec fn build_spec(zone: Seq<char>, cs: Seq<MdNodeView>) -> Result<
    (Seq<GroupView>, u8),
    Ranged<TaskTreeErrView>,
>
    decreases cs.len(),
{
    if cs.len() == 0 {
        Ok((Seq::empty(), 0))
    } else {
        match build_spec(zone, cs.drop_last()) {
            Err(e) => Err(e),
            Ok((gs, d)) => build_step(zone, gs, d, cs.last()),
        }
    }
}

/// The groups that a Markdown document denotes in the zone, or why it
/// denotes none.
pub open spec fn tree_spec(zone: Seq<char>, node: MdNodeView) -> Result<
    Seq<GroupView>,
    Ranged<TaskTreeErrView>,
> {
    match node.children {
        None => Ok(Seq::empty()),
        Some(cs) => match build_spec(zone, cs) {
            Err(e) => Err(e),
            Ok((gs, _)) => Ok(gs),
        },
    }
}

/// What reading keeps true: after a heading of rank `d`, the level of
/// rank `d` has a last group.
pub open spec fn build_inv(gs: Seq<GroupView>, depth: u8) -> bool {
    depth > 0 ==> (last_children(gs, (depth - 1) as nat) matches Some(l) && l.len() > 0)
}

/// Reading a block keeps [`build_inv`].
proof fn lemma_build_step(zone: Seq<char>, gs: Seq<GroupView>, depth: u8, c: MdNodeView)
    requires
        build_inv(gs, depth),
    ensures
        build_step(zone, gs, depth, c) matches Ok((gs2, d2)) ==> build_inv(gs2, d2),
{
    match c.kind {
        MdKind::Heading(d) => {
            if last_children(gs, (d - 1) as nat) is Some {
                lemma_push_at(gs, (d - 1) as nat, empty_group(c.text));
            }
        },
        MdKind::List => {
            if depth > 0 {
                lemma_set_tasks_at(gs, (depth - 1) as nat, tasks_spec(zone, c)->Ok_0);
            }
        },
        _ => {},
    }
}

/// [`build_inv`] holds of every successful read.
proof fn lemma_build_inv(zone: Seq<char>, cs: Seq<MdNodeView>)
    ensures
        build_spec(zone, cs) matches Ok((gs, d)) ==> build_inv(gs, d),
    decreases cs.len(),
{
    if cs.len() > 0 {
        lemma_build_inv(zone, cs.drop_last());
        if let Ok((gs, d)) = build_spec(zone, cs.drop_last()) {
            lemma_build_step(zone, gs, d, cs.last());
        }
    }
}

/// Once a prefix of the blocks fails, so does every longer prefix.
proof fn lemma_build_error(zone: Seq<char>, cs: Seq<MdNodeView>, k: int)
    requires
        0 <= k <= cs.len(),
        build_spec(zone, cs.take(k)) is Err,
    ensures
        build_spec(zone, cs) == build_spec(zone, cs.take(k)),
    decreases cs.len() - k,
{
    if k < cs.len() {
        assert(cs.take(k + 1).drop_last() =~= cs.take(k));
        lemma_build_error(zone, cs, k + 1);
    } else {
        assert(cs.take(k) =~= cs);
    }
}

impl TaskTree {
    /// The groups that a Markdown document denotes in the zone (see
    /// [`tree_spec`]).
    pub fn new(zone: &Zone, node: &MdNode) -> (r: Result<TaskTree, Ranged<TaskTreeErr>>)
        requires
            md_fits(node@),
        ensures
            match r {
                Ok(t) => tree_spec(zone@, node@) == Ok::<Seq<GroupView>, Ranged<TaskTreeErrView>>(
                    t@,
                ),
                Err(e) => tree_spec(zone@, node@) == Err::<
                    Seq<GroupView>,
                    Ranged<TaskTreeErrView>,
                >(e@),
            },
    {
        let mut groups: Vec<Group> = Vec::new();
        proof {
            assert(group_views(groups@) =~= Seq::<GroupView>::empty());
        }
        let cs = match &node.children {
            None => return Ok(TaskTree { groups }),
            Some(cs) => cs,
        };
        proof {
            lemma_md_views(cs@);
            lemma_kids_fit_tree(*node);
            assert(md_views(cs@).take(0) =~= Seq::<MdNodeView>::empty());
        }
        let mut depth: u8 = 0;
        let mut i: usize = 0;
        while i < cs.len()
            invariant
                i <= cs@.len(),
                md_views(cs@).len() == cs@.len(),
                forall|j: int|
                    0 <= j < cs@.len() ==> #[trigger] md_views(cs@)[j] == md_view(cs@[j]),
                forall|j: int| 0 <= j < cs@.len() ==> #[trigger] md_fits(cs@[j]@),
                node.children == Some(*cs),
                build_spec(zone@, md_views(cs@).take(i as int)) == Ok::<
                    (Seq<GroupView>, u8),
                    Ranged<TaskTreeErrView>,
                >((group_views(groups@), depth)),
            decreases cs.len() - i,
        {
            let c = &cs[i];
            let ghost all = md_views(cs@);
            let ghost prefix = all.take(i + 1);
            proof {
                assert(prefix.drop_last() =~= all.take(i as int));
                assert(prefix.last() == c@);
                assert(md_fits(cs@[i as int]@));
                lemma_build_inv(zone@, all.take(i as int));
            }
            match c.kind {
                MdKind::Heading(d) => {
                    if !has_level(&groups, d - 1) {
                        let r = ranged(TaskTreeErr::HeadingOrder, c.position.as_ref());
                        proof {
                            lemma_build_error(zone@, all, i + 1);
                        }
                        return Err(r);
                    }
                    push_group_at(&mut groups, d - 1, Group::new(c.text.clone()));
                    depth = d;
                },
                MdKind::List => {
                    let tasks = match Task::new_tasks(zone, c) {
                        Ok(t) => t,
                        Err(e) => {
                            let r = Ranged { error: TaskTreeErr::Task(e.error), range: e.range };
                            proof {
                                lemma_build_error(zone@, all, i + 1);
                            }
                            return Err(r);
                        },
                    };
                    if depth == 0 {
                        let r = ranged(TaskTreeErr::LooseTasks, c.position.as_ref());
                        proof {
                            lemma_build_error(zone@, all, i + 1);
                        }
                        return Err(r);
                    }
                    if !has_level(&groups, depth - 1) {
                        let r = ranged(TaskTreeErr::HeadingOrder, c.position.as_ref());
                        proof {
                            lemma_build_error(zone@, all, i + 1);
                        }
                        return Err(r);
                    }
                    proof {
                        lemma_group_views(groups@);
                    }
                    set_group_tasks_at(&mut groups, depth - 1, tasks);
                },
                _ => {},
            }
            i = i + 1;
        }
        proof {
            assert(md_views(cs@).take(cs@.len() as int) =~= md_views(cs@));
        }
        Ok(TaskTree { groups })
    }
}

/// The children of a node whose every region can be reported.
proof fn lemma_kids_fit_tree(n: MdNode)
    requires
        md_fits(n@),
        n.children is Some,
    ensures
        forall|i: int|
            0 <= i < n.children->0@.len() ==> #[trigger] md_fits(n.children->0@[i]@),
{
    let cs = n.children->0;
    lemma_md_views(cs@);
    let v = md_view(n);
    assert(v.children == Some(md_views(cs@)));
    lemma_all_fit(v.children->0);
    assert forall|i: int| 0 <= i < cs@.len() implies #[trigger] md_fits(cs@[i]@) by {
        assert(md_views(cs@)[i] == md_view(cs@[i]));
    }
}

/// A task file as Markdown: each group under a heading of its rank (see
/// [`groups_text`]), the file ending in one newline where that would leave
/// a blank line.
pub open spec fn tree_text(gs: Seq<GroupView>) -> Seq<char> {
    let t = groups_text(gs, seq!['#']);
    if t.len() >= 2 && t[t.len() - 1] == '\n' && t[t.len() - 2] == '\n' {
        t.drop_last()
    } else {
        t
    }
}

/// The groups that a text denotes in the zone, or why it denotes none;
/// `None` when the text holds a region that cannot be reported (see
/// [`md_fits`]).
pub open spec fn tree_from_text(zone: Seq<char>, s: Seq<char>) -> Option<
    Result<Seq<GroupView>, Ranged<TaskTreeErrView>>,
> {
    match markdown_tree(s) {
        Err(m) => if position_fits(m.place) {
            Some(Err(ranged_spec(TaskTreeErrView::Markdown(m.reason), m.place)))
        } else {
            None
        },
        Ok(n) => if md_fits(n) {
            Some(tree_spec(zone, n))
        } else {
            None
        },
    }
}

impl TaskTree {
    /// Reads a task file in the zone (see [`tree_from_text`]).
    pub fn from_str(zone: &Zone, s: &str) -> (r: Option<Result<TaskTree, Ranged<TaskTreeErr>>>)
        ensures
            match r {
                None => tree_from_text(zone@, s@) is None,
                Some(Ok(t)) => tree_from_text(zone@, s@) == Some(
                    Ok::<Seq<GroupView>, Ranged<TaskTreeErrView>>(t@),
                ),
                Some(Err(e)) => tree_from_text(zone@, s@) == Some(
                    Err::<Seq<GroupView>, Ranged<TaskTreeErrView>>(e@),
                ),
            },
    {
        match parse_markdown(s) {
            Err(m) => {
                if position_fits_check(&m.place) {
                    Some(Err(ranged(TaskTreeErr::Markdown(m.reason), m.place.as_ref())))
                } else {
                    None
                }
            },
            Ok(node) => {
                if node_fits(&node) {
                    Some(TaskTree::new(zone, &node))
                } else {
                    None
                }
            },
        }
    }

    /// Whether every session in the tree can be written.
    pub fn is_writable(&self) -> (r: bool)
        ensures
            r == groups_writable(self@),
    {
        groups_are_writable(&self.groups)
    }

    /// The task file as Markdown (see [`tree_text`]).
    pub fn to_string(&self) -> (r: String)
        requires
            groups_writable(self@),
        ensures
            r@ == tree_text(self@),
    {
        let mut out = String::new();
        write_groups(&mut out, &self.groups, "#");
        proof {
            reveal_strlit("#");
            assert("#"@ =~= seq!['#']);
        }
        let n = out.unicode_len();
        if n >= 2 && out.as_str().get_char(n - 1) == '\n' && out.as_str().get_char(n - 2) == '\n' {
            let trimmed = out.as_str().substring_char(0, n - 1).to_owned();
            proof {
                assert(trimmed@ =~= groups_text(self@, seq!['#']).drop_last());
            }
            trimmed
        } else {
            out
        }
    }
}

// ---------------------------------------------------------------------------
// Moving tasks between trees

/// A task taken out of a tree, with where it was: the texts of its group's
/// parent groups, its group's text, and the texts of its parent tasks.
#[derive(Debug)]
pub struct MoveContext {
    pub group_path: Vec<String>,
    pub group_id: String,
    pub task_path: Vec<String>,
    pub task: Task,
}

/// Mathematical model of a [`MoveContext`].
pub struct MoveContextView {
    pub group_path: Seq<Seq<char>>,
    pub group_id: Seq<char>,
    pub task_path: Seq<Seq<char>>,
    pub task: TaskView,
}

impl View for MoveContext {
    type V = MoveContextView;

    open spec fn view(&self) -> MoveContextView {
        MoveContextView {
            group_path: strings_view(self.group_path@),
            group_id: self.group_id@,
            task_path: strings_view(self.task_path@),
            task: self.task@,
        }
    }
}

/// The models of a list of move contexts.
pub open spec fn contexts_view(s: Seq<MoveContext>) -> Seq<MoveContextView> {
    s.map_values(|c: MoveContext| c@)
}

/// The groups with the task inserted at `tpath` among the tasks of the
/// group found along `gpath`; unchanged when there is no such group.
pub open spec fn add_task_at(
    gs: Seq<GroupView>,
    gpath: Seq<Seq<char>>,
    tpath: Seq<Seq<char>>,
    t: TaskView,
) -> Seq<GroupView>
    decreases gpath.len(),
{
    if gpath.len() == 0 {
        gs
    } else {
        match find_group(gs, gpath[0]) {
            None => gs,
            Some(i) => if gpath.len() == 1 {
                gs.update(i, GroupView { tasks: task_insert(gs[i].tasks, tpath, t), ..gs[i] })
            } else {
                gs.update(
                    i,
                    GroupView {
                        sub_groups: add_task_at(gs[i].sub_groups, gpath.drop_first(), tpath, t),
                        ..gs[i]
                    },
                )
            },
        }
    }
}

/// The tree with a moved task put back where it was: its group, created
/// along with its parents where missing, then the task at its path among
/// the group's tasks.
pub open spec fn tree_insert_task(gs: Seq<GroupView>, c: MoveContextView) -> Seq<GroupView> {
    add_task_at(
        group_insert(gs, c.group_path, empty_group(c.group_id)),
        c.group_path.push(c.group_id),
        c.task_path,
        c.task,
    )
}

/// Inserts the task among the tasks of the group found along
/// `gpath[from..]` (see [`add_task_at`]).
fn add_task_in(
    gs: &mut Vec<Group>,
    gpath: &Vec<String>,
    from: usize,
    tpath: &Vec<String>,
    t: Task,
)
    requires
        from <= gpath@.len(),
    ensures
        group_views(final(gs)@) == add_task_at(
            group_views(old(gs)@),
            strings_view(gpath@).skip(from as int),
            strings_view(tpath@),
            t@,
        ),
    decreases gpath@.len() - from,
{
    let ghost p = strings_view(gpath@).skip(from as int);
    proof {
        lemma_group_views(gs@);
    }
    if from >= gpath.len() {
        return;
    }
    proof {
        assert(p[0] == gpath@[from as int]@);
        assert(p.drop_first() =~= strings_view(gpath@).skip(from + 1));
    }
    match find_group_index(gs, &gpath[from]) {
        None => {},
        Some(i) => {
            let ghost before = gs@;
            let mut g = gs.remove(i);
            if from + 1 == gpath.len() {
                proof {
                    assert(strings_view(tpath@).skip(0) =~= strings_view(tpath@));
                }
                insert_task(&mut g.tasks, tpath, 0, t);
            } else {
                add_task_in(&mut g.sub_groups, gpath, from + 1, tpath, t);
            }
            gs.insert(i, g);
            proof {
                assert(gs@ =~= before.update(i as int, g));
                lemma_group_views_update(before, i as int, g);
            }
        },
    }
}

/// Where a moved task's group is: its parents' texts, then its own.
fn full_group_path(c: &MoveContext) -> (r: Vec<String>)
    ensures
        strings_view(r@) == strings_view(c.group_path@).push(c.group_id@),
{
    let mut r = clone_strings(&c.group_path);
    let ghost before = r@;
    r.push(c.group_id.clone());
    proof {
        assert(strings_view(r@) =~= strings_view(before).push(c.group_id@));
    }
    r
}

impl TaskTree {
    /// Adds a group at the path of parent groups (see [`group_insert`]).
    pub fn insert(&mut self, path: &Vec<String>, child: Group)
        ensures
            final(self)@ == group_insert(old(self)@, strings_view(path@), child@),
    {
        proof {
            assert(strings_view(path@).skip(0) =~= strings_view(path@));
        }
        insert_group(&mut self.groups, path, 0, child);
    }

    /// Puts a moved task into the tree (see [`tree_insert_task`]).
    pub fn insert_task(&mut self, t: MoveContext)
        ensures
            final(self)@ == tree_insert_task(old(self)@, t@),
    {
        let full = full_group_path(&t);
        proof {
            assert(strings_view(t.group_path@).skip(0) =~= strings_view(t.group_path@));
            assert(strings_view(full@).skip(0) =~= strings_view(full@));
        }
        let g = Group::new(t.group_id);
        insert_group(&mut self.groups, &t.group_path, 0, g);
        add_task_in(&mut self.groups, &full, 0, &t.task_path, t.task);
    }

    /// Drops groups left with nothing, at every level (see [`prune_all`]).
    pub fn remove_empty_groups(&mut self)
        ensures
            final(self)@ == prune_all(old(self)@),
    {
        prune_groups(&mut self.groups);
    }
}

/// The moved tasks of a group, with the group's place.
pub open spec fn with_group(
    ms: Seq<(Seq<Seq<char>>, TaskView)>,
    gp: Seq<Seq<char>>,
    gid: Seq<char>,
) -> Seq<MoveContextView> {
    ms.map_values(
        |m: (Seq<Seq<char>>, TaskView)|
            MoveContextView { group_path: gp, group_id: gid, task_path: m.0, task: m.1 },
    )
}

/// Takes tasks out of a group and its sub-groups, the group's own first
/// (see [`extract_tasks`]); `gp` holds the texts of the group's parents.
pub open spec fn pluck_group(g: GroupView, gp: Seq<Seq<char>>, only_done: bool) -> (
    GroupView,
    Seq<MoveContextView>,
)
    decreases g,
{
    let e = extract_tasks(g.tasks, Seq::empty(), only_done);
    let s = pluck_groups(g.sub_groups, gp.push(g.text), only_done);
    (GroupView { tasks: e.0, sub_groups: s.0, ..g }, with_group(e.1, gp, g.text) + s.1)
}

/// Takes tasks out of each group of a list in turn (see [`pluck_group`]).
pub open spec fn pluck_groups(gs: Seq<GroupView>, gp: Seq<Seq<char>>, only_done: bool) -> (
    Seq<GroupView>,
    Seq<MoveContextView>,
)
    decreases gs,
{
    if gs.len() == 0 {
        (Seq::empty(), Seq::empty())
    } else {
        let r = pluck_groups(gs.drop_last(), gp, only_done);
        let q = pluck_group(gs.last(), gp, only_done);
        (r.0.push(q.0), r.1 + q.1)
    }
}

/// Gives each moved task of a group the group's place.
fn place_moves(
    ms: Vec<TaskMove>,
    gp: &Vec<String>,
    gid: &String,
    out: &mut Vec<MoveContext>,
)
    ensures
        contexts_view(final(out)@) == contexts_view(old(out)@) + with_group(
            moves_view(ms@),
            strings_view(gp@),
            gid@,
        ),
{
    let ghost orig = ms@;
    let ghost out0 = contexts_view(out@);
    let mut rest = ms;
    let mut k: usize = 0;
    let total = rest.len();
    proof {
        assert(moves_view(orig).take(0) =~= Seq::<(Seq<Seq<char>>, TaskView)>::empty());
        assert(orig.skip(0) =~= orig);
        assert(contexts_view(out@) =~= out0 + with_group(
            moves_view(orig).take(0),
            strings_view(gp@),
            gid@,
        ));
    }
    while rest.len() > 0
        invariant
            k <= total,
            orig.len() == total,
            rest@ == orig.skip(k as int),
            contexts_view(out@) == out0 + with_group(
                moves_view(orig).take(k as int),
                strings_view(gp@),
                gid@,
            ),
        decreases rest.len(),
    {
        let m = rest.remove(0);
        let ghost o = contexts_view(out@);
        proof {
            assert(m == orig[k as int]);
            assert(rest@ =~= orig.skip(k + 1));
        }
        let c = MoveContext {
            group_path: clone_strings(gp),
            group_id: gid.clone(),
            task_path: m.path,
            task: m.task,
        };
        out.push(c);
        proof {
            assert(moves_view(orig).take(k + 1) =~= moves_view(orig).take(k as int).push(
                (strings_view(orig[k as int].path@), orig[k as int].task@),
            ));
            assert(contexts_view(out@) =~= o.push(c@));
            assert(with_group(moves_view(orig).take(k + 1), strings_view(gp@), gid@) =~= with_group(
                moves_view(orig).take(k as int),
                strings_view(gp@),
                gid@,
            ).push(c@));
        }
        k = k + 1;
    }
    proof {
        assert(moves_view(orig).take(total as int) =~= moves_view(orig));
    }
}

/// Takes tasks out of each group of a list and its sub-groups (see
/// [`pluck_groups`]), adding them to `out`.
pub fn pluck_groups_in(
    gs: &mut Vec<Group>,
    gp: &mut Vec<String>,
    only_done: bool,
    out: &mut Vec<MoveContext>,
)
    ensures
        group_views(final(gs)@) == pluck_groups(
            group_views(old(gs)@),
            strings_view(old(gp)@),
            only_done,
        ).0,
        contexts_view(final(out)@) == contexts_view(old(out)@) + pluck_groups(
            group_views(old(gs)@),
            strings_view(old(gp)@),
            only_done,
        ).1,
        strings_view(final(gp)@) == strings_view(old(gp)@),
    decreases *old(gs),
{
    let ghost orig = gs@;
    let ghost ov = group_views(orig);
    let ghost p = strings_view(gp@);
    let ghost out0 = contexts_view(out@);
    proof {
        lemma_group_views(orig);
        assert(ov.take(0) =~= Seq::<GroupView>::empty());
        assert(group_views(gs@).take(0) =~= Seq::<GroupView>::empty());
    }
    let n = gs.len();
    let mut i: usize = 0;
    while i < n
        invariant
            n == gs@.len(),
            n == orig.len(),
            orig == old(gs)@,
            ov == group_views(orig),
            ov.len() == n,
            forall|j: int| 0 <= j < n ==> #[trigger] ov[j] == group_view(orig[j]),
            i <= n,
            forall|j: int| i <= j < n ==> #[trigger] gs@[j] == orig[j],
            strings_view(gp@) == p,
            pluck_groups(ov.take(i as int), p, only_done).0 == group_views(gs@).take(i as int),
            contexts_view(out@) == out0 + pluck_groups(ov.take(i as int), p, only_done).1,
        decreases n - i,
    {
        let ghost before = gs@;
        proof {
            lemma_group_views(before);
            assert(ov.take(i + 1).drop_last() =~= ov.take(i as int));
            assert(ov.take(i + 1).last() == group_view(orig[i as int]));
        }
        let mut g = gs.remove(i);
        let ghost g0 = g;
        let ghost outi = contexts_view(out@);
        let mut moves: Vec<TaskMove> = Vec::new();
        let mut tpath: Vec<String> = Vec::new();
        proof {
            assert(strings_view(tpath@) =~= Seq::<Seq<char>>::empty());
            assert(moves_view(moves@) =~= Seq::<(Seq<Seq<char>>, TaskView)>::empty());
        }
        extract_tasks_in(&mut g.tasks, &mut tpath, only_done, &mut moves);
        let ghost mv = moves_view(moves@);
        place_moves(moves, gp, &g.text, out);
        let ghost outm = contexts_view(out@);
        gp.push(g.text.clone());
        proof {
            assert(strings_view(gp@) =~= p.push(g.text@));
            assert(decreases_to!(*old(gs) => old(gs)@));
            assert(decreases_to!(old(gs)@ => old(gs)@[i as int]));
            assert(decreases_to!(old(gs)@[i as int] => old(gs)@[i as int].sub_groups));
        }
        pluck_groups_in(&mut g.sub_groups, gp, only_done, out);
        let ghost full = gp@;
        gp.pop();
        gs.insert(i, g);
        proof {
            assert(gp@ == full.drop_last());
            assert(strings_view(full.drop_last()) =~= strings_view(full).drop_last());
            assert(strings_view(gp@) =~= p);
            assert(gs@ =~= before.update(i as int, g));
            lemma_group_views_update(before, i as int, g);
            lemma_group_views(gs@);
            assert(group_views(gs@).take(i + 1) =~= group_views(before).take(i as int).push(
                group_view(g),
            ));
            let q = pluck_group(group_view(g0), p, only_done);
            assert(group_view(g) == q.0);
            assert(contexts_view(out@) =~= outi + q.1);
        }
        i = i + 1;
    }
    proof {
        assert(ov.take(n as int) =~= ov);
        lemma_group_views(gs@);
        assert(group_views(gs@).take(n as int) =~= group_views(gs@));
    }
}

impl TaskTree {
    /// Takes out every task, or only those done, with where each was (see
    /// [`pluck_groups`]); the groups stay.
    pub fn pluck_tasks(&mut self, only_done: bool) -> (r: Vec<MoveContext>)
        ensures
            final(self)@ == pluck_groups(old(self)@, Seq::empty(), only_done).0,
            contexts_view(r@) == pluck_groups(old(self)@, Seq::empty(), only_done).1,
    {
        let mut out: Vec<MoveContext> = Vec::new();
        let mut gp: Vec<String> = Vec::new();
        proof {
            assert(strings_view(gp@) =~= Seq::<Seq<char>>::empty());
            assert(contexts_view(out@) =~= Seq::<MoveContextView>::empty());
        }
        pluck_groups_in(&mut self.groups, &mut gp, only_done, &mut out);
        out
    }
}

/// The tree with each moved task put back in turn (see [`tree_insert_task`]).
pub open spec fn insert_all_contexts(gs: Seq<GroupView>, cs: Seq<MoveContextView>) -> Seq<
    GroupView,
>
    decreases cs.len(),
{
    if cs.len() == 0 {
        gs
    } else {
        tree_insert_task(insert_all_contexts(gs, cs.drop_last()), cs.last())
    }
}

/// The union of two trees: every task of `other`, with its sub-tasks, put
/// into `tree` in turn, where it was in `other`.
pub open spec fn union_spec(tree: Seq<GroupView>, other: Seq<GroupView>) -> Seq<GroupView> {
    insert_all_contexts(tree, pluck_groups(other, Seq::empty(), false).1)
}

impl TaskTree {
    /// Puts each moved task into the tree in turn.
    pub fn insert_tasks(&mut self, cs: Vec<MoveContext>)
        ensures
            final(self)@ == insert_all_contexts(old(self)@, contexts_view(cs@)),
    {
        let ghost orig = cs@;
        let ghost start = self@;
        let total = cs.len();
        let mut rest = cs;
        let mut k: usize = 0;
        proof {
            assert(contexts_view(orig).take(0) =~= Seq::<MoveContextView>::empty());
            assert(orig.skip(0) =~= orig);
        }
        while rest.len() > 0
            invariant
                k <= total,
                orig.len() == total,
                rest@ == orig.skip(k as int),
                self@ == insert_all_contexts(start, contexts_view(orig).take(k as int)),
            decreases rest.len(),
        {
            let c = rest.remove(0);
            proof {
                assert(c == orig[k as int]);
                assert(rest@ =~= orig.skip(k + 1));
                assert(contexts_view(orig).take(k + 1).drop_last() =~= contexts_view(orig).take(
                    k as int,
                ));
                assert(contexts_view(orig).take(k + 1).last() == c@);
            }
            self.insert_task(c);
            k = k + 1;
        }
        proof {
            assert(contexts_view(orig).take(total as int) =~= contexts_view(orig));
        }
    }

    /// Takes every task out of `other` and puts it into this tree (see
    /// [`union_spec`]).
    pub fn union(self, other: TaskTree) -> (r: TaskTree)
        ensures
            r@ == union_spec(self@, other@),
    {
        let mut other = other;
        let moved = other.pluck_tasks(false);
        let mut tree = self;
        tree.insert_tasks(moved);
        tree
    }
}

// ---------------------------------------------------------------------------
// Clearing check boxes

/// A task and its sub-tasks without check boxes.
pub open spec fn undone_task(t: TaskView) -> TaskView
    decreases t,
{
    TaskView { done: None, sub_tasks: undone_tasks(t.sub_tasks), ..t }
}

/// Tasks without check boxes, at every level.
pub open spec fn undone_tasks(ts: Seq<TaskView>) -> Seq<TaskView>
    decreases ts,
{
    if ts.len() == 0 {
        Seq::empty()
    } else {
        undone_tasks(ts.drop_last()).push(undone_task(ts.last()))
    }
}

/// A group whose tasks, at every level, have no check boxes.
pub open spec fn undone_group(g: GroupView) -> GroupView
    decreases g,
{
    GroupView { tasks: undone_tasks(g.tasks), sub_groups: undone_groups(g.sub_groups), ..g }
}

/// Groups whose tasks, at every level, have no check boxes.
pub open spec fn undone_groups(gs: Seq<GroupView>) -> Seq<GroupView>
    decreases gs,
{
    if gs.len() == 0 {
        Seq::empty()
    } else {
        undone_groups(gs.drop_last()).push(undone_group(gs.last()))
    }
}

/// Removes the check boxes of tasks at every level (see [`undone_tasks`]).
pub fn clear_done_tasks(ts: &mut Vec<Task>)
    ensures
        task_views(final(ts)@) == undone_tasks(task_views(old(ts)@)),
    decreases *old(ts),
{
    let ghost orig = ts@;
    let ghost ov = task_views(orig);
    proof {
        lemma_task_views(orig);
        assert(ov.take(0) =~= Seq::<TaskView>::empty());
        assert(task_views(ts@).take(0) =~= Seq::<TaskView>::empty());
    }
    let n = ts.len();
    let mut i: usize = 0;
    while i < n
        invariant
            n == ts@.len(),
            n == orig.len(),
            orig == old(ts)@,
            ov == task_views(orig),
            ov.len() == n,
            forall|j: int| 0 <= j < n ==> #[trigger] ov[j] == task_view(orig[j]),
            i <= n,
            forall|j: int| i <= j < n ==> #[trigger] ts@[j] == orig[j],
            undone_tasks(ov.take(i as int)) == task_views(ts@).take(i as int),
        decreases n - i,
    {
        let ghost before = ts@;
        proof {
            lemma_task_views(before);
            assert(ov.take(i + 1).drop_last() =~= ov.take(i as int));
            assert(decreases_to!(*old(ts) => old(ts)@));
            assert(decreases_to!(old(ts)@ => old(ts)@[i as int]));
            assert(decreases_to!(old(ts)@[i as int] => old(ts)@[i as int].sub_tasks));
        }
        let mut t = ts.remove(i);
        let ghost t0 = t;
        t.done = None;
        clear_done_tasks(&mut t.sub_tasks);
        ts.insert(i, t);
        proof {
            assert(t0 == orig[i as int]);
            assert(ov.take(i + 1).last() == ov[i as int]);
            assert(task_view(t) == undone_task(task_view(t0)));
            assert(ts@ =~= before.update(i as int, t));
            lemma_task_views_update(before, i as int, t);
            lemma_task_views(ts@);
            assert(task_views(ts@).take(i + 1) =~= task_views(before).take(i as int).push(
                task_view(t),
            ));
        }
        i = i + 1;
    }
    proof {
        assert(ov.take(n as int) =~= ov);
        lemma_task_views(ts@);
        assert(task_views(ts@).take(n as int) =~= task_views(ts@));
    }
}

/// Removes the check boxes of the tasks of groups at every level (see
/// [`undone_groups`]).
pub fn clear_done_groups(gs: &mut Vec<Group>)
    ensures
        group_views(final(gs)@) == undone_groups(group_views(old(gs)@)),
    decreases *old(gs),
{
    let ghost orig = gs@;
    let ghost ov = group_views(orig);
    proof {
        lemma_group_views(orig);
        assert(ov.take(0) =~= Seq::<GroupView>::empty());
        assert(group_views(gs@).take(0) =~= Seq::<GroupView>::empty());
    }
    let n = gs.len();
    let mut i: usize = 0;
    while i < n
        invariant
            n == gs@.len(),
            n == orig.len(),
            orig == old(gs)@,
            ov == group_views(orig),
            ov.len() == n,
            forall|j: int| 0 <= j < n ==> #[trigger] ov[j] == group_view(orig[j]),
            i <= n,
            forall|j: int| i <= j < n ==> #[trigger] gs@[j] == orig[j],
            undone_groups(ov.take(i as int)) == group_views(gs@).take(i as int),
        decreases n - i,
    {
        let ghost before = gs@;
        proof {
            lemma_group_views(before);
            assert(ov.take(i + 1).drop_last() =~= ov.take(i as int));
            assert(decreases_to!(*old(gs) => old(gs)@));
            assert(decreases_to!(old(gs)@ => old(gs)@[i as int]));
            assert(decreases_to!(old(gs)@[i as int] => old(gs)@[i as int].sub_groups));
        }
        let mut g = gs.remove(i);
        let ghost g0 = g;
        clear_done_tasks(&mut g.tasks);
        clear_done_groups(&mut g.sub_groups);
        gs.insert(i, g);
        proof {
            assert(g0 == orig[i as int]);
            assert(ov.take(i + 1).last() == ov[i as int]);
            assert(group_view(g) == undone_group(group_view(g0)));
            assert(gs@ =~= before.update(i as int, g));
            lemma_group_views_update(before, i as int, g);
            lemma_group_views(gs@);
            assert(group_views(gs@).take(i + 1) =~= group_views(before).take(i as int).push(
                group_view(g),
            ));
        }
        i = i + 1;
    }
    proof {
        assert(ov.take(n as int) =~= ov);
        lemma_group_views(gs@);
        assert(group_views(gs@).take(n as int) =~= group_views(gs@));
    }
}

// ---------------------------------------------------------------------------
// Archiving completed tasks

/// The two trees after archiving: the done tasks of `todo`, with their
/// sub-tasks, move into `done` where they were in `todo`; both trees drop
/// groups left with nothing; no task of `done` keeps a check box.
pub open spec fn extract_completed_spec(todo: Seq<GroupView>, done: Seq<GroupView>) -> (
    Seq<GroupView>,
    Seq<GroupView>,
) {
    let p = pluck_groups(todo, Seq::empty(), true);
    (prune_all(p.0), undone_groups(prune_all(insert_all_contexts(done, p.1))))
}

/// Moves the done tasks of `todo` into `done` (see
/// [`extract_completed_spec`]).
pub fn extract_completed(todo: &mut TaskTree, done: &mut TaskTree)
    ensures
        (final(todo)@, final(done)@) == extract_completed_spec(old(todo)@, old(done)@),
{
    let moved = todo.pluck_tasks(true);
    done.insert_tasks(moved);
    todo.remove_empty_groups();
    done.remove_empty_groups();
    clear_done_groups(&mut done.groups);
}

impl TaskTree {
    /// Seconds of the span spent on the tree's tasks (see [`groups_time`]);
    /// `None` when a session's time is unknown or the sum exceeds a time
    /// delta.
    pub fn time_delta(&self, span: &Span<ZonedDateTime>, zone: &Zone) -> (r: Option<i64>)
        ensures
            r == groups_time(zone@, self@, *span),
            time_ok(r),
            r matches Some(t) ==> 0 <= t,
    {
        groups_time_delta(&self.groups, span, zone)
    }
}

impl TaskTree {
    /// The groups in depth-first order, with the texts of their parent
    /// groups (see [`group_walk`]).
    pub fn iter(&self) -> (r: Vec<IteratorItem<'_, Group>>)
        ensures
            group_items_view(r@) == group_walk(self@, Seq::empty()),
    {
        let mut out: Vec<IteratorItem<'_, Group>> = Vec::new();
        let mut path: Vec<String> = Vec::new();
        proof {
            assert(group_items_view(out@) =~= Seq::<(Seq<Seq<char>>, GroupView)>::empty());
            assert(strings_view(path@) =~= Seq::<Seq<char>>::empty());
        }
        walk_groups(&self.groups, &mut path, &mut out);
        proof {
            assert(group_items_view(out@) =~= group_walk(self@, Seq::empty()));
        }
        out
    }
}


/// A session met while walking the tree: the group and the task that hold
/// it, as the depth-first walks give them, and its index in the task.
#[derive(Debug)]
pub struct SessionItem<'a> {
    pub group: IteratorItem<'a, Group>,
    pub task: IteratorItem<'a, Task>,
    pub session: &'a Session,
    pub index: usize,
}

/// Model of a [`SessionItem`]: group path and group, task path and task,
/// session and index.
pub type SessionVisit = (Seq<Seq<char>>, GroupView, Seq<Seq<char>>, TaskView, SessionView, int);

/// The models of met sessions.
pub open spec fn session_items_view(s: Seq<SessionItem>) -> Seq<SessionVisit> {
    s.map_values(
        |it: SessionItem|
            (
                strings_view(it.group.parent_path@),
                it.group.child@,
                strings_view(it.task.parent_path@),
                it.task.child@,
                it.session@,
                it.index as int,
            ),
    )
}

/// The first `k` sessions of the walked task `t` in the walked group `g`.
pub open spec fn task_visits(
    g: (Seq<Seq<char>>, GroupView),
    t: (Seq<Seq<char>>, TaskView),
    k: int,
) -> Seq<SessionVisit> {
    Seq::new(k as nat, |i: int| (g.0, g.1, t.0, t.1, t.1.sessions[i], i))
}

/// The sessions of the walked tasks `ts`, in order, in the walked group `g`.
pub open spec fn tasks_visits(
    g: (Seq<Seq<char>>, GroupView),
    ts: Seq<(Seq<Seq<char>>, TaskView)>,
) -> Seq<SessionVisit>
    decreases ts.len(),
{
    if ts.len() == 0 {
        Seq::empty()
    } else {
        tasks_visits(g, ts.drop_last()) + task_visits(
            g,
            ts.last(),
            ts.last().1.sessions.len() as int,
        )
    }
}

/// The sessions of the walked groups `gs`: for each group, those of the
/// tasks of its own depth-first task walk.
pub open spec fn groups_visits(gs: Seq<(Seq<Seq<char>>, GroupView)>) -> Seq<SessionVisit>
    decreases gs.len(),
{
    if gs.len() == 0 {
        Seq::empty()
    } else {
        groups_visits(gs.drop_last()) + tasks_visits(
            gs.last(),
            task_walk(gs.last().1.tasks, Seq::empty()),
        )
    }
}

/// Copies a walked item: the same child, an equal path.
fn copy_item<'a, C>(it: &IteratorItem<'a, C>) -> (r: IteratorItem<'a, C>)
    ensures
        r.child == it.child,
        strings_view(r.parent_path@) == strings_view(it.parent_path@),
{
    IteratorItem { child: it.child, parent_path: clone_strings(&it.parent_path) }
}

impl TaskTree {
    /// Every session of the tree, group by group in the depth-first group
    /// walk, task by task in each group's depth-first task walk, in the
    /// order of the task's list (see [`groups_visits`]).
    pub fn _with_sessions<'a>(&'a self) -> (r: Vec<SessionItem<'a>>)
        ensures
            session_items_view(r@) == groups_visits(group_walk(self@, Seq::empty())),
    {
        let groups = self.iter();
        let ghost gv = group_items_view(groups@);
        let mut out: Vec<SessionItem<'a>> = Vec::new();
        proof {
            assert(gv.take(0) =~= Seq::<(Seq<Seq<char>>, GroupView)>::empty());
            assert(session_items_view(out@) =~= Seq::<SessionVisit>::empty());
        }
        let mut i: usize = 0;
        while i < groups.len()
            invariant
                i <= groups@.len(),
                gv == group_items_view(groups@),
                gv.len() == groups@.len(),
                session_items_view(out@) == groups_visits(gv.take(i as int)),
            decreases groups.len() - i,
        {
            let gi = &groups[i];
            let gc: &'a Group = gi.child;
            let ghost g = gv[i as int];
            assert(g == (strings_view(gi.parent_path@), gc@));
            let tasks = gc.iter();
            let ghost tv = task_items_view(tasks@);
            let ghost base = session_items_view(out@);
            proof {
                assert(tv.take(0) =~= Seq::<(Seq<Seq<char>>, TaskView)>::empty());
                assert(base + tasks_visits(g, tv.take(0)) =~= base);
            }
            let mut j: usize = 0;
            while j < tasks.len()
                invariant
                    j <= tasks@.len(),
                    tv == task_items_view(tasks@),
                    tv.len() == tasks@.len(),
                    g == (strings_view(gi.parent_path@), gc@),
                    gc == gi.child,
                    session_items_view(out@) == base + tasks_visits(g, tv.take(j as int)),
                decreases tasks.len() - j,
            {
                let ti = &tasks[j];
                let tc: &'a Task = ti.child;
                let ghost t = tv[j as int];
                assert(t == (strings_view(ti.parent_path@), tc@));
                let ghost base2 = session_items_view(out@);
                proof {
                    assert(base2 + task_visits(g, t, 0) =~= base2);
                }
                let mut k: usize = 0;
                while k < tc.sessions.len()
                    invariant
                        k <= tc.sessions@.len(),
                        t.1.sessions.len() == tc.sessions@.len(),
                        t == (strings_view(ti.parent_path@), tc@),
                        g == (strings_view(gi.parent_path@), gc@),
                        gc == gi.child,
                        tc == ti.child,
                        session_items_view(out@) == base2 + task_visits(g, t, k as int),
                    decreases tc.sessions.len() - k,
                {
                    let ghost before = session_items_view(out@);
                    let item = SessionItem {
                        group: copy_item(gi),
                        task: copy_item(ti),
                        session: &tc.sessions[k],
                        index: k,
                    };
                    out.push(item);
                    proof {
                        assert(t.1.sessions == sessions_view(tc.sessions@));
                        assert(t.1.sessions[k as int] == tc.sessions@[k as int]@);
                        assert(out@.last().session@ == tc.sessions@[k as int]@);
                        assert(session_items_view(out@) =~= before.push(
                            (g.0, g.1, t.0, t.1, t.1.sessions[k as int], k as int),
                        ));
                        assert(task_visits(g, t, k + 1) =~= task_visits(g, t, k as int).push(
                            (g.0, g.1, t.0, t.1, t.1.sessions[k as int], k as int),
                        ));
                    }
                    k = k + 1;
                }
                proof {
                    let q = tv.take(j + 1);
                    assert(q.drop_last() =~= tv.take(j as int));
                    assert(q.last() == t);
                    assert(session_items_view(out@) =~= base + tasks_visits(g, q));
                }
                j = j + 1;
            }
            proof {
                assert(tv.take(tv.len() as int) =~= tv);
                let q = gv.take(i + 1);
                assert(q.drop_last() =~= gv.take(i as int));
                assert(q.last() == g);
                assert(session_items_view(out@) =~= groups_visits(q));
            }
            i = i + 1;
        }
        proof {
            assert(gv.take(gv.len() as int) =~= gv);
        }
        out
    }
}


impl TaskTree {
    /// Records the session last on the task at the path (see
    /// [`group_add_session`]); `false`, with the tree as it was, when the
    /// path leads to no group or no task.
    pub fn add_session(&mut self, path: &TaskPath, session: Session) -> (r: bool)
        ensures
            match group_add_session(
                old(self)@,
                path@.group.parent_ids,
                path@.group.child_id,
                path@.task.parent_ids,
                path@.task.child_id,
                session@,
            ) {
                Some(n) => r && final(self)@ == n,
                None => !r && final(self)@ == old(self)@,
            },
    {
        proof {
            assert(strings_view(path.group.parent_ids@).skip(0) =~= strings_view(
                path.group.parent_ids@,
            ));
        }
        add_group_session(
            &mut self.groups,
            &path.group.parent_ids,
            0,
            &path.group.child_id,
            &path.task.parent_ids,
            &path.task.child_id,
            session,
        )
    }
}


/// A calendar event for a session of the tree: where the session is, and
/// the event's start, end and repeat rule.
#[derive(Debug)]
pub struct IcsEvent<'a> {
    pub item: SessionItem<'a>,
    pub start: IcsTime,
    pub end: IcsTime,
    pub rule: Option<String>,
}

/// The sessions, in order, that can be written for iCalendar.
pub open spec fn exportable_visits(vs: Seq<SessionVisit>) -> Seq<SessionVisit>
    decreases vs.len(),
{
    if vs.len() == 0 {
        Seq::empty()
    } else {
        let rest = exportable_visits(vs.drop_last());
        if session_exportable(vs.last().4) {
            rest.push(vs.last())
        } else {
            rest
        }
    }
}

/// Where the events' sessions are.
pub open spec fn event_visits(s: Seq<IcsEvent>) -> Seq<SessionVisit> {
    session_items_view(s.map_values(|e: IcsEvent| e.item))
}

/// Whether an event's start, end and rule are those of its session.
pub open spec fn event_fits(e: IcsEvent) -> bool {
    &&& ics_start(e.item.session@, e.start)
    &&& ics_end(e.item.session@, e.end)
    &&& match e.rule {
        Some(t) => event_rule(e.item.session@) == Some(t@),
        None => event_rule(e.item.session@) is None,
    }
}

impl TaskTree {
    /// The calendar events of the tree: one for each session that can be
    /// written for iCalendar, in the order of [`TaskTree::_with_sessions`].
    pub fn ics_events<'a>(&'a self) -> (r: Vec<IcsEvent<'a>>)
        ensures
            event_visits(r@) == exportable_visits(groups_visits(group_walk(self@, Seq::empty()))),
            forall|i: int| 0 <= i < r@.len() ==> event_fits(#[trigger] r@[i]),
    {
        let items = self._with_sessions();
        let ghost iv = session_items_view(items@);
        let mut out: Vec<IcsEvent<'a>> = Vec::new();
        proof {
            assert(iv.take(0) =~= Seq::<SessionVisit>::empty());
            assert(event_visits(out@) =~= Seq::<SessionVisit>::empty());
        }
        let mut i: usize = 0;
        while i < items.len()
            invariant
                i <= items@.len(),
                iv == session_items_view(items@),
                iv.len() == items@.len(),
                event_visits(out@) == exportable_visits(iv.take(i as int)),
                forall|j: int| 0 <= j < out@.len() ==> event_fits(#[trigger] out@[j]),
            decreases items.len() - i,
        {
            let it = &items[i];
            let sess: &'a Session = it.session;
            proof {
                assert(iv.take(i + 1).drop_last() =~= iv.take(i as int));
                assert(iv.take(i + 1).last() == iv[i as int]);
            }
            if sess.is_exportable() {
                let ghost before = event_visits(out@);
                let ev = IcsEvent {
                    item: SessionItem {
                        group: copy_item(&it.group),
                        task: copy_item(&it.task),
                        session: sess,
                        index: it.index,
                    },
                    start: sess.dt_start(),
                    end: sess.dt_end(),
                    rule: sess.event_rule(),
                };
                out.push(ev);
                proof {
                    assert(event_visits(out@) =~= before.push(iv[i as int]));
                }
            }
            i = i + 1;
        }
        proof {
            assert(iv.take(iv.len() as int) =~= iv);
        }
        out
    }
}


/// The paths of the walked tasks `ts` of the walked group `g` that are
/// not checked done, in order.
pub open spec fn open_task_paths(
    g: (Seq<Seq<char>>, GroupView),
    ts: Seq<(Seq<Seq<char>>, TaskView)>,
) -> Seq<TaskPathView>
    decreases ts.len(),
{
    if ts.len() == 0 {
        Seq::empty()
    } else {
        let rest = open_task_paths(g, ts.drop_last());
        let t = ts.last();
        if t.1.done == Some(true) {
            rest
        } else {
            rest.push(
                TaskPathView {
                    group: PathView { parent_ids: g.0, child_id: g.1.text },
                    task: PathView { parent_ids: t.0, child_id: t.1.text },
                },
            )
        }
    }
}

/// The paths of the tasks not checked done of the walked groups `gs`: for
/// each group, those of its own depth-first task walk.
pub open spec fn open_paths(gs: Seq<(Seq<Seq<char>>, GroupView)>) -> Seq<TaskPathView>
    decreases gs.len(),
{
    if gs.len() == 0 {
        Seq::empty()
    } else {
        open_paths(gs.drop_last()) + open_task_paths(
            gs.last(),
            task_walk(gs.last().1.tasks, Seq::empty()),
        )
    }
}

/// The models of task paths.
pub open spec fn task_paths_view(s: Seq<TaskPath>) -> Seq<TaskPathView> {
    s.map_values(|p: TaskPath| p@)
}

impl TaskTree {
    /// The path of every task that is not checked done, group by group in
    /// the depth-first group walk, task by task in each group's depth-first
    /// task walk (see [`open_paths`]).
    pub fn incomplete_task_paths(&self) -> (r: Vec<TaskPath>)
        ensures
            task_paths_view(r@) == open_paths(group_walk(self@, Seq::empty())),
    {
        let groups = self.iter();
        let ghost gv = group_items_view(groups@);
        let mut out: Vec<TaskPath> = Vec::new();
        proof {
            assert(gv.take(0) =~= Seq::<(Seq<Seq<char>>, GroupView)>::empty());
            assert(task_paths_view(out@) =~= Seq::<TaskPathView>::empty());
        }
        let mut i: usize = 0;
        while i < groups.len()
            invariant
                i <= groups@.len(),
                gv == group_items_view(groups@),
                gv.len() == groups@.len(),
                task_paths_view(out@) == open_paths(gv.take(i as int)),
            decreases groups.len() - i,
        {
            let gi = &groups[i];
            let gc = gi.child;
            let ghost g = gv[i as int];
            assert(g == (strings_view(gi.parent_path@), gc@));
            let tasks = gc.iter();
            let ghost tv = task_items_view(tasks@);
            let ghost base = task_paths_view(out@);
            proof {
                assert(tv.take(0) =~= Seq::<(Seq<Seq<char>>, TaskView)>::empty());
                assert(base + open_task_paths(g, tv.take(0)) =~= base);
            }
            let mut j: usize = 0;
            while j < tasks.len()
                invariant
                    j <= tasks@.len(),
                    tv == task_items_view(tasks@),
                    tv.len() == tasks@.len(),
                    g == (strings_view(gi.parent_path@), gc@),
                    gc == gi.child,
                    task_paths_view(out@) == base + open_task_paths(g, tv.take(j as int)),
                decreases tasks.len() - j,
            {
                let ti = &tasks[j];
                let ghost t = tv[j as int];
                assert(t == (strings_view(ti.parent_path@), ti.child@));
                proof {
                    assert(tv.take(j + 1).drop_last() =~= tv.take(j as int));
                    assert(tv.take(j + 1).last() == t);
                }
                let checked = match ti.child.done {
                    Some(d) => d,
                    None => false,
                };
                if !checked {
                    let ghost before = task_paths_view(out@);
                    let p = TaskPath {
                        group: Path { parent_ids: clone_strings(&gi.parent_path), child_id: gc.text.clone() },
                        task: Path { parent_ids: clone_strings(&ti.parent_path), child_id: ti.child.text.clone() },
                    };
                    out.push(p);
                    proof {
                        assert(task_paths_view(out@) =~= before.push(p@));
                    }
                }
                proof {
                    assert(task_paths_view(out@) =~= base + open_task_paths(g, tv.take(j + 1)));
                }
                j = j + 1;
            }
            proof {
                assert(tv.take(tv.len() as int) =~= tv);
                let q = gv.take(i + 1);
                assert(q.drop_last() =~= gv.take(i as int));
                assert(q.last() == g);
                assert(task_paths_view(out@) =~= open_paths(q));
            }
            i = i + 1;
        }
        proof {
            assert(gv.take(gv.len() as int) =~= gv);
        }
        out
    }
}


/// The message of a task file error.
pub open spec fn tree_err_text(e: TaskTreeErrView) -> Seq<char> {
    match e {
        TaskTreeErrView::HeadingOrder => "Heading parent missing"@,
        TaskTreeErrView::LooseTasks => "Tasks without group"@,
        TaskTreeErrView::Task(t) => "Task error: "@ + task_err_text(t),
        TaskTreeErrView::Markdown(m) => "Invalid Markdown: "@ + m,
    }
}

impl TaskTreeErr {
    /// The message of the error (see [`tree_err_text`]).
    pub fn message(&self) -> (r: String)
        ensures
            r@ == tree_err_text(self@),
    {
        match self {
            TaskTreeErr::HeadingOrder => "Heading parent missing".to_owned(),
            TaskTreeErr::LooseTasks => "Tasks without group".to_owned(),
            TaskTreeErr::Task(e) => {
                let mut out = "Task error: ".to_owned();
                push_str(&mut out, e.message().as_str());
                out
            },
            TaskTreeErr::Markdown(m) => {
                let mut out = "Invalid Markdown: ".to_owned();
                push_str(&mut out, m.as_str());
                out
            },
        }
    }
}

} // verus!
