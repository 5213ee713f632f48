//! What the tree operations keep: every session recorded in a tree stays
//! recorded, as often as it was, when tasks are inserted, moved between
//! trees, or groups are dropped; moved tasks land in the group and below
//! the parent tasks they were taken from; what archiving leaves behind;
//! and how a tree is laid out when written.
use vstd::prelude::*;
use crate::session::SessionView;
use crate::task::{TaskView, tasks_text, task_text, done_mark, sessions_text};
use crate::group::{GroupView, empty_group};
use crate::tree::{
    find_task, find_task_from, new_task, task_insert, task_insert_all, find_group, find_group_from,
    group_insert, group_insert_all, plucked, left_of, taken_of, at_path, descend, extract_tasks,
    task_add_session, group_add_session, group_walk, task_walk,
};
use crate::group::{has_content, pruned, prune_all, group_text, groups_text};
use crate::tasktree::{
    MoveContextView, add_task_at, tree_insert_task, insert_all_contexts, with_group, pluck_group,
    pluck_groups, union_spec, undone_task, undone_tasks, undone_group, undone_groups,
    extract_completed_spec,
};

verus! {

/// How often a session occurs in a list of sessions.
pub open spec fn occurrences(s: Seq<SessionView>, v: SessionView) -> nat
    decreases s.len(),
{
    if s.len() == 0 {
        0
    } else {
        occurrences(s.drop_last(), v) + if s.last() == v {
            1nat
        } else {
            0nat
        }
    }
}

/// How often a session is recorded on a task and its sub-tasks.
pub open spec fn task_count(t: TaskView, v: SessionView) -> nat
    decreases t,
{
    occurrences(t.sessions, v) + tasks_count(t.sub_tasks, v)
}

/// How often a session is recorded on tasks and their sub-tasks.
pub open spec fn tasks_count(ts: Seq<TaskView>, v: SessionView) -> nat
    decreases ts,
{
    if ts.len() == 0 {
        0
    } else {
        tasks_count(ts.drop_last(), v) + task_count(ts.last(), v)
    }
}

/// How often a session is recorded in a group and its sub-groups.
pub open spec fn group_count(g: GroupView, v: SessionView) -> nat
    decreases g,
{
    tasks_count(g.tasks, v) + groups_count(g.sub_groups, v)
}

/// How often a session is recorded in groups.
pub open spec fn groups_count(gs: Seq<GroupView>, v: SessionView) -> nat
    decreases gs,
{
    if gs.len() == 0 {
        0
    } else {
        groups_count(gs.drop_last(), v) + group_count(gs.last(), v)
    }
}

/// Occurrences in joined lists add up.
proof fn lemma_occurrences_concat(a: Seq<SessionView>, b: Seq<SessionView>, v: SessionView)
    ensures
        occurrences(a + b, v) == occurrences(a, v) + occurrences(b, v),
    decreases b.len(),
{
    if b.len() == 0 {
        assert(a + b =~= a);
    } else {
        lemma_occurrences_concat(a, b.drop_last(), v);
        assert((a + b).drop_last() =~= a + b.drop_last());
    }
}

// ---------------------------------------------------------------------------
// Lists of tasks and groups

/// The first task with a text, when there is one, is in the list.
proof fn lemma_find_task_from(ts: Seq<TaskView>, id: Seq<char>, i: int)
    ensures
        find_task_from(ts, id, i) matches Some(j) ==> i <= j < ts.len() && ts[j].text == id,
    decreases ts.len() - i,
{
    if 0 <= i < ts.len() && ts[i].text != id {
        lemma_find_task_from(ts, id, i + 1);
    }
}

/// Replacing one task of a list replaces what it records.
proof fn lemma_tasks_count_update(ts: Seq<TaskView>, i: int, t: TaskView, v: SessionView)
    requires
        0 <= i < ts.len(),
    ensures
        tasks_count(ts.update(i, t), v) + task_count(ts[i], v) == tasks_count(ts, v) + task_count(
            t,
            v,
        ),
    decreases ts.len(),
{
    let u = ts.update(i, t);
    if i == ts.len() - 1 {
        assert(u.drop_last() =~= ts.drop_last());
    } else {
        lemma_tasks_count_update(ts.drop_last(), i, t, v);
        assert(u.drop_last() =~= ts.drop_last().update(i, t));
    }
}

/// What a list with one more task records.
proof fn lemma_tasks_count_push(ts: Seq<TaskView>, t: TaskView, v: SessionView)
    ensures
        tasks_count(ts.push(t), v) == tasks_count(ts, v) + task_count(t, v),
{
    assert(ts.push(t).drop_last() =~= ts);
}

/// The first group with a text, when there is one, is in the list.
proof fn lemma_find_group_from(gs: Seq<GroupView>, id: Seq<char>, i: int)
    ensures
        find_group_from(gs, id, i) matches Some(j) ==> i <= j < gs.len() && gs[j].text == id,
    decreases gs.len() - i,
{
    if 0 <= i < gs.len() && gs[i].text != id {
        lemma_find_group_from(gs, id, i + 1);
    }
}

/// Replacing a group by one with the same text finds the same groups.
proof fn lemma_find_group_update(gs: Seq<GroupView>, i: int, g: GroupView, id: Seq<char>, k: int)
    requires
        0 <= i < gs.len(),
        g.text == gs[i].text,
        0 <= k,
    ensures
        find_group_from(gs.update(i, g), id, k) == find_group_from(gs, id, k),
    decreases gs.len() - k,
{
    if k < gs.len() {
        lemma_find_group_update(gs, i, g, id, k + 1);
    }
}

/// A group added last is found by its text when no group before has it.
proof fn lemma_find_group_push(gs: Seq<GroupView>, g: GroupView, k: int)
    requires
        0 <= k <= gs.len(),
        find_group_from(gs, g.text, k) is None,
    ensures
        find_group_from(gs.push(g), g.text, k) == Some(gs.len() as int),
    decreases gs.len() - k,
{
    if k < gs.len() {
        lemma_find_group_push(gs, g, k + 1);
    }
}

/// Replacing one group of a list replaces what it records.
proof fn lemma_groups_count_update(gs: Seq<GroupView>, i: int, g: GroupView, v: SessionView)
    requires
        0 <= i < gs.len(),
    ensures
        groups_count(gs.update(i, g), v) + group_count(gs[i], v) == groups_count(gs, v)
            + group_count(g, v),
    decreases gs.len(),
{
    let u = gs.update(i, g);
    if i == gs.len() - 1 {
        assert(u.drop_last() =~= gs.drop_last());
    } else {
        lemma_groups_count_update(gs.drop_last(), i, g, v);
        assert(u.drop_last() =~= gs.drop_last().update(i, g));
    }
}

/// What a list with one more group records.
proof fn lemma_groups_count_push(gs: Seq<GroupView>, g: GroupView, v: SessionView)
    ensures
        groups_count(gs.push(g), v) == groups_count(gs, v) + group_count(g, v),
{
    assert(gs.push(g).drop_last() =~= gs);
}

// ---------------------------------------------------------------------------
// Inserting

/// Inserting a task into a list of tasks keeps every session of the list
/// and of the inserted task, as often as they were recorded, and adds no
/// other.
pub proof fn lemma_task_insert_keeps_sessions(
    ts: Seq<TaskView>,
    path: Seq<Seq<char>>,
    child: TaskView,
    v: SessionView,
)
    ensures
        tasks_count(task_insert(ts, path, child), v) == tasks_count(ts, v) + task_count(child, v),
    decreases path.len(), child,
{
    if path.len() > 0 {
        lemma_find_task_from(ts, path[0], 0);
        let (ts1, i) = match find_task(ts, path[0]) {
            Some(i) => (ts, i),
            None => (ts.push(new_task(path[0])), ts.len() as int),
        };
        if find_task(ts, path[0]) is None {
            lemma_tasks_count_push(ts, new_task(path[0]), v);
        }
        let t = ts1[i];
        let t2 = TaskView { sub_tasks: task_insert(t.sub_tasks, path.drop_first(), child), ..t };
        lemma_task_insert_keeps_sessions(t.sub_tasks, path.drop_first(), child, v);
        lemma_tasks_count_update(ts1, i, t2, v);
    } else {
        lemma_find_task_from(ts, child.text, 0);
        match find_task(ts, child.text) {
            Some(i) => {
                let t = ts[i];
                let t2 = TaskView {
                    sessions: t.sessions + child.sessions,
                    sub_tasks: task_insert_all(t.sub_tasks, child.sub_tasks),
                    ..t
                };
                lemma_task_insert_all_keeps_sessions(t.sub_tasks, child.sub_tasks, v);
                lemma_occurrences_concat(t.sessions, child.sessions, v);
                lemma_tasks_count_update(ts, i, t2, v);
            },
            None => {
                lemma_tasks_count_push(ts, child, v);
            },
        }
    }
}

/// Inserting tasks one after the other keeps every session.
pub proof fn lemma_task_insert_all_keeps_sessions(
    ts: Seq<TaskView>,
    kids: Seq<TaskView>,
    v: SessionView,
)
    ensures
        tasks_count(task_insert_all(ts, kids), v) == tasks_count(ts, v) + tasks_count(kids, v),
    decreases 0nat, kids,
{
    if kids.len() > 0 {
        lemma_task_insert_all_keeps_sessions(ts, kids.drop_last(), v);
        lemma_task_insert_keeps_sessions(
            task_insert_all(ts, kids.drop_last()),
            Seq::empty(),
            kids.last(),
            v,
        );
    }
}

/// Whether a task is found along the path of texts, each among the
/// sub-tasks of the one before.
pub open spec fn has_task_at(ts: Seq<TaskView>, p: Seq<Seq<char>>) -> bool
    decreases p.len(),
{
    if p.len() == 0 {
        false
    } else {
        match find_task(ts, p[0]) {
            None => false,
            Some(i) => p.len() == 1 || has_task_at(ts[i].sub_tasks, p.drop_first()),
        }
    }
}

/// Replacing a task by one with the same text finds the same tasks.
proof fn lemma_find_task_update(ts: Seq<TaskView>, i: int, t: TaskView, id: Seq<char>, k: int)
    requires
        0 <= i < ts.len(),
        t.text == ts[i].text,
        0 <= k,
    ensures
        find_task_from(ts.update(i, t), id, k) == find_task_from(ts, id, k),
    decreases ts.len() - k,
{
    if k < ts.len() {
        lemma_find_task_update(ts, i, t, id, k + 1);
    }
}

/// A task added last is found by its text when no task before has it.
proof fn lemma_find_task_push(ts: Seq<TaskView>, t: TaskView, k: int)
    requires
        0 <= k <= ts.len(),
        find_task_from(ts, t.text, k) is None,
    ensures
        find_task_from(ts.push(t), t.text, k) == Some(ts.len() as int),
    decreases ts.len() - k,
{
    if k < ts.len() {
        lemma_find_task_push(ts, t, k + 1);
    }
}

/// After a task is inserted at a path, a task with its text is found at
/// that path.
pub proof fn lemma_task_insert_places(ts: Seq<TaskView>, path: Seq<Seq<char>>, child: TaskView)
    ensures
        has_task_at(task_insert(ts, path, child), path.push(child.text)),
    decreases path.len(),
{
    let p = path.push(child.text);
    if path.len() > 0 {
        lemma_find_task_from(ts, path[0], 0);
        let (ts1, i) = match find_task(ts, path[0]) {
            Some(i) => (ts, i),
            None => (ts.push(new_task(path[0])), ts.len() as int),
        };
        if find_task(ts, path[0]) is None {
            lemma_find_task_push(ts, new_task(path[0]), 0);
        }
        let t = ts1[i];
        let t2 = TaskView { sub_tasks: task_insert(t.sub_tasks, path.drop_first(), child), ..t };
        lemma_find_task_update(ts1, i, t2, path[0], 0);
        lemma_task_insert_places(t.sub_tasks, path.drop_first(), child);
        assert(p[0] == path[0]);
        assert(p.drop_first() =~= path.drop_first().push(child.text));
    } else {
        lemma_find_task_from(ts, child.text, 0);
        match find_task(ts, child.text) {
            Some(i) => {
                let t = ts[i];
                let t2 = TaskView {
                    sessions: t.sessions + child.sessions,
                    sub_tasks: task_insert_all(t.sub_tasks, child.sub_tasks),
                    ..t
                };
                lemma_find_task_update(ts, i, t2, child.text, 0);
            },
            None => {
                lemma_find_task_push(ts, child, 0);
            },
        }
    }
}

/// Whether a group is found along the path of texts, each among the
/// sub-groups of the one before.
pub open spec fn has_group_at(gs: Seq<GroupView>, p: Seq<Seq<char>>) -> bool
    decreases p.len(),
{
    if p.len() == 0 {
        false
    } else {
        match find_group(gs, p[0]) {
            None => false,
            Some(i) => p.len() == 1 || has_group_at(gs[i].sub_groups, p.drop_first()),
        }
    }
}

/// After a group is inserted at a path, a group with its text is found at
/// that path.
pub proof fn lemma_group_insert_places(gs: Seq<GroupView>, path: Seq<Seq<char>>, child: GroupView)
    ensures
        has_group_at(group_insert(gs, path, child), path.push(child.text)),
    decreases path.len(),
{
    let r = group_insert(gs, path, child);
    let p = path.push(child.text);
    if path.len() > 0 {
        lemma_find_group_from(gs, path[0], 0);
        let (gs1, i) = match find_group(gs, path[0]) {
            Some(i) => (gs, i),
            None => (gs.push(empty_group(path[0])), gs.len() as int),
        };
        if find_group(gs, path[0]) is None {
            lemma_find_group_push(gs, empty_group(path[0]), 0);
        }
        let g = gs1[i];
        let g2 = GroupView {
            sub_groups: group_insert(g.sub_groups, path.drop_first(), child),
            ..g
        };
        lemma_find_group_update(gs1, i, g2, path[0], 0);
        lemma_group_insert_places(g.sub_groups, path.drop_first(), child);
        assert(p[0] == path[0]);
        assert(p.drop_first() =~= path.drop_first().push(child.text));
    } else {
        lemma_find_group_from(gs, child.text, 0);
        match find_group(gs, child.text) {
            Some(i) => {
                let g = gs[i];
                let g2 = GroupView {
                    sub_groups: group_insert_all(g.sub_groups, child.sub_groups),
                    ..g
                };
                lemma_find_group_update(gs, i, g2, child.text, 0);
            },
            None => {
                lemma_find_group_push(gs, child, 0);
            },
        }
    }
}

/// Inserting a group with nothing in it records no session more or less.
pub proof fn lemma_group_insert_empty_keeps_sessions(
    gs: Seq<GroupView>,
    path: Seq<Seq<char>>,
    id: Seq<char>,
    v: SessionView,
)
    ensures
        groups_count(group_insert(gs, path, empty_group(id)), v) == groups_count(gs, v),
    decreases path.len(),
{
    let child = empty_group(id);
    if path.len() > 0 {
        lemma_find_group_from(gs, path[0], 0);
        let (gs1, i) = match find_group(gs, path[0]) {
            Some(i) => (gs, i),
            None => (gs.push(empty_group(path[0])), gs.len() as int),
        };
        if find_group(gs, path[0]) is None {
            lemma_groups_count_push(gs, empty_group(path[0]), v);
        }
        let g = gs1[i];
        let g2 = GroupView {
            sub_groups: group_insert(g.sub_groups, path.drop_first(), child),
            ..g
        };
        lemma_group_insert_empty_keeps_sessions(g.sub_groups, path.drop_first(), id, v);
        lemma_groups_count_update(gs1, i, g2, v);
    } else {
        lemma_find_group_from(gs, child.text, 0);
        match find_group(gs, child.text) {
            Some(i) => {
                let g = gs[i];
                let g2 = GroupView {
                    sub_groups: group_insert_all(g.sub_groups, child.sub_groups),
                    ..g
                };
                assert(g2 == g);
                assert(gs.update(i, g2) =~= gs);
            },
            None => {
                lemma_groups_count_push(gs, child, v);
            },
        }
    }
}

/// Inserting a task at a group found along a path records its sessions
/// there, and changes nothing else.
proof fn lemma_add_task_at_keeps_sessions(
    gs: Seq<GroupView>,
    gpath: Seq<Seq<char>>,
    tpath: Seq<Seq<char>>,
    t: TaskView,
    v: SessionView,
)
    requires
        has_group_at(gs, gpath),
    ensures
        groups_count(add_task_at(gs, gpath, tpath, t), v) == groups_count(gs, v) + task_count(t, v),
    decreases gpath.len(),
{
    lemma_find_group_from(gs, gpath[0], 0);
    let i = find_group(gs, gpath[0])->0;
    let g = gs[i];
    if gpath.len() == 1 {
        let g2 = GroupView { tasks: task_insert(g.tasks, tpath, t), ..g };
        lemma_task_insert_keeps_sessions(g.tasks, tpath, t, v);
        lemma_groups_count_update(gs, i, g2, v);
    } else {
        let g2 = GroupView {
            sub_groups: add_task_at(g.sub_groups, gpath.drop_first(), tpath, t),
            ..g
        };
        lemma_add_task_at_keeps_sessions(g.sub_groups, gpath.drop_first(), tpath, t, v);
        lemma_groups_count_update(gs, i, g2, v);
    }
}

/// Putting a moved task into a tree records its sessions there, as often
/// as the task recorded them, and changes no other count.
pub proof fn lemma_tree_insert_task_keeps_sessions(
    gs: Seq<GroupView>,
    c: MoveContextView,
    v: SessionView,
)
    ensures
        groups_count(tree_insert_task(gs, c), v) == groups_count(gs, v) + task_count(c.task, v),
{
    let g1 = group_insert(gs, c.group_path, empty_group(c.group_id));
    lemma_group_insert_empty_keeps_sessions(gs, c.group_path, c.group_id, v);
    lemma_group_insert_places(gs, c.group_path, empty_group(c.group_id));
    lemma_add_task_at_keeps_sessions(
        g1,
        c.group_path.push(c.group_id),
        c.task_path,
        c.task,
        v,
    );
}

/// How often a session is recorded on moved tasks.
pub open spec fn contexts_count(cs: Seq<MoveContextView>, v: SessionView) -> nat
    decreases cs.len(),
{
    if cs.len() == 0 {
        0
    } else {
        contexts_count(cs.drop_last(), v) + task_count(cs.last().task, v)
    }
}

/// Putting moved tasks into a tree, one after the other, records their
/// sessions there.
pub proof fn lemma_insert_all_contexts_keeps_sessions(
    gs: Seq<GroupView>,
    cs: Seq<MoveContextView>,
    v: SessionView,
)
    ensures
        groups_count(insert_all_contexts(gs, cs), v) == groups_count(gs, v) + contexts_count(cs, v),
    decreases cs.len(),
{
    if cs.len() > 0 {
        lemma_insert_all_contexts_keeps_sessions(gs, cs.drop_last(), v);
        lemma_tree_insert_task_keeps_sessions(insert_all_contexts(gs, cs.drop_last()), cs.last(), v);
    }
}

// ---------------------------------------------------------------------------
// Taking tasks out

/// How often a session is recorded on tasks taken out of a tree.
pub open spec fn moves_count(ms: Seq<(Seq<Seq<char>>, TaskView)>, v: SessionView) -> nat
    decreases ms.len(),
{
    if ms.len() == 0 {
        0
    } else {
        moves_count(ms.drop_last(), v) + task_count(ms.last().1, v)
    }
}

proof fn lemma_moves_count_concat(
    a: Seq<(Seq<Seq<char>>, TaskView)>,
    b: Seq<(Seq<Seq<char>>, TaskView)>,
    v: SessionView,
)
    ensures
        moves_count(a + b, v) == moves_count(a, v) + moves_count(b, v),
    decreases b.len(),
{
    if b.len() == 0 {
        assert(a + b =~= a);
    } else {
        lemma_moves_count_concat(a, b.drop_last(), v);
        assert((a + b).drop_last() =~= a + b.drop_last());
    }
}

proof fn lemma_moves_count_at_path(ts: Seq<TaskView>, p: Seq<Seq<char>>, v: SessionView)
    ensures
        moves_count(at_path(ts, p), v) == tasks_count(ts, v),
    decreases ts.len(),
{
    if ts.len() > 0 {
        lemma_moves_count_at_path(ts.drop_last(), p, v);
        assert(at_path(ts, p).drop_last() =~= at_path(ts.drop_last(), p));
    }
}

proof fn lemma_left_taken_count(ts: Seq<TaskView>, only_done: bool, v: SessionView)
    ensures
        tasks_count(left_of(ts, only_done), v) + tasks_count(taken_of(ts, only_done), v)
            == tasks_count(ts, v),
    decreases ts.len(),
{
    if ts.len() > 0 {
        lemma_left_taken_count(ts.drop_last(), only_done, v);
        let l = left_of(ts.drop_last(), only_done);
        let k = taken_of(ts.drop_last(), only_done);
        lemma_tasks_count_push(l, ts.last(), v);
        lemma_tasks_count_push(k, ts.last(), v);
    }
}

/// Taking tasks out of a list keeps every session: what stays and what is
/// taken record it as often as the list did.
pub proof fn lemma_extract_keeps_sessions(
    ts: Seq<TaskView>,
    path: Seq<Seq<char>>,
    only_done: bool,
    v: SessionView,
)
    ensures
        tasks_count(extract_tasks(ts, path, only_done).0, v) + moves_count(
            extract_tasks(ts, path, only_done).1,
            v,
        ) == tasks_count(ts, v),
    decreases ts, 1nat,
{
    let d = descend(ts, path, only_done);
    lemma_descend_keeps_sessions(ts, path, only_done, v);
    lemma_left_taken_count(d.0, only_done, v);
    lemma_moves_count_at_path(taken_of(d.0, only_done), path, v);
    lemma_moves_count_concat(at_path(taken_of(d.0, only_done), path), d.1, v);
}

proof fn lemma_descend_keeps_sessions(
    ts: Seq<TaskView>,
    path: Seq<Seq<char>>,
    only_done: bool,
    v: SessionView,
)
    ensures
        tasks_count(descend(ts, path, only_done).0, v) + moves_count(
            descend(ts, path, only_done).1,
            v,
        ) == tasks_count(ts, v),
    decreases ts, 0nat,
{
    if ts.len() > 0 {
        let r = descend(ts.drop_last(), path, only_done);
        let t = ts.last();
        lemma_descend_keeps_sessions(ts.drop_last(), path, only_done, v);
        if plucked(t, only_done) {
            lemma_tasks_count_push(r.0, t, v);
        } else {
            let e = extract_tasks(t.sub_tasks, path.push(t.text), only_done);
            let t2 = TaskView { sub_tasks: e.0, ..t };
            lemma_extract_keeps_sessions(t.sub_tasks, path.push(t.text), only_done, v);
            lemma_tasks_count_push(r.0, t2, v);
            lemma_moves_count_concat(r.1, e.1, v);
        }
    }
}

/// How often a session is recorded on moved tasks, each given its group's
/// place.
proof fn lemma_contexts_count_with_group(
    ms: Seq<(Seq<Seq<char>>, TaskView)>,
    gp: Seq<Seq<char>>,
    gid: Seq<char>,
    v: SessionView,
)
    ensures
        contexts_count(with_group(ms, gp, gid), v) == moves_count(ms, v),
    decreases ms.len(),
{
    if ms.len() > 0 {
        lemma_contexts_count_with_group(ms.drop_last(), gp, gid, v);
        assert(with_group(ms, gp, gid).drop_last() =~= with_group(ms.drop_last(), gp, gid));
    }
}

proof fn lemma_contexts_count_concat(a: Seq<MoveContextView>, b: Seq<MoveContextView>, v: SessionView)
    ensures
        contexts_count(a + b, v) == contexts_count(a, v) + contexts_count(b, v),
    decreases b.len(),
{
    if b.len() == 0 {
        assert(a + b =~= a);
    } else {
        lemma_contexts_count_concat(a, b.drop_last(), v);
        assert((a + b).drop_last() =~= a + b.drop_last());
    }
}

/// Taking tasks out of a group keeps every session.
pub proof fn lemma_pluck_group_keeps_sessions(
    g: GroupView,
    gp: Seq<Seq<char>>,
    only_done: bool,
    v: SessionView,
)
    ensures
        group_count(pluck_group(g, gp, only_done).0, v) + contexts_count(
            pluck_group(g, gp, only_done).1,
            v,
        ) == group_count(g, v),
    decreases g,
{
    let e = extract_tasks(g.tasks, Seq::empty(), only_done);
    let s = pluck_groups(g.sub_groups, gp.push(g.text), only_done);
    lemma_extract_keeps_sessions(g.tasks, Seq::empty(), only_done, v);
    lemma_pluck_groups_keeps_sessions(g.sub_groups, gp.push(g.text), only_done, v);
    lemma_contexts_count_with_group(e.1, gp, g.text, v);
    lemma_contexts_count_concat(with_group(e.1, gp, g.text), s.1, v);
}

/// Taking tasks out of groups keeps every session: what stays and what is
/// taken record it as often as the groups did.
pub proof fn lemma_pluck_groups_keeps_sessions(
    gs: Seq<GroupView>,
    gp: Seq<Seq<char>>,
    only_done: bool,
    v: SessionView,
)
    ensures
        groups_count(pluck_groups(gs, gp, only_done).0, v) + contexts_count(
            pluck_groups(gs, gp, only_done).1,
            v,
        ) == groups_count(gs, v),
    decreases gs,
{
    if gs.len() > 0 {
        let r = pluck_groups(gs.drop_last(), gp, only_done);
        let q = pluck_group(gs.last(), gp, only_done);
        lemma_pluck_groups_keeps_sessions(gs.drop_last(), gp, only_done, v);
        lemma_pluck_group_keeps_sessions(gs.last(), gp, only_done, v);
        lemma_groups_count_push(r.0, q.0, v);
        lemma_contexts_count_concat(r.1, q.1, v);
    }
}

/// Taking every task out of groups leaves no session in them.
proof fn lemma_pluck_all_empties(gs: Seq<GroupView>, gp: Seq<Seq<char>>, v: SessionView)
    ensures
        groups_count(pluck_groups(gs, gp, false).0, v) == 0,
    decreases gs,
{
    if gs.len() > 0 {
        let r = pluck_groups(gs.drop_last(), gp, false);
        let g = gs.last();
        let q = pluck_group(g, gp, false);
        lemma_pluck_all_empties(gs.drop_last(), gp, v);
        lemma_pluck_all_empties(g.sub_groups, gp.push(g.text), v);
        lemma_left_all_taken(descend(g.tasks, Seq::empty(), false).0);
        lemma_groups_count_push(r.0, q.0, v);
    }
}

/// When every task is taken, none is left.
proof fn lemma_left_all_taken(ts: Seq<TaskView>)
    ensures
        left_of(ts, false) == Seq::<TaskView>::empty(),
    decreases ts.len(),
{
    if ts.len() > 0 {
        lemma_left_all_taken(ts.drop_last());
    }
}

/// The union of two trees records every session of both, as often as
/// each did.
pub proof fn lemma_union_keeps_sessions(a: Seq<GroupView>, b: Seq<GroupView>, v: SessionView)
    ensures
        groups_count(union_spec(a, b), v) == groups_count(a, v) + groups_count(b, v),
{
    let p = pluck_groups(b, Seq::empty(), false);
    lemma_pluck_groups_keeps_sessions(b, Seq::empty(), false, v);
    lemma_pluck_all_empties(b, Seq::empty(), v);
    lemma_insert_all_contexts_keeps_sessions(a, p.1, v);
}

// ---------------------------------------------------------------------------
// Dropping empty groups

/// Pruning a group keeps every session in it.
proof fn lemma_pruned_keeps_sessions(g: GroupView, v: SessionView)
    ensures
        group_count(pruned(g), v) == group_count(g, v),
    decreases g,
{
    lemma_prune_all_keeps_sessions(g.sub_groups, v);
}

/// Dropping the groups left with nothing keeps every session: each is
/// recorded as often as before.
pub proof fn lemma_prune_all_keeps_sessions(gs: Seq<GroupView>, v: SessionView)
    ensures
        groups_count(prune_all(gs), v) == groups_count(gs, v),
    decreases gs,
{
    if gs.len() > 0 {
        let rest = prune_all(gs.drop_last());
        let p = pruned(gs.last());
        lemma_prune_all_keeps_sessions(gs.drop_last(), v);
        lemma_pruned_keeps_sessions(gs.last(), v);
        if has_content(p) {
            lemma_groups_count_push(rest, p, v);
        } else {
            assert(p.tasks =~= Seq::<TaskView>::empty());
            assert(p.sub_groups =~= Seq::<GroupView>::empty());
        }
    }
}

/// Whether every group, at every level, holds a task or a sub-group.
pub open spec fn all_have_content(gs: Seq<GroupView>) -> bool
    decreases gs,
{
    gs.len() == 0 || (all_have_content(gs.drop_last()) && has_content(gs.last()) && all_have_content(
        gs.last().sub_groups,
    ))
}

/// After dropping the groups left with nothing, every group left, at
/// every level, holds a task or a sub-group.
pub proof fn lemma_prune_all_has_content(gs: Seq<GroupView>)
    ensures
        all_have_content(prune_all(gs)),
    decreases gs,
{
    if gs.len() > 0 {
        let rest = prune_all(gs.drop_last());
        let p = pruned(gs.last());
        lemma_prune_all_has_content(gs.drop_last());
        lemma_prune_all_has_content(gs.last().sub_groups);
        if has_content(p) {
            assert(rest.push(p).drop_last() =~= rest);
        }
    }
}

/// Groups that all hold something, at every level, are left as they are.
pub proof fn lemma_prune_all_unchanged(gs: Seq<GroupView>)
    requires
        all_have_content(gs),
    ensures
        prune_all(gs) == gs,
    decreases gs,
{
    if gs.len() > 0 {
        let g = gs.last();
        lemma_prune_all_unchanged(gs.drop_last());
        lemma_prune_all_unchanged(g.sub_groups);
        assert(pruned(g) == g);
        assert(gs.drop_last().push(g) =~= gs);
    } else {
        assert(prune_all(gs) =~= gs);
    }
}

/// Dropping the groups left with nothing a second time changes nothing.
pub proof fn lemma_prune_all_idempotent(gs: Seq<GroupView>)
    ensures
        prune_all(prune_all(gs)) == prune_all(gs),
{
    lemma_prune_all_has_content(gs);
    lemma_prune_all_unchanged(prune_all(gs));
}

// ---------------------------------------------------------------------------
// Archiving

/// Clearing check boxes keeps every session of a task.
proof fn lemma_undone_task_keeps_sessions(t: TaskView, v: SessionView)
    ensures
        task_count(undone_task(t), v) == task_count(t, v),
    decreases t,
{
    lemma_undone_tasks_keeps_sessions(t.sub_tasks, v);
}

proof fn lemma_undone_tasks_keeps_sessions(ts: Seq<TaskView>, v: SessionView)
    ensures
        tasks_count(undone_tasks(ts), v) == tasks_count(ts, v),
    decreases ts,
{
    if ts.len() > 0 {
        lemma_undone_tasks_keeps_sessions(ts.drop_last(), v);
        lemma_undone_task_keeps_sessions(ts.last(), v);
        lemma_tasks_count_push(undone_tasks(ts.drop_last()), undone_task(ts.last()), v);
    }
}

proof fn lemma_undone_group_keeps_sessions(g: GroupView, v: SessionView)
    ensures
        group_count(undone_group(g), v) == group_count(g, v),
    decreases g,
{
    lemma_undone_tasks_keeps_sessions(g.tasks, v);
    lemma_undone_groups_keeps_sessions(g.sub_groups, v);
}

proof fn lemma_undone_groups_keeps_sessions(gs: Seq<GroupView>, v: SessionView)
    ensures
        groups_count(undone_groups(gs), v) == groups_count(gs, v),
    decreases gs,
{
    if gs.len() > 0 {
        lemma_undone_groups_keeps_sessions(gs.drop_last(), v);
        lemma_undone_group_keeps_sessions(gs.last(), v);
        lemma_groups_count_push(undone_groups(gs.drop_last()), undone_group(gs.last()), v);
    }
}

/// Archiving loses no session: together the two trees record each
/// session as often after as before.
pub proof fn lemma_extract_completed_keeps_sessions(
    todo: Seq<GroupView>,
    done: Seq<GroupView>,
    v: SessionView,
)
    ensures
        groups_count(extract_completed_spec(todo, done).0, v) + groups_count(
            extract_completed_spec(todo, done).1,
            v,
        ) == groups_count(todo, v) + groups_count(done, v),
{
    let p = pluck_groups(todo, Seq::empty(), true);
    lemma_pluck_groups_keeps_sessions(todo, Seq::empty(), true, v);
    lemma_prune_all_keeps_sessions(p.0, v);
    lemma_insert_all_contexts_keeps_sessions(done, p.1, v);
    lemma_prune_all_keeps_sessions(insert_all_contexts(done, p.1), v);
    lemma_undone_groups_keeps_sessions(prune_all(insert_all_contexts(done, p.1)), v);
}

/// Whether no task, at any level, is checked as done.
pub open spec fn none_done(ts: Seq<TaskView>) -> bool
    decreases ts,
{
    ts.len() == 0 || (none_done(ts.drop_last()) && ts.last().done != Some(true) && none_done(
        ts.last().sub_tasks,
    ))
}

/// Whether no task of the groups, at any level, is checked as done.
pub open spec fn groups_none_done(gs: Seq<GroupView>) -> bool
    decreases gs,
{
    gs.len() == 0 || (groups_none_done(gs.drop_last()) && none_done(gs.last().tasks)
        && groups_none_done(gs.last().sub_groups))
}

/// What stays after taking out the done tasks holds no done task.
proof fn lemma_descend_none_done(ts: Seq<TaskView>, path: Seq<Seq<char>>)
    ensures
        none_done(left_of(descend(ts, path, true).0, true)),
    decreases ts,
{
    if ts.len() > 0 {
        let r = descend(ts.drop_last(), path, true);
        let t = ts.last();
        lemma_descend_none_done(ts.drop_last(), path);
        if plucked(t, true) {
            assert(r.0.push(t).drop_last() =~= r.0);
        } else {
            let e = extract_tasks(t.sub_tasks, path.push(t.text), true);
            let t2 = TaskView { sub_tasks: e.0, ..t };
            lemma_descend_none_done(t.sub_tasks, path.push(t.text));
            assert(r.0.push(t2).drop_last() =~= r.0);
            let l = left_of(r.0, true);
            assert(l.push(t2).drop_last() =~= l);
        }
    }
}

/// What stays in groups after taking out the done tasks holds no done task.
proof fn lemma_pluck_groups_none_done(gs: Seq<GroupView>, gp: Seq<Seq<char>>)
    ensures
        groups_none_done(pluck_groups(gs, gp, true).0),
    decreases gs,
{
    if gs.len() > 0 {
        let r = pluck_groups(gs.drop_last(), gp, true);
        let g = gs.last();
        let q = pluck_group(g, gp, true);
        lemma_pluck_groups_none_done(gs.drop_last(), gp);
        lemma_pluck_groups_none_done(g.sub_groups, gp.push(g.text));
        lemma_descend_none_done(g.tasks, Seq::empty());
        assert(r.0.push(q.0).drop_last() =~= r.0);
    }
}

/// Dropping empty groups keeps groups free of done tasks.
proof fn lemma_prune_all_none_done(gs: Seq<GroupView>)
    requires
        groups_none_done(gs),
    ensures
        groups_none_done(prune_all(gs)),
    decreases gs,
{
    if gs.len() > 0 {
        let rest = prune_all(gs.drop_last());
        let p = pruned(gs.last());
        lemma_prune_all_none_done(gs.drop_last());
        lemma_prune_all_none_done(gs.last().sub_groups);
        if has_content(p) {
            assert(rest.push(p).drop_last() =~= rest);
        }
    }
}

/// Whether no task, at any level, has a check box.
pub open spec fn none_checked(ts: Seq<TaskView>) -> bool
    decreases ts,
{
    ts.len() == 0 || (none_checked(ts.drop_last()) && ts.last().done is None && none_checked(
        ts.last().sub_tasks,
    ))
}

/// Whether no task of the groups, at any level, has a check box.
pub open spec fn groups_none_checked(gs: Seq<GroupView>) -> bool
    decreases gs,
{
    gs.len() == 0 || (groups_none_checked(gs.drop_last()) && none_checked(gs.last().tasks)
        && groups_none_checked(gs.last().sub_groups))
}

proof fn lemma_undone_tasks_unchecked(ts: Seq<TaskView>)
    ensures
        none_checked(undone_tasks(ts)),
    decreases ts,
{
    if ts.len() > 0 {
        lemma_undone_tasks_unchecked(ts.drop_last());
        lemma_undone_tasks_unchecked(ts.last().sub_tasks);
        let u = undone_tasks(ts.drop_last());
        assert(u.push(undone_task(ts.last())).drop_last() =~= u);
    }
}

proof fn lemma_undone_groups_unchecked(gs: Seq<GroupView>)
    ensures
        groups_none_checked(undone_groups(gs)),
    decreases gs,
{
    if gs.len() > 0 {
        lemma_undone_groups_unchecked(gs.drop_last());
        lemma_undone_groups_unchecked(gs.last().sub_groups);
        lemma_undone_tasks_unchecked(gs.last().tasks);
        let u = undone_groups(gs.drop_last());
        assert(u.push(undone_group(gs.last())).drop_last() =~= u);
    }
}

/// After archiving, no task left in the to-do tree is checked as done, and
/// no task of the archive has a check box.
pub proof fn lemma_extract_completed_clears(todo: Seq<GroupView>, done: Seq<GroupView>)
    ensures
        groups_none_done(extract_completed_spec(todo, done).0),
        groups_none_checked(extract_completed_spec(todo, done).1),
{
    let p = pluck_groups(todo, Seq::empty(), true);
    lemma_pluck_groups_none_done(todo, Seq::empty());
    lemma_prune_all_none_done(p.0);
    lemma_undone_groups_unchecked(prune_all(insert_all_contexts(done, p.1)));
}


// ---------------------------------------------------------------------------
// Recording a session

/// Recording a session on a task of a list adds that session once to what
/// the list records and leaves every other count as it was.
pub proof fn lemma_task_add_session_counts(
    ts: Seq<TaskView>,
    path: Seq<Seq<char>>,
    id: Seq<char>,
    s: SessionView,
    v: SessionView,
)
    requires
        task_add_session(ts, path, id, s) is Some,
    ensures
        tasks_count(task_add_session(ts, path, id, s)->0, v) == tasks_count(ts, v) + if v == s {
            1nat
        } else {
            0nat
        },
    decreases path.len(),
{
    let key = if path.len() > 0 { path[0] } else { id };
    lemma_find_task_from(ts, key, 0);
    let i = find_task(ts, key)->0;
    if path.len() > 0 {
        lemma_task_add_session_counts(ts[i].sub_tasks, path.drop_first(), id, s, v);
        let sub = task_add_session(ts[i].sub_tasks, path.drop_first(), id, s)->0;
        lemma_tasks_count_update(ts, i, TaskView { sub_tasks: sub, ..ts[i] }, v);
    } else {
        let t = TaskView { sessions: ts[i].sessions.push(s), ..ts[i] };
        assert(t.sessions.drop_last() =~= ts[i].sessions);
        lemma_tasks_count_update(ts, i, t, v);
    }
}

/// Recording a session on a task of a tree adds that session once to what
/// the tree records and leaves every other count as it was.
pub proof fn lemma_add_session_counts(
    gs: Seq<GroupView>,
    gpath: Seq<Seq<char>>,
    gid: Seq<char>,
    tpath: Seq<Seq<char>>,
    tid: Seq<char>,
    s: SessionView,
    v: SessionView,
)
    requires
        group_add_session(gs, gpath, gid, tpath, tid, s) is Some,
    ensures
        groups_count(group_add_session(gs, gpath, gid, tpath, tid, s)->0, v) == groups_count(gs, v)
            + if v == s {
            1nat
        } else {
            0nat
        },
    decreases gpath.len(),
{
    let key = if gpath.len() > 0 { gpath[0] } else { gid };
    lemma_find_group_from(gs, key, 0);
    let i = find_group(gs, key)->0;
    if gpath.len() > 0 {
        lemma_add_session_counts(gs[i].sub_groups, gpath.drop_first(), gid, tpath, tid, s, v);
        let sub = group_add_session(gs[i].sub_groups, gpath.drop_first(), gid, tpath, tid, s)->0;
        lemma_groups_count_update(gs, i, GroupView { sub_groups: sub, ..gs[i] }, v);
    } else {
        lemma_task_add_session_counts(gs[i].tasks, tpath, tid, s, v);
        let ts = task_add_session(gs[i].tasks, tpath, tid, s)->0;
        lemma_groups_count_update(gs, i, GroupView { tasks: ts, ..gs[i] }, v);
    }
}


// ---------------------------------------------------------------------------
// Distinct ids and untouched siblings

/// Whether no two tasks of a list have the same text, at every level.
pub open spec fn tasks_distinct(ts: Seq<TaskView>) -> bool
    decreases ts,
{
    if ts.len() == 0 {
        true
    } else {
        &&& tasks_distinct(ts.drop_last())
        &&& find_task(ts.drop_last(), ts.last().text) is None
        &&& tasks_distinct(ts.last().sub_tasks)
    }
}

/// Whether no two groups of a list have the same text, at every level.
pub open spec fn groups_distinct(gs: Seq<GroupView>) -> bool
    decreases gs,
{
    if gs.len() == 0 {
        true
    } else {
        &&& groups_distinct(gs.drop_last())
        &&& find_group(gs.drop_last(), gs.last().text) is None
        &&& groups_distinct(gs.last().sub_groups)
    }
}

/// No task from `k` on has a text that is not found from `k` on.
proof fn lemma_find_task_none(ts: Seq<TaskView>, id: Seq<char>, k: int)
    requires
        0 <= k,
        find_task_from(ts, id, k) is None,
    ensures
        forall|j: int| k <= j < ts.len() ==> ts[j].text != id,
    decreases ts.len() - k,
{
    if k < ts.len() {
        lemma_find_task_none(ts, id, k + 1);
    }
}

/// In a list with distinct texts, every task's sub-tasks have distinct
/// texts, and no two tasks share a text.
proof fn lemma_tasks_distinct_parts(ts: Seq<TaskView>)
    requires
        tasks_distinct(ts),
    ensures
        forall|i: int| 0 <= i < ts.len() ==> tasks_distinct(#[trigger] ts[i].sub_tasks),
        forall|i: int, j: int| 0 <= i < j < ts.len() ==> ts[i].text != ts[j].text,
    decreases ts.len(),
{
    if ts.len() > 0 {
        lemma_tasks_distinct_parts(ts.drop_last());
        lemma_find_task_none(ts.drop_last(), ts.last().text, 0);
        assert forall|i: int| 0 <= i < ts.len() implies tasks_distinct(#[trigger] ts[i].sub_tasks) by {
            if i < ts.len() - 1 {
                assert(ts[i] == ts.drop_last()[i]);
            }
        }
        assert forall|i: int, j: int| 0 <= i < j < ts.len() implies ts[i].text != ts[j].text by {
            assert(ts[i] == ts.drop_last()[i]);
            if j < ts.len() - 1 {
                assert(ts[j] == ts.drop_last()[j]);
            }
        }
    }
}

/// In a list with distinct texts, every group's sub-groups have distinct
/// texts.
proof fn lemma_groups_distinct_parts(gs: Seq<GroupView>)
    requires
        groups_distinct(gs),
    ensures
        forall|i: int| 0 <= i < gs.len() ==> groups_distinct(#[trigger] gs[i].sub_groups),
    decreases gs.len(),
{
    if gs.len() > 0 {
        lemma_groups_distinct_parts(gs.drop_last());
        assert forall|i: int| 0 <= i < gs.len() implies groups_distinct(#[trigger] gs[i].sub_groups) by {
            if i < gs.len() - 1 {
                assert(gs[i] == gs.drop_last()[i]);
            }
        }
    }
}

/// Replacing a task by one with the same text and distinct sub-tasks keeps
/// the texts distinct.
proof fn lemma_tasks_distinct_update(ts: Seq<TaskView>, i: int, t: TaskView)
    requires
        tasks_distinct(ts),
        0 <= i < ts.len(),
        t.text == ts[i].text,
        tasks_distinct(t.sub_tasks),
    ensures
        tasks_distinct(ts.update(i, t)),
    decreases ts.len(),
{
    let u = ts.update(i, t);
    if i == ts.len() - 1 {
        assert(u.drop_last() =~= ts.drop_last());
    } else {
        lemma_tasks_distinct_update(ts.drop_last(), i, t);
        assert(u.drop_last() =~= ts.drop_last().update(i, t));
        lemma_find_task_update(ts.drop_last(), i, t, ts.last().text, 0);
    }
}

/// Replacing a group by one with the same text and distinct sub-groups
/// keeps the texts distinct.
proof fn lemma_groups_distinct_update(gs: Seq<GroupView>, i: int, g: GroupView)
    requires
        groups_distinct(gs),
        0 <= i < gs.len(),
        g.text == gs[i].text,
        groups_distinct(g.sub_groups),
    ensures
        groups_distinct(gs.update(i, g)),
    decreases gs.len(),
{
    let u = gs.update(i, g);
    if i == gs.len() - 1 {
        assert(u.drop_last() =~= gs.drop_last());
    } else {
        lemma_groups_distinct_update(gs.drop_last(), i, g);
        assert(u.drop_last() =~= gs.drop_last().update(i, g));
        lemma_find_group_update(gs.drop_last(), i, g, gs.last().text, 0);
    }
}

/// Inserting a task whose sub-tasks have distinct texts into tasks with
/// distinct texts keeps every level's texts distinct.
pub proof fn lemma_task_insert_distinct(ts: Seq<TaskView>, path: Seq<Seq<char>>, child: TaskView)
    requires
        tasks_distinct(ts),
        tasks_distinct(child.sub_tasks),
    ensures
        tasks_distinct(task_insert(ts, path, child)),
    decreases path.len(), child,
{
    if path.len() > 0 {
        lemma_find_task_from(ts, path[0], 0);
        let (ts1, i) = match find_task(ts, path[0]) {
            Some(i) => (ts, i),
            None => (ts.push(new_task(path[0])), ts.len() as int),
        };
        if find_task(ts, path[0]) is None {
            assert(ts.push(new_task(path[0])).drop_last() =~= ts);
            assert(tasks_distinct(new_task(path[0]).sub_tasks));
        }
        lemma_tasks_distinct_parts(ts1);
        let t = ts1[i];
        lemma_task_insert_distinct(t.sub_tasks, path.drop_first(), child);
        let t2 = TaskView { sub_tasks: task_insert(t.sub_tasks, path.drop_first(), child), ..t };
        lemma_tasks_distinct_update(ts1, i, t2);
    } else {
        lemma_find_task_from(ts, child.text, 0);
        match find_task(ts, child.text) {
            Some(i) => {
                let t = ts[i];
                lemma_tasks_distinct_parts(ts);
                lemma_tasks_distinct_parts(child.sub_tasks);
                lemma_task_insert_all_distinct(t.sub_tasks, child.sub_tasks);
                let t2 = TaskView {
                    sessions: t.sessions + child.sessions,
                    sub_tasks: task_insert_all(t.sub_tasks, child.sub_tasks),
                    ..t
                };
                lemma_tasks_distinct_update(ts, i, t2);
            },
            None => {
                assert(ts.push(child).drop_last() =~= ts);
            },
        }
    }
}

/// Inserting tasks, each with distinct sub-task texts, one after the other
/// keeps every level's texts distinct.
pub proof fn lemma_task_insert_all_distinct(ts: Seq<TaskView>, kids: Seq<TaskView>)
    requires
        tasks_distinct(ts),
        forall|k: int| 0 <= k < kids.len() ==> tasks_distinct(#[trigger] kids[k].sub_tasks),
    ensures
        tasks_distinct(task_insert_all(ts, kids)),
    decreases 0nat, kids,
{
    if kids.len() > 0 {
        assert forall|k: int| 0 <= k < kids.drop_last().len() implies tasks_distinct(
            #[trigger] kids.drop_last()[k].sub_tasks,
        ) by {
            assert(kids.drop_last()[k] == kids[k]);
        }
        lemma_task_insert_all_distinct(ts, kids.drop_last());
        assert(tasks_distinct(kids[kids.len() - 1].sub_tasks));
        lemma_task_insert_distinct(task_insert_all(ts, kids.drop_last()), Seq::empty(), kids.last());
    }
}

/// Inserting a group whose sub-groups have distinct texts into groups with
/// distinct texts keeps every level's texts distinct.
pub proof fn lemma_group_insert_distinct(gs: Seq<GroupView>, path: Seq<Seq<char>>, child: GroupView)
    requires
        groups_distinct(gs),
        groups_distinct(child.sub_groups),
    ensures
        groups_distinct(group_insert(gs, path, child)),
    decreases path.len(), child,
{
    if path.len() > 0 {
        lemma_find_group_from(gs, path[0], 0);
        let (gs1, i) = match find_group(gs, path[0]) {
            Some(i) => (gs, i),
            None => (gs.push(empty_group(path[0])), gs.len() as int),
        };
        if find_group(gs, path[0]) is None {
            assert(gs.push(empty_group(path[0])).drop_last() =~= gs);
            assert(groups_distinct(empty_group(path[0]).sub_groups));
        }
        lemma_groups_distinct_parts(gs1);
        let g = gs1[i];
        lemma_group_insert_distinct(g.sub_groups, path.drop_first(), child);
        let g2 = GroupView { sub_groups: group_insert(g.sub_groups, path.drop_first(), child), ..g };
        lemma_groups_distinct_update(gs1, i, g2);
    } else {
        lemma_find_group_from(gs, child.text, 0);
        match find_group(gs, child.text) {
            Some(i) => {
                let g = gs[i];
                lemma_groups_distinct_parts(gs);
                lemma_groups_distinct_parts(child.sub_groups);
                lemma_group_insert_all_distinct(g.sub_groups, child.sub_groups);
                let g2 = GroupView {
                    sub_groups: group_insert_all(g.sub_groups, child.sub_groups),
                    ..g
                };
                lemma_groups_distinct_update(gs, i, g2);
            },
            None => {
                assert(gs.push(child).drop_last() =~= gs);
            },
        }
    }
}

/// Inserting groups, each with distinct sub-group texts, one after the
/// other keeps every level's texts distinct.
pub proof fn lemma_group_insert_all_distinct(gs: Seq<GroupView>, kids: Seq<GroupView>)
    requires
        groups_distinct(gs),
        forall|k: int| 0 <= k < kids.len() ==> groups_distinct(#[trigger] kids[k].sub_groups),
    ensures
        groups_distinct(group_insert_all(gs, kids)),
    decreases 0nat, kids,
{
    if kids.len() > 0 {
        assert forall|k: int| 0 <= k < kids.drop_last().len() implies groups_distinct(
            #[trigger] kids.drop_last()[k].sub_groups,
        ) by {
            assert(kids.drop_last()[k] == kids[k]);
        }
        lemma_group_insert_all_distinct(gs, kids.drop_last());
        assert(groups_distinct(kids[kids.len() - 1].sub_groups));
        lemma_group_insert_distinct(group_insert_all(gs, kids.drop_last()), Seq::empty(), kids.last());
    }
}

/// Inserting into a list of tasks changes only the task with the path's
/// first text (the child's own text when the path is empty): every other
/// task stays as it was, in its place. When no task has that text, one
/// with it is added last; else that task keeps its place and text, and at
/// the end of the path it takes the child's sessions after its own and the
/// child's sub-tasks inserted into its own.
pub proof fn lemma_task_insert_off_path(ts: Seq<TaskView>, path: Seq<Seq<char>>, child: TaskView)
    ensures
        ts.len() <= task_insert(ts, path, child).len() <= ts.len() + 1,
        forall|j: int|
            0 <= j < ts.len() && ts[j].text != (if path.len() > 0 { path[0] } else { child.text })
                ==> task_insert(ts, path, child)[j] == ts[j],
        match find_task(ts, if path.len() > 0 { path[0] } else { child.text }) {
            None => task_insert(ts, path, child).len() == ts.len() + 1 && task_insert(
                ts,
                path,
                child,
            ).last().text == (if path.len() > 0 { path[0] } else { child.text }),
            Some(i) => task_insert(ts, path, child).len() == ts.len() && task_insert(
                ts,
                path,
                child,
            )[i].text == ts[i].text && (path.len() == 0 ==> task_insert(ts, path, child)[i]
                == TaskView {
                sessions: ts[i].sessions + child.sessions,
                sub_tasks: task_insert_all(ts[i].sub_tasks, child.sub_tasks),
                ..ts[i]
            }),
        },
{
    let key = if path.len() > 0 { path[0] } else { child.text };
    lemma_find_task_from(ts, key, 0);
}

/// Inserting into a list of groups changes only the group with the path's
/// first text (the child's own text when the path is empty): every other
/// group stays as it was, in its place. When no group has that text, one
/// with it is added last; else that group keeps its place and text, and at
/// the end of the path it takes the child's sub-groups inserted into its
/// own.
pub proof fn lemma_group_insert_off_path(gs: Seq<GroupView>, path: Seq<Seq<char>>, child: GroupView)
    ensures
        gs.len() <= group_insert(gs, path, child).len() <= gs.len() + 1,
        forall|j: int|
            0 <= j < gs.len() && gs[j].text != (if path.len() > 0 { path[0] } else { child.text })
                ==> group_insert(gs, path, child)[j] == gs[j],
        match find_group(gs, if path.len() > 0 { path[0] } else { child.text }) {
            None => group_insert(gs, path, child).len() == gs.len() + 1 && group_insert(
                gs,
                path,
                child,
            ).last().text == (if path.len() > 0 { path[0] } else { child.text }),
            Some(i) => group_insert(gs, path, child).len() == gs.len() && group_insert(
                gs,
                path,
                child,
            )[i].text == gs[i].text && (path.len() == 0 ==> group_insert(gs, path, child)[i]
                == GroupView {
                sub_groups: group_insert_all(gs[i].sub_groups, child.sub_groups),
                ..gs[i]
            }),
        },
{
    let key = if path.len() > 0 { path[0] } else { child.text };
    lemma_find_group_from(gs, key, 0);
}


// ---------------------------------------------------------------------------
// Walking the tree

/// How often a group occurs in groups and their sub-groups.
pub open spec fn group_occurrences(gs: Seq<GroupView>, g: GroupView) -> nat
    decreases gs,
{
    if gs.len() == 0 {
        0
    } else {
        group_occurrences(gs.drop_last(), g) + (if gs.last() == g {
            1nat
        } else {
            0nat
        }) + group_occurrences(gs.last().sub_groups, g)
    }
}

/// How often a group is met in a walk.
pub open spec fn walk_group_count(w: Seq<(Seq<Seq<char>>, GroupView)>, g: GroupView) -> nat
    decreases w.len(),
{
    if w.len() == 0 {
        0
    } else {
        walk_group_count(w.drop_last(), g) + if w.last().1 == g {
            1nat
        } else {
            0nat
        }
    }
}

proof fn lemma_walk_group_count_concat(
    a: Seq<(Seq<Seq<char>>, GroupView)>,
    b: Seq<(Seq<Seq<char>>, GroupView)>,
    g: GroupView,
)
    ensures
        walk_group_count(a + b, g) == walk_group_count(a, g) + walk_group_count(b, g),
    decreases b.len(),
{
    if b.len() == 0 {
        assert(a + b =~= a);
    } else {
        lemma_walk_group_count_concat(a, b.drop_last(), g);
        assert((a + b).drop_last() =~= a + b.drop_last());
    }
}

/// The depth-first walk of groups meets each group as often as it occurs
/// in the tree: every group once, when no two are equal.
pub proof fn lemma_group_walk_counts(gs: Seq<GroupView>, path: Seq<Seq<char>>, g: GroupView)
    ensures
        walk_group_count(group_walk(gs, path), g) == group_occurrences(gs, g),
    decreases gs,
{
    if gs.len() > 0 {
        let last = gs.last();
        lemma_group_walk_counts(gs.drop_last(), path, g);
        lemma_group_walk_counts(last.sub_groups, path.push(last.text), g);
        let a = group_walk(gs.drop_last(), path);
        let m = seq![(path, last)];
        let b = group_walk(last.sub_groups, path.push(last.text));
        lemma_walk_group_count_concat(a + m, b, g);
        lemma_walk_group_count_concat(a, m, g);
        assert(m.drop_last() =~= Seq::<(Seq<Seq<char>>, GroupView)>::empty());
        assert(walk_group_count(m.drop_last(), g) == 0);
        assert(walk_group_count(m, g) == if last == g { 1nat } else { 0nat });
        assert(group_walk(gs, path) == a + m + b);
    }
}

/// How often a task occurs in tasks and their sub-tasks.
pub open spec fn task_occurrences(ts: Seq<TaskView>, t: TaskView) -> nat
    decreases ts,
{
    if ts.len() == 0 {
        0
    } else {
        task_occurrences(ts.drop_last(), t) + (if ts.last() == t {
            1nat
        } else {
            0nat
        }) + task_occurrences(ts.last().sub_tasks, t)
    }
}

/// How often a task is met in a walk.
pub open spec fn walk_task_count(w: Seq<(Seq<Seq<char>>, TaskView)>, t: TaskView) -> nat
    decreases w.len(),
{
    if w.len() == 0 {
        0
    } else {
        walk_task_count(w.drop_last(), t) + if w.last().1 == t {
            1nat
        } else {
            0nat
        }
    }
}

proof fn lemma_walk_task_count_concat(
    a: Seq<(Seq<Seq<char>>, TaskView)>,
    b: Seq<(Seq<Seq<char>>, TaskView)>,
    t: TaskView,
)
    ensures
        walk_task_count(a + b, t) == walk_task_count(a, t) + walk_task_count(b, t),
    decreases b.len(),
{
    if b.len() == 0 {
        assert(a + b =~= a);
    } else {
        lemma_walk_task_count_concat(a, b.drop_last(), t);
        assert((a + b).drop_last() =~= a + b.drop_last());
    }
}

/// The depth-first walk of tasks meets each task as often as it occurs in
/// the list: every task once, when no two are equal.
pub proof fn lemma_task_walk_counts(ts: Seq<TaskView>, path: Seq<Seq<char>>, t: TaskView)
    ensures
        walk_task_count(task_walk(ts, path), t) == task_occurrences(ts, t),
    decreases ts,
{
    if ts.len() > 0 {
        let last = ts.last();
        lemma_task_walk_counts(ts.drop_last(), path, t);
        lemma_task_walk_counts(last.sub_tasks, path.push(last.text), t);
        let a = task_walk(ts.drop_last(), path);
        let m = seq![(path, last)];
        let b = task_walk(last.sub_tasks, path.push(last.text));
        lemma_walk_task_count_concat(a + m, b, t);
        lemma_walk_task_count_concat(a, m, t);
        assert(m.drop_last() =~= Seq::<(Seq<Seq<char>>, TaskView)>::empty());
        assert(walk_task_count(m.drop_last(), t) == 0);
        assert(walk_task_count(m, t) == if last == t { 1nat } else { 0nat });
        assert(task_walk(ts, path) == a + m + b);
    }
}


// ---------------------------------------------------------------------------
// Where moved tasks come from

/// Whether the groups hold a group at this path of texts, each among the
/// sub-groups of the one before.
pub open spec fn group_path_exists(gs: Seq<GroupView>, p: Seq<Seq<char>>) -> bool
    decreases p.len(),
{
    if p.len() == 0 {
        true
    } else {
        exists|i: int|
            0 <= i < gs.len() && #[trigger] gs[i].text == p[0] && group_path_exists(
                gs[i].sub_groups,
                p.drop_first(),
            )
    }
}

/// Whether every move records, after `gp`, the path of a group of `gs`
/// that it was taken from.
pub open spec fn moves_from(gs: Seq<GroupView>, gp: Seq<Seq<char>>, cs: Seq<MoveContextView>) -> bool {
    forall|k: int|
        0 <= k < cs.len() ==> {
            &&& gp.len() <= #[trigger] cs[k].group_path.len()
            &&& cs[k].group_path.take(gp.len() as int) == gp
            &&& group_path_exists(gs, cs[k].group_path.skip(gp.len() as int).push(cs[k].group_id))
        }
}

proof fn lemma_pluck_group_paths(g: GroupView, gp: Seq<Seq<char>>, only_done: bool)
    ensures
        moves_from(seq![g], gp, pluck_group(g, gp, only_done).1),
    decreases g,
{
    let e = extract_tasks(g.tasks, Seq::empty(), only_done);
    let own = with_group(e.1, gp, g.text);
    let sp = gp.push(g.text);
    let sub = pluck_groups(g.sub_groups, sp, only_done).1;
    lemma_pluck_groups_paths(g.sub_groups, sp, only_done);
    let cs = own + sub;
    assert(pluck_group(g, gp, only_done).1 == cs);
    assert forall|k: int| 0 <= k < cs.len() implies {
        &&& gp.len() <= #[trigger] cs[k].group_path.len()
        &&& cs[k].group_path.take(gp.len() as int) == gp
        &&& group_path_exists(seq![g], cs[k].group_path.skip(gp.len() as int).push(cs[k].group_id))
    } by {
        let c = cs[k];
        if k < own.len() {
            assert(c == own[k]);
            assert(c.group_path == gp && c.group_id == g.text);
            assert(gp.take(gp.len() as int) =~= gp);
            let p = gp.skip(gp.len() as int).push(g.text);
            assert(p =~= seq![g.text]);
            assert(p.drop_first() =~= Seq::<Seq<char>>::empty());
            assert(seq![g][0] == g);
            assert(group_path_exists(seq![g][0].sub_groups, p.drop_first()));
        } else {
            let j = k - own.len();
            assert(c == sub[j]);
            assert(sp.len() <= sub[j].group_path.len());
            assert(c.group_path.take(sp.len() as int) == sp);
            assert(c.group_path.take(gp.len() as int) =~= sp.take(gp.len() as int));
            assert(sp.take(gp.len() as int) =~= gp);
            let rel = c.group_path.skip(sp.len() as int).push(c.group_id);
            let p = c.group_path.skip(gp.len() as int).push(c.group_id);
            assert(c.group_path[gp.len() as int] == sp[gp.len() as int]);
            assert(p[0] == g.text);
            assert(p.drop_first() =~= rel);
            assert(seq![g][0] == g);
            assert(group_path_exists(seq![g][0].sub_groups, p.drop_first()));
        }
    }
}

proof fn lemma_pluck_groups_paths(gs: Seq<GroupView>, gp: Seq<Seq<char>>, only_done: bool)
    ensures
        moves_from(gs, gp, pluck_groups(gs, gp, only_done).1),
    decreases gs,
{
    if gs.len() > 0 {
        let r = pluck_groups(gs.drop_last(), gp, only_done).1;
        let q = pluck_group(gs.last(), gp, only_done).1;
        lemma_pluck_groups_paths(gs.drop_last(), gp, only_done);
        lemma_pluck_group_paths(gs.last(), gp, only_done);
        let cs = r + q;
        assert(pluck_groups(gs, gp, only_done).1 == cs);
        assert forall|k: int| 0 <= k < cs.len() implies {
            &&& gp.len() <= #[trigger] cs[k].group_path.len()
            &&& cs[k].group_path.take(gp.len() as int) == gp
            &&& group_path_exists(gs, cs[k].group_path.skip(gp.len() as int).push(cs[k].group_id))
        } by {
            let c = cs[k];
            let p = c.group_path.skip(gp.len() as int).push(c.group_id);
            if k < r.len() {
                assert(c == r[k]);
                assert(group_path_exists(gs.drop_last(), p));
                let i = choose|i: int|
                    0 <= i < gs.drop_last().len() && #[trigger] gs.drop_last()[i].text == p[0]
                        && group_path_exists(gs.drop_last()[i].sub_groups, p.drop_first());
                assert(gs[i] == gs.drop_last()[i]);
                assert(group_path_exists(gs[i].sub_groups, p.drop_first()));
            } else {
                assert(c == q[k - r.len()]);
                assert(group_path_exists(seq![gs.last()], p));
                let i = choose|i: int|
                    0 <= i < seq![gs.last()].len() && #[trigger] seq![gs.last()][i].text == p[0]
                        && group_path_exists(seq![gs.last()][i].sub_groups, p.drop_first());
                assert(i == 0);
                assert(gs[gs.len() - 1] == gs.last());
                assert(group_path_exists(gs[gs.len() - 1].sub_groups, p.drop_first()));
            }
        }
    }
}

/// Every task taken out of a tree, as `pluck_tasks`, `union` and archiving
/// take them, records the path of the group it was taken from: the texts
/// of that group's parent groups, then the group's own text, name a group
/// of the tree.
pub proof fn lemma_pluck_keeps_group_paths(gs: Seq<GroupView>, only_done: bool)
    ensures
        forall|k: int|
            0 <= k < pluck_groups(gs, Seq::empty(), only_done).1.len() ==> group_path_exists(
                gs,
                #[trigger] pluck_groups(gs, Seq::empty(), only_done).1[k].group_path.push(
                    pluck_groups(gs, Seq::empty(), only_done).1[k].group_id,
                ),
            ),
{
    lemma_pluck_groups_paths(gs, Seq::empty(), only_done);
    let cs = pluck_groups(gs, Seq::empty(), only_done).1;
    assert forall|k: int| 0 <= k < cs.len() implies group_path_exists(
        gs,
        #[trigger] cs[k].group_path.push(cs[k].group_id),
    ) by {
        assert(cs[k].group_path.skip(0) =~= cs[k].group_path);
    }
}


// ---------------------------------------------------------------------------
// How a task file is written

/// `n` heading marks.
pub open spec fn marks(n: nat) -> Seq<char> {
    Seq::new(n, |i: int| '#')
}

/// A group's own part of a task file: a heading of `depth` marks with its
/// text, a blank line, then its tasks and a blank line if it has any.
pub open spec fn heading_block(depth: nat, g: GroupView) -> Seq<char> {
    marks(depth) + seq![' '] + g.text + seq!['\n', '\n'] + tasks_text(g.tasks, Seq::empty()) + (if g.tasks.len()
        > 0 {
        seq!['\n']
    } else {
        Seq::empty()
    })
}

/// The parts of the walked groups, in order, each group's heading as deep
/// as its place: one mark more than it has parent groups.
pub open spec fn walk_text(w: Seq<(Seq<Seq<char>>, GroupView)>) -> Seq<char>
    decreases w.len(),
{
    if w.len() == 0 {
        Seq::empty()
    } else {
        walk_text(w.drop_last()) + heading_block(w.last().0.len() + 1, w.last().1)
    }
}

proof fn lemma_walk_text_concat(
    a: Seq<(Seq<Seq<char>>, GroupView)>,
    b: Seq<(Seq<Seq<char>>, GroupView)>,
)
    ensures
        walk_text(a + b) == walk_text(a) + walk_text(b),
    decreases b.len(),
{
    if b.len() == 0 {
        assert(a + b =~= a);
    } else {
        lemma_walk_text_concat(a, b.drop_last());
        assert((a + b).drop_last() =~= a + b.drop_last());
        assert(walk_text(a + b) =~= walk_text(a) + walk_text(b));
    }
}

proof fn lemma_groups_text_walk(gs: Seq<GroupView>, p: Seq<Seq<char>>)
    ensures
        groups_text(gs, marks(p.len() + 1)) == walk_text(group_walk(gs, p)),
    decreases gs,
{
    if gs.len() > 0 {
        let last = gs.last();
        let h = marks(p.len() + 1);
        let q = p.push(last.text);
        lemma_groups_text_walk(gs.drop_last(), p);
        lemma_groups_text_walk(last.sub_groups, q);
        assert(h + seq!['#'] =~= marks(q.len() + 1));
        let a = group_walk(gs.drop_last(), p);
        let m = seq![(p, last)];
        let b = group_walk(last.sub_groups, q);
        assert(group_walk(gs, p) == a + m + b);
        lemma_walk_text_concat(a + m, b);
        lemma_walk_text_concat(a, m);
        assert(m.drop_last() =~= Seq::<(Seq<Seq<char>>, GroupView)>::empty());
        assert(walk_text(m.drop_last()) == Seq::<char>::empty());
        assert(m.last() == (p, last));
        assert(walk_text(m) =~= heading_block(p.len() + 1, last));
        assert(group_text(last, h) =~= heading_block(p.len() + 1, last) + groups_text(
            last.sub_groups,
            h + seq!['#'],
        ));
        assert(groups_text(gs, h) =~= walk_text(group_walk(gs, p)));
    }
}

/// A task file is written group by group in depth-first order, each group's
/// heading with one `#` more than it has parent groups, followed by its
/// tasks: a group of depth `k` gets a heading of exactly `k` marks.
pub proof fn lemma_tree_headings(gs: Seq<GroupView>)
    ensures
        groups_text(gs, seq!['#']) == walk_text(group_walk(gs, Seq::empty())),
{
    assert(marks(1) =~= seq!['#']);
    lemma_groups_text_walk(gs, Seq::empty());
}


/// `n` spaces.
pub open spec fn spaces(n: nat) -> Seq<char> {
    Seq::new(n, |i: int| ' ')
}

/// A task's own line in a task file: indented two spaces for each parent
/// task, then the list mark, its check box, its text and its sessions.
pub open spec fn item_line(depth: nat, t: TaskView) -> Seq<char> {
    spaces(2 * depth) + seq!['-'] + done_mark(t.done) + seq![' '] + t.text + sessions_text(t.sessions)
        + seq!['\n']
}

/// The lines of the walked tasks, in order, each indented as deep as its
/// place.
pub open spec fn walk_lines(w: Seq<(Seq<Seq<char>>, TaskView)>) -> Seq<char>
    decreases w.len(),
{
    if w.len() == 0 {
        Seq::empty()
    } else {
        walk_lines(w.drop_last()) + item_line(w.last().0.len(), w.last().1)
    }
}

proof fn lemma_walk_lines_concat(
    a: Seq<(Seq<Seq<char>>, TaskView)>,
    b: Seq<(Seq<Seq<char>>, TaskView)>,
)
    ensures
        walk_lines(a + b) == walk_lines(a) + walk_lines(b),
    decreases b.len(),
{
    if b.len() == 0 {
        assert(a + b =~= a);
    } else {
        lemma_walk_lines_concat(a, b.drop_last());
        assert((a + b).drop_last() =~= a + b.drop_last());
        assert(walk_lines(a + b) =~= walk_lines(a) + walk_lines(b));
    }
}

proof fn lemma_tasks_text_walk(ts: Seq<TaskView>, p: Seq<Seq<char>>)
    ensures
        tasks_text(ts, spaces(2 * p.len())) == walk_lines(task_walk(ts, p)),
    decreases ts,
{
    if ts.len() > 0 {
        let last = ts.last();
        let ind = spaces(2 * p.len());
        let q = p.push(last.text);
        lemma_tasks_text_walk(ts.drop_last(), p);
        lemma_tasks_text_walk(last.sub_tasks, q);
        assert(ind + seq![' ', ' '] =~= spaces(2 * q.len()));
        let a = task_walk(ts.drop_last(), p);
        let m = seq![(p, last)];
        let b = task_walk(last.sub_tasks, q);
        assert(task_walk(ts, p) == a + m + b);
        lemma_walk_lines_concat(a + m, b);
        lemma_walk_lines_concat(a, m);
        assert(m.drop_last() =~= Seq::<(Seq<Seq<char>>, TaskView)>::empty());
        assert(walk_lines(m.drop_last()) == Seq::<char>::empty());
        assert(m.last() == (p, last));
        assert(walk_lines(m) =~= item_line(p.len(), last));
        assert(task_text(last, ind) =~= item_line(p.len(), last) + tasks_text(
            last.sub_tasks,
            ind + seq![' ', ' '],
        ));
        assert(tasks_text(ts, ind) =~= walk_lines(task_walk(ts, p)));
    }
}

/// The tasks of a group are written one line each in depth-first order,
/// each indented two spaces for each of its parent tasks: a task below `k`
/// parent tasks gets exactly `2 * k` spaces before its list mark.
pub proof fn lemma_task_lines(ts: Seq<TaskView>)
    ensures
        tasks_text(ts, Seq::empty()) == walk_lines(task_walk(ts, Seq::empty())),
{
    assert(spaces(0) =~= Seq::<char>::empty());
    lemma_tasks_text_walk(ts, Seq::empty());
}

// ---------------------------------------------------------------------------
// Moved tasks land where they were

/// A group found in a list is still found, at the same place, when a group
/// is added last.
proof fn lemma_find_group_push_kept(gs: Seq<GroupView>, g: GroupView, id: Seq<char>, k: int)
    requires
        0 <= k,
        find_group_from(gs, id, k) is Some,
    ensures
        find_group_from(gs.push(g), id, k) == find_group_from(gs, id, k),
    decreases gs.len() - k,
{
    if k < gs.len() && gs[k].text != id {
        lemma_find_group_push_kept(gs, g, id, k + 1);
    }
    if k < gs.len() {
        assert(gs.push(g)[k] == gs[k]);
    }
}

/// Replacing a group by one with the same text whose sub-groups keep every
/// path keeps every path of the list.
proof fn lemma_update_keeps_paths(gs: Seq<GroupView>, i: int, g: GroupView, q: Seq<Seq<char>>)
    requires
        0 <= i < gs.len(),
        g.text == gs[i].text,
        has_group_at(gs, q),
        q.len() > 1 && find_group(gs, q[0]) == Some(i) ==> has_group_at(g.sub_groups, q.drop_first()),
    ensures
        has_group_at(gs.update(i, g), q),
{
    lemma_find_group_update(gs, i, g, q[0], 0);
    lemma_find_group_from(gs, q[0], 0);
    let j = find_group(gs, q[0])->0;
    let hs = gs.update(i, g);
    assert(find_group(hs, q[0]) == Some(j));
    if q.len() > 1 {
        if j != i {
            assert(hs[j] == gs[j]);
        } else {
            assert(hs[j] == g);
        }
        assert(has_group_at(hs[j].sub_groups, q.drop_first()));
    }
}

/// Inserting a group keeps every group path that was there.
pub proof fn lemma_group_insert_keeps_paths(
    gs: Seq<GroupView>,
    path: Seq<Seq<char>>,
    child: GroupView,
    q: Seq<Seq<char>>,
)
    requires
        has_group_at(gs, q),
    ensures
        has_group_at(group_insert(gs, path, child), q),
    decreases path.len(), child,
{
    lemma_find_group_from(gs, q[0], 0);
    if path.len() > 0 {
        lemma_find_group_from(gs, path[0], 0);
        let (gs1, i) = match find_group(gs, path[0]) {
            Some(i) => (gs, i),
            None => (gs.push(empty_group(path[0])), gs.len() as int),
        };
        if find_group(gs, path[0]) is None {
            lemma_find_group_push_kept(gs, empty_group(path[0]), q[0], 0);
            assert(gs1[find_group(gs, q[0])->0] == gs[find_group(gs, q[0])->0]);
        }
        assert(has_group_at(gs1, q));
        let g = gs1[i];
        let g2 = GroupView { sub_groups: group_insert(g.sub_groups, path.drop_first(), child), ..g };
        if q.len() > 1 && find_group(gs1, q[0]) == Some(i) {
            lemma_group_insert_keeps_paths(g.sub_groups, path.drop_first(), child, q.drop_first());
        }
        lemma_update_keeps_paths(gs1, i, g2, q);
    } else {
        lemma_find_group_from(gs, child.text, 0);
        match find_group(gs, child.text) {
            Some(i) => {
                let g = gs[i];
                let g2 = GroupView {
                    sub_groups: group_insert_all(g.sub_groups, child.sub_groups),
                    ..g
                };
                if q.len() > 1 && find_group(gs, q[0]) == Some(i) {
                    lemma_group_insert_all_keeps_paths(g.sub_groups, child.sub_groups, q.drop_first());
                }
                lemma_update_keeps_paths(gs, i, g2, q);
            },
            None => {
                lemma_find_group_push_kept(gs, child, q[0], 0);
                assert(gs.push(child)[find_group(gs, q[0])->0] == gs[find_group(gs, q[0])->0]);
            },
        }
    }
}

/// Inserting groups one after the other keeps every group path that was
/// there.
pub proof fn lemma_group_insert_all_keeps_paths(
    gs: Seq<GroupView>,
    kids: Seq<GroupView>,
    q: Seq<Seq<char>>,
)
    requires
        has_group_at(gs, q),
    ensures
        has_group_at(group_insert_all(gs, kids), q),
    decreases 0nat, kids,
{
    if kids.len() > 0 {
        lemma_group_insert_all_keeps_paths(gs, kids.drop_last(), q);
        lemma_group_insert_keeps_paths(
            group_insert_all(gs, kids.drop_last()),
            Seq::empty(),
            kids.last(),
            q,
        );
    }
}

/// Adding a task to a group changes no group path.
proof fn lemma_add_task_at_keeps_paths(
    gs: Seq<GroupView>,
    gpath: Seq<Seq<char>>,
    tpath: Seq<Seq<char>>,
    t: TaskView,
    q: Seq<Seq<char>>,
)
    requires
        has_group_at(gs, q),
    ensures
        has_group_at(add_task_at(gs, gpath, tpath, t), q),
    decreases gpath.len(),
{
    if gpath.len() > 0 {
        lemma_find_group_from(gs, gpath[0], 0);
        match find_group(gs, gpath[0]) {
            None => {},
            Some(i) => {
                let g = gs[i];
                if gpath.len() == 1 {
                    let g2 = GroupView { tasks: task_insert(g.tasks, tpath, t), ..g };
                    lemma_update_keeps_paths(gs, i, g2, q);
                } else {
                    let g2 = GroupView {
                        sub_groups: add_task_at(g.sub_groups, gpath.drop_first(), tpath, t),
                        ..g
                    };
                    if q.len() > 1 && find_group(gs, q[0]) == Some(i) {
                        lemma_add_task_at_keeps_paths(
                            g.sub_groups,
                            gpath.drop_first(),
                            tpath,
                            t,
                            q.drop_first(),
                        );
                    }
                    lemma_update_keeps_paths(gs, i, g2, q);
                }
            },
        }
    }
}

/// Putting a moved task into a tree makes the group it was taken from
/// appear at the same path, and keeps every group path that was there.
pub proof fn lemma_tree_insert_task_places(gs: Seq<GroupView>, c: MoveContextView, q: Seq<Seq<char>>)
    ensures
        has_group_at(tree_insert_task(gs, c), c.group_path.push(c.group_id)),
        has_group_at(gs, q) ==> has_group_at(tree_insert_task(gs, c), q),
{
    let e = empty_group(c.group_id);
    let g1 = group_insert(gs, c.group_path, e);
    lemma_group_insert_places(gs, c.group_path, e);
    lemma_add_task_at_keeps_paths(g1, c.group_path.push(c.group_id), c.task_path, c.task, c.group_path.push(c.group_id));
    if has_group_at(gs, q) {
        lemma_group_insert_keeps_paths(gs, c.group_path, e, q);
        lemma_add_task_at_keeps_paths(g1, c.group_path.push(c.group_id), c.task_path, c.task, q);
    }
}

/// After moved tasks are put into a tree, each one's group is in the tree
/// at the path it records, and every group path that was there still is.
pub proof fn lemma_insert_all_contexts_places(
    gs: Seq<GroupView>,
    cs: Seq<MoveContextView>,
    q: Seq<Seq<char>>,
)
    ensures
        forall|k: int|
            0 <= k < cs.len() ==> has_group_at(
                insert_all_contexts(gs, cs),
                #[trigger] cs[k].group_path.push(cs[k].group_id),
            ),
        has_group_at(gs, q) ==> has_group_at(insert_all_contexts(gs, cs), q),
    decreases cs.len(),
{
    if cs.len() > 0 {
        let before = insert_all_contexts(gs, cs.drop_last());
        lemma_insert_all_contexts_places(gs, cs.drop_last(), q);
        lemma_tree_insert_task_places(before, cs.last(), q);
        assert forall|k: int| 0 <= k < cs.len() implies has_group_at(
            insert_all_contexts(gs, cs),
            #[trigger] cs[k].group_path.push(cs[k].group_id),
        ) by {
            if k < cs.len() - 1 {
                assert(cs[k] == cs.drop_last()[k]);
                lemma_insert_all_contexts_places(gs, cs.drop_last(), cs[k].group_path.push(cs[k].group_id));
                lemma_tree_insert_task_places(before, cs.last(), cs[k].group_path.push(cs[k].group_id));
            } else {
                lemma_tree_insert_task_places(before, cs.last(), q);
            }
        }
    }
}

/// The union of two trees keeps the groups that the other tree's tasks
/// came from: each task taken from a group of `other` at some path of
/// parent groups is moved to a group at that same path in the union, and
/// every group path of `tree` stays.
pub proof fn lemma_union_keeps_group_paths(tree: Seq<GroupView>, other: Seq<GroupView>, q: Seq<Seq<char>>)
    ensures
        forall|k: int|
            0 <= k < pluck_groups(other, Seq::empty(), false).1.len() ==> {
                let c = #[trigger] pluck_groups(other, Seq::empty(), false).1[k];
                &&& group_path_exists(other, c.group_path.push(c.group_id))
                &&& has_group_at(union_spec(tree, other), c.group_path.push(c.group_id))
            },
        has_group_at(tree, q) ==> has_group_at(union_spec(tree, other), q),
{
    let cs = pluck_groups(other, Seq::empty(), false).1;
    lemma_pluck_keeps_group_paths(other, false);
    lemma_insert_all_contexts_places(tree, cs, q);
}


// ---------------------------------------------------------------------------
// Moved tasks keep their place

/// A task found in a list is still found, at the same place, when a task
/// is added last.
proof fn lemma_find_task_push_kept(ts: Seq<TaskView>, t: TaskView, id: Seq<char>, k: int)
    requires
        0 <= k,
        find_task_from(ts, id, k) is Some,
    ensures
        find_task_from(ts.push(t), id, k) == find_task_from(ts, id, k),
    decreases ts.len() - k,
{
    if k < ts.len() && ts[k].text != id {
        lemma_find_task_push_kept(ts, t, id, k + 1);
    }
    if k < ts.len() {
        assert(ts.push(t)[k] == ts[k]);
    }
}

/// Replacing a task by one with the same text whose sub-tasks keep every
/// path keeps every task path of the list.
proof fn lemma_task_update_keeps(ts: Seq<TaskView>, i: int, t: TaskView, r: Seq<Seq<char>>)
    requires
        0 <= i < ts.len(),
        t.text == ts[i].text,
        has_task_at(ts, r),
        r.len() > 1 && find_task(ts, r[0]) == Some(i) ==> has_task_at(t.sub_tasks, r.drop_first()),
    ensures
        has_task_at(ts.update(i, t), r),
{
    lemma_find_task_update(ts, i, t, r[0], 0);
    lemma_find_task_from(ts, r[0], 0);
    let j = find_task(ts, r[0])->0;
    let us = ts.update(i, t);
    assert(find_task(us, r[0]) == Some(j));
    if r.len() > 1 {
        if j != i {
            assert(us[j] == ts[j]);
        } else {
            assert(us[j] == t);
        }
        assert(has_task_at(us[j].sub_tasks, r.drop_first()));
    }
}

/// Inserting a task keeps every task path that was there.
pub proof fn lemma_task_insert_keeps_tasks(
    ts: Seq<TaskView>,
    path: Seq<Seq<char>>,
    child: TaskView,
    r: Seq<Seq<char>>,
)
    requires
        has_task_at(ts, r),
    ensures
        has_task_at(task_insert(ts, path, child), r),
    decreases path.len(), child,
{
    lemma_find_task_from(ts, r[0], 0);
    if path.len() > 0 {
        lemma_find_task_from(ts, path[0], 0);
        let (ts1, i) = match find_task(ts, path[0]) {
            Some(i) => (ts, i),
            None => (ts.push(new_task(path[0])), ts.len() as int),
        };
        if find_task(ts, path[0]) is None {
            lemma_find_task_push_kept(ts, new_task(path[0]), r[0], 0);
            assert(ts1[find_task(ts, r[0])->0] == ts[find_task(ts, r[0])->0]);
        }
        assert(has_task_at(ts1, r));
        let t = ts1[i];
        let t2 = TaskView { sub_tasks: task_insert(t.sub_tasks, path.drop_first(), child), ..t };
        if r.len() > 1 && find_task(ts1, r[0]) == Some(i) {
            lemma_task_insert_keeps_tasks(t.sub_tasks, path.drop_first(), child, r.drop_first());
        }
        lemma_task_update_keeps(ts1, i, t2, r);
    } else {
        lemma_find_task_from(ts, child.text, 0);
        match find_task(ts, child.text) {
            Some(i) => {
                let t = ts[i];
                let t2 = TaskView {
                    sessions: t.sessions + child.sessions,
                    sub_tasks: task_insert_all(t.sub_tasks, child.sub_tasks),
                    ..t
                };
                if r.len() > 1 && find_task(ts, r[0]) == Some(i) {
                    lemma_task_insert_all_keeps_tasks(t.sub_tasks, child.sub_tasks, r.drop_first());
                }
                lemma_task_update_keeps(ts, i, t2, r);
            },
            None => {
                lemma_find_task_push_kept(ts, child, r[0], 0);
                assert(ts.push(child)[find_task(ts, r[0])->0] == ts[find_task(ts, r[0])->0]);
            },
        }
    }
}

/// Inserting tasks one after the other keeps every task path that was
/// there.
pub proof fn lemma_task_insert_all_keeps_tasks(
    ts: Seq<TaskView>,
    kids: Seq<TaskView>,
    r: Seq<Seq<char>>,
)
    requires
        has_task_at(ts, r),
    ensures
        has_task_at(task_insert_all(ts, kids), r),
    decreases 0nat, kids,
{
    if kids.len() > 0 {
        lemma_task_insert_all_keeps_tasks(ts, kids.drop_last(), r);
        lemma_task_insert_keeps_tasks(task_insert_all(ts, kids.drop_last()), Seq::empty(), kids.last(), r);
    }
}

/// Whether a task is found along the task path `tp` among the tasks of the
/// group found along the group path `gp`.
pub open spec fn has_task_under(gs: Seq<GroupView>, gp: Seq<Seq<char>>, tp: Seq<Seq<char>>) -> bool
    decreases gp.len(),
{
    if gp.len() == 0 {
        false
    } else {
        match find_group(gs, gp[0]) {
            None => false,
            Some(i) => if gp.len() == 1 {
                has_task_at(gs[i].tasks, tp)
            } else {
                has_task_under(gs[i].sub_groups, gp.drop_first(), tp)
            },
        }
    }
}

/// Replacing a group by one with the same text that keeps the task keeps
/// the task where it was.
proof fn lemma_group_update_keeps_tasks(
    gs: Seq<GroupView>,
    i: int,
    g: GroupView,
    q: Seq<Seq<char>>,
    r: Seq<Seq<char>>,
)
    requires
        0 <= i < gs.len(),
        g.text == gs[i].text,
        has_task_under(gs, q, r),
        q.len() == 1 && find_group(gs, q[0]) == Some(i) ==> has_task_at(g.tasks, r),
        q.len() > 1 && find_group(gs, q[0]) == Some(i) ==> has_task_under(g.sub_groups, q.drop_first(), r),
    ensures
        has_task_under(gs.update(i, g), q, r),
{
    lemma_find_group_update(gs, i, g, q[0], 0);
    lemma_find_group_from(gs, q[0], 0);
    let j = find_group(gs, q[0])->0;
    let hs = gs.update(i, g);
    assert(find_group(hs, q[0]) == Some(j));
    if j != i {
        assert(hs[j] == gs[j]);
    } else {
        assert(hs[j] == g);
    }
}

/// Inserting a group keeps every task where it was.
pub proof fn lemma_group_insert_keeps_tasks(
    gs: Seq<GroupView>,
    path: Seq<Seq<char>>,
    child: GroupView,
    q: Seq<Seq<char>>,
    r: Seq<Seq<char>>,
)
    requires
        has_task_under(gs, q, r),
    ensures
        has_task_under(group_insert(gs, path, child), q, r),
    decreases path.len(), child,
{
    lemma_find_group_from(gs, q[0], 0);
    if path.len() > 0 {
        lemma_find_group_from(gs, path[0], 0);
        let (gs1, i) = match find_group(gs, path[0]) {
            Some(i) => (gs, i),
            None => (gs.push(empty_group(path[0])), gs.len() as int),
        };
        if find_group(gs, path[0]) is None {
            lemma_find_group_push_kept(gs, empty_group(path[0]), q[0], 0);
            assert(gs1[find_group(gs, q[0])->0] == gs[find_group(gs, q[0])->0]);
        }
        assert(has_task_under(gs1, q, r));
        let g = gs1[i];
        let g2 = GroupView { sub_groups: group_insert(g.sub_groups, path.drop_first(), child), ..g };
        if q.len() > 1 && find_group(gs1, q[0]) == Some(i) {
            lemma_group_insert_keeps_tasks(g.sub_groups, path.drop_first(), child, q.drop_first(), r);
        }
        lemma_group_update_keeps_tasks(gs1, i, g2, q, r);
    } else {
        lemma_find_group_from(gs, child.text, 0);
        match find_group(gs, child.text) {
            Some(i) => {
                let g = gs[i];
                let g2 = GroupView {
                    sub_groups: group_insert_all(g.sub_groups, child.sub_groups),
                    ..g
                };
                if q.len() > 1 && find_group(gs, q[0]) == Some(i) {
                    lemma_group_insert_all_keeps_tasks(g.sub_groups, child.sub_groups, q.drop_first(), r);
                }
                lemma_group_update_keeps_tasks(gs, i, g2, q, r);
            },
            None => {
                lemma_find_group_push_kept(gs, child, q[0], 0);
                assert(gs.push(child)[find_group(gs, q[0])->0] == gs[find_group(gs, q[0])->0]);
            },
        }
    }
}

/// Inserting groups one after the other keeps every task where it was.
pub proof fn lemma_group_insert_all_keeps_tasks(
    gs: Seq<GroupView>,
    kids: Seq<GroupView>,
    q: Seq<Seq<char>>,
    r: Seq<Seq<char>>,
)
    requires
        has_task_under(gs, q, r),
    ensures
        has_task_under(group_insert_all(gs, kids), q, r),
    decreases 0nat, kids,
{
    if kids.len() > 0 {
        lemma_group_insert_all_keeps_tasks(gs, kids.drop_last(), q, r);
        lemma_group_insert_keeps_tasks(
            group_insert_all(gs, kids.drop_last()),
            Seq::empty(),
            kids.last(),
            q,
            r,
        );
    }
}

/// Adding a task to a group keeps every task where it was.
proof fn lemma_add_task_at_keeps_tasks(
    gs: Seq<GroupView>,
    gpath: Seq<Seq<char>>,
    tpath: Seq<Seq<char>>,
    t: TaskView,
    q: Seq<Seq<char>>,
    r: Seq<Seq<char>>,
)
    requires
        has_task_under(gs, q, r),
    ensures
        has_task_under(add_task_at(gs, gpath, tpath, t), q, r),
    decreases gpath.len(),
{
    if gpath.len() > 0 {
        lemma_find_group_from(gs, gpath[0], 0);
        match find_group(gs, gpath[0]) {
            None => {},
            Some(i) => {
                let g = gs[i];
                if gpath.len() == 1 {
                    let g2 = GroupView { tasks: task_insert(g.tasks, tpath, t), ..g };
                    if q.len() == 1 && find_group(gs, q[0]) == Some(i) {
                        lemma_task_insert_keeps_tasks(g.tasks, tpath, t, r);
                    }
                    lemma_group_update_keeps_tasks(gs, i, g2, q, r);
                } else {
                    let g2 = GroupView {
                        sub_groups: add_task_at(g.sub_groups, gpath.drop_first(), tpath, t),
                        ..g
                    };
                    if q.len() > 1 && find_group(gs, q[0]) == Some(i) {
                        lemma_add_task_at_keeps_tasks(
                            g.sub_groups,
                            gpath.drop_first(),
                            tpath,
                            t,
                            q.drop_first(),
                            r,
                        );
                    }
                    lemma_group_update_keeps_tasks(gs, i, g2, q, r);
                }
            },
        }
    }
}

/// Adding a task to a group that is there puts it in that group, at its
/// task path.
proof fn lemma_add_task_at_places(
    gs: Seq<GroupView>,
    gpath: Seq<Seq<char>>,
    tpath: Seq<Seq<char>>,
    t: TaskView,
)
    requires
        has_group_at(gs, gpath),
    ensures
        has_task_under(add_task_at(gs, gpath, tpath, t), gpath, tpath.push(t.text)),
    decreases gpath.len(),
{
    lemma_find_group_from(gs, gpath[0], 0);
    let i = find_group(gs, gpath[0])->0;
    let g = gs[i];
    if gpath.len() == 1 {
        let g2 = GroupView { tasks: task_insert(g.tasks, tpath, t), ..g };
        lemma_task_insert_places(g.tasks, tpath, t);
        lemma_find_group_update(gs, i, g2, gpath[0], 0);
        assert(gs.update(i, g2)[i] == g2);
    } else {
        let g2 = GroupView {
            sub_groups: add_task_at(g.sub_groups, gpath.drop_first(), tpath, t),
            ..g
        };
        lemma_add_task_at_places(g.sub_groups, gpath.drop_first(), tpath, t);
        lemma_find_group_update(gs, i, g2, gpath[0], 0);
        assert(gs.update(i, g2)[i] == g2);
    }
}

/// Putting a moved task into a tree puts it in the group it was taken
/// from, at its task path, and keeps every task where it was.
pub proof fn lemma_tree_insert_task_puts(
    gs: Seq<GroupView>,
    c: MoveContextView,
    q: Seq<Seq<char>>,
    r: Seq<Seq<char>>,
)
    ensures
        has_task_under(
            tree_insert_task(gs, c),
            c.group_path.push(c.group_id),
            c.task_path.push(c.task.text),
        ),
        has_task_under(gs, q, r) ==> has_task_under(tree_insert_task(gs, c), q, r),
{
    let e = empty_group(c.group_id);
    let g1 = group_insert(gs, c.group_path, e);
    lemma_group_insert_places(gs, c.group_path, e);
    lemma_add_task_at_places(g1, c.group_path.push(c.group_id), c.task_path, c.task);
    if has_task_under(gs, q, r) {
        lemma_group_insert_keeps_tasks(gs, c.group_path, e, q, r);
        lemma_add_task_at_keeps_tasks(g1, c.group_path.push(c.group_id), c.task_path, c.task, q, r);
    }
}

/// After moved tasks are put into a tree, each one is in the group it
/// records, at its task path, and every task that was there still is.
pub proof fn lemma_insert_all_contexts_puts(
    gs: Seq<GroupView>,
    cs: Seq<MoveContextView>,
    q: Seq<Seq<char>>,
    r: Seq<Seq<char>>,
)
    ensures
        forall|k: int|
            0 <= k < cs.len() ==> has_task_under(
                insert_all_contexts(gs, cs),
                #[trigger] cs[k].group_path.push(cs[k].group_id),
                cs[k].task_path.push(cs[k].task.text),
            ),
        has_task_under(gs, q, r) ==> has_task_under(insert_all_contexts(gs, cs), q, r),
    decreases cs.len(),
{
    if cs.len() > 0 {
        let before = insert_all_contexts(gs, cs.drop_last());
        lemma_insert_all_contexts_puts(gs, cs.drop_last(), q, r);
        lemma_tree_insert_task_puts(before, cs.last(), q, r);
        assert forall|k: int| 0 <= k < cs.len() implies has_task_under(
            insert_all_contexts(gs, cs),
            #[trigger] cs[k].group_path.push(cs[k].group_id),
            cs[k].task_path.push(cs[k].task.text),
        ) by {
            let gp = cs[k].group_path.push(cs[k].group_id);
            let tp = cs[k].task_path.push(cs[k].task.text);
            if k < cs.len() - 1 {
                assert(cs[k] == cs.drop_last()[k]);
                lemma_insert_all_contexts_puts(gs, cs.drop_last(), gp, tp);
                lemma_tree_insert_task_puts(before, cs.last(), gp, tp);
            } else {
                lemma_tree_insert_task_puts(before, cs.last(), q, r);
            }
        }
    }
}

/// The union of two trees puts each task of the other tree where it was:
/// every task taken from `other`, found there below a path of groups and a
/// path of parent tasks, is found in the union in a group at that same
/// path of groups, at the same path of parent tasks; and every task of
/// `tree` stays where it was.
pub proof fn lemma_union_keeps_task_places(
    tree: Seq<GroupView>,
    other: Seq<GroupView>,
    q: Seq<Seq<char>>,
    r: Seq<Seq<char>>,
)
    ensures
        forall|k: int|
            0 <= k < pluck_groups(other, Seq::empty(), false).1.len() ==> {
                let c = #[trigger] pluck_groups(other, Seq::empty(), false).1[k];
                &&& task_in_groups(other, c.group_path.push(c.group_id), c.task_path, c.task)
                &&& has_task_under(
                    union_spec(tree, other),
                    c.group_path.push(c.group_id),
                    c.task_path.push(c.task.text),
                )
            },
        has_task_under(tree, q, r) ==> has_task_under(union_spec(tree, other), q, r),
{
    let cs = pluck_groups(other, Seq::empty(), false).1;
    lemma_pluck_keeps_task_places(other, false);
    lemma_insert_all_contexts_puts(tree, cs, q, r);
}


// ---------------------------------------------------------------------------
// Where taken tasks come from

/// Whether `t` is one of the tasks found along the path of parent texts
/// `p`: at the top of the list when the path is empty, else below a task
/// with the path's first text.
pub open spec fn task_under(ts: Seq<TaskView>, p: Seq<Seq<char>>, t: TaskView) -> bool
    decreases p.len(),
{
    if p.len() == 0 {
        ts.contains(t)
    } else {
        exists|i: int|
            0 <= i < ts.len() && #[trigger] ts[i].text == p[0] && task_under(
                ts[i].sub_tasks,
                p.drop_first(),
                t,
            )
    }
}

/// Whether every move records, after `path`, the path of parent texts of
/// a task of `ts` that it is.
pub open spec fn moves_under(
    ts: Seq<TaskView>,
    path: Seq<Seq<char>>,
    ms: Seq<(Seq<Seq<char>>, TaskView)>,
) -> bool {
    forall|k: int|
        0 <= k < ms.len() ==> {
            &&& path.len() <= #[trigger] ms[k].0.len()
            &&& ms[k].0.take(path.len() as int) == path
            &&& task_under(ts, ms[k].0.skip(path.len() as int), ms[k].1)
        }
}

/// A task found in a list without its last task is found in the list.
proof fn lemma_task_under_drop_last(ts: Seq<TaskView>, p: Seq<Seq<char>>, t: TaskView)
    requires
        ts.len() > 0,
        task_under(ts.drop_last(), p, t),
    ensures
        task_under(ts, p, t),
{
    if p.len() == 0 {
        let j = choose|j: int| 0 <= j < ts.drop_last().len() && ts.drop_last()[j] == t;
        assert(ts[j] == t);
    } else {
        let i = choose|i: int|
            0 <= i < ts.drop_last().len() && #[trigger] ts.drop_last()[i].text == p[0] && task_under(
                ts.drop_last()[i].sub_tasks,
                p.drop_first(),
                t,
            );
        assert(ts[i] == ts.drop_last()[i]);
    }
}

/// The tasks that stay after descending are the tasks of the list, each in
/// its place, those to be taken unchanged.
proof fn lemma_descend_keeps_taken(ts: Seq<TaskView>, path: Seq<Seq<char>>, only_done: bool)
    ensures
        descend(ts, path, only_done).0.len() == ts.len(),
        forall|i: int|
            0 <= i < ts.len() ==> (plucked(#[trigger] descend(ts, path, only_done).0[i], only_done)
                <==> plucked(ts[i], only_done)),
        forall|i: int|
            0 <= i < ts.len() && plucked(ts[i], only_done) ==> #[trigger] descend(
                ts,
                path,
                only_done,
            ).0[i] == ts[i],
    decreases ts.len(),
{
    if ts.len() > 0 {
        lemma_descend_keeps_taken(ts.drop_last(), path, only_done);
        let d = descend(ts, path, only_done);
        let r = descend(ts.drop_last(), path, only_done);
        assert forall|i: int| 0 <= i < ts.len() - 1 implies d.0[i] == r.0[i] by {}
        assert forall|i: int| 0 <= i < ts.len() - 1 implies ts[i] == ts.drop_last()[i] by {}
    }
}

/// Every task taken from a list is a task of the list that is to be taken.
proof fn lemma_taken_of_in(xs: Seq<TaskView>, only_done: bool)
    ensures
        forall|j: int|
            0 <= j < taken_of(xs, only_done).len() ==> exists|i: int|
                0 <= i < xs.len() && plucked(xs[i], only_done) && xs[i] == #[trigger] taken_of(
                    xs,
                    only_done,
                )[j],
    decreases xs.len(),
{
    if xs.len() > 0 {
        lemma_taken_of_in(xs.drop_last(), only_done);
        let a = taken_of(xs.drop_last(), only_done);
        assert forall|j: int| 0 <= j < taken_of(xs, only_done).len() implies exists|i: int|
            0 <= i < xs.len() && plucked(xs[i], only_done) && xs[i] == #[trigger] taken_of(
                xs,
                only_done,
            )[j] by {
            if j < a.len() {
                assert(taken_of(xs, only_done)[j] == a[j]);
                let i = choose|i: int|
                    0 <= i < xs.drop_last().len() && plucked(xs.drop_last()[i], only_done)
                        && xs.drop_last()[i] == #[trigger] a[j];
                assert(xs[i] == xs.drop_last()[i]);
            } else {
                assert(taken_of(xs, only_done)[j] == xs.last());
                assert(xs[xs.len() - 1] == xs.last());
            }
        }
    }
}

/// Every task taken out of a list of tasks records the texts of its parent
/// tasks after the path it was given, and is the task found below them:
/// taken tasks keep their place.
pub proof fn lemma_extract_keeps_places(ts: Seq<TaskView>, path: Seq<Seq<char>>, only_done: bool)
    ensures
        moves_under(ts, path, extract_tasks(ts, path, only_done).1),
    decreases ts, 1nat,
{
    let d = descend(ts, path, only_done);
    lemma_descend_keeps_places(ts, path, only_done);
    lemma_descend_keeps_taken(ts, path, only_done);
    lemma_taken_of_in(d.0, only_done);
    let a = at_path(taken_of(d.0, only_done), path);
    let ms = a + d.1;
    assert(extract_tasks(ts, path, only_done).1 == ms);
    assert forall|k: int| 0 <= k < ms.len() implies {
        &&& path.len() <= #[trigger] ms[k].0.len()
        &&& ms[k].0.take(path.len() as int) == path
        &&& task_under(ts, ms[k].0.skip(path.len() as int), ms[k].1)
    } by {
        if k < a.len() {
            let m = taken_of(d.0, only_done)[k];
            assert(ms[k] == (path, m));
            assert(path.take(path.len() as int) =~= path);
            assert(path.skip(path.len() as int) =~= Seq::<Seq<char>>::empty());
            let i = choose|i: int|
                0 <= i < d.0.len() && plucked(d.0[i], only_done) && d.0[i] == #[trigger] taken_of(
                    d.0,
                    only_done,
                )[k];
            assert(d.0[i] == ts[i]);
            assert(ts.contains(m));
        } else {
            assert(ms[k] == d.1[k - a.len()]);
        }
    }
}

proof fn lemma_descend_keeps_places(ts: Seq<TaskView>, path: Seq<Seq<char>>, only_done: bool)
    ensures
        moves_under(ts, path, descend(ts, path, only_done).1),
    decreases ts, 0nat,
{
    if ts.len() > 0 {
        let r = descend(ts.drop_last(), path, only_done);
        let t = ts.last();
        lemma_descend_keeps_places(ts.drop_last(), path, only_done);
        let ms = descend(ts, path, only_done).1;
        if plucked(t, only_done) {
            assert(ms == r.1);
            assert forall|k: int| 0 <= k < ms.len() implies {
                &&& path.len() <= #[trigger] ms[k].0.len()
                &&& ms[k].0.take(path.len() as int) == path
                &&& task_under(ts, ms[k].0.skip(path.len() as int), ms[k].1)
            } by {
                lemma_task_under_drop_last(ts, ms[k].0.skip(path.len() as int), ms[k].1);
            }
        } else {
            let sp = path.push(t.text);
            let e = extract_tasks(t.sub_tasks, sp, only_done);
            lemma_extract_keeps_places(t.sub_tasks, sp, only_done);
            assert(ms == r.1 + e.1);
            assert forall|k: int| 0 <= k < ms.len() implies {
                &&& path.len() <= #[trigger] ms[k].0.len()
                &&& ms[k].0.take(path.len() as int) == path
                &&& task_under(ts, ms[k].0.skip(path.len() as int), ms[k].1)
            } by {
                if k < r.1.len() {
                    assert(ms[k] == r.1[k]);
                    lemma_task_under_drop_last(ts, ms[k].0.skip(path.len() as int), ms[k].1);
                } else {
                    let m = e.1[k - r.1.len()];
                    assert(ms[k] == m);
                    assert(sp.len() <= m.0.len());
                    assert(m.0.take(sp.len() as int) == sp);
                    assert(m.0.take(path.len() as int) =~= sp.take(path.len() as int));
                    assert(sp.take(path.len() as int) =~= path);
                    let p = m.0.skip(path.len() as int);
                    assert(m.0[path.len() as int] == sp[path.len() as int]);
                    assert(p[0] == t.text);
                    assert(p.drop_first() =~= m.0.skip(sp.len() as int));
                    assert(ts[ts.len() - 1] == t);
                    assert(task_under(ts[ts.len() - 1].sub_tasks, p.drop_first(), m.1));
                }
            }
        }
    }
}


/// Whether `t` is found, below the parent texts `tp`, among the tasks of a
/// group at the path of group texts `gp`.
pub open spec fn task_in_groups(
    gs: Seq<GroupView>,
    gp: Seq<Seq<char>>,
    tp: Seq<Seq<char>>,
    t: TaskView,
) -> bool
    decreases gp.len(),
{
    if gp.len() == 0 {
        false
    } else {
        exists|i: int|
            0 <= i < gs.len() && #[trigger] gs[i].text == gp[0] && if gp.len() == 1 {
                task_under(gs[i].tasks, tp, t)
            } else {
                task_in_groups(gs[i].sub_groups, gp.drop_first(), tp, t)
            }
    }
}

/// Whether every move records, after `gp`, the path of a group of `gs`
/// and the path of parent tasks of a task of that group that it is.
pub open spec fn contexts_from(gs: Seq<GroupView>, gp: Seq<Seq<char>>, cs: Seq<MoveContextView>) -> bool {
    forall|k: int|
        0 <= k < cs.len() ==> {
            &&& gp.len() <= #[trigger] cs[k].group_path.len()
            &&& cs[k].group_path.take(gp.len() as int) == gp
            &&& task_in_groups(
                gs,
                cs[k].group_path.skip(gp.len() as int).push(cs[k].group_id),
                cs[k].task_path,
                cs[k].task,
            )
        }
}

proof fn lemma_pluck_group_tasks(g: GroupView, gp: Seq<Seq<char>>, only_done: bool)
    ensures
        contexts_from(seq![g], gp, pluck_group(g, gp, only_done).1),
    decreases g,
{
    let e = extract_tasks(g.tasks, Seq::empty(), only_done);
    let own = with_group(e.1, gp, g.text);
    let sp = gp.push(g.text);
    let sub = pluck_groups(g.sub_groups, sp, only_done).1;
    lemma_extract_keeps_places(g.tasks, Seq::empty(), only_done);
    lemma_pluck_groups_tasks(g.sub_groups, sp, only_done);
    let cs = own + sub;
    assert(pluck_group(g, gp, only_done).1 == cs);
    assert forall|k: int| 0 <= k < cs.len() implies {
        &&& gp.len() <= #[trigger] cs[k].group_path.len()
        &&& cs[k].group_path.take(gp.len() as int) == gp
        &&& task_in_groups(
            seq![g],
            cs[k].group_path.skip(gp.len() as int).push(cs[k].group_id),
            cs[k].task_path,
            cs[k].task,
        )
    } by {
        let c = cs[k];
        assert(seq![g][0] == g);
        if k < own.len() {
            assert(c == own[k]);
            let m = e.1[k];
            assert(c.group_path == gp && c.group_id == g.text && c.task_path == m.0 && c.task == m.1);
            assert(gp.take(gp.len() as int) =~= gp);
            assert(m.0.skip(0) =~= m.0);
            let p = gp.skip(gp.len() as int).push(g.text);
            assert(p =~= seq![g.text]);
            assert(task_under(seq![g][0].tasks, c.task_path, c.task));
        } else {
            let j = k - own.len();
            assert(c == sub[j]);
            assert(sp.len() <= sub[j].group_path.len());
            assert(c.group_path.take(sp.len() as int) == sp);
            assert(c.group_path.take(gp.len() as int) =~= sp.take(gp.len() as int));
            assert(sp.take(gp.len() as int) =~= gp);
            let rel = c.group_path.skip(sp.len() as int).push(c.group_id);
            let p = c.group_path.skip(gp.len() as int).push(c.group_id);
            assert(c.group_path[gp.len() as int] == sp[gp.len() as int]);
            assert(p[0] == g.text);
            assert(p.drop_first() =~= rel);
            assert(p.len() > 1);
            assert(task_in_groups(seq![g][0].sub_groups, p.drop_first(), c.task_path, c.task));
        }
    }
}

proof fn lemma_pluck_groups_tasks(gs: Seq<GroupView>, gp: Seq<Seq<char>>, only_done: bool)
    ensures
        contexts_from(gs, gp, pluck_groups(gs, gp, only_done).1),
    decreases gs,
{
    if gs.len() > 0 {
        let r = pluck_groups(gs.drop_last(), gp, only_done).1;
        let q = pluck_group(gs.last(), gp, only_done).1;
        lemma_pluck_groups_tasks(gs.drop_last(), gp, only_done);
        lemma_pluck_group_tasks(gs.last(), gp, only_done);
        let cs = r + q;
        assert(pluck_groups(gs, gp, only_done).1 == cs);
        assert forall|k: int| 0 <= k < cs.len() implies {
            &&& gp.len() <= #[trigger] cs[k].group_path.len()
            &&& cs[k].group_path.take(gp.len() as int) == gp
            &&& task_in_groups(
                gs,
                cs[k].group_path.skip(gp.len() as int).push(cs[k].group_id),
                cs[k].task_path,
                cs[k].task,
            )
        } by {
            let c = cs[k];
            let p = c.group_path.skip(gp.len() as int).push(c.group_id);
            if k < r.len() {
                assert(c == r[k]);
                assert(task_in_groups(gs.drop_last(), p, c.task_path, c.task));
                let i = choose|i: int|
                    0 <= i < gs.drop_last().len() && #[trigger] gs.drop_last()[i].text == p[0]
                        && if p.len() == 1 {
                        task_under(gs.drop_last()[i].tasks, c.task_path, c.task)
                    } else {
                        task_in_groups(gs.drop_last()[i].sub_groups, p.drop_first(), c.task_path, c.task)
                    };
                assert(gs[i] == gs.drop_last()[i]);
            } else {
                assert(c == q[k - r.len()]);
                assert(task_in_groups(seq![gs.last()], p, c.task_path, c.task));
                let i = choose|i: int|
                    0 <= i < seq![gs.last()].len() && #[trigger] seq![gs.last()][i].text == p[0]
                        && if p.len() == 1 {
                        task_under(seq![gs.last()][i].tasks, c.task_path, c.task)
                    } else {
                        task_in_groups(seq![gs.last()][i].sub_groups, p.drop_first(), c.task_path, c.task)
                    };
                assert(i == 0);
                assert(gs[gs.len() - 1] == gs.last());
            }
        }
    }
}

/// Every task taken out of a tree, as `pluck_tasks`, `union` and archiving
/// take them, is a task of the tree, and records where it was: the path of
/// its group (the texts of the group's parents, then the group's own) and
/// the texts of its parent tasks in that group.
pub proof fn lemma_pluck_keeps_task_places(gs: Seq<GroupView>, only_done: bool)
    ensures
        forall|k: int|
            0 <= k < pluck_groups(gs, Seq::empty(), only_done).1.len() ==> {
                let c = #[trigger] pluck_groups(gs, Seq::empty(), only_done).1[k];
                task_in_groups(gs, c.group_path.push(c.group_id), c.task_path, c.task)
            },
{
    lemma_pluck_groups_tasks(gs, Seq::empty(), only_done);
    let cs = pluck_groups(gs, Seq::empty(), only_done).1;
    assert forall|k: int| 0 <= k < cs.len() implies task_in_groups(
        gs,
        #[trigger] cs[k].group_path.push(cs[k].group_id),
        cs[k].task_path,
        cs[k].task,
    ) by {
        assert(cs[k].group_path.skip(0) =~= cs[k].group_path);
    }
}

} // verus!
