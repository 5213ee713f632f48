//! The tree of groups and tasks: paths into it, and adding children at a
//! path, where a child whose id (its text) is already there is merged
//! into the one that is there.
use vstd::prelude::*;
use crate::session::{Session, SessionView};
use crate::group::{
    Group, GroupView, group_view, group_views, lemma_group_views, lemma_group_views_push,
    lemma_group_views_update, empty_group,
};
use crate::task::{
    Task, TaskView, task_view, task_views, lemma_task_views, lemma_task_views_push,
    lemma_task_views_update, sessions_view,
};

verus! {

/// Location of a child: the ids of its ancestors, root first, and its own id.
#[derive(Debug, Clone, PartialEq, Eq)]
pub struct Path {
    pub parent_ids: Vec<String>,
    pub child_id: String,
}

/// Mathematical model of a [`Path`].
pub struct PathView {
    pub parent_ids: Seq<Seq<char>>,
    pub child_id: Seq<char>,
}

/// The characters of each string, in order.
pub open spec fn strings_view(v: Seq<String>) -> Seq<Seq<char>> {
    v.map_values(|s: String| s@)
}

impl View for Path {
    type V = PathView;

    open spec fn view(&self) -> PathView {
        PathView { parent_ids: strings_view(self.parent_ids@), child_id: self.child_id@ }
    }
}

// ---------------------------------------------------------------------------
// Inserting tasks

/// Index of the first task with the given text at or after `i`.
pub open spec fn find_task_from(ts: Seq<TaskView>, id: Seq<char>, i: int) -> Option<int>
    decreases ts.len() - i,
{
    if i < 0 || i >= ts.len() {
        None
    } else if ts[i].text == id {
        Some(i)
    } else {
        find_task_from(ts, id, i + 1)
    }
}

/// Index of the first task with the given text.
pub open spec fn find_task(ts: Seq<TaskView>, id: Seq<char>) -> Option<int> {
    find_task_from(ts, id, 0)
}

/// A task with the given text and nothing else.
pub open spec fn new_task(id: Seq<char>) -> TaskView {
    TaskView { done: None, text: id, sessions: Seq::empty(), sub_tasks: Seq::empty() }
}

/// The tasks with `child` added at `path`: missing tasks along the path are
/// created; at the end, a task with the child's text takes the child's
/// sessions after its own and has the child's sub-tasks inserted into its
/// own, else the child is added last.
pub open spec fn task_insert(ts: Seq<TaskView>, path: Seq<Seq<char>>, child: TaskView) -> Seq<
    TaskView,
>
    decreases path.len(), child,
{
    if path.len() > 0 {
        let (ts1, i) = match find_task(ts, path[0]) {
            Some(i) => (ts, i),
            None => (ts.push(new_task(path[0])), ts.len() as int),
        };
        ts1.update(
            i,
            TaskView { sub_tasks: task_insert(ts1[i].sub_tasks, path.drop_first(), child), ..ts1[i] },
        )
    } else {
        match find_task(ts, child.text) {
            Some(i) => ts.update(
                i,
                TaskView {
                    sessions: ts[i].sessions + child.sessions,
                    sub_tasks: task_insert_all(ts[i].sub_tasks, child.sub_tasks),
                    ..ts[i]
                },
            ),
            None => ts.push(child),
        }
    }
}

/// The tasks with each of `kids` inserted in turn at the top.
pub open spec fn task_insert_all(ts: Seq<TaskView>, kids: Seq<TaskView>) -> Seq<TaskView>
    decreases 0nat, kids,
{
    if kids.len() == 0 {
        ts
    } else {
        task_insert(task_insert_all(ts, kids.drop_last()), Seq::empty(), kids.last())
    }
}

/// Index of the first task with the given text (see [`find_task`]).
pub fn find_task_index(ts: &Vec<Task>, id: &String) -> (r: Option<usize>)
    ensures
        match r {
            Some(i) => find_task(task_views(ts@), id@) == Some(i as int) && i < ts@.len(),
            None => find_task(task_views(ts@), id@) is None,
        },
{
    proof {
        lemma_task_views(ts@);
    }
    let mut i: usize = 0;
    while i < ts.len()
        invariant
            i <= ts@.len(),
            task_views(ts@).len() == ts@.len(),
            forall|j: int| 0 <= j < ts@.len() ==> #[trigger] task_views(ts@)[j] == task_view(ts@[j]),
            find_task(task_views(ts@), id@) == find_task_from(task_views(ts@), id@, i as int),
        decreases ts.len() - i,
    {
        if ts[i].text == *id {
            return Some(i);
        }
        i = i + 1;
    }
    None
}

/// A task with the given text and nothing else.
pub fn task_named(id: String) -> (r: Task)
    ensures
        r@ == new_task(id@),
{
    let r = Task { done: None, text: id, sessions: Vec::new(), sub_tasks: Vec::new() };
    proof {
        assert(sessions_view(r.sessions@) =~= Seq::<SessionView>::empty());
        assert(task_views(r.sub_tasks@) =~= Seq::<TaskView>::empty());
    }
    r
}

/// Adds `child` at `path[from..]` (see [`task_insert`]).
pub fn insert_task(ts: &mut Vec<Task>, path: &Vec<String>, from: usize, child: Task)
    requires
        from <= path@.len(),
    ensures
        task_views(final(ts)@) == task_insert(
            task_views(old(ts)@),
            strings_view(path@).skip(from as int),
            child@,
        ),
    decreases path@.len() - from, child,
{
    let ghost p = strings_view(path@).skip(from as int);
    proof {
        lemma_task_views(ts@);
    }
    if from < path.len() {
        let id = &path[from];
        proof {
            assert(p[0] == path@[from as int]@);
            assert(p.drop_first() =~= strings_view(path@).skip(from + 1));
        }
        let i = match find_task_index(ts, id) {
            Some(i) => i,
            None => {
                let t = task_named(path[from].clone());
                proof {
                    lemma_task_views_push(ts@, t);
                }
                ts.push(t);
                ts.len() - 1
            },
        };
        let ghost ts1 = ts@;
        proof {
            lemma_task_views(ts1);
        }
        let mut t = ts.remove(i);
        insert_task(&mut t.sub_tasks, path, from + 1, child);
        ts.insert(i, t);
        proof {
            assert(ts@ =~= ts1.update(i as int, t));
            lemma_task_views_update(ts1, i as int, t);
        }
    } else {
        proof {
            assert(p.len() == 0);
        }
        match find_task_index(ts, &child.text) {
            Some(i) => {
                let ghost ts0 = ts@;
                let mut t = ts.remove(i);
                let mut c = child;
                let ghost c0 = c;
                t.sessions.append(&mut c.sessions);
                insert_tasks(&mut t.sub_tasks, c.sub_tasks);
                ts.insert(i, t);
                proof {
                    assert(ts@ =~= ts0.update(i as int, t));
                    lemma_task_views_update(ts0, i as int, t);
                    assert(sessions_view(t.sessions@) =~= sessions_view(ts0[i as int].sessions@)
                        + sessions_view(c0.sessions@));
                }
            },
            None => {
                proof {
                    lemma_task_views_push(ts@, child);
                }
                ts.push(child);
            },
        }
    }
}

/// Adds each of `kids` in turn at the top (see [`task_insert_all`]).
#[verifier::loop_isolation(false)]
pub fn insert_tasks(ts: &mut Vec<Task>, kids: Vec<Task>)
    ensures
        task_views(final(ts)@) == task_insert_all(task_views(old(ts)@), task_views(kids@)),
    decreases 0nat, kids,
{
    let ghost orig = kids@;
    let ghost kv = kids;
    let ghost start = task_views(ts@);
    let total = kids.len();
    let mut rest = kids;
    let mut k: usize = 0;
    proof {
        lemma_task_views(orig);
        assert(task_views(orig).take(0) =~= Seq::<TaskView>::empty());
        assert(orig.skip(0) =~= orig);
    }
    let empty: Vec<String> = Vec::new();
    while rest.len() > 0
        invariant
            k <= orig.len(),
            orig.len() == total,
            kv@ == orig,
            rest@ == orig.skip(k as int),
            task_views(orig).len() == orig.len(),
            forall|j: int| 0 <= j < orig.len() ==> #[trigger] task_views(orig)[j] == task_view(orig[j]),
            task_views(ts@) == task_insert_all(start, task_views(orig).take(k as int)),
            empty@.len() == 0,
        decreases rest.len(),
    {
        let c = rest.remove(0);
        proof {
            assert(c == orig[k as int]);
            assert(rest@ =~= orig.skip(k + 1));
            assert(task_views(orig).take(k + 1).drop_last() =~= task_views(orig).take(k as int));
            assert(strings_view(empty@).skip(0) =~= Seq::<Seq<char>>::empty());
            assert(decreases_to!(kv => kv@));
            assert(decreases_to!(kv@ => kv@[k as int]));
            assert(decreases_to!(kv => c));
        }
        insert_task(ts, &empty, 0, c);
        k = k + 1;
    }
    proof {
        assert(task_views(orig).take(orig.len() as int) =~= task_views(orig));
    }
}

// ---------------------------------------------------------------------------
// Inserting groups

/// Index of the first group with the given text at or after `i`.
pub open spec fn find_group_from(gs: Seq<GroupView>, id: Seq<char>, i: int) -> Option<int>
    decreases gs.len() - i,
{
    if i < 0 || i >= gs.len() {
        None
    } else if gs[i].text == id {
        Some(i)
    } else {
        find_group_from(gs, id, i + 1)
    }
}

/// Index of the first group with the given text.
pub open spec fn find_group(gs: Seq<GroupView>, id: Seq<char>) -> Option<int> {
    find_group_from(gs, id, 0)
}

/// The groups with `child` added at `path`: missing groups along the path
/// are created; at the end, a group with the child's text has the child's
/// sub-groups inserted into its own (its tasks stay as they are), else the
/// child is added last.
pub open spec fn group_insert(gs: Seq<GroupView>, path: Seq<Seq<char>>, child: GroupView) -> Seq<
    GroupView,
>
    decreases path.len(), child,
{
    if path.len() > 0 {
        let (gs1, i) = match find_group(gs, path[0]) {
            Some(i) => (gs, i),
            None => (gs.push(empty_group(path[0])), gs.len() as int),
        };
        gs1.update(
            i,
            GroupView {
                sub_groups: group_insert(gs1[i].sub_groups, path.drop_first(), child),
                ..gs1[i]
            },
        )
    } else {
        match find_group(gs, child.text) {
            Some(i) => gs.update(
                i,
                GroupView { sub_groups: group_insert_all(gs[i].sub_groups, child.sub_groups), ..gs[i] },
            ),
            None => gs.push(child),
        }
    }
}

/// The groups with each of `kids` inserted in turn at the top.
pub open spec fn group_insert_all(gs: Seq<GroupView>, kids: Seq<GroupView>) -> Seq<GroupView>
    decreases 0nat, kids,
{
    if kids.len() == 0 {
        gs
    } else {
        group_insert(group_insert_all(gs, kids.drop_last()), Seq::empty(), kids.last())
    }
}

/// Index of the first group with the given text (see [`find_group`]).
pub fn find_group_index(gs: &Vec<Group>, id: &String) -> (r: Option<usize>)
    ensures
        match r {
            Some(i) => find_group(group_views(gs@), id@) == Some(i as int) && i < gs@.len(),
            None => find_group(group_views(gs@), id@) is None,
        },
{
    proof {
        lemma_group_views(gs@);
    }
    let mut i: usize = 0;
    while i < gs.len()
        invariant
            i <= gs@.len(),
            group_views(gs@).len() == gs@.len(),
            forall|j: int|
                0 <= j < gs@.len() ==> #[trigger] group_views(gs@)[j] == group_view(gs@[j]),
            find_group(group_views(gs@), id@) == find_group_from(group_views(gs@), id@, i as int),
        decreases gs.len() - i,
    {
        if gs[i].text == *id {
            return Some(i);
        }
        i = i + 1;
    }
    None
}

/// Adds `child` at `path[from..]` (see [`group_insert`]).
pub fn insert_group(gs: &mut Vec<Group>, path: &Vec<String>, from: usize, child: Group)
    requires
        from <= path@.len(),
    ensures
        group_views(final(gs)@) == group_insert(
            group_views(old(gs)@),
            strings_view(path@).skip(from as int),
            child@,
        ),
    decreases path@.len() - from, child,
{
    let ghost p = strings_view(path@).skip(from as int);
    proof {
        lemma_group_views(gs@);
    }
    if from < path.len() {
        let id = &path[from];
        proof {
            assert(p[0] == path@[from as int]@);
            assert(p.drop_first() =~= strings_view(path@).skip(from + 1));
        }
        let i = match find_group_index(gs, id) {
            Some(i) => i,
            None => {
                let g = Group::new(path[from].clone());
                proof {
                    lemma_group_views_push(gs@, g);
                }
                gs.push(g);
                gs.len() - 1
            },
        };
        let ghost gs1 = gs@;
        proof {
            lemma_group_views(gs1);
        }
        let mut g = gs.remove(i);
        insert_group(&mut g.sub_groups, path, from + 1, child);
        gs.insert(i, g);
        proof {
            assert(gs@ =~= gs1.update(i as int, g));
            lemma_group_views_update(gs1, i as int, g);
        }
    } else {
        proof {
            assert(p.len() == 0);
        }
        match find_group_index(gs, &child.text) {
            Some(i) => {
                let ghost gs0 = gs@;
                let mut g = gs.remove(i);
                insert_groups(&mut g.sub_groups, child.sub_groups);
                gs.insert(i, g);
                proof {
                    assert(gs@ =~= gs0.update(i as int, g));
                    lemma_group_views_update(gs0, i as int, g);
                }
            },
            None => {
                proof {
                    lemma_group_views_push(gs@, child);
                }
                gs.push(child);
            },
        }
    }
}

/// Adds each of `kids` in turn at the top (see [`group_insert_all`]).
#[verifier::loop_isolation(false)]
pub fn insert_groups(gs: &mut Vec<Group>, kids: Vec<Group>)
    ensures
        group_views(final(gs)@) == group_insert_all(group_views(old(gs)@), group_views(kids@)),
    decreases 0nat, kids,
{
    let ghost orig = kids@;
    let ghost kv = kids;
    let ghost start = group_views(gs@);
    let total = kids.len();
    let mut rest = kids;
    let mut k: usize = 0;
    proof {
        lemma_group_views(orig);
        assert(group_views(orig).take(0) =~= Seq::<GroupView>::empty());
        assert(orig.skip(0) =~= orig);
    }
    let empty: Vec<String> = Vec::new();
    while rest.len() > 0
        invariant
            k <= orig.len(),
            orig.len() == total,
            kv@ == orig,
            rest@ == orig.skip(k as int),
            group_views(orig).len() == orig.len(),
            forall|j: int|
                0 <= j < orig.len() ==> #[trigger] group_views(orig)[j] == group_view(orig[j]),
            group_views(gs@) == group_insert_all(start, group_views(orig).take(k as int)),
            empty@.len() == 0,
        decreases rest.len(),
    {
        let c = rest.remove(0);
        proof {
            assert(c == orig[k as int]);
            assert(rest@ =~= orig.skip(k + 1));
            assert(group_views(orig).take(k + 1).drop_last() =~= group_views(orig).take(k as int));
            assert(strings_view(empty@).skip(0) =~= Seq::<Seq<char>>::empty());
            assert(decreases_to!(kv => kv@));
            assert(decreases_to!(kv@ => kv@[k as int]));
            assert(decreases_to!(kv => c));
        }
        insert_group(gs, &empty, 0, c);
        k = k + 1;
    }
    proof {
        assert(group_views(orig).take(orig.len() as int) =~= group_views(orig));
    }
}

// ---------------------------------------------------------------------------
// Recording a session on a task that is there

/// The tasks with `s` recorded last on the task reached by following
/// `path` and then `id`, each step taking the first task of that text;
/// `None` when a step finds no task.
pub open spec fn task_add_session(
    ts: Seq<TaskView>,
    path: Seq<Seq<char>>,
    id: Seq<char>,
    s: SessionView,
) -> Option<Seq<TaskView>>
    decreases path.len(),
{
    if path.len() > 0 {
        match find_task(ts, path[0]) {
            None => None,
            Some(i) => match task_add_session(ts[i].sub_tasks, path.drop_first(), id, s) {
                None => None,
                Some(sub) => Some(ts.update(i, TaskView { sub_tasks: sub, ..ts[i] })),
            },
        }
    } else {
        match find_task(ts, id) {
            None => None,
            Some(i) => Some(ts.update(i, TaskView { sessions: ts[i].sessions.push(s), ..ts[i] })),
        }
    }
}

/// The groups with `s` recorded on the task at `tpath` then `tid` of the
/// group reached by following `gpath` and then `gid`; `None` when a step
/// finds no group or task.
pub open spec fn group_add_session(
    gs: Seq<GroupView>,
    gpath: Seq<Seq<char>>,
    gid: Seq<char>,
    tpath: Seq<Seq<char>>,
    tid: Seq<char>,
    s: SessionView,
) -> Option<Seq<GroupView>>
    decreases gpath.len(),
{
    if gpath.len() > 0 {
        match find_group(gs, gpath[0]) {
            None => None,
            Some(i) => match group_add_session(gs[i].sub_groups, gpath.drop_first(), gid, tpath, tid, s) {
                None => None,
                Some(sub) => Some(gs.update(i, GroupView { sub_groups: sub, ..gs[i] })),
            },
        }
    } else {
        match find_group(gs, gid) {
            None => None,
            Some(i) => match task_add_session(gs[i].tasks, tpath, tid, s) {
                None => None,
                Some(ts) => Some(gs.update(i, GroupView { tasks: ts, ..gs[i] })),
            },
        }
    }
}

/// Records `s` on the task at `path[from..]` then `id` (see
/// [`task_add_session`]); `false`, with the tasks as they were, when there
/// is no such task.
pub fn add_task_session(ts: &mut Vec<Task>, path: &Vec<String>, from: usize, id: &String, s: Session) -> (r: bool)
    requires
        from <= path@.len(),
    ensures
        match task_add_session(task_views(old(ts)@), strings_view(path@).skip(from as int), id@, s@) {
            Some(n) => r && task_views(final(ts)@) == n,
            None => !r && task_views(final(ts)@) == task_views(old(ts)@),
        },
    decreases path@.len() - from,
{
    let ghost p = strings_view(path@).skip(from as int);
    if from < path.len() {
        proof {
            assert(p[0] == path@[from as int]@);
            assert(p.drop_first() =~= strings_view(path@).skip(from + 1));
        }
        match find_task_index(ts, &path[from]) {
            None => false,
            Some(i) => {
                let ghost ts0 = ts@;
                proof {
                    lemma_task_views(ts0);
                }
                let mut t = ts.remove(i);
                let done = add_task_session(&mut t.sub_tasks, path, from + 1, id, s);
                ts.insert(i, t);
                proof {
                    assert(ts@ =~= ts0.update(i as int, t));
                    lemma_task_views_update(ts0, i as int, t);
                    if !done {
                        assert(task_views(ts@) =~= task_views(ts0));
                    }
                }
                done
            },
        }
    } else {
        proof {
            assert(p.len() == 0);
        }
        match find_task_index(ts, id) {
            None => false,
            Some(i) => {
                let ghost ts0 = ts@;
                proof {
                    lemma_task_views(ts0);
                }
                let mut t = ts.remove(i);
                let ghost before = t.sessions@;
                t.sessions.push(s);
                ts.insert(i, t);
                proof {
                    assert(ts@ =~= ts0.update(i as int, t));
                    lemma_task_views_update(ts0, i as int, t);
                    assert(sessions_view(t.sessions@) =~= sessions_view(before).push(s@));
                }
                true
            },
        }
    }
}

/// Records `s` on the task at `tpath` then `tid` of the group at
/// `gpath[from..]` then `gid` (see [`group_add_session`]); `false`, with
/// the groups unchanged, when there is no such group or task.
pub fn add_group_session(
    gs: &mut Vec<Group>,
    gpath: &Vec<String>,
    from: usize,
    gid: &String,
    tpath: &Vec<String>,
    tid: &String,
    s: Session,
) -> (r: bool)
    requires
        from <= gpath@.len(),
    ensures
        match group_add_session(
            group_views(old(gs)@),
            strings_view(gpath@).skip(from as int),
            gid@,
            strings_view(tpath@),
            tid@,
            s@,
        ) {
            Some(n) => r && group_views(final(gs)@) == n,
            None => !r && group_views(final(gs)@) == group_views(old(gs)@),
        },
    decreases gpath@.len() - from,
{
    let ghost p = strings_view(gpath@).skip(from as int);
    if from < gpath.len() {
        proof {
            assert(p[0] == gpath@[from as int]@);
            assert(p.drop_first() =~= strings_view(gpath@).skip(from + 1));
        }
        match find_group_index(gs, &gpath[from]) {
            None => false,
            Some(i) => {
                let ghost gs0 = gs@;
                proof {
                    lemma_group_views(gs0);
                }
                let mut g = gs.remove(i);
                let done = add_group_session(&mut g.sub_groups, gpath, from + 1, gid, tpath, tid, s);
                gs.insert(i, g);
                proof {
                    assert(gs@ =~= gs0.update(i as int, g));
                    lemma_group_views_update(gs0, i as int, g);
                    if !done {
                        assert(group_views(gs@) =~= group_views(gs0));
                    }
                }
                done
            },
        }
    } else {
        proof {
            assert(p.len() == 0);
            assert(strings_view(tpath@).skip(0) =~= strings_view(tpath@));
        }
        match find_group_index(gs, gid) {
            None => false,
            Some(i) => {
                let ghost gs0 = gs@;
                proof {
                    lemma_group_views(gs0);
                }
                let mut g = gs.remove(i);
                let done = add_task_session(&mut g.tasks, tpath, 0, tid, s);
                gs.insert(i, g);
                proof {
                    assert(gs@ =~= gs0.update(i as int, g));
                    lemma_group_views_update(gs0, i as int, g);
                    if !done {
                        assert(group_views(gs@) =~= group_views(gs0));
                    }
                }
                done
            },
        }
    }
}

// ---------------------------------------------------------------------------
// Taking tasks out

/// Copies a list of strings.
pub fn clone_strings(v: &Vec<String>) -> (r: Vec<String>)
    ensures
        strings_view(r@) == strings_view(v@),
{
    let mut r: Vec<String> = Vec::new();
    let mut i: usize = 0;
    while i < v.len()
        invariant
            i <= v@.len(),
            r@.len() == i,
            strings_view(r@) == strings_view(v@).take(i as int),
        decreases v.len() - i,
    {
        let ghost before = r@;
        r.push(v[i].clone());
        proof {
            assert(r@ == before.push(v@[i as int]));
            assert forall|j: int| 0 <= j < i + 1 implies #[trigger] strings_view(r@)[j]
                == strings_view(v@).take(i + 1)[j] by {
                assert(strings_view(r@)[j] == r@[j]@);
                assert(strings_view(v@)[j] == v@[j]@);
                if j < i {
                    assert(r@[j] == before[j]);
                    assert(strings_view(before)[j] == before[j]@);
                    assert(strings_view(before)[j] == strings_view(v@).take(i as int)[j]);
                }
            }
            assert(strings_view(r@) =~= strings_view(v@).take(i + 1));
        }
        i = i + 1;
    }
    proof {
        assert(strings_view(v@).take(v@.len() as int) =~= strings_view(v@));
    }
    r
}

/// Whether a task is to be taken out: every task, or only those done.
pub open spec fn plucked(t: TaskView, only_done: bool) -> bool {
    !only_done || t.done == Some(true)
}

/// The tasks of a list that are not taken out, in order.
pub open spec fn left_of(ts: Seq<TaskView>, only_done: bool) -> Seq<TaskView>
    decreases ts.len(),
{
    if ts.len() == 0 {
        Seq::empty()
    } else if plucked(ts.last(), only_done) {
        left_of(ts.drop_last(), only_done)
    } else {
        left_of(ts.drop_last(), only_done).push(ts.last())
    }
}

/// The tasks of a list that are taken out, in order.
pub open spec fn taken_of(ts: Seq<TaskView>, only_done: bool) -> Seq<TaskView>
    decreases ts.len(),
{
    if ts.len() == 0 {
        Seq::empty()
    } else if plucked(ts.last(), only_done) {
        taken_of(ts.drop_last(), only_done).push(ts.last())
    } else {
        taken_of(ts.drop_last(), only_done)
    }
}

/// Each task with the path of its parent tasks.
pub open spec fn at_path(ts: Seq<TaskView>, path: Seq<Seq<char>>) -> Seq<(Seq<Seq<char>>, TaskView)> {
    ts.map_values(|t: TaskView| (path, t))
}

/// The tasks of a list with the tasks taken out below each task that
/// stays, and those taken out, in order.
pub open spec fn descend(ts: Seq<TaskView>, path: Seq<Seq<char>>, only_done: bool) -> (
    Seq<TaskView>,
    Seq<(Seq<Seq<char>>, TaskView)>,
)
    decreases ts, 0nat,
{
    if ts.len() == 0 {
        (Seq::empty(), Seq::empty())
    } else {
        let r = descend(ts.drop_last(), path, only_done);
        let t = ts.last();
        if plucked(t, only_done) {
            (r.0.push(t), r.1)
        } else {
            let e = extract_tasks(t.sub_tasks, path.push(t.text), only_done);
            (r.0.push(TaskView { sub_tasks: e.0, ..t }), r.1 + e.1)
        }
    }
}

/// Takes tasks out of a list at a path: the tasks of the list that are to
/// be taken go first, with the path; then, in order, those taken from below
/// each task that stays, whose text extends the path. What stays is the
/// rest of the tree.
pub open spec fn extract_tasks(ts: Seq<TaskView>, path: Seq<Seq<char>>, only_done: bool) -> (
    Seq<TaskView>,
    Seq<(Seq<Seq<char>>, TaskView)>,
)
    decreases ts, 1nat,
{
    let d = descend(ts, path, only_done);
    (left_of(d.0, only_done), at_path(taken_of(d.0, only_done), path) + d.1)
}

/// A task taken out of a tree, with the texts of its parent tasks.
#[derive(Debug)]
pub struct TaskMove {
    pub path: Vec<String>,
    pub task: Task,
}

/// The models of a list of moved tasks.
pub open spec fn moves_view(s: Seq<TaskMove>) -> Seq<(Seq<Seq<char>>, TaskView)> {
    s.map_values(|m: TaskMove| (strings_view(m.path@), m.task@))
}

/// Whether a task is to be taken out (see [`plucked`]).
fn is_plucked(t: &Task, only_done: bool) -> (r: bool)
    ensures
        r == plucked(t@, only_done),
{
    !only_done || (match t.done {
        Some(true) => true,
        _ => false,
    })
}

/// Takes tasks out of a list at the path (see [`extract_tasks`]), adding
/// them to `out`.
pub fn extract_tasks_in(
    ts: &mut Vec<Task>,
    path: &mut Vec<String>,
    only_done: bool,
    out: &mut Vec<TaskMove>,
)
    ensures
        task_views(final(ts)@) == extract_tasks(
            task_views(old(ts)@),
            strings_view(old(path)@),
            only_done,
        ).0,
        moves_view(final(out)@) == moves_view(old(out)@) + extract_tasks(
            task_views(old(ts)@),
            strings_view(old(path)@),
            only_done,
        ).1,
        strings_view(final(path)@) == strings_view(old(path)@),
    decreases *old(ts),
{
    let ghost orig = ts@;
    let ghost ov = task_views(orig);
    let ghost p = strings_view(path@);
    let ghost out0 = moves_view(out@);
    proof {
        lemma_task_views(orig);
        assert(ov.take(0) =~= Seq::<TaskView>::empty());
    }
    let n = ts.len();
    let mut later: Vec<TaskMove> = Vec::new();
    let mut i: usize = 0;
    proof {
        assert(task_views(ts@).take(0) =~= Seq::<TaskView>::empty());
        assert(moves_view(later@) =~= Seq::<(Seq<Seq<char>>, TaskView)>::empty());
    }
    while i < n
        invariant
            n == ts@.len(),
            n == orig.len(),
            orig == old(ts)@,
            ov == task_views(orig),
            ov.len() == n,
            forall|j: int| 0 <= j < n ==> #[trigger] ov[j] == task_view(orig[j]),
            i <= n,
            forall|j: int| i <= j < n ==> #[trigger] ts@[j] == orig[j],
            strings_view(path@) == p,
            descend(ov.take(i as int), p, only_done) == (
                task_views(ts@).take(i as int),
                moves_view(later@),
            ),
        decreases n - i,
    {
        let ghost before = ts@;
        let ghost later0 = moves_view(later@);
        proof {
            lemma_task_views(before);
            assert(ov.take(i + 1).drop_last() =~= ov.take(i as int));
            assert(ov.take(i + 1).last() == task_view(orig[i as int]));
        }
        if !is_plucked(&ts[i], only_done) {
            let mut t = ts.remove(i);
            path.push(t.text.clone());
            proof {
                assert(strings_view(path@) =~= p.push(t.text@));
                assert(decreases_to!(*old(ts) => old(ts)@));
                assert(decreases_to!(old(ts)@ => old(ts)@[i as int]));
                assert(decreases_to!(old(ts)@[i as int] => old(ts)@[i as int].sub_tasks));
            }
            extract_tasks_in(&mut t.sub_tasks, path, only_done, &mut later);
            let ghost full = path@;
            path.pop();
            ts.insert(i, t);
            proof {
                assert(path@ == full.drop_last());
                assert(strings_view(full) == p.push(t.text@));
                assert(strings_view(full.drop_last()) =~= strings_view(full).drop_last());
                assert(strings_view(path@) =~= p);
                assert(ts@ =~= before.update(i as int, t));
                lemma_task_views_update(before, i as int, t);
                lemma_task_views(ts@);
                assert(task_views(ts@).take(i + 1) =~= task_views(before).take(i as int).push(
                    task_view(t),
                ));
            }
        } else {
            proof {
                assert(task_views(ts@).take(i + 1) =~= task_views(ts@).take(i as int).push(
                    task_view(orig[i as int]),
                ));
            }
        }
        i = i + 1;
    }
    let mut rest: Vec<Task> = Vec::new();
    std::mem::swap(&mut rest, ts);
    let ghost mid = rest@;
    let ghost d = descend(ov, p, only_done);
    proof {
        assert(ov.take(n as int) =~= ov);
        lemma_task_views(mid);
        assert(task_views(mid).take(n as int) =~= task_views(mid));
        assert(task_views(mid) == d.0);
        assert(d.0.take(0) =~= Seq::<TaskView>::empty());
        assert(mid.skip(0) =~= mid);
        assert(task_views(ts@) =~= Seq::<TaskView>::empty());
    }
    let mut k: usize = 0;
    while rest.len() > 0
        invariant
            k <= n,
            mid.len() == n,
            rest@ == mid.skip(k as int),
            task_views(mid) == d.0,
            d.0.len() == n,
            forall|j: int| 0 <= j < n ==> #[trigger] d.0[j] == task_view(mid[j]),
            strings_view(path@) == p,
            task_views(ts@) == left_of(d.0.take(k as int), only_done),
            moves_view(out@) == out0 + at_path(taken_of(d.0.take(k as int), only_done), p),
        decreases rest.len(),
    {
        let c = rest.remove(0);
        proof {
            assert(c == mid[k as int]);
            assert(rest@ =~= mid.skip(k + 1));
            assert(d.0.take(k + 1).drop_last() =~= d.0.take(k as int));
            assert(d.0.take(k + 1).last() == c@);
        }
        if is_plucked(&c, only_done) {
            let ghost o = moves_view(out@);
            let m = TaskMove { path: clone_strings(path), task: c };
            out.push(m);
            proof {
                let tk = taken_of(d.0.take(k as int), only_done);
                assert(at_path(tk.push(c@), p) =~= at_path(tk, p).push((p, c@)));
                assert(moves_view(out@) =~= o.push((p, c@)));
            }
        } else {
            proof {
                lemma_task_views_push(ts@, c);
            }
            ts.push(c);
        }
        k = k + 1;
    }
    proof {
        assert(d.0.take(n as int) =~= d.0);
    }
    let ghost o2 = moves_view(out@);
    out.append(&mut later);
    proof {
        assert(moves_view(out@) =~= o2 + d.1);
    }
}

// ---------------------------------------------------------------------------
// Walking the tree depth first

/// A child met in a depth-first walk, with the ids of its ancestors, root
/// first.
#[derive(Debug)]
pub struct IteratorItem<'a, C> {
    pub child: &'a C,
    pub parent_path: Vec<String>,
}

/// The groups in depth-first order, each with the texts of the groups
/// above it after `path`.
pub open spec fn group_walk(gs: Seq<GroupView>, path: Seq<Seq<char>>) -> Seq<
    (Seq<Seq<char>>, GroupView),
>
    decreases gs,
{
    if gs.len() == 0 {
        Seq::empty()
    } else {
        group_walk(gs.drop_last(), path) + seq![(path, gs.last())] + group_walk(
            gs.last().sub_groups,
            path.push(gs.last().text),
        )
    }
}

/// The tasks in depth-first order, each with the texts of the tasks above
/// it after `path`.
pub open spec fn task_walk(ts: Seq<TaskView>, path: Seq<Seq<char>>) -> Seq<
    (Seq<Seq<char>>, TaskView),
>
    decreases ts,
{
    if ts.len() == 0 {
        Seq::empty()
    } else {
        task_walk(ts.drop_last(), path) + seq![(path, ts.last())] + task_walk(
            ts.last().sub_tasks,
            path.push(ts.last().text),
        )
    }
}

/// The models of walked groups.
pub open spec fn group_items_view(s: Seq<IteratorItem<Group>>) -> Seq<(Seq<Seq<char>>, GroupView)> {
    s.map_values(|it: IteratorItem<Group>| (strings_view(it.parent_path@), it.child@))
}

/// The models of walked tasks.
pub open spec fn task_items_view(s: Seq<IteratorItem<Task>>) -> Seq<(Seq<Seq<char>>, TaskView)> {
    s.map_values(|it: IteratorItem<Task>| (strings_view(it.parent_path@), it.child@))
}

/// Adds the groups, depth first, to `out` (see [`group_walk`]).
pub fn walk_groups<'a>(
    gs: &'a Vec<Group>,
    path: &mut Vec<String>,
    out: &mut Vec<IteratorItem<'a, Group>>,
)
    ensures
        group_items_view(final(out)@) == group_items_view(old(out)@) + group_walk(
            group_views(gs@),
            strings_view(old(path)@),
        ),
        strings_view(final(path)@) == strings_view(old(path)@),
    decreases gs,
{
    let ghost p = strings_view(path@);
    let ghost out0 = group_items_view(out@);
    proof {
        lemma_group_views(gs@);
        assert(group_views(gs@).take(0) =~= Seq::<GroupView>::empty());
    }
    let mut i: usize = 0;
    while i < gs.len()
        invariant
            i <= gs@.len(),
            group_views(gs@).len() == gs@.len(),
            forall|j: int|
                0 <= j < gs@.len() ==> #[trigger] group_views(gs@)[j] == group_view(gs@[j]),
            strings_view(path@) == p,
            group_items_view(out@) == out0 + group_walk(group_views(gs@).take(i as int), p),
        decreases gs.len() - i,
    {
        let g = &gs[i];
        let ghost before = group_items_view(out@);
        let item = IteratorItem { child: g, parent_path: clone_strings(path) };
        out.push(item);
        path.push(g.text.clone());
        proof {
            assert(group_items_view(out@) =~= before.push((p, g@)));
            assert(strings_view(path@) =~= p.push(g.text@));
        }
        walk_groups(&g.sub_groups, path, out);
        let ghost full = path@;
        path.pop();
        proof {
            assert(path@ == full.drop_last());
            assert(strings_view(full.drop_last()) =~= strings_view(full).drop_last());
            let q = group_views(gs@).take(i + 1);
            assert(q.drop_last() =~= group_views(gs@).take(i as int));
            assert(q.last() == g@);
            assert(group_items_view(out@) =~= out0 + group_walk(q, p));
        }
        i = i + 1;
    }
    proof {
        assert(group_views(gs@).take(gs@.len() as int) =~= group_views(gs@));
    }
}

/// Adds the tasks, depth first, to `out` (see [`task_walk`]).
pub fn walk_tasks<'a>(ts: &'a Vec<Task>, path: &mut Vec<String>, out: &mut Vec<IteratorItem<'a, Task>>)
    ensures
        task_items_view(final(out)@) == task_items_view(old(out)@) + task_walk(
            task_views(ts@),
            strings_view(old(path)@),
        ),
        strings_view(final(path)@) == strings_view(old(path)@),
    decreases ts,
{
    let ghost p = strings_view(path@);
    let ghost out0 = task_items_view(out@);
    proof {
        lemma_task_views(ts@);
        assert(task_views(ts@).take(0) =~= Seq::<TaskView>::empty());
    }
    let mut i: usize = 0;
    while i < ts.len()
        invariant
            i <= ts@.len(),
            task_views(ts@).len() == ts@.len(),
            forall|j: int| 0 <= j < ts@.len() ==> #[trigger] task_views(ts@)[j] == task_view(ts@[j]),
            strings_view(path@) == p,
            task_items_view(out@) == out0 + task_walk(task_views(ts@).take(i as int), p),
        decreases ts.len() - i,
    {
        let t = &ts[i];
        let ghost before = task_items_view(out@);
        let item = IteratorItem { child: t, parent_path: clone_strings(path) };
        out.push(item);
        path.push(t.text.clone());
        proof {
            assert(task_items_view(out@) =~= before.push((p, t@)));
            assert(strings_view(path@) =~= p.push(t.text@));
        }
        walk_tasks(&t.sub_tasks, path, out);
        let ghost full = path@;
        path.pop();
        proof {
            assert(path@ == full.drop_last());
            assert(strings_view(full.drop_last()) =~= strings_view(full).drop_last());
            let q = task_views(ts@).take(i + 1);
            assert(q.drop_last() =~= task_views(ts@).take(i as int));
            assert(q.last() == t@);
            assert(task_items_view(out@) =~= out0 + task_walk(q, p));
        }
        i = i + 1;
    }
    proof {
        assert(task_views(ts@).take(ts@.len() as int) =~= task_views(ts@));
    }
}

impl Group {
    /// The group's tasks in depth-first order, with the texts of their
    /// parent tasks (see [`task_walk`]).
    pub fn iter(&self) -> (r: Vec<IteratorItem<'_, Task>>)
        ensures
            task_items_view(r@) == task_walk(self@.tasks, Seq::empty()),
    {
        let mut out: Vec<IteratorItem<'_, Task>> = Vec::new();
        let mut path: Vec<String> = Vec::new();
        proof {
            assert(task_items_view(out@) =~= Seq::<(Seq<Seq<char>>, TaskView)>::empty());
            assert(strings_view(path@) =~= Seq::<Seq<char>>::empty());
        }
        walk_tasks(&self.tasks, &mut path, &mut out);
        proof {
            assert(task_items_view(out@) =~= task_walk(self@.tasks, Seq::empty()));
        }
        out
    }
}

} // verus!
