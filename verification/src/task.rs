//! Tasks: the items of a Markdown list, with a GFM check box, a text, the
//! sessions spent on them as inline code, and sub-tasks as a nested list:
//! `- [ ] Write report `25/03/28_12:30-14:00``.
use vstd::prelude::*;
use crate::session::session_err_text;
use crate::syntax::{MdKind, MdNode, MdNodeView, md_view, md_views, lemma_md_views};
use crate::ranged::{Ranged, ranged, ranged_spec, position_fits, point_fits};
use crate::syntax::{MdPoint, MdPosition};
use crate::session::{
    Session, SessionView, SessionErr, SessionErrView, session_spec, session_text, session_writable,
    session_time,
};
use crate::session::range::Span;
use crate::time::{ZonedDateTime, MAX_DELTA};
use crate::text::{push_char, push_str, trim, trim_spec};
use crate::time::Zone;

verus! {

/// A task: whether it is done (when it has a check box), its text, the
/// sessions spent on it and its sub-tasks.
#[derive(Debug, PartialEq, Eq)]
pub struct Task {
    pub done: Option<bool>,
    pub text: String,
    pub sessions: Vec<Session>,
    pub sub_tasks: Vec<Task>,
}

/// Mathematical model of a [`Task`].
pub struct TaskView {
    pub done: Option<bool>,
    pub text: Seq<char>,
    pub sessions: Seq<SessionView>,
    pub sub_tasks: Seq<TaskView>,
}

/// The models of a list of sessions.
pub open spec fn sessions_view(s: Seq<Session>) -> Seq<SessionView> {
    s.map_values(|x: Session| x@)
}

/// The model of a task.
pub open spec fn task_view(t: Task) -> TaskView
    decreases t,
{
    TaskView {
        done: t.done,
        text: t.text@,
        sessions: sessions_view(t.sessions@),
        sub_tasks: task_views(t.sub_tasks@),
    }
}

/// The models of a list of tasks.
pub open spec fn task_views(s: Seq<Task>) -> Seq<TaskView>
    decreases s,
{
    if s.len() == 0 {
        Seq::empty()
    } else {
        task_views(s.drop_last()).push(task_view(s.last()))
    }
}

impl View for Task {
    type V = TaskView;

    open spec fn view(&self) -> TaskView {
        task_view(*self)
    }
}

/// The models of a list of tasks are the models of its items, in order.
pub proof fn lemma_task_views(s: Seq<Task>)
    ensures
        task_views(s).len() == s.len(),
        forall|i: int| 0 <= i < s.len() ==> #[trigger] task_views(s)[i] == task_view(s[i]),
    decreases s.len(),
{
    if s.len() > 0 {
        lemma_task_views(s.drop_last());
        assert forall|i: int| 0 <= i < s.len() implies #[trigger] task_views(s)[i] == task_view(
            s[i],
        ) by {
            if i < s.len() - 1 {
                assert(s.drop_last()[i] == s[i]);
            }
        }
    }
}

/// The model of a list pushed with one more task.
pub proof fn lemma_task_views_push(s: Seq<Task>, t: Task)
    ensures
        task_views(s.push(t)) == task_views(s).push(task_view(t)),
{
    assert(s.push(t).drop_last() =~= s);
}

/// The model of a list with one task replaced.
pub proof fn lemma_task_views_update(s: Seq<Task>, i: int, t: Task)
    requires
        0 <= i < s.len(),
    ensures
        task_views(s.update(i, t)) == task_views(s).update(i, task_view(t)),
{
    lemma_task_views(s);
    lemma_task_views(s.update(i, t));
    assert(task_views(s.update(i, t)) =~= task_views(s).update(i, task_view(t)));
}

/// Why a list item is not a task.
#[derive(Debug, Clone, PartialEq, Eq)]
pub enum TaskErr {
    /// The item holds nothing.
    EmptyListItem,
    /// A list holds something other than items.
    NotListItem,
    /// The item does not start with a paragraph.
    MissingParagraph,
    /// What follows the paragraph is not a list.
    NotList,
    /// An inline code is not a session.
    Session(SessionErr),
}

/// Mathematical model of a [`TaskErr`].
pub enum TaskErrView {
    EmptyListItem,
    NotListItem,
    MissingParagraph,
    NotList,
    Session(SessionErrView),
}

impl View for TaskErr {
    type V = TaskErrView;

    open spec fn view(&self) -> TaskErrView {
        match self {
            TaskErr::EmptyListItem => TaskErrView::EmptyListItem,
            TaskErr::NotListItem => TaskErrView::NotListItem,
            TaskErr::MissingParagraph => TaskErrView::MissingParagraph,
            TaskErr::NotList => TaskErrView::NotList,
            TaskErr::Session(e) => TaskErrView::Session(e@),
        }
    }
}

/// Whether every region in the tree can be reported (see
/// [`position_fits`]) and every heading has a rank of at least 1.
pub open spec fn md_fits(n: MdNodeView) -> bool
    decreases n,
{
    &&& position_fits(n.position)
    &&& (n.kind matches MdKind::Heading(d) ==> d >= 1)
    &&& match n.children {
        None => true,
        Some(cs) => all_fit(cs),
    }
}

/// Whether [`md_fits`] holds of every node of a list.
pub open spec fn all_fit(cs: Seq<MdNodeView>) -> bool
    decreases cs,
{
    cs.len() == 0 || (all_fit(cs.drop_last()) && md_fits(cs.last()))
}

/// [`all_fit`] holds exactly when [`md_fits`] holds of each node.
pub proof fn lemma_all_fit(cs: Seq<MdNodeView>)
    ensures
        all_fit(cs) <==> forall|i: int| 0 <= i < cs.len() ==> #[trigger] md_fits(cs[i]),
    decreases cs.len(),
{
    if cs.len() > 0 {
        lemma_all_fit(cs.drop_last());
        if all_fit(cs) {
            assert forall|i: int| 0 <= i < cs.len() implies #[trigger] md_fits(cs[i]) by {
                if i < cs.len() - 1 {
                    assert(md_fits(cs.drop_last()[i]));
                }
            }
        }
        if forall|i: int| 0 <= i < cs.len() ==> #[trigger] md_fits(cs[i]) {
            assert forall|i: int| 0 <= i < cs.drop_last().len() implies #[trigger] md_fits(
                cs.drop_last()[i],
            ) by {
                assert(md_fits(cs[i]));
            }
            assert(md_fits(cs[cs.len() - 1]));
        }
    }
}

/// The children of a node, none when it cannot have any.
pub open spec fn md_kids(n: MdNodeView) -> Seq<MdNodeView> {
    match n.children {
        Some(cs) => cs,
        None => Seq::empty(),
    }
}

/// The text and the sessions of the inline nodes of a paragraph: each
/// inline code is a session, everything else adds its text.
pub open spec fn inline_content(zone: Seq<char>, cs: Seq<MdNodeView>) -> Result<
    (Seq<char>, Seq<SessionView>),
    Ranged<TaskErrView>,
>
    decreases cs.len(),
{
    if cs.len() == 0 {
        Ok((Seq::empty(), Seq::empty()))
    } else {
        match inline_content(zone, cs.drop_last()) {
            Err(e) => Err(e),
            Ok((t, ss)) => {
                let c = cs.last();
                if c.kind == MdKind::InlineCode {
                    match session_spec(zone, c.text) {
                        Err(e) => Err(ranged_spec(TaskErrView::Session(e), c.position)),
                        Ok(s) => Ok((t, ss.push(s))),
                    }
                } else {
                    Ok((t + c.text, ss))
                }
            },
        }
    }
}

/// The task that a list item denotes in the zone, or why it denotes none:
/// the item's first child is a paragraph of text and sessions, its second,
/// if any, the list of sub-tasks.
pub open spec fn task_spec(zone: Seq<char>, item: MdNodeView) -> Result<TaskView, Ranged<TaskErrView>>
    decreases item,
{
    let done = match item.kind {
        MdKind::ListItem(c) => c,
        _ => None,
    };
    match item.children {
        None => Err(ranged_spec(TaskErrView::EmptyListItem, item.position)),
        Some(cs) => if cs.len() == 0 {
            Err(ranged_spec(TaskErrView::EmptyListItem, item.position))
        } else if cs[0].kind != MdKind::Paragraph {
            Err(ranged_spec(TaskErrView::MissingParagraph, item.position))
        } else {
            match inline_content(zone, md_kids(cs[0])) {
                Err(e) => Err(e),
                Ok((t, ss)) => {
                    let task = TaskView {
                        done,
                        text: trim_spec(t),
                        sessions: ss,
                        sub_tasks: Seq::empty(),
                    };
                    if cs.len() < 2 {
                        Ok(task)
                    } else if cs[1].kind != MdKind::List {
                        Err(ranged_spec(TaskErrView::NotList, cs[1].position))
                    } else {
                        match cs[1].children {
                            None => Ok(task),
                            Some(ls) => match items_spec(zone, ls) {
                                Err(e) => Err(e),
                                Ok(subs) => Ok(TaskView { sub_tasks: subs, ..task }),
                            },
                        }
                    }
                },
            }
        },
    }
}

/// The tasks that the items of a list denote, or the first reason why one
/// of them is not a task.
pub open spec fn items_spec(zone: Seq<char>, cs: Seq<MdNodeView>) -> Result<
    Seq<TaskView>,
    Ranged<TaskErrView>,
>
    decreases cs,
{
    if cs.len() == 0 {
        Ok(Seq::empty())
    } else {
        match items_spec(zone, cs.drop_last()) {
            Err(e) => Err(e),
            Ok(ts) => {
                let c = cs.last();
                if c.kind is ListItem {
                    match task_spec(zone, c) {
                        Err(e) => Err(e),
                        Ok(t) => Ok(ts.push(t)),
                    }
                } else {
                    Err(ranged_spec(TaskErrView::NotListItem, c.position))
                }
            },
        }
    }
}

/// The tasks of a list, or the first reason why an item is not a task.
pub open spec fn tasks_spec(zone: Seq<char>, list: MdNodeView) -> Result<
    Seq<TaskView>,
    Ranged<TaskErrView>,
> {
    items_spec(zone, md_kids(list))
}

/// The models of a list pushed with one more session.
proof fn lemma_sessions_view_push(s: Seq<Session>, x: Session)
    ensures
        sessions_view(s.push(x)) == sessions_view(s).push(x@),
{
    assert(sessions_view(s.push(x)) =~= sessions_view(s).push(x@));
}

/// The children of a node whose every region can be reported.
proof fn lemma_kids_fit(n: MdNode)
    requires
        md_fits(n@),
        n.children is Some,
    ensures
        forall|i: int|
            0 <= i < n.children->0@.len() ==> #[trigger] md_fits(n.children->0@[i]@),
{
    let cs = n.children->0;
    lemma_md_views(cs@);
    let v = md_view(n);
    assert(v.children == Some(md_views(cs@)));
    let vs = v.children->0;
    lemma_all_fit(vs);
    assert(vs == md_views(cs@));
    assert forall|i: int| 0 <= i < cs@.len() implies #[trigger] md_fits(cs@[i]@) by {
        assert(vs[i] == md_view(cs@[i]));
        assert(md_fits(vs[i]));
    }
}

/// Reads the inline nodes of a paragraph (see [`inline_content`]).
fn read_inline(zone: &Zone, cs: &Vec<MdNode>) -> (r: Result<(String, Vec<Session>), Ranged<TaskErr>>)
    requires
        forall|i: int| 0 <= i < cs@.len() ==> #[trigger] md_fits(cs@[i]@),
    ensures
        match r {
            Ok((t, ss)) => inline_content(zone@, md_views(cs@)) == Ok::<
                (Seq<char>, Seq<SessionView>),
                Ranged<TaskErrView>,
            >((t@, sessions_view(ss@))),
            Err(e) => inline_content(zone@, md_views(cs@)) == Err::<
                (Seq<char>, Seq<SessionView>),
                Ranged<TaskErrView>,
            >(e@),
        },
{
    proof {
        lemma_md_views(cs@);
    }
    let mut text = String::new();
    let mut sessions: Vec<Session> = Vec::new();
    let mut i: usize = 0;
    proof {
        assert(md_views(cs@).take(0) =~= Seq::<MdNodeView>::empty());
        assert(sessions_view(sessions@) =~= Seq::<SessionView>::empty());
    }
    while i < cs.len()
        invariant
            i <= cs@.len(),
            md_views(cs@).len() == cs@.len(),
            forall|j: int| 0 <= j < cs@.len() ==> #[trigger] md_views(cs@)[j] == md_view(cs@[j]),
            forall|j: int| 0 <= j < cs@.len() ==> #[trigger] md_fits(cs@[j]@),
            inline_content(zone@, md_views(cs@).take(i as int)) == Ok::<
                (Seq<char>, Seq<SessionView>),
                Ranged<TaskErrView>,
            >((text@, sessions_view(sessions@))),
        decreases cs.len() - i,
    {
        let c = &cs[i];
        let ghost prefix = md_views(cs@).take(i + 1);
        proof {
            assert(prefix.drop_last() =~= md_views(cs@).take(i as int));
            assert(prefix.last() == c@);
            assert(md_fits(cs@[i as int]@));
        }
        if c.kind == MdKind::InlineCode {
            match Session::from_str(c.text.as_str(), zone) {
                Ok(x) => {
                    proof {
                        lemma_sessions_view_push(sessions@, x);
                    }
                    sessions.push(x);
                },
                Err(e) => {
                    let r = ranged(TaskErr::Session(e), c.position.as_ref());
                    proof {
                        assert(inline_content(zone@, prefix) == Err::<
                            (Seq<char>, Seq<SessionView>),
                            Ranged<TaskErrView>,
                        >(r@));
                        lemma_inline_error(zone@, md_views(cs@), i + 1);
                        assert(md_views(cs@).take(md_views(cs@).len() as int) =~= md_views(cs@));
                    }
                    return Err(r);
                },
            }
        } else {
            push_str(&mut text, c.text.as_str());
        }
        i = i + 1;
    }
    proof {
        assert(md_views(cs@).take(cs@.len() as int) =~= md_views(cs@));
    }
    Ok((text, sessions))
}

/// Once a prefix of the inline nodes fails, so does every longer prefix.
proof fn lemma_inline_error(zone: Seq<char>, cs: Seq<MdNodeView>, k: int)
    requires
        0 <= k <= cs.len(),
        inline_content(zone, cs.take(k)) is Err,
    ensures
        inline_content(zone, cs.take(cs.len() as int)) == inline_content(zone, cs.take(k)),
    decreases cs.len() - k,
{
    if k < cs.len() {
        assert(cs.take(k + 1).drop_last() =~= cs.take(k));
        lemma_inline_error(zone, cs, k + 1);
    }
}

impl Task {
    /// The task that a list item denotes in the zone (see [`task_spec`]).
    pub fn new(zone: &Zone, item: &MdNode) -> (r: Result<Task, Ranged<TaskErr>>)
        requires
            md_fits(item@),
        ensures
            match r {
                Ok(t) => task_spec(zone@, item@) == Ok::<TaskView, Ranged<TaskErrView>>(t@),
                Err(e) => task_spec(zone@, item@) == Err::<TaskView, Ranged<TaskErrView>>(e@),
            },
        decreases item,
    {
        let done = match item.kind {
            MdKind::ListItem(c) => c,
            _ => None,
        };
        let cs = match &item.children {
            None => return Err(ranged(TaskErr::EmptyListItem, item.position.as_ref())),
            Some(cs) => cs,
        };
        proof {
            lemma_md_views(cs@);
            lemma_kids_fit(*item);
        }
        if cs.len() == 0 {
            return Err(ranged(TaskErr::EmptyListItem, item.position.as_ref()));
        }
        let first = &cs[0];
        if first.kind != MdKind::Paragraph {
            return Err(ranged(TaskErr::MissingParagraph, item.position.as_ref()));
        }
        proof {
            assert(md_fits(cs@[0]@));
        }
        let (t, sessions) = match &first.children {
            None => (String::new(), Vec::new()),
            Some(inl) => {
                proof {
                    lemma_kids_fit(*first);
                }
                match read_inline(zone, inl) {
                    Ok(p) => p,
                    Err(e) => return Err(e),
                }
            },
        };
        proof {
            assert(sessions_view(Seq::<Session>::empty()) =~= Seq::<SessionView>::empty());
        }
        let text = trim(t.as_str());
        let mut task = Task { done, text, sessions, sub_tasks: Vec::new() };
        proof {
            assert(task_views(Seq::<Task>::empty()) =~= Seq::<TaskView>::empty());
        }
        if cs.len() >= 2 {
            let second = &cs[1];
            if second.kind != MdKind::List {
                proof {
                    assert(md_fits(cs@[1]@));
                }
                return Err(ranged(TaskErr::NotList, second.position.as_ref()));
            }
            proof {
                assert(md_fits(cs@[1]@));
            }
            match Task::new_tasks(zone, second) {
                Ok(subs) => {
                    task.sub_tasks = subs;
                },
                Err(e) => return Err(e),
            }
        }
        Ok(task)
    }

    /// The tasks of a Markdown list (see [`tasks_spec`]).
    pub fn new_tasks(zone: &Zone, list: &MdNode) -> (r: Result<Vec<Task>, Ranged<TaskErr>>)
        requires
            md_fits(list@),
        ensures
            match r {
                Ok(ts) => tasks_spec(zone@, list@) == Ok::<Seq<TaskView>, Ranged<TaskErrView>>(
                    task_views(ts@),
                ),
                Err(e) => tasks_spec(zone@, list@) == Err::<Seq<TaskView>, Ranged<TaskErrView>>(
                    e@,
                ),
            },
        decreases list,
    {
        let cs = match &list.children {
            None => {
                proof {
                    assert(task_views(Seq::<Task>::empty()) =~= Seq::<TaskView>::empty());
                }
                return Ok(Vec::new());
            },
            Some(cs) => cs,
        };
        proof {
            lemma_md_views(cs@);
            lemma_kids_fit(*list);
            assert(task_views(Seq::<Task>::empty()) =~= Seq::<TaskView>::empty());
            assert(md_views(cs@).take(0) =~= Seq::<MdNodeView>::empty());
        }
        let mut tasks: Vec<Task> = Vec::new();
        let mut i: usize = 0;
        while i < cs.len()
            invariant
                i <= cs@.len(),
                list.children == Some(*cs),
                forall|j: int| 0 <= j < cs@.len() ==> #[trigger] md_fits(cs@[j]@),
                md_views(cs@).len() == cs@.len(),
                forall|j: int| 0 <= j < cs@.len() ==> #[trigger] md_views(cs@)[j] == md_view(cs@[j]),
                items_spec(zone@, md_views(cs@).take(i as int)) == Ok::<
                    Seq<TaskView>,
                    Ranged<TaskErrView>,
                >(task_views(tasks@)),
            decreases cs.len() - i,
        {
            let c = &cs[i];
            let ghost prefix = md_views(cs@).take(i + 1);
            proof {
                assert(prefix.drop_last() =~= md_views(cs@).take(i as int));
                assert(prefix.last() == c@);
                assert(md_views(cs@)[i as int] == md_view(cs@[i as int]));
                assert(md_fits(c@));
            }
            let t = match c.kind {
                MdKind::ListItem(_) => match Task::new(zone, c) {
                    Ok(t) => t,
                    Err(e) => {
                        proof {
                            lemma_items_error(zone@, md_views(cs@), i + 1);
                            assert(md_views(cs@).take(md_views(cs@).len() as int) =~= md_views(
                                cs@,
                            ));
                        }
                        return Err(e);
                    },
                },
                _ => {
                    let r = ranged(TaskErr::NotListItem, c.position.as_ref());
                    proof {
                        lemma_items_error(zone@, md_views(cs@), i + 1);
                        assert(md_views(cs@).take(md_views(cs@).len() as int) =~= md_views(cs@));
                    }
                    return Err(r);
                },
            };
            proof {
                lemma_task_views_push(tasks@, t);
            }
            tasks.push(t);
            i = i + 1;
        }
        proof {
            assert(md_views(cs@).take(cs@.len() as int) =~= md_views(cs@));
        }
        Ok(tasks)
    }
}

/// Once a prefix of the items fails, so does every longer prefix.
proof fn lemma_items_error(zone: Seq<char>, cs: Seq<MdNodeView>, k: int)
    requires
        0 <= k <= cs.len(),
        items_spec(zone, cs.take(k)) is Err,
    ensures
        items_spec(zone, cs.take(cs.len() as int)) == items_spec(zone, cs.take(k)),
    decreases cs.len() - k,
{
    if k < cs.len() {
        assert(cs.take(k + 1).drop_last() =~= cs.take(k));
        lemma_items_error(zone, cs, k + 1);
    }
}

// ---------------------------------------------------------------------------
// Writing tasks back as Markdown

/// The check box of a task: ` [x]` when done, ` [ ]` when not, nothing
/// when it has none.
pub open spec fn done_mark(d: Option<bool>) -> Seq<char> {
    match d {
        Some(true) => seq![' ', '[', 'x', ']'],
        Some(false) => seq![' ', '[', ' ', ']'],
        None => Seq::empty(),
    }
}

/// The sessions of a task, each as inline code after a space.
pub open spec fn sessions_text(ss: Seq<SessionView>) -> Seq<char>
    decreases ss.len(),
{
    if ss.len() == 0 {
        Seq::empty()
    } else {
        sessions_text(ss.drop_last()) + seq![' ', '`'] + session_text(ss.last()) + seq!['`']
    }
}

/// A task as a list item with the given indentation, followed by its
/// sub-tasks indented two spaces more.
pub open spec fn task_text(t: TaskView, indent: Seq<char>) -> Seq<char>
    decreases t,
{
    indent + seq!['-'] + done_mark(t.done) + seq![' '] + t.text + sessions_text(t.sessions) + seq![
        '\n',
    ] + tasks_text(t.sub_tasks, indent + seq![' ', ' '])
}

/// Tasks, one after the other, with the given indentation.
pub open spec fn tasks_text(ts: Seq<TaskView>, indent: Seq<char>) -> Seq<char>
    decreases ts,
{
    if ts.len() == 0 {
        Seq::empty()
    } else {
        tasks_text(ts.drop_last(), indent) + task_text(ts.last(), indent)
    }
}

/// Whether every session in the list can be written.
pub open spec fn sessions_writable(ss: Seq<SessionView>) -> bool {
    forall|i: int| 0 <= i < ss.len() ==> #[trigger] session_writable(ss[i])
}

/// Whether every session of a task and of its sub-tasks can be written.
pub open spec fn task_writable(t: TaskView) -> bool
    decreases t,
{
    sessions_writable(t.sessions) && tasks_writable(t.sub_tasks)
}

/// Whether [`task_writable`] holds of every task of a list.
pub open spec fn tasks_writable(ts: Seq<TaskView>) -> bool
    decreases ts,
{
    ts.len() == 0 || (tasks_writable(ts.drop_last()) && task_writable(ts.last()))
}

/// Writes the sessions of a task (see [`sessions_text`]).
fn write_sessions(out: &mut String, ss: &Vec<Session>)
    requires
        sessions_writable(sessions_view(ss@)),
    ensures
        final(out)@ == old(out)@ + sessions_text(sessions_view(ss@)),
{
    let ghost start = out@;
    let mut i: usize = 0;
    proof {
        assert(sessions_view(ss@).take(0) =~= Seq::<SessionView>::empty());
    }
    while i < ss.len()
        invariant
            i <= ss@.len(),
            sessions_writable(sessions_view(ss@)),
            out@ == start + sessions_text(sessions_view(ss@).take(i as int)),
        decreases ss.len() - i,
    {
        let ghost before = out@;
        proof {
            assert(session_writable(sessions_view(ss@)[i as int]));
        }
        push_char(out, ' ');
        push_char(out, '`');
        let w = ss[i].to_string();
        push_str(out, w.as_str());
        push_char(out, '`');
        proof {
            let p = sessions_view(ss@).take(i + 1);
            assert(p.drop_last() =~= sessions_view(ss@).take(i as int));
            assert(p.last() == ss@[i as int]@);
            assert(out@ =~= start + sessions_text(p));
        }
        i = i + 1;
    }
    proof {
        assert(sessions_view(ss@).take(ss@.len() as int) =~= sessions_view(ss@));
    }
}

/// Writes a task and its sub-tasks (see [`task_text`]).
pub fn write_task(out: &mut String, t: &Task, indent: &str)
    requires
        task_writable(t@),
    ensures
        final(out)@ == old(out)@ + task_text(t@, indent@),
    decreases t,
{
    let ghost start = out@;
    push_str(out, indent);
    push_char(out, '-');
    match t.done {
        Some(true) => {
            push_str(out, " [x]");
        },
        Some(false) => {
            push_str(out, " [ ]");
        },
        None => {},
    }
    proof {
        reveal_strlit(" [x]");
        reveal_strlit(" [ ]");
    }
    push_char(out, ' ');
    push_str(out, t.text.as_str());
    write_sessions(out, &t.sessions);
    push_char(out, '\n');
    let mut deeper = indent.to_owned();
    push_str(&mut deeper, "  ");
    proof {
        reveal_strlit("  ");
    }
    write_tasks(out, &t.sub_tasks, deeper.as_str());
    proof {
        assert(deeper@ =~= indent@ + seq![' ', ' ']);
        assert(out@ =~= start + task_text(t@, indent@));
    }
}

/// Writes tasks one after the other (see [`tasks_text`]).
pub fn write_tasks(out: &mut String, ts: &Vec<Task>, indent: &str)
    requires
        tasks_writable(task_views(ts@)),
    ensures
        final(out)@ == old(out)@ + tasks_text(task_views(ts@), indent@),
    decreases ts,
{
    let ghost start = out@;
    proof {
        lemma_task_views(ts@);
        lemma_tasks_writable(task_views(ts@));
        assert(task_views(ts@).take(0) =~= Seq::<TaskView>::empty());
    }
    let mut i: usize = 0;
    while i < ts.len()
        invariant
            i <= ts@.len(),
            task_views(ts@).len() == ts@.len(),
            forall|j: int| 0 <= j < ts@.len() ==> #[trigger] task_views(ts@)[j] == task_view(ts@[j]),
            forall|j: int| 0 <= j < ts@.len() ==> #[trigger] task_writable(task_views(ts@)[j]),
            out@ == start + tasks_text(task_views(ts@).take(i as int), indent@),
        decreases ts.len() - i,
    {
        proof {
            assert(task_writable(task_views(ts@)[i as int]));
        }
        write_task(out, &ts[i], indent);
        proof {
            let p = task_views(ts@).take(i + 1);
            assert(p.drop_last() =~= task_views(ts@).take(i as int));
            assert(p.last() == task_views(ts@)[i as int]);
        }
        i = i + 1;
    }
    proof {
        assert(task_views(ts@).take(ts@.len() as int) =~= task_views(ts@));
    }
}

/// [`tasks_writable`] holds exactly when each task is writable.
pub proof fn lemma_tasks_writable(ts: Seq<TaskView>)
    ensures
        tasks_writable(ts) <==> forall|i: int| 0 <= i < ts.len() ==> #[trigger] task_writable(ts[i]),
    decreases ts.len(),
{
    if ts.len() > 0 {
        lemma_tasks_writable(ts.drop_last());
        if tasks_writable(ts) {
            assert forall|i: int| 0 <= i < ts.len() implies #[trigger] task_writable(ts[i]) by {
                if i < ts.len() - 1 {
                    assert(task_writable(ts.drop_last()[i]));
                }
            }
        }
        if forall|i: int| 0 <= i < ts.len() ==> #[trigger] task_writable(ts[i]) {
            assert forall|i: int| 0 <= i < ts.drop_last().len() implies #[trigger] task_writable(
                ts.drop_last()[i],
            ) by {
                assert(task_writable(ts[i]));
            }
            assert(task_writable(ts[ts.len() - 1]));
        }
    }
}

impl Task {
    /// The task as a Markdown list item, its sub-tasks nested below it.
    pub fn to_string(&self) -> (r: String)
        requires
            task_writable(self@),
        ensures
            r@ == task_text(self@, Seq::empty()),
    {
        let mut out = String::new();
        write_task(&mut out, self, "");
        proof {
            reveal_strlit("");
        }
        out
    }
}

/// Whether every session of a task and its sub-tasks can be written.
pub fn task_is_writable(t: &Task) -> (r: bool)
    ensures
        r == task_writable(t@),
    decreases t,
{
    let mut i: usize = 0;
    while i < t.sessions.len()
        invariant
            i <= t.sessions@.len(),
            forall|j: int| 0 <= j < i ==> #[trigger] session_writable(sessions_view(t.sessions@)[j]),
        decreases t.sessions.len() - i,
    {
        if !t.sessions[i].is_writable() {
            proof {
                assert(!session_writable(sessions_view(t.sessions@)[i as int]));
            }
            return false;
        }
        i = i + 1;
    }
    tasks_are_writable(&t.sub_tasks)
}

/// Whether every task of the list is writable (see [`task_is_writable`]).
pub fn tasks_are_writable(ts: &Vec<Task>) -> (r: bool)
    ensures
        r == tasks_writable(task_views(ts@)),
    decreases ts,
{
    proof {
        lemma_task_views(ts@);
        lemma_tasks_writable(task_views(ts@));
    }
    let mut i: usize = 0;
    while i < ts.len()
        invariant
            i <= ts@.len(),
            task_views(ts@).len() == ts@.len(),
            forall|j: int| 0 <= j < ts@.len() ==> #[trigger] task_views(ts@)[j] == task_view(ts@[j]),
            forall|j: int| 0 <= j < i ==> #[trigger] task_writable(task_views(ts@)[j]),
            tasks_writable(task_views(ts@)) <==> forall|j: int|
                0 <= j < ts@.len() ==> #[trigger] task_writable(task_views(ts@)[j]),
        decreases ts.len() - i,
    {
        if !task_is_writable(&ts[i]) {
            proof {
                assert(!task_writable(task_views(ts@)[i as int]));
            }
            return false;
        }
        i = i + 1;
    }
    true
}

/// Whether a source place can be reported (see [`point_fits`]).
fn point_fits_check(p: &MdPoint) -> (r: bool)
    ensures
        r == point_fits(*p),
{
    p.line >= 1 && (p.line as u64) - 1 <= 4294967295 && p.column >= 1 && (p.column as u64) - 1
        <= 4294967295
}

/// Whether a source region can be reported (see [`position_fits`]).
pub fn position_fits_check(p: &Option<MdPosition>) -> (r: bool)
    ensures
        r == position_fits(*p),
{
    match p {
        None => true,
        Some(q) => point_fits_check(&q.start) && point_fits_check(&q.end),
    }
}

/// Whether every region in the tree can be reported and every heading has
/// a rank of at least 1 (see [`md_fits`]).
pub fn node_fits(n: &MdNode) -> (r: bool)
    ensures
        r == md_fits(n@),
    decreases n,
{
    if !position_fits_check(&n.position) {
        return false;
    }
    if let MdKind::Heading(d) = n.kind {
        if d < 1 {
            return false;
        }
    }
    let cs = match &n.children {
        None => return true,
        Some(cs) => cs,
    };
    proof {
        lemma_md_views(cs@);
        lemma_all_fit(md_views(cs@));
    }
    let mut i: usize = 0;
    while i < cs.len()
        invariant
            i <= cs@.len(),
            md_views(cs@).len() == cs@.len(),
            forall|j: int| 0 <= j < cs@.len() ==> #[trigger] md_views(cs@)[j] == md_view(cs@[j]),
            forall|j: int| 0 <= j < i ==> #[trigger] md_fits(md_views(cs@)[j]),
            all_fit(md_views(cs@)) <==> forall|j: int|
                0 <= j < cs@.len() ==> #[trigger] md_fits(md_views(cs@)[j]),
            n.children == Some(*cs),
            position_fits(n.position),
            n.kind matches MdKind::Heading(d) ==> d >= 1,
        decreases cs.len() - i,
    {
        let c = &cs[i];
        proof {
            assert(decreases_to!(*n => n.children));
            assert(decreases_to!(n.children => n.children->0));
            assert(decreases_to!(*cs => cs@));
            assert(decreases_to!(cs@ => cs@[i as int]));
        }
        if !node_fits(c) {
            proof {
                assert(!md_fits(md_views(cs@)[i as int]));
            }
            return false;
        }
        i = i + 1;
    }
    true
}

// ---------------------------------------------------------------------------
// Time spent

/// The sum of two spans of time in seconds, when both are known and the
/// sum is a time delta.
pub open spec fn add_time(a: Option<i64>, b: Option<i64>) -> Option<i64> {
    match (a, b) {
        (Some(x), Some(y)) => if -MAX_DELTA <= x + y <= MAX_DELTA {
            Some((x + y) as i64)
        } else {
            None
        },
        _ => None,
    }
}

/// Adds two spans of time (see [`add_time`]).
pub fn add_times(a: Option<i64>, b: Option<i64>) -> (r: Option<i64>)
    requires
        a matches Some(x) ==> -MAX_DELTA <= x <= MAX_DELTA,
        b matches Some(y) ==> -MAX_DELTA <= y <= MAX_DELTA,
    ensures
        r == add_time(a, b),
{
    match (a, b) {
        (Some(x), Some(y)) => {
            let z = x + y;
            if -MAX_DELTA <= z && z <= MAX_DELTA {
                Some(z)
            } else {
                None
            }
        },
        _ => None,
    }
}

/// Seconds of the span that the sessions cover, summed in order.
pub open spec fn sessions_time(zone: Seq<char>, ss: Seq<SessionView>, span: Span<ZonedDateTime>) -> Option<i64>
    decreases ss.len(),
{
    if ss.len() == 0 {
        Some(0)
    } else {
        add_time(sessions_time(zone, ss.drop_last(), span), session_time(zone, ss.last(), span))
    }
}

/// Seconds of the span spent on a task: its sessions, then its sub-tasks.
pub open spec fn task_time(zone: Seq<char>, t: TaskView, span: Span<ZonedDateTime>) -> Option<i64>
    decreases t,
{
    add_time(sessions_time(zone, t.sessions, span), tasks_time(zone, t.sub_tasks, span))
}

/// Seconds of the span spent on tasks, summed in order.
pub open spec fn tasks_time(zone: Seq<char>, ts: Seq<TaskView>, span: Span<ZonedDateTime>) -> Option<i64>
    decreases ts,
{
    if ts.len() == 0 {
        Some(0)
    } else {
        add_time(tasks_time(zone, ts.drop_last(), span), task_time(zone, ts.last(), span))
    }
}

/// A known span of time is within a time delta.
pub open spec fn time_ok(a: Option<i64>) -> bool {
    a matches Some(x) ==> -MAX_DELTA <= x <= MAX_DELTA
}

impl Task {
    /// Seconds of the span spent on the task and its sub-tasks (see
    /// [`task_time`]); `None` when a session's time is unknown or the sum
    /// exceeds a time delta.
    pub fn time_delta(&self, span: &Span<ZonedDateTime>, zone: &Zone) -> (r: Option<i64>)
        ensures
            r == task_time(zone@, self@, *span),
            time_ok(r),
            r matches Some(t) ==> 0 <= t,
        decreases self,
    {
        let mut total: Option<i64> = Some(0);
        let mut i: usize = 0;
        proof {
            assert(sessions_view(self.sessions@).take(0) =~= Seq::<SessionView>::empty());
        }
        while i < self.sessions.len()
            invariant
                i <= self.sessions@.len(),
                total == sessions_time(zone@, sessions_view(self.sessions@).take(i as int), *span),
                time_ok(total),
                total matches Some(t) ==> 0 <= t,
            decreases self.sessions.len() - i,
        {
            let d = self.sessions[i].time_delta(span, zone);
            proof {
                let p = sessions_view(self.sessions@).take(i + 1);
                assert(p.drop_last() =~= sessions_view(self.sessions@).take(i as int));
                assert(p.last() == self.sessions@[i as int]@);
                if let Some(x) = d {
                    assert(session_time(zone@, self.sessions@[i as int]@, *span) == Some(x));
                }
            }
            total = match d {
                Some(x) if x <= MAX_DELTA => add_times(total, d),
                _ => None,
            };
            proof {
                if d matches Some(x) && x > MAX_DELTA {
                    assert(total is None);
                }
            }
            i = i + 1;
        }
        proof {
            assert(sessions_view(self.sessions@).take(self.sessions@.len() as int) =~= sessions_view(
                self.sessions@,
            ));
        }
        let sub = tasks_time_delta(&self.sub_tasks, span, zone);
        add_times(total, sub)
    }
}

/// Seconds of the span spent on tasks (see [`tasks_time`]).
pub fn tasks_time_delta(ts: &Vec<Task>, span: &Span<ZonedDateTime>, zone: &Zone) -> (r: Option<i64>)
    ensures
        r == tasks_time(zone@, task_views(ts@), *span),
        time_ok(r),
        r matches Some(t) ==> 0 <= t,
    decreases ts,
{
    proof {
        lemma_task_views(ts@);
        assert(task_views(ts@).take(0) =~= Seq::<TaskView>::empty());
    }
    let mut total: Option<i64> = Some(0);
    let mut i: usize = 0;
    while i < ts.len()
        invariant
            i <= ts@.len(),
            task_views(ts@).len() == ts@.len(),
            forall|j: int| 0 <= j < ts@.len() ==> #[trigger] task_views(ts@)[j] == task_view(ts@[j]),
            total == tasks_time(zone@, task_views(ts@).take(i as int), *span),
            time_ok(total),
            total matches Some(t) ==> 0 <= t,
        decreases ts.len() - i,
    {
        let d = ts[i].time_delta(span, zone);
        proof {
            let p = task_views(ts@).take(i + 1);
            assert(p.drop_last() =~= task_views(ts@).take(i as int));
            assert(p.last() == task_views(ts@)[i as int]);
        }
        total = add_times(total, d);
        i = i + 1;
    }
    proof {
        assert(task_views(ts@).take(ts@.len() as int) =~= task_views(ts@));
    }
    total
}


/// The message of a task error.
pub open spec fn task_err_text(e: TaskErrView) -> Seq<char> {
    match e {
        TaskErrView::EmptyListItem => "Nothing in the list"@,
        TaskErrView::NotListItem => "Expected list item"@,
        TaskErrView::MissingParagraph => "First child should be a paragraph"@,
        TaskErrView::NotList => "Second child should be a list"@,
        TaskErrView::Session(s) => "Session error: "@ + session_err_text(s),
    }
}

impl TaskErr {
    /// The message of the error (see [`task_err_text`]).
    pub fn message(&self) -> (r: String)
        ensures
            r@ == task_err_text(self@),
    {
        match self {
            TaskErr::EmptyListItem => "Nothing in the list".to_owned(),
            TaskErr::NotListItem => "Expected list item".to_owned(),
            TaskErr::MissingParagraph => "First child should be a paragraph".to_owned(),
            TaskErr::NotList => "Second child should be a list".to_owned(),
            TaskErr::Session(e) => {
                let mut out = "Session error: ".to_owned();
                push_str(&mut out, e.message().as_str());
                out
            },
        }
    }
}


/// Times from zero up to the largest time delta, or unknown ones.
pub open spec fn small_time(a: Option<i64>) -> bool {
    a matches Some(x) ==> 0 <= x <= MAX_DELTA
}

/// Adding such times does not depend on how they are grouped.
pub proof fn lemma_add_time_assoc(a: Option<i64>, b: Option<i64>, c: Option<i64>)
    requires
        small_time(a),
        small_time(b),
        small_time(c),
    ensures
        add_time(add_time(a, b), c) == add_time(a, add_time(b, c)),
        small_time(add_time(a, b)),
{
}

pub proof fn lemma_sessions_time_small(zone: Seq<char>, ss: Seq<SessionView>, span: Span<ZonedDateTime>)
    ensures
        small_time(sessions_time(zone, ss, span)),
    decreases ss.len(),
{
    if ss.len() > 0 {
        lemma_sessions_time_small(zone, ss.drop_last(), span);
        crate::session::lemma_session_time_bounds(zone, ss.last(), span);
    }
}

/// The time of one session alone is that session's time.
pub proof fn lemma_sessions_time_single(zone: Seq<char>, s: SessionView, span: Span<ZonedDateTime>)
    ensures
        sessions_time(zone, seq![s], span) == session_time(zone, s, span),
{
    crate::session::lemma_session_time_bounds(zone, s, span);
    assert(seq![s].drop_last() =~= Seq::<SessionView>::empty());
    assert(sessions_time(zone, seq![s].drop_last(), span) == Some(0i64));
    assert(seq![s].last() == s);
}

/// The time of two lists of sessions one after the other is the sum of
/// their times: every session counts, each once.
pub proof fn lemma_sessions_time_concat(
    zone: Seq<char>,
    ss: Seq<SessionView>,
    tt: Seq<SessionView>,
    span: Span<ZonedDateTime>,
)
    ensures
        sessions_time(zone, ss + tt, span) == add_time(
            sessions_time(zone, ss, span),
            sessions_time(zone, tt, span),
        ),
    decreases tt.len(),
{
    lemma_sessions_time_small(zone, ss, span);
    if tt.len() == 0 {
        assert(ss + tt =~= ss);
    } else {
        lemma_sessions_time_concat(zone, ss, tt.drop_last(), span);
        assert((ss + tt).drop_last() =~= ss + tt.drop_last());
        assert((ss + tt).last() == tt.last());
        lemma_sessions_time_small(zone, tt.drop_last(), span);
        crate::session::lemma_session_time_bounds(zone, tt.last(), span);
        lemma_add_time_assoc(
            sessions_time(zone, ss, span),
            sessions_time(zone, tt.drop_last(), span),
            session_time(zone, tt.last(), span),
        );
    }
}

/// The time of a task is that of its sessions and its sub-tasks: adding a
/// session to a task adds exactly that session's time.
pub proof fn lemma_task_time_add_session(
    zone: Seq<char>,
    t: TaskView,
    s: SessionView,
    span: Span<ZonedDateTime>,
)
    ensures
        task_time(zone, TaskView { sessions: t.sessions.push(s), ..t }, span) == add_time(
            task_time(zone, t, span),
            session_time(zone, s, span),
        ),
{
    lemma_sessions_time_concat(zone, t.sessions, seq![s], span);
    lemma_sessions_time_single(zone, s, span);
    assert(t.sessions + seq![s] =~= t.sessions.push(s));
    lemma_sessions_time_small(zone, t.sessions, span);
    lemma_tasks_time_small(zone, t.sub_tasks, span);
    crate::session::lemma_session_time_bounds(zone, s, span);
    lemma_add_time_assoc(
        sessions_time(zone, t.sessions, span),
        session_time(zone, s, span),
        tasks_time(zone, t.sub_tasks, span),
    );
    lemma_add_time_assoc(
        sessions_time(zone, t.sessions, span),
        tasks_time(zone, t.sub_tasks, span),
        session_time(zone, s, span),
    );
}

pub proof fn lemma_tasks_time_small(zone: Seq<char>, ts: Seq<TaskView>, span: Span<ZonedDateTime>)
    ensures
        small_time(tasks_time(zone, ts, span)),
    decreases ts,
{
    if ts.len() > 0 {
        lemma_tasks_time_small(zone, ts.drop_last(), span);
        lemma_sessions_time_small(zone, ts.last().sessions, span);
        lemma_tasks_time_small(zone, ts.last().sub_tasks, span);
        assert(small_time(task_time(zone, ts.last(), span)));
    }
}

/// The time of one task alone is that task's time.
pub proof fn lemma_tasks_time_single(zone: Seq<char>, t: TaskView, span: Span<ZonedDateTime>)
    ensures
        tasks_time(zone, seq![t], span) == task_time(zone, t, span),
{
    lemma_sessions_time_small(zone, t.sessions, span);
    lemma_tasks_time_small(zone, t.sub_tasks, span);
    assert(small_time(task_time(zone, t, span)));
    assert(seq![t].drop_last() =~= Seq::<TaskView>::empty());
    assert(tasks_time(zone, seq![t].drop_last(), span) == Some(0i64));
    assert(seq![t].last() == t);
}

/// The time of two lists of tasks one after the other is the sum of their
/// times: every task counts, each once.
pub proof fn lemma_tasks_time_concat(
    zone: Seq<char>,
    ts: Seq<TaskView>,
    us: Seq<TaskView>,
    span: Span<ZonedDateTime>,
)
    ensures
        tasks_time(zone, ts + us, span) == add_time(
            tasks_time(zone, ts, span),
            tasks_time(zone, us, span),
        ),
    decreases us.len(),
{
    lemma_tasks_time_small(zone, ts, span);
    if us.len() == 0 {
        assert(ts + us =~= ts);
    } else {
        lemma_tasks_time_concat(zone, ts, us.drop_last(), span);
        assert((ts + us).drop_last() =~= ts + us.drop_last());
        assert((ts + us).last() == us.last());
        lemma_tasks_time_small(zone, us.drop_last(), span);
        lemma_sessions_time_small(zone, us.last().sessions, span);
        lemma_tasks_time_small(zone, us.last().sub_tasks, span);
        assert(small_time(task_time(zone, us.last(), span)));
        lemma_add_time_assoc(
            tasks_time(zone, ts, span),
            tasks_time(zone, us.drop_last(), span),
            task_time(zone, us.last(), span),
        );
    }
}

} // verus!
