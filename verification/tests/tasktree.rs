use task_tree::tasktree::{extract_completed as archive_completed, TaskTree, TaskTreeErr};
use task_tree::session::range::Range;
use task_tree::time::Zone;
use task_tree::taskpath::TaskPath;
use task_tree::session::Session;

fn zone() -> Zone {
    Zone::new("America/Santiago").unwrap()
}

fn tree(s: &str) -> TaskTree {
    TaskTree::from_str(&zone(), s).unwrap().unwrap()
}

#[test]
fn extract_completed() {
    let todo_str = "# Task Tree\n\n- [ ] Workspace Functions\n  - [x] iCal export - run on save\n  - [x] Todo to Done archiving function\n- [ ] Diagnostics `26/02/13_20-21` `26/02/14_12-13`\n  - [x] Children of done must be done `26/02/14_18-19`\n";
    let mut todo = tree(todo_str);
    let mut done = tree("");
    archive_completed(&mut todo, &mut done);
    let done_str = "# Task Tree\n\n- Workspace Functions\n  - iCal export - run on save\n  - Todo to Done archiving function\n- Diagnostics\n  - Children of done must be done `26/02/14_18-19`\n";

    assert_eq!(&done.to_string(), done_str);
    assert_eq!(
        todo.to_string(),
        "# Task Tree\n\n- [ ] Workspace Functions\n- [ ] Diagnostics `26/02/13_20-21` `26/02/14_12-13`\n"
    );
}

#[test]
fn headings_nest_groups() {
    let t = tree("# A\n\n- a\n\n## B\n\n- b\n\n# C\n\n- c\n");
    assert_eq!(t.groups.len(), 2);
    assert_eq!(t.groups[0].sub_groups[0].text, "B");
    assert_eq!(t.groups[0].sub_groups[0].tasks[0].text, "b");
    assert_eq!(t.to_string(), "# A\n\n- a\n\n## B\n\n- b\n\n# C\n\n- c\n");
}

#[test]
fn heading_order_error() {
    let err = TaskTree::from_str(&zone(), "# A\n\n### C\n").unwrap().unwrap_err();
    assert_eq!(err.error, TaskTreeErr::HeadingOrder);
    assert_eq!(err.range.unwrap().start.line, 2);
}

#[test]
fn loose_tasks_error() {
    let err = TaskTree::from_str(&zone(), "- a\n").unwrap().unwrap_err();
    assert_eq!(err.error, TaskTreeErr::LooseTasks);
}

#[test]
fn union_merges_trees() {
    let a = tree("# G\n\n- x `25/10/10_13-14`\n");
    let b = tree("# G\n\n- x `25/10/11_13-14`\n- y\n\n# H\n\n- z\n");
    let u = a.union(b);
    assert_eq!(
        u.to_string(),
        "# G\n\n- x `25/10/10_13-14` `25/10/11_13-14`\n- y\n\n# H\n\n- z\n"
    );
}

#[test]
fn remove_empty_groups_keeps_tasks() {
    let mut t = tree("# A\n\n## B\n\n# C\n\n- c\n");
    t.remove_empty_groups();
    assert_eq!(t.groups.len(), 1);
    assert_eq!(t.groups[0].text, "C");
}

#[test]
fn remove_empty_groups_twice_changes_nothing() {
    let mut t = tree("# A\n\n## B\n\n### C\n\n# D\n\n- d\n\n## E\n");
    t.remove_empty_groups();
    let once = t.to_string();
    t.remove_empty_groups();
    assert_eq!(t.to_string(), once);
    assert_eq!(once, "# D\n\n- d\n");
}

#[test]
fn union_keeps_session_counts() {
    let a = tree("# G\n\n- x `25/10/10_13-14`\n");
    let b = tree("# G\n\n- x `25/10/10_13-14`\n");
    let u = a.union(b);
    assert_eq!(u.groups[0].tasks[0].sessions.len(), 2);
}

#[test]
fn pluck_done_tasks_at_every_level() {
    let mut t = tree("# G\n\n- [ ] a\n  - [x] a1\n    - [ ] a11\n  - [ ] a2\n- [x] b\n");
    let moved = t.pluck_tasks(true);
    let texts: Vec<(Vec<String>, String, String)> = moved
        .iter()
        .map(|m| (m.task_path.clone(), m.group_id.clone(), m.task.text.clone()))
        .collect();
    assert_eq!(
        texts,
        vec![
            (vec![], "G".to_string(), "b".to_string()),
            (vec!["a".to_string()], "G".to_string(), "a1".to_string()),
        ]
    );
    assert_eq!(moved[1].task.sub_tasks[0].text, "a11");
    assert_eq!(t.to_string(), "# G\n\n- [ ] a\n  - [ ] a2\n");
}

#[test]
fn time_delta_of_tree() {
    let t = tree("# G\n\n- x `25/10/10_13-14`\n\n## S\n\n- y `25/10/10_20:00-20:30`\n");
    let z = zone();
    let span = Range::from_str("25/10/10-11", &z).unwrap().into_dt_span(&z).unwrap();
    assert_eq!(t.time_delta(&span, &z), Some(5400));
}

#[test]
fn with_sessions_visits_every_session_in_walk_order() {
    let t = tree("# G\n\n- x `25/10/10_13-14` `25/10/11_13-14`\n  - x1 `25/10/12_13-14`\n\n## S\n\n- y `25/10/10_20:00-20:30`\n- z\n");
    let visits: Vec<(Vec<String>, String, Vec<String>, String, usize)> = t
        ._with_sessions()
        .iter()
        .map(|v| {
            (
                v.group.parent_path.clone(),
                v.group.child.text.clone(),
                v.task.parent_path.clone(),
                v.task.child.text.clone(),
                v.index,
            )
        })
        .collect();
    assert_eq!(
        visits,
        vec![
            (vec![], "G".to_string(), vec![], "x".to_string(), 0),
            (vec![], "G".to_string(), vec![], "x".to_string(), 1),
            (vec![], "G".to_string(), vec!["x".to_string()], "x1".to_string(), 0),
            (vec!["G".to_string()], "S".to_string(), vec![], "y".to_string(), 0),
        ]
    );
}

#[test]
fn add_session_records_on_the_task_at_the_path() {
    let mut t = tree("# G\n\n- x\n\n## S\n\n- y\n  - y1 `25/10/10_13-14`\n");
    let path = TaskPath::from_str("G/S:y/y1").unwrap();
    let s = Session::from_str("25/10/11_13-14", &zone()).unwrap();
    assert!(t.add_session(&path, s));
    assert_eq!(
        t.to_string(),
        "# G\n\n- x\n\n## S\n\n- y\n  - y1 `25/10/10_13-14` `25/10/11_13-14`\n"
    );
    assert_eq!(t.groups[0].sub_groups[0].tasks[0].sub_tasks[0].sessions.len(), 2);
}

#[test]
fn add_session_without_such_task_changes_nothing() {
    let mut t = tree("# G\n\n- x\n");
    let before = t.to_string();
    let s = Session::from_str("25/10/11_13-14", &zone()).unwrap();
    assert!(!t.add_session(&TaskPath::from_str("G:z").unwrap(), s.clone()));
    assert!(!t.add_session(&TaskPath::from_str("H:x").unwrap(), s));
    assert_eq!(t.to_string(), before);
}

#[test]
fn ics_events_of_every_session() {
    let t = tree("# G\n\n- x `25/08/22-25` `25/08/22_10-11`\n\n## S\n\n- y `25/08/23_10-11`\n");
    let events = t.ics_events();
    let got: Vec<(String, usize, String, bool, String)> = events
        .iter()
        .map(|e| (e.item.task.child.text.clone(), e.item.index, e.start.value.clone(), e.start.date_only, e.end.value.clone()))
        .collect();
    assert_eq!(
        got,
        vec![
            ("x".to_string(), 0, "20250822".to_string(), true, "20250825".to_string()),
            ("x".to_string(), 1, "20250822T140000Z".to_string(), false, "20250822T150000Z".to_string()),
            ("y".to_string(), 0, "20250823T140000Z".to_string(), false, "20250823T150000Z".to_string()),
        ]
    );
    assert!(events.iter().all(|e| e.rule.is_none()));
}

#[test]
fn incomplete_task_paths_skip_done_tasks() {
    let t = tree("# G\n\n- [ ] a\n  - [x] a1\n  - a2\n- [x] b\n  - b1\n\n## S\n\n- c\n");
    let paths: Vec<String> = t.incomplete_task_paths().iter().map(|p| p.to_string()).collect();
    assert_eq!(paths, vec!["G:a", "G:a/a2", "G:b/b1", "G/S:c"]);
}

#[test]
fn error_messages() {
    use_messages();
}

fn use_messages() {
    let err = TaskTree::from_str(&zone(), "# A\n\n- x `25/07/08`\n").unwrap().unwrap_err();
    assert_eq!(err.error.message(), "Task error: Session error: Range: Missing end date/time");
    let err = TaskTree::from_str(&zone(), "- a\n").unwrap().unwrap_err();
    assert_eq!(err.error.message(), "Tasks without group");
    assert_eq!(TaskPath::from_str("nothing").unwrap_err().message(), "Missing separator ':' in task path");
}

#[test]
fn insert_keeps_ids_distinct_and_siblings_alone() {
    let mut t = tree("# A\n\n- a\n\n# B\n\n- b\n");
    t.insert(&vec![], task_tree::group::Group::new("A".to_string()));
    t.insert(&vec!["A".to_string()], task_tree::group::Group::new("C".to_string()));
    t.insert(&vec!["A".to_string()], task_tree::group::Group::new("C".to_string()));
    assert_eq!(t.groups.len(), 2);
    assert_eq!(t.groups[0].sub_groups.len(), 1);
    assert_eq!(t.groups[1].text, "B");
    assert_eq!(t.groups[1].tasks[0].text, "b");
    let walked: Vec<String> = t.iter().iter().map(|g| g.child.text.clone()).collect();
    assert_eq!(walked, vec!["A", "C", "B"]);
}
