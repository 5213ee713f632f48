use task_tree::session::Session;
use task_tree::session::range::{Range, Span};
use task_tree::syntax::{parse_markdown, MdNode};
use task_tree::task::{Task, TaskErr};
use task_tree::time::Zone;

fn zone() -> Zone {
    Zone::new("America/Santiago").unwrap()
}

fn first_child(n: MdNode) -> MdNode {
    n.children.unwrap().into_iter().next().unwrap()
}

fn list_item(str: &str) -> MdNode {
    first_child(first_child(parse_markdown(str).unwrap()))
}

#[test]
fn task_new() {
    let li = list_item("- [ ] My _special_ task `25/03/28_12:30-14:00` `25/02/03_21:45-22:30`");
    let task = Task {
        done: Some(false),
        text: "My special task".to_string(),
        sessions: vec![
            Session::from_str("25/03/28_12:30-14:00", &zone()).unwrap(),
            Session::from_str("25/02/03_21:45-22:30", &zone()).unwrap(),
        ],
        sub_tasks: vec![],
    };
    assert_eq!(Task::new(&zone(), &li), Ok(task));
}

#[test]
fn task_with_sub_tasks_and_display() {
    let li = list_item("- [x] Parent `25/03/28_12-13`\n  - Child\n  - [ ] Other\n");
    let task = Task::new(&zone(), &li).unwrap();
    assert_eq!(task.done, Some(true));
    assert_eq!(task.sub_tasks.len(), 2);
    assert_eq!(task.sub_tasks[0].done, None);
    assert_eq!(
        task.to_string(),
        "- [x] Parent `25/03/28_12-13`\n  - Child\n  - [ ] Other\n"
    );
}

#[test]
fn task_bad_session() {
    let li = list_item("- Broken `not a session`");
    let err = Task::new(&zone(), &li).unwrap_err();
    assert!(matches!(err.error, TaskErr::Session(_)));
    let range = err.range.unwrap();
    assert_eq!(range.start.line, 0);
    assert_eq!(range.start.character, 9);
}

#[test]
fn task_time_adds_sub_tasks() {
    let li = list_item("- A `25/10/10_13-14`\n  - B `25/10/10_15:00-16:30`\n");
    let task = Task::new(&zone(), &li).unwrap();
    let range = Range::from_str("25/10/10-11", &zone()).unwrap();
    let span = Span::new(range.start().dt(&zone()).unwrap(), range.end().dt(&zone()).unwrap());
    assert_eq!(task.time_delta(&span, &zone()), Some(9000));
}
