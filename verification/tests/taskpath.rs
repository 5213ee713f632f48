use task_tree::taskpath::{TaskPath, TaskPathErr};
use task_tree::tree::Path;

#[test]
fn parse_task_path() {
    let path: TaskPath = "group1/subgroup:task1".parse().unwrap();
    assert_eq!(path.group.parent_ids, vec!["group1".to_string()]);
    assert_eq!(path.group.child_id, "subgroup".to_string());
    assert_eq!(path.task.parent_ids, Vec::<String>::new());
    assert_eq!(path.task.child_id, "task1".to_string());

    let err = "group_without_task".parse::<TaskPath>().unwrap_err();
    assert!(matches!(err, TaskPathErr::MissingSeparator));
}

#[test]
fn parse_escaped_path() {
    let tp = TaskPath {
        group: Path {
            parent_ids: vec![],
            child_id: "group".to_string(),
        },
        task: Path {
            parent_ids: vec![],
            child_id: "[task](https://task.com)".to_string(),
        },
    };
    let string = tp.to_string();

    assert_eq!(string, "group:\"[task](https://task.com)\"");

    let decoded = TaskPath::from_str(&string).unwrap();
    assert_eq!(tp, decoded);
}

#[test]
fn task_path_round_trip_nested() {
    let tp = TaskPath {
        group: Path {
            parent_ids: vec!["work".to_string(), "a:b".to_string()],
            child_id: "reports".to_string(),
        },
        task: Path {
            parent_ids: vec!["q1".to_string()],
            child_id: "draft/final".to_string(),
        },
    };
    let string = tp.to_string();
    assert_eq!(string, "work/\"a:b\"/reports:q1/\"draft/final\"");
    assert_eq!(TaskPath::from_str(&string).unwrap(), tp);
}

#[test]
fn task_path_errors() {
    assert_eq!(TaskPath::from_str("a:b:c"), Err(TaskPathErr::MissingSeparator));
    assert_eq!(
        TaskPath::from_str(":task"),
        Err(TaskPathErr::InvalidGroup("empty path".to_string()))
    );
    assert_eq!(
        TaskPath::from_str("group:"),
        Err(TaskPathErr::InvalidTask("empty path".to_string()))
    );
}
