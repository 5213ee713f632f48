use task_tree::group::Group;
use task_tree::tasktree::TaskTree;
use task_tree::task::Task;
use task_tree::tree::{insert_task, insert_group};

fn tc(id: &str) -> Group {
    tcc(id, vec![])
}

fn tcc(id: &str, children: Vec<Group>) -> Group {
    Group { text: id.to_string(), sub_groups: children, tasks: vec![] }
}

#[test]
fn insert() {
    let mut root = TaskTree {
        groups: vec![tc("a"), tcc("b", vec![tc("b1"), tc("b2")])],
    };
    root.insert(&vec!["c".to_string()], tc("c1"));
    root.insert(&vec!["b".to_string()], tc("b3"));
    let expectation = TaskTree {
        groups: vec![
            tc("a"),
            tcc("b", vec![tc("b1"), tc("b2"), tc("b3")]),
            tcc("c", vec![tc("c1")]),
        ],
    };
    assert_eq!(root, expectation);
}

fn task(text: &str, sub: Vec<Task>) -> Task {
    Task { done: None, text: text.to_string(), sessions: vec![], sub_tasks: sub }
}

#[test]
fn insert_merges_same_text() {
    let mut ts = vec![task("a", vec![task("a1", vec![])])];
    insert_task(&mut ts, &vec![], 0, task("a", vec![task("a2", vec![]), task("a1", vec![task("x", vec![])])]));
    assert_eq!(
        ts,
        vec![task("a", vec![task("a1", vec![task("x", vec![])]), task("a2", vec![])])]
    );
}

#[test]
fn insert_creates_parents() {
    let mut ts: Vec<Task> = vec![];
    insert_task(&mut ts, &vec!["p".to_string(), "q".to_string()], 0, task("leaf", vec![]));
    assert_eq!(ts, vec![task("p", vec![task("q", vec![task("leaf", vec![])])])]);
}

#[test]
fn insert_group_merge_keeps_existing_tasks() {
    let mut gs = vec![Group {
        text: "g".to_string(),
        sub_groups: vec![],
        tasks: vec![task("t", vec![])],
    }];
    insert_group(&mut gs, &vec![], 0, Group {
        text: "g".to_string(),
        sub_groups: vec![tc("s")],
        tasks: vec![task("u", vec![])],
    });
    assert_eq!(
        gs,
        vec![Group { text: "g".to_string(), sub_groups: vec![tc("s")], tasks: vec![task("t", vec![])] }]
    );
}

fn test_root() -> TaskTree {
    TaskTree {
        groups: vec![
            tc("0"),
            tcc("1", vec![tcc("1.0", vec![tcc("1.0.0", vec![tc("1.0.0.0")])]), tc("1.1")]),
            tc("2"),
        ],
    }
}

#[test]
fn tree_iterator() {
    let root = test_root();
    let display = root
        .iter()
        .iter()
        .map(|item| {
            let mut s = String::new();
            for parent in item.parent_path.iter() {
                s.push_str(&format!("{}->", parent));
            }
            s.push_str(&format!("[{}]", item.child.text));
            s
        })
        .collect::<Vec<String>>()
        .join("\n")
        + "\n";
    let expectation = "[0]\n[1]\n1->[1.0]\n1->1.0->[1.0.0]\n1->1.0->1.0.0->[1.0.0.0]\n1->[1.1]\n[2]\n";
    assert_eq!(expectation, display);
}

#[test]
fn group_task_walk() {
    let g = Group {
        text: "g".to_string(),
        sub_groups: vec![],
        tasks: vec![task("a", vec![task("a1", vec![])]), task("b", vec![])],
    };
    let items = g.iter();
    let shown: Vec<(Vec<String>, String)> =
        items.iter().map(|i| (i.parent_path.clone(), i.child.text.clone())).collect();
    assert_eq!(
        shown,
        vec![
            (vec![], "a".to_string()),
            (vec!["a".to_string()], "a1".to_string()),
            (vec![], "b".to_string()),
        ]
    );
}
