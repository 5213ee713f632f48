use task_tree::chart::{root_node, Node, RawParams};
use task_tree::session::range::{Range, Span};
use task_tree::tasktree::TaskTree;
use task_tree::time::{Date, Zone};

fn zone() -> Zone {
    Zone::new("America/Santiago").unwrap()
}

fn node(name: &str, value: i64, children: Vec<Node>) -> Node {
    Node { name: name.to_string(), value, children }
}

#[test]
fn root_node_keeps_nodes_with_minutes() {
    let z = zone();
    let tree = TaskTree::from_str(
        &z,
        "# G\n\n- x `25/10/10_13-14`\n  - x1 `25/10/10_15:00-15:30`\n- y\n\n# H\n\n- z\n",
    )
    .unwrap()
    .unwrap();
    let range = Range::from_str("25/10/10-11", &z).unwrap();
    let span = range.into_dt_span(&z).unwrap();
    let root = root_node(tree, span, "October".to_string(), &z).unwrap();
    assert_eq!(
        root,
        node(
            "October",
            90,
            vec![node("G", 90, vec![node("x", 90, vec![node("x1", 30, vec![])])])]
        )
    );
}

#[test]
fn raw_params_range() {
    let month = RawParams { year: 2025, month: Some(2), week: None };
    assert_eq!(
        month.range(),
        Some(Range::AllDay(Span::new(
            Date { year: 2025, month: 2, day: 1 },
            Date { year: 2025, month: 3, day: 1 }
        )))
    );
    let week = RawParams { year: 2025, month: None, week: Some(2) };
    assert_eq!(
        week.range(),
        Some(Range::AllDay(Span::new(
            Date { year: 2025, month: 1, day: 6 },
            Date { year: 2025, month: 1, day: 13 }
        )))
    );
    assert_eq!(RawParams { year: 2025, month: Some(2), week: Some(2) }.range(), None);
    assert_eq!(RawParams { year: 2025, month: None, week: None }.range(), None);
}

#[test]
fn params_title() {
    let p = RawParams { year: 2025, month: Some(3), week: None };
    assert_eq!(p.to_string(), "2025\nMarch");
    let p = RawParams { year: 2025, month: None, week: Some(12) };
    assert_eq!(p.to_string(), "2025\nWeek: 12");
    let p = RawParams { year: -5, month: Some(13), week: None };
    assert_eq!(p.to_string(), "-5\n");
}
