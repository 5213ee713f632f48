use task_tree::active::Active;
use task_tree::context::CalDAV;
use task_tree::taskpath::TaskPath;

#[test]
fn caldav_dummy() {
    let c = CalDAV::dummy();
    assert_eq!(c.url, "https://example.com/caldav");
    assert_eq!(c.user, "test_user");
    assert_eq!(c.pass, "test_pass");
}

#[test]
fn active_new() {
    let tp: TaskPath = "work:report".parse().unwrap();
    let a = Active::new(tp.clone(), 1700000000);
    assert_eq!(a.task_path, tp);
    assert_eq!(a.start, 1700000000);
}

#[test]
fn active_session_in_whole_minutes() {
    let zone = task_tree::time::Zone::new("America/Santiago").unwrap();
    let tp: TaskPath = "work:report".parse().unwrap();
    // 2025-10-10 13:00:30 in Santiago (UTC-3)
    let a = Active::new(tp, 1760112030);
    let s = a.session(&zone, 1760112030 + 3600 + 50).unwrap();
    assert_eq!(s.to_string(), "25/10/10_13:00-14:01");
    assert_eq!(s.range.time_delta(&zone), Some(3660));
    assert!(a.session(&zone, 1760112030 + 20).is_none());
}
