//! The session being timed: which task, and since when.
use vstd::prelude::*;
use crate::taskpath::TaskPath;
use crate::session::{Session, between_spec};
use crate::time::Zone;

verus! {

/// The session running on a task, from `start` (seconds since the epoch).
#[derive(Debug, Clone, PartialEq, Eq)]
pub struct Active {
    pub task_path: TaskPath,
    pub start: i64,
}

impl Active {
    /// A session on the task that starts at `now`.
    pub fn new(task_path: TaskPath, now: i64) -> (r: Active)
        ensures
            r.task_path == task_path,
            r.start == now,
    {
        Active { task_path, start: now }
    }

    /// The session from the start until `now` (seconds since the epoch),
    /// each rounded down to a whole minute, on the zone's clock; `None`
    /// when it would be empty or an instant is out of range (see
    /// [`between_spec`]).
    pub fn session(&self, zone: &Zone, now: i64) -> (r: Option<Session>)
        ensures
            match r {
                Some(x) => between_spec(zone@, self.start, now, 60) == Some(x@),
                None => between_spec(zone@, self.start, now, 60) is None,
            },
    {
        Session::from_utc(zone, self.start, now, 60)
    }
}

} // verus!
