//! The workspace's settings that the library reads.
use vstd::prelude::*;

verus! {

/// Where and as whom calendar events are uploaded.
#[derive(Debug, Clone, PartialEq, Eq)]
pub struct CalDAV {
    pub url: String,
    pub user: String,
    pub pass: String,
}

impl CalDAV {
    /// Settings for an example server, for trying things out.
    pub fn dummy() -> (r: CalDAV)
        ensures
            r.url@ == "https://example.com/caldav"@,
            r.user@ == "test_user"@,
            r.pass@ == "test_pass"@,
    {
        CalDAV {
            url: "https://example.com/caldav".to_owned(),
            user: "test_user".to_owned(),
            pass: "test_pass".to_owned(),
        }
    }
}

} // verus!
