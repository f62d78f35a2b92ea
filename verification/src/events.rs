//! Raw kernel records and their classification into semantic events.
//!
//! A single raw record may carry several change-category bits at once. One
//! fixed precedence order — delete, revoke, rename, link, write, other —
//! picks exactly one kind per record, evaluated top to bottom.

use crate::path::WatchPath;
use vstd::prelude::*;

verus! {

/// The kind of change a delivered event reports.
#[derive(Debug, Clone, Copy, PartialEq, Eq, Structural)]
pub enum EventKind {
    Delete,
    Extend,
    Link,
    Other,
    Rename,
    Revoke,
    Write,
}

/// The change-category bits of one raw record, as plain flags. Several may
/// be set at once; classification picks one kind by fixed precedence.
#[derive(Debug, Clone, Copy, PartialEq, Eq, Structural)]
pub struct Categories {
    pub delete: bool,
    pub write: bool,
    pub extend: bool,
    pub link: bool,
    pub revoke: bool,
    pub rename: bool,
}

/// One raw notification as delivered by the kernel queue: the handle it
/// concerns, an error marker for this interest entry (with its code in
/// `error_data`), and the change-category bits.
#[derive(Debug, Clone, Copy, PartialEq, Eq, Structural)]
pub struct RawRecord {
    pub ident: i32,
    pub error: bool,
    pub error_data: i64,
    pub categories: Categories,
}

/// A semantic event surfaced to the caller: which path changed and how.
#[derive(Debug, Clone, PartialEq, Eq)]
pub struct Event {
    pub path: WatchPath,
    pub kind: EventKind,
}

/// The fixed precedence order over the category bits: delete beats revoke
/// beats rename beats link beats write; anything else, the extend bit
/// among them, classifies as `Other`.
pub open spec fn spec_classify(c: Categories) -> EventKind {
    if c.delete {
        EventKind::Delete
    } else if c.revoke {
        EventKind::Revoke
    } else if c.rename {
        EventKind::Rename
    } else if c.link {
        EventKind::Link
    } else if c.write {
        EventKind::Write
    } else {
        EventKind::Other
    }
}

/// Classifies one record's category bits into exactly one event kind,
/// top to bottom, first match wins.
pub fn classify(c: Categories) -> (k: EventKind)
    ensures
        k == spec_classify(c),
{
    if c.delete {
        EventKind::Delete
    } else if c.revoke {
        EventKind::Revoke
    } else if c.rename {
        EventKind::Rename
    } else if c.link {
        EventKind::Link
    } else if c.write {
        EventKind::Write
    } else {
        EventKind::Other
    }
}

/// What one return of the kernel poll call means for the polling loop.
#[derive(Debug, Clone, Copy, PartialEq, Eq, Structural)]
pub enum PollStep {
    /// One record was delivered; reconcile it.
    Deliver,
    /// The timeout elapsed with no record: surface no event.
    TimedOut,
    /// The call was interrupted by a signal: poll again, surfacing nothing.
    Retry,
    /// A genuine operating-system error: surface it.
    Fail,
    /// A record count outside the call's single-record contract: the loop
    /// must abort rather than continue with undefined state.
    Fatal,
}

/// The meaning of a poll return code `ret` (with `interrupted` telling
/// whether a failure was an interrupted-by-signal condition).
pub open spec fn spec_poll_step(ret: int, interrupted: bool) -> PollStep {
    if ret == -1 {
        if interrupted {
            PollStep::Retry
        } else {
            PollStep::Fail
        }
    } else if ret == 0 {
        PollStep::TimedOut
    } else if ret == 1 {
        PollStep::Deliver
    } else {
        PollStep::Fatal
    }
}

/// Decides what a raw poll return means. Interruption by a signal is
/// transient and never surfaced; a count other than zero or one records
/// breaks the call's contract and must abort the loop.
pub fn poll_step(ret: i32, interrupted: bool) -> (s: PollStep)
    ensures
        s == spec_poll_step(ret as int, interrupted),
{
    if ret == -1 {
        if interrupted {
            PollStep::Retry
        } else {
            PollStep::Fail
        }
    } else if ret == 0 {
        PollStep::TimedOut
    } else if ret == 1 {
        PollStep::Deliver
    } else {
        PollStep::Fatal
    }
}

/// Decides whether an interest registration took effect. A return of `-1`
/// normally means failure, but the kernel applies a change list even when
/// the call is interrupted by a signal, so an interrupted failure counts
/// as applied and must not be resubmitted.
pub fn registration_applied(ret: i32, interrupted: bool) -> (r: bool)
    ensures
        r == (ret != -1 || interrupted),
{
    ret != -1 || interrupted
}

} // verus!
