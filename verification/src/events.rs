//! Change notifications: one revision counter.
//!
//! Every change bumps the revision. A client passes the last revision it saw
//! plus a wait time; it gets an answer when the revision moves past that, or
//! when the wait ends.

use vstd::prelude::*;

verus! {

/// Longest wait a client may ask for, in seconds. Below common proxy and
/// tool timeouts, so a waiting call always returns cleanly.
pub const WAIT_LIMIT_SECONDS: u64 = 60;

/// The revision before any change.
pub const FIRST_REVISION: u64 = 0;

/// The revision behind one more change.
pub fn bumped(revision: u64) -> (r: u64)
    requires
        revision < u64::MAX,
    ensures
        r == revision + 1,
{
    revision + 1
}

/// What a client asks for.
#[derive(Clone, Copy, Debug, PartialEq, Eq, Structural)]
pub struct EventsQuery {
    /// The last revision the client saw. The answer waits until the revision
    /// moves past this value.
    pub after: u64,
    /// Longest time to wait, in seconds. 0 returns at once.
    pub wait: u64,
}

impl EventsQuery {
    /// How long the client waits: what it asked for, up to the limit.
    pub fn wait_seconds(&self) -> (r: u64)
        ensures
            r == if self.wait < WAIT_LIMIT_SECONDS {
                self.wait
            } else {
                WAIT_LIMIT_SECONDS
            },
    {
        if self.wait < WAIT_LIMIT_SECONDS {
            self.wait
        } else {
            WAIT_LIMIT_SECONDS
        }
    }
}

/// What a waiting client meets.
#[derive(Clone, Copy, Debug, PartialEq, Eq, Structural)]
pub enum WaitEvent {
    /// The current revision, at the start or after a change.
    Seen(u64),
    /// The wait ended, or the notifier dropped, at this revision.
    Ended(u64),
}

/// What a waiting client does.
#[derive(Clone, Copy, Debug, PartialEq, Eq, Structural)]
pub enum WaitAction {
    /// Wait for the next change, up to the deadline.
    Wait,
    /// Answer with the revision.
    Report(u64),
}

/// The action for an event.
pub open spec fn answer(query: EventsQuery, event: WaitEvent) -> WaitAction {
    match event {
        WaitEvent::Seen(revision) => if revision > query.after {
            WaitAction::Report(revision)
        } else {
            WaitAction::Wait
        },
        WaitEvent::Ended(revision) => WaitAction::Report(revision),
    }
}

/// The action for an event: a revision past the one the client saw is
/// reported at once, and the end of the wait reports where things are.
pub fn wait_for_change(query: &EventsQuery, event: WaitEvent) -> (r: WaitAction)
    ensures
        r == answer(*query, event),
{
    match event {
        WaitEvent::Seen(revision) => {
            if revision > query.after {
                WaitAction::Report(revision)
            } else {
                WaitAction::Wait
            }
        },
        WaitEvent::Ended(revision) => WaitAction::Report(revision),
    }
}

/// A client that saw a revision never waits over a later change.
pub proof fn law_a_change_wakes_the_client(query: EventsQuery, revision: u64)
    requires
        query.after <= revision < u64::MAX,
    ensures
        answer(query, WaitEvent::Seen((revision + 1) as u64)) == WaitAction::Report(
            (revision + 1) as u64,
        ),
{
}

} // verus!
