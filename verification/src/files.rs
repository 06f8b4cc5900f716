//! Atomic file writes for the stores.
//!
//! A write fills a temporary file and renames it over the target, so a
//! reader sees either the old file or the new one, never a half-written one.

use vstd::prelude::*;

use crate::order;
use crate::text;
use crate::text::{decimal_of, owned};

verus! {

/// Hands out the number behind each temporary name, so two writers to one
/// path cannot pick the same temporary file.
#[derive(Debug)]
pub struct Tickets {
    next: u64,
}

impl Tickets {
    /// The ticket that the next write gets.
    pub closed spec fn upcoming(&self) -> u64 {
        self.next
    }

    /// A counter from zero.
    pub fn new() -> (r: Tickets)
        ensures
            r.upcoming() == 0,
    {
        Tickets { next: 0 }
    }

    /// A counter from `next`, for a caller that keeps the count itself.
    pub fn starting_at(next: u64) -> (r: Tickets)
        ensures
            r.upcoming() == next,
    {
        Tickets { next }
    }

    /// Draws a ticket. The count starts over behind the largest one.
    pub fn draw(&mut self) -> (ticket: u64)
        ensures
            ticket == old(self).upcoming(),
            final(self).upcoming() == if ticket == u64::MAX {
                0
            } else {
                (ticket + 1) as u64
            },
    {
        let ticket: u64 = self.next;
        self.next = if ticket == u64::MAX {
            0
        } else {
            ticket + 1
        };
        ticket
    }

    /// The temporary file that a write to a file called `name` uses.
    pub fn temporary_path(&mut self, name: Option<&str>) -> (r: String)
        ensures
            r@ == temporary(
                match name {
                    Some(known) => known@,
                    None => "file"@,
                },
                old(self).upcoming(),
            ),
            final(self).upcoming() == if old(self).upcoming() == u64::MAX {
                0
            } else {
                (old(self).upcoming() + 1) as u64
            },
    {
        let ticket = self.draw();
        let known: &str = match name {
            Some(known) => known,
            None => "file",
        };
        let mut r = owned(known);
        r.append(".");
        r.append(decimal_of(ticket as u128).as_str());
        r.append(".writing");
        r
    }
}

/// The temporary name for a file. The suffix keeps it out of every listing:
/// the stores select files whose extension is `json`.
pub open spec fn temporary(name: Seq<char>, ticket: u64) -> Seq<char> {
    name + "."@ + text::decimal(ticket as nat) + ".writing"@
}

/// Two tickets never give one file the same temporary name.
pub proof fn law_two_writers_pick_different_temporaries(name: Seq<char>, a: u64, b: u64)
    requires
        a != b,
    ensures
        temporary(name, a) != temporary(name, b),
{
    let (low, high) = if a < b {
        (a, b)
    } else {
        (b, a)
    };
    let (x, y) = (text::decimal(low as nat), text::decimal(high as nat));
    order::lemma_decimals_ascend(low as nat, high as nat);
    let head = name + "."@;
    let (p, q) = (temporary(name, low), temporary(name, high));
    assert(p.subrange(head.len() as int, (head.len() + x.len()) as int) =~= x);
    assert(q.subrange(head.len() as int, (head.len() + y.len()) as int) =~= y);
    if p == q {
        assert(p.len() == head.len() + x.len() + ".writing"@.len());
        assert(q.len() == head.len() + y.len() + ".writing"@.len());
    }
}

/// A temporary file is not a `json` file.
pub proof fn law_a_temporary_stays_out_of_listings(name: Seq<char>, ticket: u64)
    ensures
        !text::ends_with(temporary(name, ticket), ".json"@),
{
    reveal_strlit(".writing");
    reveal_strlit(".json");
    let all = temporary(name, ticket);
    assert(all[all.len() - 1] == 'g');
    if text::ends_with(all, ".json"@) {
        assert(all.skip(all.len() - 5)[4] == all[all.len() - 1]);
    }
}

// -- The steps of a write ---------------------------------------------------

/// What a write does next.
#[derive(Clone, Copy, Debug, PartialEq, Eq, Structural)]
pub enum WriteStep {
    /// Fill the temporary file.
    Fill,
    /// Rename the temporary file over the target.
    Rename,
    /// Remove the temporary file after a failed rename.
    Remove,
    /// The target holds the new content.
    Done,
    /// The write failed. The target is as it was.
    Failed,
}

/// The step behind `step`, when `step` succeeded or failed.
pub open spec fn step_after(step: WriteStep, succeeded: bool) -> WriteStep {
    match step {
        WriteStep::Fill => if succeeded {
            WriteStep::Rename
        } else {
            WriteStep::Failed
        },
        WriteStep::Rename => if succeeded {
            WriteStep::Done
        } else {
            WriteStep::Remove
        },
        WriteStep::Remove => WriteStep::Failed,
        WriteStep::Done => WriteStep::Done,
        WriteStep::Failed => WriteStep::Failed,
    }
}

/// The step behind `step`. A failed rename removes the temporary file, so a
/// failed write leaves nothing behind.
pub fn next_step(step: WriteStep, succeeded: bool) -> (r: WriteStep)
    ensures
        r == step_after(step, succeeded),
{
    match step {
        WriteStep::Fill => if succeeded {
            WriteStep::Rename
        } else {
            WriteStep::Failed
        },
        WriteStep::Rename => if succeeded {
            WriteStep::Done
        } else {
            WriteStep::Remove
        },
        WriteStep::Remove => WriteStep::Failed,
        WriteStep::Done => WriteStep::Done,
        WriteStep::Failed => WriteStep::Failed,
    }
}

/// A write is done exactly when the filling and the renaming succeeded, and
/// it ends after three steps at most.
pub proof fn law_a_write_replaces_the_file_or_fails(first: bool, second: bool, third: bool)
    ensures
        ({
            let end = step_after(step_after(step_after(WriteStep::Fill, first), second), third);
            &&& end == WriteStep::Done || end == WriteStep::Failed
            &&& (end == WriteStep::Done) == (first && second)
        }),
{
}

} // verus!
