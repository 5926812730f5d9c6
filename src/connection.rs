//! Closing a group of connections as one operation: each is closed in list
//! order, one at a time, and a failure never keeps the rest from a close.
use vstd::prelude::*;

verus! {

/// What became of one attempt to close a connection.
#[derive(Copy, Clone, Debug, PartialEq, Eq, Structural)]
pub enum CloseOutcome {
    Closed,
    Failed,
}

/// What the driver of a composite close does next.
#[derive(Copy, Clone, Debug, PartialEq, Eq, Structural)]
pub enum CloseAction {
    /// Close the connection at this index and report the outcome.
    Close(usize),
    /// Every connection has had its close attempt.
    Done,
}

/// Progress of closing `total` connections in order.
pub struct CloseSequence {
    total: usize,
    next: usize,
    failures: usize,
    attempted: Ghost<Seq<usize>>,
}

/// The indices `0..n` in order.
pub open spec fn indices(n: nat) -> Seq<usize> {
    Seq::new(n, |i: int| i as usize)
}

impl CloseSequence {
    /// How many connections the group holds.
    pub closed spec fn total(&self) -> nat {
        self.total as nat
    }

    /// The indices whose close was attempted, in the order of the attempts.
    pub closed spec fn attempted(&self) -> Seq<usize> {
        self.attempted@
    }

    /// How many close attempts failed.
    pub closed spec fn failures(&self) -> nat {
        self.failures as nat
    }

    /// Connections are attempted exactly in list order, none skipped.
    pub closed spec fn wf(&self) -> bool {
        &&& self.next <= self.total
        &&& self.failures <= self.next
        &&& self.attempted@ == indices(self.next as nat)
    }

    /// A sequence over `total` connections, none attempted yet.
    pub fn new(total: usize) -> (r: Self)
        ensures
            r.wf(),
            r.total() == total,
            r.attempted() == Seq::<usize>::empty(),
            r.failures() == 0,
    {
        let r = CloseSequence { total, next: 0, failures: 0, attempted: Ghost(Seq::empty()) };
        assert(r.attempted@ =~= indices(0));
        r
    }

    /// The next connection to close, or `Done` once each has been attempted.
    pub fn next_action(&self) -> (r: CloseAction)
        requires
            self.wf(),
        ensures
            self.attempted().len() < self.total() ==> r == CloseAction::Close(
                self.attempted().len() as usize,
            ),
            self.attempted().len() >= self.total() ==> r == CloseAction::Done,
    {
        if self.next < self.total {
            CloseAction::Close(self.next)
        } else {
            CloseAction::Done
        }
    }

    /// Records the outcome of closing the connection that `next_action` named;
    /// the sequence moves on whatever the outcome.
    pub fn record(&mut self, outcome: CloseOutcome)
        requires
            old(self).wf(),
            old(self).attempted().len() < old(self).total(),
        ensures
            final(self).wf(),
            final(self).total() == old(self).total(),
            final(self).attempted() == old(self).attempted().push(
                old(self).attempted().len() as usize,
            ),
            final(self).failures() == old(self).failures() + if outcome == CloseOutcome::Failed {
                1nat
            } else {
                0nat
            },
    {
        proof {
            assert(self.attempted@.push(self.next) =~= indices((self.next + 1) as nat));
        }
        self.attempted = Ghost(self.attempted@.push(self.next));
        if outcome == CloseOutcome::Failed {
            self.failures = self.failures + 1;
        }
        self.next = self.next + 1;
    }

    /// How many close attempts failed so far.
    pub fn failure_count(&self) -> (r: usize)
        requires
            self.wf(),
        ensures
            r == self.failures(),
    {
        self.failures
    }

    /// Once the sequence is done, every connection was attempted exactly
    /// once, in list order, whatever the earlier outcomes were.
    pub proof fn lemma_all_attempted(&self)
        requires
            self.wf(),
            self.attempted().len() >= self.total(),
        ensures
            self.attempted() == indices(self.total()),
            forall|i: int, j: int|
                0 <= i < j < self.total() ==> self.attempted()[i] != self.attempted()[j],
    {
    }
}

} // verus!
