//! The admission gate: a counting-semaphore-like primitive that bounds how
//! many disk-bound workers run at once.
//!
//! This module holds the counter and its check-then-decrement decision.
//! Callers that share one gate among threads
//! wrap it in their own synchronisation and poll `try_take` until it
//! succeeds; the decision of whether a caller may proceed, and the bound it
//! enforces, live here.
use vstd::prelude::*;

verus! {

/// The admission gate's counter. `takes` and `puts` are ghost tallies of the
/// successful `try_take` and `put` calls made so far; they carry the
/// accounting that ties the live counter to the number of held slots.
pub struct Bucket {
    pub capacity: i32,
    pub initial: Ghost<int>,
    pub takes: Ghost<int>,
    pub puts: Ghost<int>,
}

impl Bucket {
    /// The counter never goes below zero, and it always equals the initial
    /// capacity minus the slots taken plus the slots put back.
    pub open spec fn wf(self) -> bool {
        &&& 0 <= self.capacity
        &&& 0 < self.initial@
        &&& 0 <= self.takes@
        &&& 0 <= self.puts@
        &&& self.capacity == self.initial@ - self.takes@ + self.puts@
    }

    /// How many slots the bucket admits at most.
    pub open spec fn initial(self) -> int {
        self.initial@
    }

    /// The current value of the counter.
    pub open spec fn current(self) -> int {
        self.capacity as int
    }

    /// Successful `try_take` calls so far.
    pub open spec fn takes(self) -> int {
        self.takes@
    }

    /// `put` calls so far.
    pub open spec fn puts(self) -> int {
        self.puts@
    }

    /// Slots currently held: acquisitions not yet released.
    pub open spec fn holders(self) -> int {
        self.takes@ - self.puts@
    }

    pub fn new(capacity: i32) -> (b: Bucket)
        requires
            capacity > 0,
        ensures
            b.wf(),
            b.initial() == capacity,
            b.current() == capacity,
            b.takes() == 0,
            b.puts() == 0,
    {
        Bucket { capacity, initial: Ghost(capacity as int), takes: Ghost(0), puts: Ghost(0) }
    }

    /// One admission attempt: succeeds exactly when the counter is strictly
    /// positive, and then decrements it. A caller that needs to block polls
    /// this until it returns true.
    pub fn try_take(&mut self) -> (ok: bool)
        requires
            old(self).wf(),
        ensures
            final(self).wf(),
            final(self).initial() == old(self).initial(),
            final(self).puts() == old(self).puts(),
            ok == (old(self).current() > 0),
            ok ==> final(self).current() == old(self).current() - 1 && final(self).takes() == old(
                self).takes() + 1,
            !ok ==> final(self).current() == old(self).current() && final(self).takes() == old(
                self).takes(),
    {
        if self.capacity > 0 {
            self.capacity = self.capacity - 1;
            self.takes = Ghost(self.takes@ + 1);
            true
        } else {
            false
        }
    }

    /// Releases a slot: increments the counter unconditionally. A `put`
    /// without a matching `try_take` is not rejected; it silently inflates
    /// the counter past its initial capacity, and avoiding that is the
    /// caller's responsibility.
    pub fn put(&mut self)
        requires
            old(self).wf(),
            old(self).current() < i32::MAX,
        ensures
            final(self).wf(),
            final(self).initial() == old(self).initial(),
            final(self).takes() == old(self).takes(),
            final(self).puts() == old(self).puts() + 1,
            final(self).current() == old(self).current() + 1,
    {
        self.capacity = self.capacity + 1;
        self.puts = Ghost(self.puts@ + 1);
    }
}

/// The admission bound: as long as every `put` releases a slot some
/// `try_take` acquired (no unmatched releases), the number of workers
/// that hold a slot never exceeds the starting capacity.
pub proof fn lemma_admission_bound(b: Bucket)
    requires
        b.wf(),
        b.puts() <= b.takes(),
    ensures
        0 <= b.holders() <= b.initial(),
{
}

} // verus!
