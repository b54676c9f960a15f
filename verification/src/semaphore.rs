//! A counting permit pool with an explicit queue of blocked waiters.
//!
//! Nothing here blocks. An acquire that finds no permit puts the caller in
//! the queue and says so; a release returns the waiter that is to be woken,
//! who then asks again. A caller that embeds the pool under a lock parks the
//! thread between the two.

use crate::waitq::{with_waiter, without, lemma_without, WaitQueue};
use vstd::prelude::*;

verus! {

/// What an acquire came to.
#[derive(Clone, Copy, Debug, PartialEq, Eq, Structural)]
pub enum Acquire {
    /// A permit was taken.
    Acquired,
    /// No permit was free: the caller now stands in the queue of waiters.
    Blocked,
}

/// The pool as a mathematical value: the free permits and the blocked
/// waiters in arrival order.
#[verifier::ext_equal]
pub struct SemaphoreView {
    pub permits: nat,
    pub waiters: Seq<usize>,
}

/// One operation on a pool, for statements about histories.
pub enum SemaphoreOp {
    Acquire(usize),
    TryAcquire,
    Release,
}

impl SemaphoreView {
    /// A pool of `permits` free permits on which nobody waits.
    pub open spec fn init(permits: nat) -> SemaphoreView {
        SemaphoreView { permits, waiters: Seq::empty() }
    }

    /// No waiter is queued twice.
    pub open spec fn wf(self) -> bool {
        self.waiters.no_duplicates()
    }

    /// Whether an acquire would have to wait.
    pub open spec fn would_block(self) -> bool {
        self.permits == 0
    }

    /// The pool after `waiter` asked for a permit, and the answer. With a
    /// permit free the waiter takes it and leaves the queue if it stood
    /// there; with none it joins the queue at the tail unless it is in it.
    pub open spec fn acquire(self, waiter: usize) -> (SemaphoreView, Acquire) {
        if self.permits > 0 {
            (
                SemaphoreView {
                    permits: (self.permits - 1) as nat,
                    waiters: without(self.waiters, waiter),
                },
                Acquire::Acquired,
            )
        } else {
            (
                SemaphoreView { permits: self.permits, waiters: with_waiter(self.waiters, waiter) },
                Acquire::Blocked,
            )
        }
    }

    /// The pool after an acquire that does not wait, and whether it took a
    /// permit.
    pub open spec fn try_acquire(self) -> (SemaphoreView, bool) {
        if self.permits > 0 {
            (SemaphoreView { permits: (self.permits - 1) as nat, waiters: self.waiters }, true)
        } else {
            (self, false)
        }
    }

    /// The pool after a release, and the waiter to wake: the count goes up
    /// by one and the head of the queue, if any, leaves it.
    pub open spec fn release(self) -> (SemaphoreView, Option<usize>) {
        if self.waiters.len() > 0 {
            (
                SemaphoreView { permits: self.permits + 1, waiters: self.waiters.drop_first() },
                Some(self.waiters[0]),
            )
        } else {
            (SemaphoreView { permits: self.permits + 1, waiters: self.waiters }, None)
        }
    }

    /// The pool after one operation.
    pub open spec fn step(self, op: SemaphoreOp) -> SemaphoreView {
        match op {
            SemaphoreOp::Acquire(w) => self.acquire(w).0,
            SemaphoreOp::TryAcquire => self.try_acquire().0,
            SemaphoreOp::Release => self.release().0,
        }
    }

    /// Whether the operation takes a permit when applied to this pool.
    pub open spec fn grants(self, op: SemaphoreOp) -> bool {
        match op {
            SemaphoreOp::Acquire(w) => self.acquire(w).1 == Acquire::Acquired,
            SemaphoreOp::TryAcquire => self.try_acquire().1,
            SemaphoreOp::Release => false,
        }
    }

    /// The pool after the operations of `ops`, applied in order.
    pub open spec fn run(self, ops: Seq<SemaphoreOp>) -> SemaphoreView
        decreases ops.len(),
    {
        if ops.len() == 0 {
            self
        } else {
            self.run(ops.drop_last()).step(ops.last())
        }
    }

    /// How many operations of `ops` took a permit.
    pub open spec fn taken(self, ops: Seq<SemaphoreOp>) -> nat
        decreases ops.len(),
    {
        if ops.len() == 0 {
            0
        } else {
            self.taken(ops.drop_last()) + if self.run(ops.drop_last()).grants(ops.last()) {
                1nat
            } else {
                0nat
            }
        }
    }
}

/// How many operations of `ops` are releases.
pub open spec fn released(ops: Seq<SemaphoreOp>) -> nat
    decreases ops.len(),
{
    if ops.len() == 0 {
        0
    } else {
        released(ops.drop_last()) + if ops.last() is Release {
            1nat
        } else {
            0nat
        }
    }
}

/// Every operation keeps the queue free of repetitions.
pub proof fn lemma_step_preserves_wf(s: SemaphoreView, op: SemaphoreOp)
    requires
        s.wf(),
    ensures
        s.step(op).wf(),
{
    match op {
        SemaphoreOp::Acquire(w) => {
            lemma_without(s.waiters, w);
        },
        SemaphoreOp::TryAcquire => {},
        SemaphoreOp::Release => {},
    }
}

/// The count never goes below zero, goes down by one exactly with an
/// operation that takes a permit, and goes up by one exactly with a release.
pub proof fn lemma_count_moves_with_permits(s: SemaphoreView, op: SemaphoreOp)
    ensures
        s.grants(op) ==> s.permits > 0 && s.step(op).permits == s.permits - 1,
        op is Release ==> s.step(op).permits == s.permits + 1,
        !s.grants(op) && !(op is Release) ==> s.step(op).permits == s.permits,
        s.grants(op) <==> !(op is Release) && !s.would_block(),
{
}

/// An acquire that does not wait fails exactly when a waiting acquire would
/// have had to wait, and exactly then no permit is free.
pub proof fn lemma_try_acquire_fails_iff_acquire_blocks(s: SemaphoreView, waiter: usize)
    ensures
        !s.try_acquire().1 <==> s.acquire(waiter).1 == Acquire::Blocked,
        !s.try_acquire().1 <==> s.would_block(),
        s.acquire(waiter).1 == Acquire::Acquired ==> s.acquire(waiter).0.permits
            == s.try_acquire().0.permits,
{
}

/// Permits are neither made nor lost: along any history the free permits and
/// the permits taken add up to the initial count and the releases. So at
/// most as many permits are out as the pool started with, releases counted
/// back in.
pub proof fn lemma_permits_conserved(s: SemaphoreView, ops: Seq<SemaphoreOp>)
    ensures
        s.run(ops).permits + s.taken(ops) == s.permits + released(ops),
        s.taken(ops) <= s.permits + released(ops),
    decreases ops.len(),
{
    if ops.len() > 0 {
        lemma_permits_conserved(s, ops.drop_last());
    }
}

/// A counting permit pool.
pub struct Semaphore {
    permits: usize,
    waiters: WaitQueue,
}

impl View for Semaphore {
    type V = SemaphoreView;

    closed spec fn view(&self) -> SemaphoreView {
        SemaphoreView { permits: self.permits as nat, waiters: self.waiters@ }
    }
}

impl Semaphore {
    /// What holds of every pool that this module hands out.
    pub closed spec fn wf(&self) -> bool {
        self.waiters.wf()
    }

    /// The model of a well-formed pool is well formed, and its count fits
    /// the machine.
    pub proof fn lemma_view_wf(&self)
        requires
            self.wf(),
        ensures
            self@.wf(),
            self@.permits <= usize::MAX,
    {
    }

    /// A pool with `permits` free permits and no waiters.
    pub fn new(permits: usize) -> (s: Semaphore)
        ensures
            s.wf(),
            s@ == SemaphoreView::init(permits as nat),
    {
        Semaphore { permits, waiters: WaitQueue::new() }
    }

    /// The number of free permits.
    pub fn available_permits(&self) -> (n: usize)
        ensures
            n == self@.permits,
    {
        self.permits
    }

    /// The number of blocked waiters.
    pub fn waiting(&self) -> (n: usize)
        ensures
            n == self@.waiters.len(),
    {
        self.waiters.len()
    }

    /// Asks for a permit on behalf of `waiter`. Takes one if the count is
    /// above zero; otherwise queues the waiter, who asks again once a
    /// release has named it.
    pub fn acquire(&mut self, waiter: usize) -> (r: Acquire)
        requires
            old(self).wf(),
        ensures
            final(self).wf(),
            final(self)@ == old(self)@.acquire(waiter).0,
            r == old(self)@.acquire(waiter).1,
            r == Acquire::Blocked <==> old(self)@.permits == 0,
    {
        if self.permits > 0 {
            self.permits -= 1;
            let _ = self.waiters.remove(waiter);
            Acquire::Acquired
        } else {
            let _ = self.waiters.enqueue(waiter);
            Acquire::Blocked
        }
    }

    /// Takes a permit if one is free at once, and says whether it did. The
    /// queue of waiters is left alone.
    pub fn try_acquire(&mut self) -> (taken: bool)
        requires
            old(self).wf(),
        ensures
            final(self).wf(),
            final(self)@ == old(self)@.try_acquire().0,
            taken == old(self)@.try_acquire().1,
            taken <==> old(self)@.permits > 0,
    {
        if self.permits > 0 {
            self.permits -= 1;
            true
        } else {
            false
        }
    }

    /// Gives a permit back and returns the one waiter to wake, if any waits.
    /// There is no tracking of owners: the count may pass the initial one.
    pub fn release(&mut self) -> (wake: Option<usize>)
        requires
            old(self).wf(),
            old(self)@.permits < usize::MAX,
        ensures
            final(self).wf(),
            final(self)@ == old(self)@.release().0,
            wake == old(self)@.release().1,
    {
        self.permits += 1;
        self.waiters.dequeue()
    }
}

} // verus!
