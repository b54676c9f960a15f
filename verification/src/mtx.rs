//! A mutual-exclusion lock for cooperatively scheduled tasks.
//!
//! Asking for a lock that is taken does not block: the task is queued and
//! told to suspend. Releasing the lock hands it straight to the task that
//! has waited longest, which is then notified and takes its guard when it
//! asks again. Nobody can slip in between, so waiters are served in the
//! order in which they came.

use crate::task::Poll;
use crate::waitq::{with_waiter, WaitQueue};
use vstd::prelude::*;

verus! {

/// Who has the lock.
#[derive(Clone, Copy, Debug, PartialEq, Eq, Structural)]
pub enum LockState {
    /// Nobody.
    Free,
    /// The lock has been handed to the named task, which has not taken its
    /// guard yet.
    Granted(usize),
    /// The named task holds the guard.
    Held(usize),
}

/// The lock as a mathematical value: the protected data, who has the lock,
/// and the suspended tasks in the order in which they asked.
#[verifier::ext_equal]
pub struct MutexView<T> {
    pub data: T,
    pub state: LockState,
    pub waiters: Seq<usize>,
}

/// One operation on a lock, for statements about histories: a task asks
/// for the lock, or the guard that was given to a task comes back.
pub enum MutexOp {
    Lock(usize),
    Unlock(usize),
}

impl<T> MutexView<T> {
    /// A free lock around `data`.
    pub open spec fn init(data: T) -> MutexView<T> {
        MutexView { data, state: LockState::Free, waiters: Seq::empty() }
    }

    /// No task waits twice, and nobody waits for a free lock.
    pub open spec fn wf(self) -> bool {
        &&& self.waiters.no_duplicates()
        &&& self.state is Free ==> self.waiters.len() == 0
    }

    /// Whether a guard is out.
    pub open spec fn guarded(self) -> bool {
        self.state is Held
    }

    /// The lock after `task` asked for it, and whether it got the guard. It
    /// gets it when the lock is free or has been handed to it; otherwise it
    /// joins the waiters at the tail, unless it waits already.
    pub open spec fn lock(self, task: usize) -> (MutexView<T>, bool) {
        if self.state == LockState::Free || self.state == LockState::Granted(task) {
            (MutexView { state: LockState::Held(task), ..self }, true)
        } else {
            (MutexView { waiters: with_waiter(self.waiters, task), ..self }, false)
        }
    }

    /// The lock after the guard of `task` came back, and the task to notify.
    /// The lock goes to the head of the waiters, who leaves the queue; with
    /// no waiter it is free. A guard that is not the one out changes nothing.
    pub open spec fn unlock(self, task: usize) -> (MutexView<T>, Option<usize>) {
        if self.state != LockState::Held(task) {
            (self, None)
        } else if self.waiters.len() > 0 {
            (
                MutexView {
                    state: LockState::Granted(self.waiters[0]),
                    waiters: self.waiters.drop_first(),
                    ..self
                },
                Some(self.waiters[0]),
            )
        } else {
            (MutexView { state: LockState::Free, ..self }, None)
        }
    }

    /// The lock after each task of `tasks` has asked for it once, in order.
    pub open spec fn lock_all(self, tasks: Seq<usize>) -> MutexView<T>
        decreases tasks.len(),
    {
        if tasks.len() == 0 {
            self
        } else {
            self.lock_all(tasks.drop_last()).lock(tasks.last()).0
        }
    }

    /// The lock after one operation.
    pub open spec fn step(self, op: MutexOp) -> MutexView<T> {
        match op {
            MutexOp::Lock(task) => self.lock(task).0,
            MutexOp::Unlock(task) => self.unlock(task).0,
        }
    }

    /// The lock after the operations of `ops`, applied in order.
    pub open spec fn run(self, ops: Seq<MutexOp>) -> MutexView<T>
        decreases ops.len(),
    {
        if ops.len() == 0 {
            self
        } else {
            self.run(ops.drop_last()).step(ops.last())
        }
    }

    /// How many guards the operations of `ops` gave out.
    pub open spec fn given(self, ops: Seq<MutexOp>) -> nat
        decreases ops.len(),
    {
        if ops.len() == 0 {
            0
        } else {
            let before = self.run(ops.drop_last());
            self.given(ops.drop_last()) + match ops.last() {
                MutexOp::Lock(task) => if before.lock(task).1 {
                    1nat
                } else {
                    0nat
                },
                MutexOp::Unlock(_) => 0nat,
            }
        }
    }

    /// How many guards came back with the operations of `ops`: the unlocks
    /// with the guard that was out.
    pub open spec fn returned(self, ops: Seq<MutexOp>) -> nat
        decreases ops.len(),
    {
        if ops.len() == 0 {
            0
        } else {
            let before = self.run(ops.drop_last());
            self.returned(ops.drop_last()) + match ops.last() {
                MutexOp::Lock(_) => 0nat,
                MutexOp::Unlock(task) => if before.state == LockState::Held(task) {
                    1nat
                } else {
                    0nat
                },
            }
        }
    }

    /// One hand-off: the holder gives its guard back and the task that is
    /// notified takes its own. The result names that task; without a holder
    /// or without a waiter nothing is handed on.
    pub open spec fn hand_off(self) -> (MutexView<T>, Option<usize>) {
        match self.state {
            LockState::Held(holder) => {
                let (released, next) = self.unlock(holder);
                match next {
                    Some(task) => (released.lock(task).0, Some(task)),
                    None => (released, None),
                }
            },
            _ => (self, None),
        }
    }

    /// The tasks that get the lock in `n` hand-offs in a row, in order.
    pub open spec fn hand_offs(self, n: nat) -> Seq<usize>
        decreases n,
    {
        if n == 0 {
            Seq::empty()
        } else {
            match self.hand_off().1 {
                Some(task) => seq![task] + self.hand_off().0.hand_offs((n - 1) as nat),
                None => Seq::empty(),
            }
        }
    }
}

/// Asking and releasing keep a lock well formed, and neither touches the
/// data.
pub proof fn lemma_mutex_steps_preserve_wf<T>(s: MutexView<T>, task: usize)
    requires
        s.wf(),
    ensures
        s.lock(task).0.wf(),
        s.unlock(task).0.wf(),
        s.lock(task).0.data == s.data,
        s.unlock(task).0.data == s.data,
{
}

/// At most one guard is out at a time. While a task holds the guard nobody
/// is given another; after a hand-off only the task that was named can take
/// the guard; and a guard is given only when none was out.
pub proof fn lemma_one_guard<T>(s: MutexView<T>, task: usize)
    ensures
        s.guarded() ==> !s.lock(task).1 && s.lock(task).0.state == s.state,
        s.state matches LockState::Granted(t) && t != task ==> !s.lock(task).1 && s.lock(
            task,
        ).0.state == s.state,
        s.lock(task).1 ==> !s.guarded() && s.lock(task).0.state == LockState::Held(task),
        s.unlock(task).1 matches Some(next) ==> s.unlock(task).0.state == LockState::Granted(next),
{
}

/// Along any history that starts with no guard out, the guards given out
/// are the guards that came back and at most one more, and one more exactly
/// while a task holds the lock: there is never a second live guard.
pub proof fn lemma_never_two_guards<T>(s: MutexView<T>, ops: Seq<MutexOp>)
    requires
        !s.guarded(),
    ensures
        s.given(ops) == s.returned(ops) + if s.run(ops).guarded() {
            1nat
        } else {
            0nat
        },
        s.given(ops) <= s.returned(ops) + 1,
    decreases ops.len(),
{
    if ops.len() > 0 {
        lemma_never_two_guards(s, ops.drop_last());
    }
}

/// Tasks that ask for a lock that is held queue up in the order in which
/// they ask: none gets the guard, and the waiters are the earlier waiters
/// followed by the newcomers.
pub proof fn lemma_waiters_queue_in_order<T>(s: MutexView<T>, tasks: Seq<usize>)
    requires
        s.wf(),
        s.guarded(),
        tasks.no_duplicates(),
        forall|i: int| 0 <= i < tasks.len() ==> !s.waiters.contains(#[trigger] tasks[i]),
    ensures
        s.lock_all(tasks).wf(),
        s.lock_all(tasks).state == s.state,
        s.lock_all(tasks).data == s.data,
        s.lock_all(tasks).waiters == s.waiters + tasks,
    decreases tasks.len(),
{
    if tasks.len() > 0 {
        let before = tasks.drop_last();
        let last = tasks.last();
        lemma_waiters_queue_in_order(s, before);
        let mid = s.lock_all(before);
        assert(!mid.waiters.contains(last)) by {
            if mid.waiters.contains(last) {
                let k = choose|k: int| 0 <= k < mid.waiters.len() && mid.waiters[k] == last;
                if k < s.waiters.len() {
                    assert(s.waiters[k] == last);
                    assert(s.waiters.contains(tasks[tasks.len() - 1]));
                } else {
                    assert(before[k - s.waiters.len()] == last);
                    assert(tasks[k - s.waiters.len()] == tasks[tasks.len() - 1]);
                }
            }
        }
        assert(mid.waiters.push(last) =~= s.waiters + tasks);
        assert forall|a: int, b: int|
            0 <= a < mid.waiters.push(last).len() && 0 <= b < mid.waiters.push(last).len() && a
                != b implies mid.waiters.push(last)[a] != mid.waiters.push(last)[b] by {
            if a == mid.waiters.len() {
                assert(mid.waiters[b] != last);
            } else if b == mid.waiters.len() {
                assert(mid.waiters[a] != last);
            }
        }
    } else {
        assert(s.waiters + tasks =~= s.waiters);
    }
}

/// The lock is handed on in the order of the queue: as long as there are
/// waiters, the hand-offs of a held lock go to the first waiter, then the
/// second, and so on, and each of them holds the guard in its turn.
pub proof fn lemma_hand_off_is_fifo<T>(s: MutexView<T>, n: nat)
    requires
        s.wf(),
        s.guarded(),
        n <= s.waiters.len(),
    ensures
        s.hand_offs(n) == s.waiters.take(n as int),
        n > 0 ==> s.hand_off().1 == Some(s.waiters[0]) && s.hand_off().0.state == LockState::Held(
            s.waiters[0],
        ) && s.hand_off().0.waiters == s.waiters.drop_first(),
    decreases n,
{
    if n > 0 {
        let next = s.hand_off().0;
        assert(next.waiters == s.waiters.drop_first());
        lemma_hand_off_is_fifo(next, (n - 1) as nat);
        assert(seq![s.waiters[0]] + s.waiters.drop_first().take(n - 1) =~= s.waiters.take(
            n as int,
        ));
    } else {
        assert(s.waiters.take(0) =~= Seq::<usize>::empty());
    }
}

/// First come, first served. When distinct tasks that do not wait yet ask
/// in some order for a lock that is held, the lock is handed on, one
/// release at a time, first to those that waited before, in their order,
/// and then to the newcomers in the very order in which they asked.
pub proof fn lemma_fifo_fairness<T>(s: MutexView<T>, tasks: Seq<usize>)
    requires
        s.wf(),
        s.guarded(),
        tasks.no_duplicates(),
        forall|i: int| 0 <= i < tasks.len() ==> !s.waiters.contains(#[trigger] tasks[i]),
    ensures
        s.lock_all(tasks).hand_offs(s.waiters.len() + tasks.len()) == s.waiters + tasks,
{
    lemma_waiters_queue_in_order(s, tasks);
    let queued = s.lock_all(tasks);
    lemma_hand_off_is_fifo(queued, queued.waiters.len());
    assert(queued.waiters.take(queued.waiters.len() as int) =~= queued.waiters);
}

/// The proof that its bearer holds a lock. It is made by a successful
/// `lock` and used up by `unlock`.
#[derive(Debug, PartialEq, Eq)]
pub struct MutexGuard {
    task: usize,
}

impl MutexGuard {
    /// The task that the guard was given to.
    pub closed spec fn holder(&self) -> usize {
        self.task
    }

    /// The task that the guard was given to.
    pub fn task(&self) -> (t: usize)
        ensures
            t == self.holder(),
    {
        self.task
    }
}

/// A lock around a value of type `T` for tasks of one scheduler.
pub struct Mutex<T> {
    data: T,
    state: LockState,
    waiters: WaitQueue,
}

impl<T> View for Mutex<T> {
    type V = MutexView<T>;

    closed spec fn view(&self) -> MutexView<T> {
        MutexView { data: self.data, state: self.state, waiters: self.waiters@ }
    }
}

impl<T> Mutex<T> {
    /// What holds of every lock that this module hands out.
    pub closed spec fn wf(&self) -> bool {
        &&& self.waiters.wf()
        &&& self.state is Free ==> self.waiters@.len() == 0
    }

    /// The model of a well-formed lock is well formed.
    pub proof fn lemma_view_wf(&self)
        requires
            self.wf(),
        ensures
            self@.wf(),
    {
    }

    /// A free lock around `data`.
    pub fn new(data: T) -> (m: Mutex<T>)
        ensures
            m.wf(),
            m@ == MutexView::init(data),
    {
        Mutex { data, state: LockState::Free, waiters: WaitQueue::new() }
    }

    /// Who has the lock.
    pub fn state(&self) -> (s: LockState)
        ensures
            s == self@.state,
    {
        self.state
    }

    /// The number of suspended tasks.
    pub fn waiting(&self) -> (n: usize)
        ensures
            n == self@.waiters.len(),
    {
        self.waiters.len()
    }

    /// Asks for the lock on behalf of `task`. Ready with the guard when the
    /// lock is free or was handed to the task. Otherwise the task is queued
    /// behind the earlier waiters and has to suspend; the release that hands
    /// it the lock names it for a wake signal.
    pub fn lock(&mut self, task: usize) -> (r: Poll<MutexGuard>)
        requires
            old(self).wf(),
        ensures
            final(self).wf(),
            final(self)@ == old(self)@.lock(task).0,
            r is Ready <==> old(self)@.lock(task).1,
            r matches Poll::Ready(guard) ==> guard.holder() == task,
    {
        let mine = match self.state {
            LockState::Free => true,
            LockState::Granted(t) => t == task,
            LockState::Held(_) => false,
        };
        if mine {
            self.state = LockState::Held(task);
            Poll::Ready(MutexGuard { task })
        } else {
            let _ = self.waiters.enqueue(task);
            Poll::Pending
        }
    }

    /// Gives the lock back. The lock goes to the task that has waited
    /// longest, which is returned and has to be notified; with no waiter the
    /// lock is free. A guard of another lock, which is not the one out
    /// here, changes nothing.
    pub fn unlock(&mut self, guard: MutexGuard) -> (wake: Option<usize>)
        requires
            old(self).wf(),
        ensures
            final(self).wf(),
            final(self)@ == old(self)@.unlock(guard.holder()).0,
            wake == old(self)@.unlock(guard.holder()).1,
    {
        let held = match self.state {
            LockState::Held(t) => t == guard.task,
            _ => false,
        };
        if !held {
            return None;
        }
        match self.waiters.dequeue() {
            Some(next) => {
                self.state = LockState::Granted(next);
                Some(next)
            },
            None => {
                self.state = LockState::Free;
                None
            },
        }
    }

    /// The protected value, for the bearer of the guard that is out.
    pub fn get(&self, guard: &MutexGuard) -> (r: Option<&T>)
        ensures
            r == if self@.state == LockState::Held(guard.holder()) {
                Some(&self@.data)
            } else {
                None
            },
    {
        match self.state {
            LockState::Held(t) => {
                if t == guard.task {
                    Some(&self.data)
                } else {
                    None
                }
            },
            _ => None,
        }
    }

    /// Puts `value` in the place of the protected value and returns the old
    /// one, for the bearer of the guard that is out; anybody else gets
    /// `value` back and nothing changes.
    pub fn replace(&mut self, guard: &MutexGuard, value: T) -> (r: Result<T, T>)
        ensures
            old(self).wf() ==> final(self).wf(),
            old(self)@.state == LockState::Held(guard.holder()) ==> r == Ok::<T, T>(old(self)@.data)
                && final(self)@ == (MutexView { data: value, ..old(self)@ }),
            old(self)@.state != LockState::Held(guard.holder()) ==> r == Err::<T, T>(value)
                && final(self)@ == old(self)@,
    {
        let held = match self.state {
            LockState::Held(t) => t == guard.task,
            _ => false,
        };
        if held {
            let mut value = value;
            std::mem::swap(&mut self.data, &mut value);
            Ok(value)
        } else {
            Err(value)
        }
    }
}

} // verus!
