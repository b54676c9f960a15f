//! The scheduler as a mathematical value, the steps that change it, and
//! what each step keeps.
//!
//! The executor refines this model: each of its operations is one step
//! here.

use crate::task::{Resumed, RunState, TaskError, TaskView};
use vstd::prelude::*;

verus! {

/// A request to notify `task` once the time has reached `deadline`.
#[derive(Clone, Copy, Debug, PartialEq, Eq, Structural)]
pub struct Timer {
    pub deadline: u64,
    pub task: usize,
}

/// The scheduler's state: the tasks by identifier, the ready set in resume
/// order, the timers in the order in which they were set, and the task that
/// is being resumed, if one is.
#[verifier::ext_equal]
pub struct ExecutorView {
    pub tasks: Seq<TaskView>,
    pub ready: Seq<usize>,
    pub sleeping: Seq<Timer>,
    pub running: Option<usize>,
}

/// The tasks of the timers of `timers` that are due at `now`, in the order
/// of the timers.
pub open spec fn due(timers: Seq<Timer>, now: u64) -> Seq<usize> {
    timers.filter(|t: Timer| t.deadline <= now).map_values(|t: Timer| t.task)
}

/// The timers of `timers` that are not yet due at `now`, in their order.
pub open spec fn not_due(timers: Seq<Timer>, now: u64) -> Seq<Timer> {
    timers.filter(|t: Timer| t.deadline > now)
}

impl ExecutorView {
    /// A scheduler without tasks.
    pub open spec fn init() -> ExecutorView {
        ExecutorView {
            tasks: Seq::empty(),
            ready: Seq::empty(),
            sleeping: Seq::empty(),
            running: None,
        }
    }

    /// Whether `task` names a task of this scheduler.
    pub open spec fn has_task(self, task: usize) -> bool {
        task < self.tasks.len()
    }

    /// The run state of `task`.
    pub open spec fn state_of(self, task: usize) -> RunState {
        self.tasks[task as int].state
    }

    /// Whether `task` is notified and not being resumed: such a task has to
    /// stand in the ready set.
    pub open spec fn queued(self, task: usize) -> bool {
        self.state_of(task) == RunState::Notified && self.running != Some(task)
    }

    /// Whether a wake signal for `task` is waiting to be served: the task
    /// stands in the ready set, or it is being resumed and has taken note.
    pub open spec fn pending(self, task: usize) -> bool {
        ||| self.ready.contains(task)
        ||| (self.running == Some(task) && self.has_task(task) && self.state_of(task)
            == RunState::Notified)
    }

    /// Whether both sets are empty: the run loop ends.
    pub open spec fn is_idle(self) -> bool {
        self.ready.len() == 0 && self.sleeping.len() == 0
    }

    /// What holds of every reachable state. Identifiers fit the machine. The
    /// ready set names tasks, each at most once, and holds exactly the
    /// notified tasks that are not being resumed; timers name tasks; a
    /// running task is the one being resumed, and the task being resumed is
    /// running or notified.
    pub open spec fn wf(self) -> bool {
        &&& self.tasks.len() <= usize::MAX
        &&& forall|i: int| 0 <= i < self.ready.len() ==> self.has_task(#[trigger] self.ready[i])
        &&& self.ready.no_duplicates()
        &&& forall|i: int|
            0 <= i < self.sleeping.len() ==> self.has_task((#[trigger] self.sleeping[i]).task)
        &&& forall|t: usize|
            self.has_task(t) ==> (#[trigger] self.ready.contains(t) <==> self.queued(t))
        &&& forall|i: int|
            0 <= i < self.tasks.len() && (#[trigger] self.tasks[i]).state == RunState::Running
                ==> self.running == Some(i as usize)
        &&& match self.running {
            Some(t) => self.has_task(t) && (self.state_of(t) == RunState::Running
                || self.state_of(t) == RunState::Notified),
            None => true,
        }
    }

    /// This state with the run state of `task` replaced.
    pub open spec fn with_state(self, task: usize, state: RunState) -> ExecutorView {
        ExecutorView {
            tasks: self.tasks.update(
                task as int,
                TaskView { state, wake_time: self.tasks[task as int].wake_time },
            ),
            ..self
        }
    }

    /// This state with the wake time of `task` replaced.
    pub open spec fn with_wake_time(self, task: usize, wake_time: Option<u64>) -> ExecutorView {
        ExecutorView {
            tasks: self.tasks.update(
                task as int,
                TaskView { state: self.tasks[task as int].state, wake_time },
            ),
            ..self
        }
    }

    /// A wake signal for `task`. An idle task becomes notified and joins the
    /// ready set at the tail. A running task becomes notified and stays out
    /// of the ready set: its resumer puts it back. Otherwise, and for an
    /// identifier that names no task, nothing changes.
    pub open spec fn notify(self, task: usize) -> ExecutorView {
        if !self.has_task(task) {
            self
        } else {
            let (state, enqueue) = self.state_of(task).notify();
            let next = self.with_state(task, state);
            if enqueue {
                ExecutorView { ready: self.ready.push(task), ..next }
            } else {
                next
            }
        }
    }

    /// The wake signals for `tasks`, delivered in order.
    pub open spec fn notify_all(self, tasks: Seq<usize>) -> ExecutorView
        decreases tasks.len(),
    {
        if tasks.len() == 0 {
            self
        } else {
            self.notify_all(tasks.drop_last()).notify(tasks.last())
        }
    }

    /// A computation is submitted: its task gets the next identifier, starts
    /// idle and is notified at once, so it joins the ready set. A scheduler
    /// that has used up the identifiers of the machine takes no more tasks.
    pub open spec fn spawn(self) -> (ExecutorView, usize) {
        if self.tasks.len() >= usize::MAX {
            (self, usize::MAX)
        } else {
            (
                ExecutorView {
                    tasks: self.tasks.push(TaskView { state: RunState::Idle, wake_time: None }),
                    ..self
                }.notify(self.tasks.len() as usize),
                self.tasks.len() as usize,
            )
        }
    }

    /// The resumer asks for the next task. While a step is in progress this
    /// is a violation. With an empty ready set there is nothing to do.
    /// Otherwise the head of the ready set leaves it, becomes running with
    /// its wake time cleared, and is the task being resumed.
    pub open spec fn begin_resume(self) -> (ExecutorView, Result<Option<usize>, TaskError>) {
        if self.running is Some {
            (self, Err(TaskError::ProtocolViolation))
        } else if self.ready.len() == 0 {
            (self, Ok(None))
        } else {
            let task = self.ready[0];
            if !self.has_task(task) {
                (self, Err(TaskError::ProtocolViolation))
            } else {
                match self.state_of(task).begin_resume() {
                    Ok(state) => (
                        ExecutorView {
                            tasks: self.tasks.update(
                                task as int,
                                TaskView { state, wake_time: None },
                            ),
                            ready: self.ready.drop_first(),
                            sleeping: self.sleeping,
                            running: Some(task),
                        },
                        Ok(Some(task)),
                    ),
                    Err(e) => (self, Err(e)),
                }
            }
        }
    }

    /// The step in progress ends with `outcome`; the answer says whether the
    /// task went back to the ready set. With no step in progress this is a
    /// violation. A finished task is complete for good. A suspended task
    /// goes idle, unless it was notified during the step: then it joins the
    /// ready set at the tail.
    pub open spec fn finish_resume(self, outcome: Resumed) -> (
        ExecutorView,
        Result<bool, TaskError>,
    ) {
        match self.running {
            None => (self, Err(TaskError::ProtocolViolation)),
            Some(task) => {
                if !self.has_task(task) {
                    (self, Err(TaskError::ProtocolViolation))
                } else {
                    match self.state_of(task).finish_resume(outcome) {
                        Ok((state, requeue)) => (
                            ExecutorView {
                                tasks: self.with_state(task, state).tasks,
                                ready: if requeue {
                                    self.ready.push(task)
                                } else {
                                    self.ready
                                },
                                sleeping: self.sleeping,
                                running: None,
                            },
                            Ok(requeue),
                        ),
                        Err(e) => (self, Err(e)),
                    }
                }
            },
        }
    }

    /// A task is placed where it belongs at time `now`: with a wake time
    /// after `now` a timer is set for it, otherwise it is notified. Nothing
    /// is done for a completed task or for an identifier that names no task.
    pub open spec fn push_task(self, task: usize, now: u64) -> ExecutorView {
        if !self.has_task(task) || self.state_of(task) == RunState::Complete {
            self
        } else {
            match self.tasks[task as int].wake_time {
                Some(deadline) if deadline > now => ExecutorView {
                    sleeping: self.sleeping.push(Timer { deadline, task }),
                    ..self
                },
                _ => self.notify(task),
            }
        }
    }

    /// A task asks at time `now` to be resumed no earlier than `deadline`:
    /// the deadline becomes its wake time and the task is placed by it.
    pub open spec fn sleep_until(self, task: usize, deadline: u64, now: u64) -> ExecutorView {
        if !self.has_task(task) {
            self
        } else {
            self.with_wake_time(task, Some(deadline)).push_task(task, now)
        }
    }

    /// The requests of `deadlines` by `task`, taken up in order.
    pub open spec fn sleep_all(self, task: usize, deadlines: Seq<u64>, now: u64) -> ExecutorView
        decreases deadlines.len(),
    {
        if deadlines.len() == 0 {
            self
        } else {
            self.sleep_all(task, deadlines.drop_last(), now).sleep_until(
                task,
                deadlines.last(),
                now,
            )
        }
    }

    /// The timers due at `now` fire: their tasks are notified in the order
    /// in which the timers were set, and the other timers stay, in order.
    pub open spec fn wake_expired(self, now: u64) -> ExecutorView {
        ExecutorView {
            sleeping: not_due(self.sleeping, now),
            ..self.notify_all(due(self.sleeping, now))
        }
    }
}

/// Whether `deadline` is the earliest deadline among `timers`.
pub open spec fn is_earliest(timers: Seq<Timer>, deadline: u64) -> bool {
    &&& exists|i: int| 0 <= i < timers.len() && (#[trigger] timers[i]).deadline == deadline
    &&& forall|i: int| 0 <= i < timers.len() ==> deadline <= (#[trigger] timers[i]).deadline
}

/// The earliest deadline among `timers`, where there is a timer.
pub open spec fn earliest(timers: Seq<Timer>) -> u64 {
    choose|deadline: u64| is_earliest(timers, deadline)
}

/// There is one earliest deadline at most.
pub proof fn lemma_earliest_unique(timers: Seq<Timer>, deadline: u64)
    requires
        is_earliest(timers, deadline),
    ensures
        earliest(timers) == deadline,
{
    let other = earliest(timers);
    assert(is_earliest(timers, other));
    let i = choose|i: int| 0 <= i < timers.len() && (#[trigger] timers[i]).deadline == deadline;
    let j = choose|j: int| 0 <= j < timers.len() && (#[trigger] timers[j]).deadline == other;
    assert(other <= timers[i].deadline);
    assert(deadline <= timers[j].deadline);
}

/// Whether no task of `before` is missing in `after` and every completed one
/// is still complete.
pub open spec fn completed_stay(before: ExecutorView, after: ExecutorView) -> bool {
    &&& before.tasks.len() <= after.tasks.len()
    &&& forall|i: int|
        0 <= i < before.tasks.len() && (#[trigger] before.tasks[i]).state == RunState::Complete
            ==> after.tasks[i].state == RunState::Complete
}

/// Whether every timer of `timers` falls due after `now`.
pub open spec fn all_after(timers: Seq<Timer>, now: u64) -> bool {
    forall|i: int| 0 <= i < timers.len() ==> (#[trigger] timers[i]).deadline > now
}

/// Whether `after` is `before` with entries added at the tail only.
pub open spec fn grown_at_tail(before: Seq<usize>, after: Seq<usize>) -> bool {
    &&& before.len() <= after.len()
    &&& forall|k: int| 0 <= k < before.len() ==> #[trigger] after[k] == before[k]
}

/// A wake signal keeps the state well formed, touches neither the timers
/// nor the task being resumed, adds to the ready set at the tail only,
/// leaves every pending signal pending and, unless the task is complete,
/// is itself pending afterwards.
pub proof fn lemma_notify(s: ExecutorView, task: usize)
    requires
        s.wf(),
    ensures
        s.notify(task).wf(),
        s.notify(task).tasks.len() == s.tasks.len(),
        s.notify(task).sleeping == s.sleeping,
        s.notify(task).running == s.running,
        grown_at_tail(s.ready, s.notify(task).ready),
        forall|u: usize| s.pending(u) ==> #[trigger] s.notify(task).pending(u),
        completed_stay(s, s.notify(task)),
        s.has_task(task) && s.state_of(task) != RunState::Complete ==> s.notify(task).pending(
            task,
        ),
{
    let n = s.notify(task);
    if s.has_task(task) {
        match s.state_of(task) {
            RunState::Idle => {
                assert(!s.ready.contains(task));
                assert(n.ready == s.ready.push(task));
                assert(n.ready[s.ready.len() as int] == task);
                assert forall|t: usize| n.has_task(t) implies (#[trigger] n.ready.contains(t)
                    <==> n.queued(t)) by {
                    if t == task {
                    } else {
                        assert(n.state_of(t) == s.state_of(t));
                        if s.ready.contains(t) {
                            let k = choose|k: int| 0 <= k < s.ready.len() && s.ready[k] == t;
                            assert(n.ready[k] == t);
                        }
                        if n.ready.contains(t) {
                            let k = choose|k: int| 0 <= k < n.ready.len() && n.ready[k] == t;
                            assert(s.ready[k] == t);
                        }
                    }
                }
                assert forall|u: usize| s.pending(u) implies #[trigger] n.pending(u) by {
                    if s.ready.contains(u) {
                        let k = choose|k: int| 0 <= k < s.ready.len() && s.ready[k] == u;
                        assert(n.ready[k] == u);
                    }
                }
            },
            RunState::Running => {
                assert(s.running == Some(task));
                assert forall|t: usize| n.has_task(t) implies (#[trigger] n.ready.contains(t)
                    <==> n.queued(t)) by {
                    if t != task {
                        assert(n.state_of(t) == s.state_of(t));
                    } else {
                        assert(s.ready.contains(t) <==> s.queued(t));
                    }
                }
            },
            RunState::Notified => {
                assert(n.tasks =~= s.tasks);
                assert(s.ready.contains(task) <==> s.queued(task));
            },
            RunState::Complete => {
                assert(n.tasks =~= s.tasks);
            },
        }
    }
}

/// Wake signals delivered in a row keep all that one wake signal keeps.
pub proof fn lemma_notify_all(s: ExecutorView, tasks: Seq<usize>)
    requires
        s.wf(),
    ensures
        s.notify_all(tasks).wf(),
        s.notify_all(tasks).tasks.len() == s.tasks.len(),
        s.notify_all(tasks).sleeping == s.sleeping,
        s.notify_all(tasks).running == s.running,
        grown_at_tail(s.ready, s.notify_all(tasks).ready),
        forall|u: usize| s.pending(u) ==> #[trigger] s.notify_all(tasks).pending(u),
        completed_stay(s, s.notify_all(tasks)),
    decreases tasks.len(),
{
    if tasks.len() > 0 {
        let mid = s.notify_all(tasks.drop_last());
        lemma_notify_all(s, tasks.drop_last());
        lemma_notify(mid, tasks.last());
        let end = mid.notify(tasks.last());
        assert forall|u: usize| s.pending(u) implies #[trigger] end.pending(u) by {
            assert(mid.pending(u));
        }
        assert(completed_stay(s, mid));
    }
}

/// Timers fire in the order in which they were set, whatever their
/// deadlines: what is due among timers set first comes before what is due
/// among timers set later, and the timers that stay keep their order too.
pub proof fn lemma_timers_keep_insertion_order(first: Seq<Timer>, later: Seq<Timer>, now: u64)
    ensures
        due(first + later, now) == due(first, now) + due(later, now),
        not_due(first + later, now) == not_due(first, now) + not_due(later, now),
        forall|t: Timer|
            #[trigger] due(seq![t], now) == if t.deadline <= now {
                seq![t.task]
            } else {
                Seq::<usize>::empty()
            },
{
    broadcast use Seq::filter_distributes_over_add;

    let fire = |t: Timer| t.deadline <= now;
    let task = |t: Timer| t.task;
    assert(first.filter(fire).map_values(task) + later.filter(fire).map_values(task) =~= (
    first.filter(fire) + later.filter(fire)).map_values(task));
    assert forall|t: Timer|
        #[trigger] due(seq![t], now) == if t.deadline <= now {
            seq![t.task]
        } else {
            Seq::<usize>::empty()
        } by {
        reveal_with_fuel(Seq::filter, 2);
        assert(seq![t].drop_last() =~= Seq::<Timer>::empty());
        if t.deadline <= now {
            assert(seq![t].filter(fire) =~= seq![t]);
            assert(seq![t].map_values(task) =~= seq![t.task]);
        } else {
            assert(seq![t].filter(fire) =~= Seq::<Timer>::empty());
            assert(Seq::<Timer>::empty().map_values(task) =~= Seq::<usize>::empty());
        }
    }
}

/// Every timer that is kept, and every task that is due, was in the timers.
pub proof fn lemma_timers_split(timers: Seq<Timer>, now: u64)
    ensures
        forall|i: int|
            0 <= i < not_due(timers, now).len() ==> timers.contains(
                #[trigger] not_due(timers, now)[i],
            ) && not_due(timers, now)[i].deadline > now,
        not_due(timers, now).len() <= timers.len(),
        due(timers, now).len() + not_due(timers, now).len() == timers.len(),
    decreases timers.len(),
{
    let keep = |t: Timer| t.deadline > now;
    let fire = |t: Timer| t.deadline <= now;
    broadcast use vstd::seq_lib::group_filter_ensures;
    if timers.len() > 0 {
        lemma_timers_split(timers.drop_last(), now);
        reveal(Seq::filter);
        assert(timers.filter(keep).len() + timers.filter(fire).len() == timers.len());
    } else {
        reveal(Seq::filter);
    }
}

/// Submitting a computation keeps the state well formed; the new task is
/// pending at once and the ready set grows at the tail only.
pub proof fn lemma_spawn(s: ExecutorView)
    requires
        s.wf(),
    ensures
        s.spawn().0.wf(),
        s.spawn().0.sleeping == s.sleeping,
        s.spawn().0.running == s.running,
        completed_stay(s, s.spawn().0),
        grown_at_tail(s.ready, s.spawn().0.ready),
        forall|u: usize|
            s.has_task(u) ==> #[trigger] s.spawn().0.tasks[u as int] == s.tasks[u as int],
        s.tasks.len() < usize::MAX ==> {
            &&& s.spawn().1 == s.tasks.len()
            &&& s.spawn().0.tasks.len() == s.tasks.len() + 1
            &&& s.spawn().0.ready == s.ready.push(s.spawn().1)
            &&& s.spawn().0.state_of(s.spawn().1) == RunState::Notified
            &&& s.spawn().0.pending(s.spawn().1)
        },
        s.tasks.len() >= usize::MAX ==> s.spawn().0 == s,
{
    if s.tasks.len() < usize::MAX {
        let id = s.tasks.len() as usize;
        let grown = ExecutorView {
            tasks: s.tasks.push(TaskView { state: RunState::Idle, wake_time: None }),
            ..s
        };
        assert(grown.wf()) by {
            assert forall|t: usize| grown.has_task(t) implies (#[trigger] grown.ready.contains(t)
                <==> grown.queued(t)) by {
                if t == id {
                    if grown.ready.contains(t) {
                        let k = choose|k: int| 0 <= k < s.ready.len() && s.ready[k] == t;
                        assert(s.has_task(s.ready[k]));
                    }
                } else {
                    assert(s.ready.contains(t) <==> s.queued(t));
                }
            }
        }
        lemma_notify(grown, id);
        assert(s.spawn().0.ready[s.ready.len() as int] == id);
    }
}

/// Beginning a step keeps the state well formed. When a task is taken it
/// was the head of the ready set and notified, and it is the running task
/// afterwards; the rest of the ready set moves up by one place.
pub proof fn lemma_begin_resume(s: ExecutorView)
    requires
        s.wf(),
    ensures
        s.begin_resume().0.wf(),
        s.begin_resume().0.tasks.len() == s.tasks.len(),
        s.begin_resume().0.sleeping == s.sleeping,
        s.begin_resume().1 is Err <==> s.running is Some,
        s.begin_resume().1 is Err ==> s.begin_resume().0 == s,
        s.begin_resume().1 == Ok::<Option<usize>, TaskError>(None) <==> s.running is None
            && s.ready.len() == 0,
        s.begin_resume().1 == Ok::<Option<usize>, TaskError>(None) ==> s.begin_resume().0 == s,
        forall|task: usize|
            s.begin_resume().1 == Ok::<Option<usize>, TaskError>(Some(task)) ==> {
                &&& s.ready.len() > 0
                &&& task == s.ready[0]
                &&& s.state_of(task) == RunState::Notified
                &&& s.begin_resume().0.state_of(task) == RunState::Running
                &&& s.begin_resume().0.running == Some(task)
                &&& s.begin_resume().0.ready == s.ready.drop_first()
                &&& !s.begin_resume().0.ready.contains(task)
            },
        completed_stay(s, s.begin_resume().0),
{
    let n = s.begin_resume().0;
    if s.running is None && s.ready.len() > 0 {
        let task = s.ready[0];
        assert(s.has_task(task));
        assert(s.ready.contains(task));
        assert(s.queued(task));
        let rest = s.ready.drop_first();
        assert(n.ready == rest);
        assert forall|k: int| 0 <= k < rest.len() implies rest[k] == s.ready[k + 1] by {}
        assert(!rest.contains(task)) by {
            if rest.contains(task) {
                let k = choose|k: int| 0 <= k < rest.len() && rest[k] == task;
                assert(s.ready[k + 1] == task);
            }
        }
        assert forall|t: usize| n.has_task(t) implies (#[trigger] n.ready.contains(t)
            <==> n.queued(t)) by {
            if t != task {
                assert(n.state_of(t) == s.state_of(t));
                assert(s.ready.contains(t) <==> s.queued(t));
                if s.ready.contains(t) {
                    let k = choose|k: int| 0 <= k < s.ready.len() && s.ready[k] == t;
                    assert(rest[k - 1] == t);
                }
                if rest.contains(t) {
                    let k = choose|k: int| 0 <= k < rest.len() && rest[k] == t;
                    assert(s.ready[k + 1] == t);
                }
            }
        }
        assert forall|i: int| 0 <= i < n.ready.len() implies n.has_task(
            #[trigger] n.ready[i],
        ) by {
            assert(s.has_task(s.ready[i + 1]));
        }
    }
}

/// Ending a step keeps the state well formed and leaves no task being
/// resumed. A task that was notified during a step that ends suspended is
/// the new tail of the ready set; otherwise the ready set is as it was.
pub proof fn lemma_finish_resume(s: ExecutorView, outcome: Resumed)
    requires
        s.wf(),
    ensures
        s.finish_resume(outcome).0.wf(),
        s.finish_resume(outcome).0.tasks.len() == s.tasks.len(),
        s.finish_resume(outcome).0.sleeping == s.sleeping,
        s.finish_resume(outcome).1 is Err <==> s.running is None,
        s.finish_resume(outcome).1 is Err ==> s.finish_resume(outcome).0 == s,
        s.finish_resume(outcome).0.running is None,
        grown_at_tail(s.ready, s.finish_resume(outcome).0.ready),
        forall|task: usize|
            s.running == Some(task) ==> {
                &&& s.finish_resume(outcome).1 == Ok::<bool, TaskError>(
                    outcome == Resumed::Suspended && s.state_of(task) == RunState::Notified,
                )
                &&& outcome == Resumed::Complete ==> s.finish_resume(outcome).0.state_of(task)
                    == RunState::Complete
                &&& outcome == Resumed::Suspended && s.state_of(task) == RunState::Notified
                    ==> s.finish_resume(outcome).0.ready == s.ready.push(task)
                &&& outcome == Resumed::Suspended && s.state_of(task) == RunState::Running
                    ==> s.finish_resume(outcome).0.state_of(task) == RunState::Idle
                    && s.finish_resume(outcome).0.ready == s.ready
            },
        completed_stay(s, s.finish_resume(outcome).0),
{
    let n = s.finish_resume(outcome).0;
    if let Some(task) = s.running {
        assert(s.ready.contains(task) <==> s.queued(task));
        assert(!s.ready.contains(task));
        let requeue = outcome == Resumed::Suspended && s.state_of(task) == RunState::Notified;
        if requeue {
            assert(n.tasks =~= s.tasks);
            assert(n.ready == s.ready.push(task));
            assert(n.ready[s.ready.len() as int] == task);
        }
        assert forall|t: usize| n.has_task(t) implies (#[trigger] n.ready.contains(t)
            <==> n.queued(t)) by {
            if t != task {
                assert(n.state_of(t) == s.state_of(t));
                assert(s.ready.contains(t) <==> s.queued(t));
                if s.ready.contains(t) {
                    let k = choose|k: int| 0 <= k < s.ready.len() && s.ready[k] == t;
                    assert(n.ready[k] == t);
                }
                if n.ready.contains(t) {
                    let k = choose|k: int| 0 <= k < n.ready.len() && n.ready[k] == t;
                    assert(s.ready[k] == t);
                }
            }
        }
    }
}

/// Placing a task keeps the state well formed. It sets a timer or delivers
/// a wake signal, and so keeps all that a wake signal keeps.
pub proof fn lemma_push_task(s: ExecutorView, task: usize, now: u64)
    requires
        s.wf(),
    ensures
        s.push_task(task, now).wf(),
        s.push_task(task, now).tasks.len() == s.tasks.len(),
        s.push_task(task, now).running == s.running,
        grown_at_tail(s.ready, s.push_task(task, now).ready),
        forall|u: usize| s.pending(u) ==> #[trigger] s.push_task(task, now).pending(u),
        completed_stay(s, s.push_task(task, now)),
        all_after(s.sleeping, now) ==> all_after(s.push_task(task, now).sleeping, now),
{
    lemma_notify(s, task);
}

/// Recording a wake time changes nothing else and keeps the state well
/// formed.
pub proof fn lemma_with_wake_time(s: ExecutorView, task: usize, wake_time: Option<u64>)
    requires
        s.wf(),
        s.has_task(task),
    ensures
        s.with_wake_time(task, wake_time).wf(),
        completed_stay(s, s.with_wake_time(task, wake_time)),
        forall|u: usize| s.pending(u) ==> #[trigger] s.with_wake_time(task, wake_time).pending(u),
{
    let marked = s.with_wake_time(task, wake_time);
    assert forall|t: usize| marked.has_task(t) implies (#[trigger] marked.ready.contains(t)
        <==> marked.queued(t)) by {
        assert(s.ready.contains(t) <==> s.queued(t));
    }
}

/// Completed tasks that stay completed from one state to a second and from
/// there to a third stay completed from the first to the third; likewise
/// for a ready set that grows at the tail only.
pub proof fn lemma_transitive(a: ExecutorView, b: ExecutorView, c: ExecutorView)
    ensures
        completed_stay(a, b) && completed_stay(b, c) ==> completed_stay(a, c),
        grown_at_tail(a.ready, b.ready) && grown_at_tail(b.ready, c.ready) ==> grown_at_tail(
            a.ready,
            c.ready,
        ),
{
    if completed_stay(a, b) && completed_stay(b, c) {
        assert forall|i: int|
            0 <= i < a.tasks.len() && (#[trigger] a.tasks[i]).state
                == RunState::Complete implies c.tasks[i].state == RunState::Complete by {
            assert(b.tasks[i].state == RunState::Complete);
        }
    }
    if grown_at_tail(a.ready, b.ready) && grown_at_tail(b.ready, c.ready) {
        assert forall|k: int| 0 <= k < a.ready.len() implies #[trigger] c.ready[k]
            == a.ready[k] by {
            assert(b.ready[k] == a.ready[k]);
        }
    }
}

/// A request for a timer keeps the state well formed and keeps all that a
/// wake signal keeps.
pub proof fn lemma_sleep_until(s: ExecutorView, task: usize, deadline: u64, now: u64)
    requires
        s.wf(),
    ensures
        s.sleep_until(task, deadline, now).wf(),
        s.sleep_until(task, deadline, now).tasks.len() == s.tasks.len(),
        s.sleep_until(task, deadline, now).running == s.running,
        grown_at_tail(s.ready, s.sleep_until(task, deadline, now).ready),
        forall|u: usize| s.pending(u) ==> #[trigger] s.sleep_until(task, deadline, now).pending(u),
        completed_stay(s, s.sleep_until(task, deadline, now)),
        all_after(s.sleeping, now) ==> all_after(s.sleep_until(task, deadline, now).sleeping, now),
{
    if s.has_task(task) {
        let marked = s.with_wake_time(task, Some(deadline));
        lemma_with_wake_time(s, task, Some(deadline));
        lemma_push_task(marked, task, now);
        let end = marked.push_task(task, now);
        assert forall|u: usize| s.pending(u) implies #[trigger] end.pending(u) by {
            assert(marked.pending(u));
        }
        assert(completed_stay(s, marked));
    }
}

/// Requests for timers taken up in a row keep what one of them keeps.
pub proof fn lemma_sleep_all(s: ExecutorView, task: usize, deadlines: Seq<u64>, now: u64)
    requires
        s.wf(),
    ensures
        s.sleep_all(task, deadlines, now).wf(),
        s.sleep_all(task, deadlines, now).tasks.len() == s.tasks.len(),
        s.sleep_all(task, deadlines, now).running == s.running,
        grown_at_tail(s.ready, s.sleep_all(task, deadlines, now).ready),
        forall|u: usize| s.pending(u) ==> #[trigger] s.sleep_all(task, deadlines, now).pending(u),
        completed_stay(s, s.sleep_all(task, deadlines, now)),
        all_after(s.sleeping, now) ==> all_after(s.sleep_all(task, deadlines, now).sleeping, now),
    decreases deadlines.len(),
{
    if deadlines.len() > 0 {
        let mid = s.sleep_all(task, deadlines.drop_last(), now);
        lemma_sleep_all(s, task, deadlines.drop_last(), now);
        lemma_sleep_until(mid, task, deadlines.last(), now);
        let end = mid.sleep_until(task, deadlines.last(), now);
        assert forall|u: usize| s.pending(u) implies #[trigger] end.pending(u) by {
            assert(mid.pending(u));
        }
        assert(completed_stay(s, mid));
    }
}

/// Firing the due timers keeps the state well formed and keeps all that a
/// wake signal keeps; no timer that is due stays behind.
pub proof fn lemma_wake_expired(s: ExecutorView, now: u64)
    requires
        s.wf(),
    ensures
        s.wake_expired(now).wf(),
        s.wake_expired(now).tasks.len() == s.tasks.len(),
        s.wake_expired(now).running == s.running,
        grown_at_tail(s.ready, s.wake_expired(now).ready),
        forall|u: usize| s.pending(u) ==> #[trigger] s.wake_expired(now).pending(u),
        completed_stay(s, s.wake_expired(now)),
        all_after(s.wake_expired(now).sleeping, now),
{
    let woken = s.notify_all(due(s.sleeping, now));
    let n = s.wake_expired(now);
    lemma_notify_all(s, due(s.sleeping, now));
    lemma_timers_split(s.sleeping, now);
    assert forall|i: int| 0 <= i < n.sleeping.len() implies n.has_task(
        (#[trigger] n.sleeping[i]).task,
    ) by {
        let timer = n.sleeping[i];
        assert(s.sleeping.contains(timer));
        let k = choose|k: int| 0 <= k < s.sleeping.len() && s.sleeping[k] == timer;
        assert(s.has_task(s.sleeping[k].task));
    }
    assert forall|t: usize| n.has_task(t) implies (#[trigger] n.ready.contains(t) <==> n.queued(
        t,
    )) by {
        assert(woken.ready.contains(t) <==> woken.queued(t));
    }
    assert forall|u: usize| s.pending(u) implies #[trigger] n.pending(u) by {
        assert(woken.pending(u));
    }
    assert(completed_stay(s, woken));
}

} // verus!
