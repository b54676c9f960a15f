//! Histories of scheduler steps and what holds of all of them: no wake
//! signal is lost, resume steps exclude one another, and the ready set is
//! first in, first out.

use crate::scheduler::{
    completed_stay, grown_at_tail, lemma_begin_resume, lemma_finish_resume, lemma_notify,
    lemma_sleep_until, lemma_spawn, lemma_wake_expired, ExecutorView,
};
use crate::task::{Resumed, RunState, TaskError};
use vstd::prelude::*;

verus! {

/// One step of a scheduler, for statements about histories.
pub enum Event {
    /// A computation is submitted.
    Spawn,
    /// A wake signal for a task.
    Notify(usize),
    /// The resumer takes the head of the ready set and begins a step.
    BeginResume,
    /// The step in progress ends.
    FinishResume(Resumed),
    /// A task asks, at time `now`, to be resumed no earlier than `deadline`.
    SleepUntil { task: usize, deadline: u64, now: u64 },
    /// The timers due at `now` fire.
    WakeExpired { now: u64 },
}

impl ExecutorView {
    /// The state after one step.
    pub open spec fn step(self, event: Event) -> ExecutorView {
        match event {
            Event::Spawn => self.spawn().0,
            Event::Notify(task) => self.notify(task),
            Event::BeginResume => self.begin_resume().0,
            Event::FinishResume(outcome) => self.finish_resume(outcome).0,
            Event::SleepUntil { task, deadline, now } => self.sleep_until(task, deadline, now),
            Event::WakeExpired { now } => self.wake_expired(now),
        }
    }

    /// The state after the steps of `events`, in order.
    pub open spec fn run(self, events: Seq<Event>) -> ExecutorView
        decreases events.len(),
    {
        if events.len() == 0 {
            self
        } else {
            self.run(events.drop_last()).step(events.last())
        }
    }

    /// Whether `event`, applied to this state, begins a resume step of `task`.
    pub open spec fn serves(self, event: Event, task: usize) -> bool {
        event is BeginResume && self.begin_resume().1 == Ok::<Option<usize>, TaskError>(
            Some(task),
        )
    }

    /// Whether `event`, applied to this state, ends a step of `task` with
    /// the computation finished.
    pub open spec fn completes(self, event: Event, task: usize) -> bool {
        event == Event::FinishResume(Resumed::Complete) && self.running == Some(task)
    }

    /// The state reached after the first `n` steps of `events`.
    pub open spec fn state_at(self, events: Seq<Event>, n: int) -> ExecutorView {
        self.run(events.take(n))
    }

    /// Whether step `j` of `events`, in a history that starts from this
    /// state, begins a resume step of `task` or ends one with the
    /// computation finished.
    pub open spec fn served_at(self, events: Seq<Event>, j: int, task: usize) -> bool {
        &&& 0 <= j < events.len()
        &&& (self.state_at(events, j).serves(events[j], task) || self.state_at(
            events,
            j,
        ).completes(events[j], task))
    }
}

/// Every step keeps the state well formed. No step removes a task, and a
/// completed task stays completed: it is never resumed again.
pub proof fn lemma_step(s: ExecutorView, event: Event)
    requires
        s.wf(),
    ensures
        s.step(event).wf(),
        s.tasks.len() <= s.step(event).tasks.len() <= s.tasks.len() + 1,
        completed_stay(s, s.step(event)),
        forall|u: usize|
            s.has_task(u) && s.state_of(u) == RunState::Complete ==> !s.serves(event, u),
{
    match event {
        Event::Spawn => {
            lemma_spawn(s);
        },
        Event::Notify(task) => {
            lemma_notify(s, task);
        },
        Event::BeginResume => {
            lemma_begin_resume(s);
        },
        Event::FinishResume(outcome) => {
            lemma_finish_resume(s, outcome);
        },
        Event::SleepUntil { task, deadline, now } => {
            lemma_sleep_until(s, task, deadline, now);
        },
        Event::WakeExpired { now } => {
            lemma_wake_expired(s, now);
        },
    }
}

/// Every history keeps the state well formed, and what one step keeps.
pub proof fn lemma_run(s: ExecutorView, events: Seq<Event>)
    requires
        s.wf(),
    ensures
        s.run(events).wf(),
        s.tasks.len() <= s.run(events).tasks.len() <= s.tasks.len() + events.len(),
        completed_stay(s, s.run(events)),
    decreases events.len(),
{
    if events.len() > 0 {
        let mid = s.run(events.drop_last());
        lemma_run(s, events.drop_last());
        lemma_step(mid, events.last());
        assert(completed_stay(s, mid));
    }
}

/// A wake signal makes itself pending: after a task that is not complete
/// has been notified, it stands in the ready set, or it is being resumed and
/// has taken note.
pub proof fn lemma_notify_makes_pending(s: ExecutorView, task: usize)
    requires
        s.wf(),
        s.has_task(task),
        s.state_of(task) != RunState::Complete,
    ensures
        s.notify(task).pending(task),
        s.notify(task).state_of(task) == RunState::Notified,
{
    lemma_notify(s, task);
}

/// A pending wake signal stays pending through every step but two: the one
/// that begins a resume step of its task, and the one that ends a step of
/// its task with the computation finished. In particular a signal taken
/// note of during a step puts the task back in the ready set when the step
/// ends suspended.
pub proof fn lemma_pending_until_served(s: ExecutorView, event: Event, task: usize)
    requires
        s.wf(),
        s.pending(task),
    ensures
        s.step(event).pending(task) || s.serves(event, task) || s.completes(event, task),
{
    let n = s.step(event);
    match event {
        Event::Spawn => {
            lemma_spawn(s);
            if s.ready.contains(task) {
                let k = choose|k: int| 0 <= k < s.ready.len() && s.ready[k] == task;
                assert(n.ready[k] == task);
            } else {
                assert(n.tasks[task as int] == s.tasks[task as int]);
            }
        },
        Event::Notify(other) => {
            lemma_notify(s, other);
        },
        Event::BeginResume => {
            lemma_begin_resume(s);
            if s.running is None && s.ready.len() > 0 && s.ready[0] != task {
                let k = choose|k: int| 0 <= k < s.ready.len() && s.ready[k] == task;
                assert(n.ready[k - 1] == task);
            }
        },
        Event::FinishResume(outcome) => {
            lemma_finish_resume(s, outcome);
            if s.ready.contains(task) {
                let k = choose|k: int| 0 <= k < s.ready.len() && s.ready[k] == task;
                assert(n.ready[k] == task);
            } else if outcome == Resumed::Suspended {
                assert(n.ready[s.ready.len() as int] == task);
            }
        },
        Event::SleepUntil { task: sleeper, deadline, now } => {
            lemma_sleep_until(s, sleeper, deadline, now);
        },
        Event::WakeExpired { now } => {
            lemma_wake_expired(s, now);
        },
    }
}

/// The ready set is first in, first out. A step that begins a resume takes
/// the head and moves every other entry up by one place; every other step
/// leaves the entries where they are and may add at the tail. So a task at
/// place `k` of the ready set is resumed by the step that begins a resume
/// for the `k`-th time from then on, counted from zero.
pub proof fn lemma_ready_set_is_fifo(s: ExecutorView, event: Event)
    requires
        s.wf(),
    ensures
        event is BeginResume && s.running is None && s.ready.len() > 0 ==> s.serves(
            event,
            s.ready[0],
        ) && s.step(event).ready == s.ready.drop_first(),
        !(event is BeginResume && s.running is None && s.ready.len() > 0) ==> grown_at_tail(
            s.ready,
            s.step(event).ready,
        ),
{
    match event {
        Event::Spawn => {
            lemma_spawn(s);
        },
        Event::Notify(task) => {
            lemma_notify(s, task);
        },
        Event::BeginResume => {
            lemma_begin_resume(s);
        },
        Event::FinishResume(outcome) => {
            lemma_finish_resume(s, outcome);
        },
        Event::SleepUntil { task, deadline, now } => {
            lemma_sleep_until(s, task, deadline, now);
        },
        Event::WakeExpired { now } => {
            lemma_wake_expired(s, now);
        },
    }
}

/// No wake signal is lost. Take any history and any of its steps that
/// notifies a task that is not complete at that point, whether the task is
/// then idle, waiting in the ready set or in the middle of a resume step.
/// At the end of the history the signal is still pending, or a later step
/// of the history began a resume step of the task, or ended one with the
/// computation finished. So when the history ends with an empty ready set
/// and no step in progress, the task was resumed after the signal unless it
/// finished.
pub proof fn lemma_no_lost_wakeup(s: ExecutorView, events: Seq<Event>, i: int, task: usize)
    requires
        s.wf(),
        0 <= i < events.len(),
        events[i] == Event::Notify(task),
        s.state_at(events, i).has_task(task),
        s.state_at(events, i).state_of(task) != RunState::Complete,
    ensures
        s.run(events).pending(task) || exists|j: int|
            i < j < events.len() && #[trigger] s.served_at(events, j, task),
        s.run(events).ready.len() == 0 && s.run(events).running is None ==> exists|j: int|
            i < j < events.len() && #[trigger] s.served_at(events, j, task),
    decreases events.len(),
{
    let n = events.len() as int;
    let before = events.drop_last();
    let mid = s.run(before);
    assert(events.take(n - 1) =~= before);
    lemma_run(s, before);
    if i == n - 1 {
        lemma_notify_makes_pending(mid, task);
    } else {
        assert(before.take(i) =~= events.take(i));
        lemma_no_lost_wakeup(s, before, i, task);
        if mid.pending(task) {
            lemma_pending_until_served(mid, events.last(), task);
            if !s.run(events).pending(task) {
                assert(s.served_at(events, n - 1, task));
            }
        } else {
            let j = choose|j: int| i < j < before.len() && #[trigger] s.served_at(before, j, task);
            assert(before.take(j) =~= events.take(j));
            assert(s.served_at(events, j, task));
        }
    }
}

/// Resume steps exclude one another. While a step is in progress, and
/// whatever is submitted, notified or scheduled in the meantime, the task
/// being resumed stays the same, it stands nowhere in the ready set, and
/// every attempt to begin another step is a violation that changes
/// nothing. A new step can begin only after the one in progress has ended.
pub proof fn lemma_resume_is_exclusive(s: ExecutorView, events: Seq<Event>)
    requires
        s.wf(),
        s.running is Some,
        forall|k: int| 0 <= k < events.len() ==> !(#[trigger] events[k] is FinishResume),
    ensures
        s.run(events).running == s.running,
        !s.run(events).ready.contains(s.running->0),
        s.run(events).begin_resume().1 == Err::<Option<usize>, TaskError>(
            TaskError::ProtocolViolation,
        ),
        s.run(events).begin_resume().0 == s.run(events),
    decreases events.len(),
{
    lemma_run(s, events);
    if events.len() > 0 {
        let mid = s.run(events.drop_last());
        lemma_run(s, events.drop_last());
        lemma_resume_is_exclusive(s, events.drop_last());
        assert(!(events[events.len() - 1] is FinishResume));
        match events.last() {
            Event::Spawn => {
                lemma_spawn(mid);
            },
            Event::Notify(task) => {
                lemma_notify(mid, task);
            },
            Event::BeginResume => {},
            Event::FinishResume(outcome) => {},
            Event::SleepUntil { task, deadline, now } => {
                lemma_sleep_until(mid, task, deadline, now);
            },
            Event::WakeExpired { now } => {
                lemma_wake_expired(mid, now);
            },
        }
    }
    let end = s.run(events);
    let task = s.running->0;
    assert(end.ready.contains(task) <==> end.queued(task));
}

} // verus!
