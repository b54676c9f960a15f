//! The unit of schedulable work: a computation, its run state and the
//! protocol by which wake signals and the one resumer share it.
//!
//! A task is driven forward by one resumer and may be signalled by any
//! number of notifiers. The run state makes the two roles safe together: a
//! signal that arrives while the task is being resumed is recorded in the
//! state, and the resumer puts the task back in the ready set itself when
//! the step ends.

use vstd::prelude::*;

verus! {

/// Where a task stands in its life.
#[derive(Clone, Copy, Debug, PartialEq, Eq, Structural)]
pub enum RunState {
    /// Suspended with no wake signal pending.
    Idle,
    /// Being resumed, with no wake signal since the step began.
    Running,
    /// A wake signal is pending: the task waits in the ready set, or it is
    /// being resumed and will be put back there when the step ends.
    Notified,
    /// The computation has finished; the task is never resumed again.
    Complete,
}

/// What one resume step came to.
#[derive(Clone, Copy, Debug, PartialEq, Eq, Structural)]
pub enum Resumed {
    /// The computation finished.
    Complete,
    /// The computation has to wait for a wake signal.
    Suspended,
}

/// A misuse of the resume protocol.
#[derive(Clone, Copy, Debug, PartialEq, Eq, Structural)]
pub enum TaskError {
    /// A resume was begun on a task that is being resumed or has completed,
    /// or ended on a task that is not being resumed.
    ProtocolViolation,
}

/// What a computation reports when it is resumed.
#[derive(Debug, PartialEq, Eq)]
pub enum Poll<T> {
    /// It finished with this result.
    Ready(T),
    /// It cannot go on yet.
    Pending,
}

impl RunState {
    /// The state after a wake signal, and whether the notifier has to put
    /// the task in the ready set. Signals on a task that is already notified
    /// or complete change nothing.
    pub open spec fn notify(self) -> (RunState, bool) {
        match self {
            RunState::Idle => (RunState::Notified, true),
            RunState::Running => (RunState::Notified, false),
            RunState::Notified => (RunState::Notified, false),
            RunState::Complete => (RunState::Complete, false),
        }
    }

    /// The state after a resume step has begun; a violation on a task that
    /// is being resumed or has completed.
    pub open spec fn begin_resume(self) -> Result<RunState, TaskError> {
        match self {
            RunState::Idle => Ok(RunState::Running),
            RunState::Notified => Ok(RunState::Running),
            RunState::Running => Err(TaskError::ProtocolViolation),
            RunState::Complete => Err(TaskError::ProtocolViolation),
        }
    }

    /// The state after a resume step has ended with `outcome`, and whether
    /// the resumer has to put the task back in the ready set; a violation on
    /// a task on which no step was begun. A finished computation completes
    /// the task. A suspended one goes idle, unless a signal arrived during
    /// the step: then the task stays notified and goes back to the ready set.
    pub open spec fn finish_resume(self, outcome: Resumed) -> Result<(RunState, bool), TaskError> {
        match self {
            RunState::Running => match outcome {
                Resumed::Complete => Ok((RunState::Complete, false)),
                Resumed::Suspended => Ok((RunState::Idle, false)),
            },
            RunState::Notified => match outcome {
                Resumed::Complete => Ok((RunState::Complete, false)),
                Resumed::Suspended => Ok((RunState::Notified, true)),
            },
            RunState::Idle => Err(TaskError::ProtocolViolation),
            RunState::Complete => Err(TaskError::ProtocolViolation),
        }
    }
}

/// Any number of wake signals in a row are worth one: the first decides the
/// state and whether to enqueue, the others change nothing and never ask for
/// a second place in the ready set.
pub proof fn lemma_notify_coalesces(state: RunState)
    ensures
        state.notify().0.notify().0 == state.notify().0,
        !state.notify().0.notify().1,
        state != RunState::Complete ==> state.notify().0 == RunState::Notified,
{
}

/// A wake signal that arrives during a resume step is not lost: when the
/// step ends suspended, the resumer is told to put the task back in the
/// ready set.
pub proof fn lemma_signal_during_step_requeues(state: RunState)
    requires
        state.begin_resume() is Ok,
    ensures
        state.begin_resume()->Ok_0.notify().0.finish_resume(Resumed::Suspended) == Ok::<
            (RunState, bool),
            TaskError,
        >((RunState::Notified, true)),
        state.begin_resume()->Ok_0.finish_resume(Resumed::Suspended) == Ok::<
            (RunState, bool),
            TaskError,
        >((RunState::Idle, false)),
{
}

/// What a resumed computation is handed: the time of the step, the identity
/// of its task, and a place to leave requests for the scheduler, which takes
/// them up when the step returns.
pub struct Context {
    now: u64,
    task: usize,
    timers: Vec<u64>,
    wakes: Vec<usize>,
}

/// A context as a mathematical value.
#[verifier::ext_equal]
pub struct ContextView {
    pub now: u64,
    pub task: usize,
    pub timers: Seq<u64>,
    pub wakes: Seq<usize>,
}

impl View for Context {
    type V = ContextView;

    closed spec fn view(&self) -> ContextView {
        ContextView { now: self.now, task: self.task, timers: self.timers@, wakes: self.wakes@ }
    }
}

impl Context {
    /// A context without requests for a step of `task` at time `now`.
    pub fn new(now: u64, task: usize) -> (cx: Context)
        ensures
            cx@ == (ContextView { now, task, timers: Seq::empty(), wakes: Seq::empty() }),
    {
        Context { now, task, timers: Vec::new(), wakes: Vec::new() }
    }

    /// The time of the step.
    pub fn now(&self) -> (t: u64)
        ensures
            t == self@.now,
    {
        self.now
    }

    /// The task that is being resumed.
    pub fn task(&self) -> (t: usize)
        ensures
            t == self@.task,
    {
        self.task
    }

    /// Asks that the task being resumed be woken no earlier than `deadline`.
    pub fn sleep_until(&mut self, deadline: u64)
        ensures
            final(self)@ == (ContextView {
                timers: old(self)@.timers.push(deadline),
                ..old(self)@
            }),
    {
        self.timers.push(deadline);
    }

    /// Asks that `task` be notified.
    pub fn wake(&mut self, task: usize)
        ensures
            final(self)@ == (ContextView { wakes: old(self)@.wakes.push(task), ..old(self)@ }),
    {
        self.wakes.push(task);
    }

    /// Asks that the task being resumed be notified: it will be resumed
    /// again although it suspends.
    pub fn wake_by_ref(&mut self)
        ensures
            final(self)@ == (ContextView {
                wakes: old(self)@.wakes.push(old(self)@.task),
                ..old(self)@
            }),
    {
        self.wakes.push(self.task);
    }

    /// The deadlines asked for so far, in order.
    pub fn timers(&self) -> (t: &Vec<u64>)
        ensures
            t@ == self@.timers,
    {
        &self.timers
    }

    /// The tasks whose notification was asked for so far, in order.
    pub fn wakes(&self) -> (w: &Vec<usize>)
        ensures
            w@ == self@.wakes,
    {
        &self.wakes
    }
}

/// A suspendable unit of work. One call of `resume` drives it forward
/// until it finishes or has to wait; before it reports `Pending` it has
/// arranged for a wake signal, through the context or through a primitive
/// that keeps its task's identity. A computation that can fail finishes
/// with the failure as its result: the scheduler drops its task like any
/// other that has finished and goes on with the rest.
pub trait Computation {
    /// What the computation yields when it finishes.
    type Output;

    /// Makes one step.
    fn resume(&mut self, cx: &mut Context) -> Poll<Self::Output>;
}

/// The scheduling data of a task as a mathematical value.
pub struct TaskView {
    pub state: RunState,
    pub wake_time: Option<u64>,
}

/// A computation together with its scheduling data: the run state and the
/// earliest time at which it asked to be resumed, if it did.
pub struct Task<C> {
    computation: C,
    wake_time: Option<u64>,
    state: RunState,
}

impl<C> View for Task<C> {
    type V = TaskView;

    closed spec fn view(&self) -> TaskView {
        TaskView { state: self.state, wake_time: self.wake_time }
    }
}

impl<C> Task<C> {
    /// The computation that the task wraps.
    pub closed spec fn computation(&self) -> C {
        self.computation
    }

    /// Wraps a computation in an idle task.
    pub fn new(computation: C) -> (task: Task<C>)
        ensures
            task@ == (TaskView { state: RunState::Idle, wake_time: None }),
            task.computation() == computation,
    {
        Task { computation, wake_time: None, state: RunState::Idle }
    }

    /// The run state.
    pub fn state(&self) -> (s: RunState)
        ensures
            s == self@.state,
    {
        self.state
    }

    /// The earliest time at which the task asked to be resumed.
    pub fn wake_time(&self) -> (t: Option<u64>)
        ensures
            t == self@.wake_time,
    {
        self.wake_time
    }

    /// Records the earliest time at which the task is to be resumed.
    pub fn set_wake_time(&mut self, wake_time: Option<u64>)
        ensures
            final(self)@ == (TaskView { wake_time, ..old(self)@ }),
            final(self).computation() == old(self).computation(),
    {
        self.wake_time = wake_time;
    }

    /// Delivers a wake signal. Returns whether the caller has to put the
    /// task in the ready set: only for an idle task. A running task takes
    /// note and is put back by its resumer.
    pub fn notify(&mut self) -> (enqueue: bool)
        ensures
            final(self)@.state == old(self)@.state.notify().0,
            final(self)@.wake_time == old(self)@.wake_time,
            final(self).computation() == old(self).computation(),
            enqueue == old(self)@.state.notify().1,
    {
        match self.state {
            RunState::Idle => {
                self.state = RunState::Notified;
                true
            },
            RunState::Running => {
                self.state = RunState::Notified;
                false
            },
            RunState::Notified => false,
            RunState::Complete => false,
        }
    }

    /// Begins a resume step: an idle or notified task becomes running and
    /// its wake time is cleared. Any other task is left as it is and the
    /// call is a violation.
    pub fn begin_resume(&mut self) -> (r: Result<(), TaskError>)
        ensures
            final(self).computation() == old(self).computation(),
            match old(self)@.state.begin_resume() {
                Ok(s) => r is Ok && final(self)@ == (TaskView { state: s, wake_time: None }),
                Err(e) => r == Err::<(), TaskError>(e) && final(self)@ == old(self)@,
            },
    {
        match self.state {
            RunState::Idle | RunState::Notified => {
                self.state = RunState::Running;
                self.wake_time = None;
                Ok(())
            },
            RunState::Running | RunState::Complete => Err(TaskError::ProtocolViolation),
        }
    }

    /// Ends a resume step with `outcome`. Returns whether the caller has to
    /// put the task back in the ready set, which is so when a wake signal
    /// arrived during a step that ends suspended. A violation, with the task
    /// left as it is, when no step was begun.
    pub fn finish_resume(&mut self, outcome: Resumed) -> (r: Result<bool, TaskError>)
        ensures
            final(self).computation() == old(self).computation(),
            match old(self)@.state.finish_resume(outcome) {
                Ok((s, requeue)) => r == Ok::<bool, TaskError>(requeue) && final(self)@ == (
                TaskView { state: s, ..old(self)@ }),
                Err(e) => r == Err::<bool, TaskError>(e) && final(self)@ == old(self)@,
            },
    {
        match self.state {
            RunState::Running => {
                match outcome {
                    Resumed::Complete => {
                        self.state = RunState::Complete;
                    },
                    Resumed::Suspended => {
                        self.state = RunState::Idle;
                    },
                }
                Ok(false)
            },
            RunState::Notified => {
                match outcome {
                    Resumed::Complete => {
                        self.state = RunState::Complete;
                        Ok(false)
                    },
                    Resumed::Suspended => Ok(true),
                }
            },
            RunState::Idle | RunState::Complete => Err(TaskError::ProtocolViolation),
        }
    }

    /// The computation, for whoever supplies it with input between steps.
    /// The scheduling data cannot be reached through it.
    pub fn computation_mut(&mut self) -> (c: &mut C)
        ensures
            *c == old(self).computation(),
            final(self).computation() == *final(c),
            final(self)@ == old(self)@,
    {
        &mut self.computation
    }

    /// Lets the computation make one step. The scheduling data is not
    /// touched: the caller brackets the call with `begin_resume` and
    /// `finish_resume`. What is returned, what becomes of the computation
    /// and what is left in the context are what one call of the
    /// computation's own `resume` yields on the computation and the context
    /// as they were: whatever `resume` ensures for `C` holds of them.
    pub fn poll(&mut self, cx: &mut Context) -> (r: Poll<C::Output>) where C: Computation
        ensures
            final(self)@ == old(self)@,
            exists|step: &mut C, handed: &mut Context|
                *step == old(self).computation() && *final(step) == final(self).computation()
                    && *handed == *old(cx) && *final(handed) == *final(cx)
                    && #[trigger] call_ensures(C::resume, (step, handed), r),
    {
        self.computation.resume(cx)
    }
}

} // verus!
