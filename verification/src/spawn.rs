//! The executor: it owns the tasks, the ready set and the timers, and
//! drives the computations to completion on one thread.
//!
//! Time is a number that the caller supplies with each pass, so a pass is a
//! function of the state and the clock reading. The operations below are
//! the steps of the scheduler model; `tick` and `run` compose them around
//! the calls into the computations.

use crate::pass::StepReport;
use crate::scheduler::{
    all_after, completed_stay, due, earliest, grown_at_tail, is_earliest, lemma_begin_resume,
    lemma_earliest_unique, lemma_finish_resume, lemma_notify, lemma_notify_all, lemma_push_task,
    lemma_sleep_all, lemma_spawn, lemma_transitive, lemma_wake_expired, lemma_with_wake_time,
    not_due, ExecutorView, Timer,
};
use crate::task::{
    Computation, Context, ContextView, Poll, Resumed, RunState, Task, TaskError, TaskView,
};
use std::collections::VecDeque;
use vstd::prelude::*;

verus! {

/// A single-threaded cooperative scheduler of computations of type `C`.
/// Tasks are named by the order of their submission, counted from zero.
pub struct Executor<C> {
    tasks: Vec<Task<C>>,
    ready_tasks: VecDeque<usize>,
    sleeping_tasks: Vec<Timer>,
    running: Option<usize>,
}

impl<C> View for Executor<C> {
    type V = ExecutorView;

    closed spec fn view(&self) -> ExecutorView {
        ExecutorView {
            tasks: self.tasks@.map_values(|t: Task<C>| t@),
            ready: self.ready_tasks@,
            sleeping: self.sleeping_tasks@,
            running: self.running,
        }
    }
}

impl<C> Executor<C> {
    /// What holds of every executor that this module hands out: its model
    /// is a well-formed scheduler state.
    pub open spec fn wf(&self) -> bool {
        self@.wf()
    }

    /// The computations of the tasks, by identifier.
    pub closed spec fn computations(&self) -> Seq<C> {
        self.tasks@.map_values(|t: Task<C>| t.computation())
    }

    /// There is one computation for each task.
    pub proof fn lemma_computations_len(&self)
        ensures
            self.computations().len() == self@.tasks.len(),
    {
    }

    /// An executor without tasks.
    pub fn new() -> (e: Executor<C>)
        ensures
            e.wf(),
            e@ == ExecutorView::init(),
            e.computations() == Seq::<C>::empty(),
    {
        let e = Executor {
            tasks: Vec::new(),
            ready_tasks: VecDeque::new(),
            sleeping_tasks: Vec::new(),
            running: None,
        };
        assert(e@.tasks =~= Seq::<TaskView>::empty());
        assert(e.computations() =~= Seq::<C>::empty());
        e
    }

    /// The number of tasks ever submitted.
    pub fn task_count(&self) -> (n: usize)
        ensures
            n == self@.tasks.len(),
    {
        self.tasks.len()
    }

    /// The run state of `task`, if it names a task.
    pub fn state_of(&self, task: usize) -> (s: Option<RunState>)
        ensures
            s == if self@.has_task(task) {
                Some(self@.state_of(task))
            } else {
                None
            },
    {
        if task < self.tasks.len() {
            Some(self.tasks[task].state())
        } else {
            None
        }
    }

    /// The wake time of `task`, if it names a task that has one.
    pub fn wake_time_of(&self, task: usize) -> (t: Option<u64>)
        ensures
            t == if self@.has_task(task) {
                self@.tasks[task as int].wake_time
            } else {
                None
            },
    {
        if task < self.tasks.len() {
            self.tasks[task].wake_time()
        } else {
            None
        }
    }

    /// The computation of `task`, if it names a task, for whoever supplies
    /// it with input between passes. The scheduler's state cannot be reached
    /// through it.
    pub fn computation_mut(&mut self, task: usize) -> (c: Option<&mut C>)
        ensures
            c is Some <==> old(self)@.has_task(task),
            final(self)@ == old(self)@,
            match c {
                Some(c) => {
                    &&& *c == old(self).computations()[task as int]
                    &&& final(self).computations() == old(self).computations().update(
                        task as int,
                        *final(c),
                    )
                },
                None => final(self).computations() == old(self).computations(),
            },
    {
        if task < self.tasks.len() {
            Some(self.tasks[task].computation_mut())
        } else {
            None
        }
    }

    /// The number of tasks in the ready set.
    pub fn ready_count(&self) -> (n: usize)
        ensures
            n == self@.ready.len(),
    {
        self.ready_tasks.len()
    }

    /// The number of timers that have not fired.
    pub fn sleeping_count(&self) -> (n: usize)
        ensures
            n == self@.sleeping.len(),
    {
        self.sleeping_tasks.len()
    }

    /// The task that is being resumed, if one is.
    pub fn running(&self) -> (t: Option<usize>)
        ensures
            t == self@.running,
    {
        self.running
    }

    /// Whether the ready set and the timers are both empty, which ends the
    /// run loop.
    pub fn is_idle(&self) -> (idle: bool)
        ensures
            idle == self@.is_idle(),
    {
        self.ready_tasks.len() == 0 && self.sleeping_tasks.len() == 0
    }

    /// Submits a computation: wraps it in a task, which is notified at once
    /// and so joins the ready set. Returns the task's identifier.
    pub fn spawn(&mut self, computation: C) -> (id: usize)
        requires
            old(self).wf(),
        ensures
            final(self).wf(),
            final(self)@ == old(self)@.spawn().0,
            id == old(self)@.spawn().1,
            id == old(self)@.tasks.len(),
            final(self)@.ready == old(self)@.ready.push(id),
            final(self).computations() == old(self).computations().push(computation),
    {
        let id = self.tasks.len();
        let mut task = Task::new(computation);
        let _ = task.notify();
        self.tasks.push(task);
        self.ready_tasks.push_back(id);
        proof {
            assert(self.tasks@.len() == id + 1 && self.tasks.len() == self.tasks@.len());
            lemma_spawn(old(self)@);
            assert(self@.tasks =~= old(self)@.spawn().0.tasks);
            assert(self@.ready =~= old(self)@.spawn().0.ready);
            assert(self.computations() =~= old(self).computations().push(computation));
        }
        id
    }

    /// Delivers a wake signal to `task`. May be called at any time and any
    /// number of times, also while the task is being resumed. An idle task
    /// becomes notified and joins the ready set; a running task becomes
    /// notified and is put back by `finish_resume`; a notified or completed
    /// task, or an identifier that names no task, is left alone.
    pub fn notify(&mut self, task: usize)
        requires
            old(self).wf(),
        ensures
            final(self).wf(),
            final(self)@ == old(self)@.notify(task),
            final(self).computations() == old(self).computations(),
    {
        proof {
            lemma_notify(self@, task);
        }
        if task < self.tasks.len() {
            let enqueue = self.tasks[task].notify();
            if enqueue {
                self.ready_tasks.push_back(task);
            }
            assert(self@.tasks =~= old(self)@.notify(task).tasks);
        }
    }

    /// Takes the next task to resume. A violation while a resume step is in
    /// progress. Otherwise the head of the ready set, which becomes the
    /// running task, or nothing when the ready set is empty.
    pub fn begin_resume(&mut self) -> (r: Result<Option<usize>, TaskError>)
        requires
            old(self).wf(),
        ensures
            final(self).wf(),
            final(self)@ == old(self)@.begin_resume().0,
            final(self).computations() == old(self).computations(),
            r == old(self)@.begin_resume().1,
            r is Err <==> old(self)@.running is Some,
            r == Ok::<Option<usize>, TaskError>(None) <==> old(self)@.running is None && old(
                self,
            )@.ready.len() == 0,
    {
        proof {
            lemma_begin_resume(self@);
        }
        if self.running.is_some() {
            return Err(TaskError::ProtocolViolation);
        }
        if self.ready_tasks.len() == 0 {
            return Ok(None);
        }
        let task = self.ready_tasks[0];
        if task >= self.tasks.len() {
            return Err(TaskError::ProtocolViolation);
        }
        match self.tasks[task].begin_resume() {
            Ok(()) => {
                let _ = self.ready_tasks.pop_front();
                self.running = Some(task);
                assert(self@.tasks =~= old(self)@.begin_resume().0.tasks);
                assert(self@.ready =~= old(self)@.begin_resume().0.ready);
                Ok(Some(task))
            },
            Err(e) => {
                assert(self@.tasks =~= old(self)@.tasks);
                Err(e)
            },
        }
    }

    /// Ends the resume step in progress with what the computation reported.
    /// A violation when no step is in progress. A finished task is complete
    /// for good; a suspended task goes idle, unless a wake signal arrived
    /// during the step: then it goes back to the tail of the ready set, and
    /// the result is `true`.
    pub fn finish_resume(&mut self, outcome: Resumed) -> (r: Result<bool, TaskError>)
        requires
            old(self).wf(),
        ensures
            final(self).wf(),
            final(self)@ == old(self)@.finish_resume(outcome).0,
            final(self).computations() == old(self).computations(),
            r == old(self)@.finish_resume(outcome).1,
            r is Err <==> old(self)@.running is None,
            final(self)@.running is None,
    {
        proof {
            lemma_finish_resume(self@, outcome);
        }
        match self.running {
            None => Err(TaskError::ProtocolViolation),
            Some(task) => {
                if task >= self.tasks.len() {
                    return Err(TaskError::ProtocolViolation);
                }
                match self.tasks[task].finish_resume(outcome) {
                    Ok(requeue) => {
                        if requeue {
                            self.ready_tasks.push_back(task);
                        }
                        self.running = None;
                        assert(self@.tasks =~= old(self)@.finish_resume(outcome).0.tasks);
                        Ok(requeue)
                    },
                    Err(e) => {
                        assert(self@.tasks =~= old(self)@.tasks);
                        Err(e)
                    },
                }
            },
        }
    }
}

impl<C> Executor<C> {
    /// Places `task` where it belongs at time `now`: with a wake time after
    /// `now` a timer is set for it, otherwise it is notified. A completed
    /// task, or an identifier that names no task, is left alone.
    pub fn push_task(&mut self, task: usize, now: u64)
        requires
            old(self).wf(),
        ensures
            final(self).wf(),
            final(self)@ == old(self)@.push_task(task, now),
            final(self).computations() == old(self).computations(),
    {
        proof {
            lemma_push_task(self@, task, now);
        }
        if task >= self.tasks.len() {
            return ;
        }
        match self.tasks[task].state() {
            RunState::Complete => {},
            _ => {
                match self.tasks[task].wake_time() {
                    Some(deadline) => {
                        if deadline > now {
                            self.sleeping_tasks.push(Timer { deadline, task });
                        } else {
                            self.notify(task);
                        }
                    },
                    None => {
                        self.notify(task);
                    },
                }
            },
        }
    }

    /// Takes up the request of `task`, made at time `now`, to be resumed no
    /// earlier than `deadline`: the deadline becomes the task's wake time
    /// and the task is placed by it. A deadline that has passed is a wake
    /// signal.
    pub fn sleep_until(&mut self, task: usize, deadline: u64, now: u64)
        requires
            old(self).wf(),
        ensures
            final(self).wf(),
            final(self)@ == old(self)@.sleep_until(task, deadline, now),
            final(self).computations() == old(self).computations(),
    {
        if task < self.tasks.len() {
            self.tasks[task].set_wake_time(Some(deadline));
            proof {
                lemma_with_wake_time(old(self)@, task, Some(deadline));
                assert(self@.tasks =~= old(self)@.with_wake_time(task, Some(deadline)).tasks);
            }
            self.push_task(task, now);
        }
    }

    /// Fires the timers that are due at `now`: their tasks are notified in
    /// the order in which the timers were set, and the timers are dropped.
    /// Returns how many fired.
    pub fn wake_expired(&mut self, now: u64) -> (fired: usize)
        requires
            old(self).wf(),
        ensures
            final(self).wf(),
            final(self)@ == old(self)@.wake_expired(now),
            final(self).computations() == old(self).computations(),
            fired == due(old(self)@.sleeping, now).len(),
    {
        let ghost start = self@;
        let ghost timers = self@.sleeping;
        let n = self.sleeping_tasks.len();
        let mut kept: Vec<Timer> = Vec::new();
        let mut fired: usize = 0;
        let mut i: usize = 0;
        proof {
            assert(timers.take(0) =~= Seq::<Timer>::empty());
            assert(due(timers.take(0), now) =~= Seq::<usize>::empty());
            assert(not_due(timers.take(0), now) =~= Seq::<Timer>::empty());
        }
        while i < n
            invariant
                start.wf(),
                timers == start.sleeping,
                self.wf(),
                self.computations() == old(self).computations(),
                n == timers.len(),
                i <= n,
                fired <= i,
                self@ == start.notify_all(due(timers.take(i as int), now)),
                kept@ == not_due(timers.take(i as int), now),
                fired == due(timers.take(i as int), now).len(),
            decreases n - i,
        {
            let ghost seen = timers.take(i as int);
            proof {
                lemma_notify_all(start, due(seen, now));
            }
            let timer = self.sleeping_tasks[i];
            proof {
                broadcast use Seq::lemma_filter_push;

                assert(timers.take(i + 1) =~= seen.push(timer));
                if timer.deadline <= now {
                    assert(due(seen.push(timer), now) =~= due(seen, now).push(timer.task));
                    assert(due(seen, now).push(timer.task).drop_last() =~= due(seen, now));
                } else {
                    assert(due(seen.push(timer), now) =~= due(seen, now));
                }
            }
            if timer.deadline <= now {
                self.notify(timer.task);
                fired += 1;
            } else {
                kept.push(timer);
            }
            i += 1;
        }
        proof {
            assert(timers.take(n as int) =~= timers);
            lemma_wake_expired(start, now);
        }
        self.sleeping_tasks = kept;
        fired
    }

    /// The earliest deadline among the timers, if there is a timer.
    pub fn next_deadline(&self) -> (next: Option<u64>)
        ensures
            next == if self@.sleeping.len() > 0 {
                Some(earliest(self@.sleeping))
            } else {
                None
            },
            next matches Some(d) ==> is_earliest(self@.sleeping, d),
    {
        let n = self.sleeping_tasks.len();
        if n == 0 {
            return None;
        }
        let mut best: u64 = self.sleeping_tasks[0].deadline;
        let ghost mut at: int = 0;
        let mut i: usize = 1;
        while i < n
            invariant
                n == self.sleeping_tasks@.len(),
                1 <= i <= n,
                0 <= at < i,
                self.sleeping_tasks@[at].deadline == best,
                forall|j: int| 0 <= j < i ==> best <= (#[trigger] self.sleeping_tasks@[j]).deadline,
            decreases n - i,
        {
            if self.sleeping_tasks[i].deadline < best {
                best = self.sleeping_tasks[i].deadline;
                proof {
                    at = i as int;
                }
            }
            i += 1;
        }
        proof {
            assert(self@.sleeping[at].deadline == best);
            lemma_earliest_unique(self@.sleeping, best);
        }
        Some(best)
    }

    /// How long after `now` the next timer falls due: nothing without a
    /// timer, zero for a timer that is due already.
    pub fn time_to_next(&self, now: u64) -> (wait: Option<u64>)
        ensures
            wait == if self@.sleeping.len() == 0 {
                None
            } else if earliest(self@.sleeping) > now {
                Some((earliest(self@.sleeping) - now) as u64)
            } else {
                Some(0u64)
            },
    {
        match self.next_deadline() {
            Some(deadline) => {
                if deadline > now {
                    Some(deadline - now)
                } else {
                    Some(0)
                }
            },
            None => None,
        }
    }

    /// Takes up what a computation left in its context during a step of
    /// `task` at time `now`: first the wake signals, in order, then the
    /// requests for timers, in order.
    pub fn absorb(&mut self, task: usize, cx: &Context, now: u64)
        requires
            old(self).wf(),
        ensures
            final(self).wf(),
            final(self)@ == old(self)@.notify_all(cx@.wakes).sleep_all(task, cx@.timers, now),
            final(self).computations() == old(self).computations(),
    {
        let ghost start = self@;
        let wakes = cx.wakes();
        let mut i: usize = 0;
        proof {
            assert(wakes@.take(0) =~= Seq::<usize>::empty());
        }
        while i < wakes.len()
            invariant
                start.wf(),
                self.wf(),
                self.computations() == old(self).computations(),
                i <= wakes@.len(),
                self@ == start.notify_all(wakes@.take(i as int)),
            decreases wakes@.len() - i,
        {
            proof {
                assert(wakes@.take(i + 1).drop_last() =~= wakes@.take(i as int));
            }
            self.notify(wakes[i]);
            i += 1;
        }
        let ghost woken = self@;
        let timers = cx.timers();
        let mut j: usize = 0;
        proof {
            assert(wakes@.take(wakes@.len() as int) =~= wakes@);
            assert(timers@.take(0) =~= Seq::<u64>::empty());
        }
        while j < timers.len()
            invariant
                woken.wf(),
                self.wf(),
                self.computations() == old(self).computations(),
                j <= timers@.len(),
                self@ == woken.sleep_all(task, timers@.take(j as int), now),
            decreases timers@.len() - j,
        {
            proof {
                assert(timers@.take(j + 1).drop_last() =~= timers@.take(j as int));
            }
            self.sleep_until(task, timers[j], now);
            j += 1;
        }
        proof {
            assert(timers@.take(timers@.len() as int) =~= timers@);
        }
    }
}

/// What one pass of the run loop did.
#[derive(Debug, PartialEq, Eq)]
pub struct Tick {
    /// The tasks that were resumed, in the order of their resume steps.
    pub resumed: Vec<usize>,
    /// Whether the ready set and the timers are both empty after the pass.
    pub idle: bool,
}

/// Where a bounded run ended.
#[derive(Clone, Copy, Debug, PartialEq, Eq)]
pub struct RunReport {
    /// The number of passes made.
    pub ticks: usize,
    /// The clock at the end: the time at which the next pass would be made.
    pub now: u64,
    /// Whether the ready set and the timers are both empty at the end.
    pub idle: bool,
}

impl<C: Computation> Executor<C> {
    /// One resume step of the head of the ready set at time `now`: begins
    /// the step, lets the computation run, takes up the requests it left and
    /// ends the step with what it reported. Returns the task, or nothing
    /// when the ready set is empty.
    pub fn resume_next(&mut self, now: u64) -> (r: Result<Option<usize>, TaskError>)
        requires
            old(self).wf(),
        ensures
            final(self).wf(),
            r == old(self)@.begin_resume().1,
            r is Err <==> old(self)@.running is Some,
            !(r matches Ok(Some(_))) ==> final(self)@ == old(self)@ && final(self).computations()
                == old(self).computations(),
            r is Ok ==> old(self)@.next_task() == r->Ok_0,
            final(self).computations().len() == old(self).computations().len(),
            forall|t: int|
                0 <= t < old(self).computations().len() && Ok::<Option<usize>, TaskError>(
                    Some(t as usize),
                ) != r ==> #[trigger] final(self).computations()[t] == old(self).computations()[t],
            r matches Ok(Some(task)) ==> {
                &&& exists|report: StepReport|
                    final(self)@ == old(self)@.resume_step(report, now)
                &&& task == old(self)@.ready[0]
                &&& final(self)@.running is None
                &&& grown_at_tail(old(self)@.ready.drop_first(), final(self)@.ready)
                &&& final(self)@.tasks.len() == old(self)@.tasks.len()
                &&& completed_stay(old(self)@, final(self)@)
                &&& final(self)@.state_of(task) != RunState::Running
                &&& all_after(old(self)@.sleeping, now) ==> all_after(final(self)@.sleeping, now)
            },
    {
        let ghost start = self@;
        proof {
            lemma_begin_resume(start);
        }
        let task = match self.begin_resume() {
            Ok(Some(task)) => task,
            Ok(None) => {
                return Ok(None);
            },
            Err(e) => {
                return Err(e);
            },
        };
        let ghost begun = self@;
        let mut cx = Context::new(now, task);
        let polled = self.tasks[task].poll(&mut cx);
        assert(self@.tasks =~= begun.tasks);
        proof {
            lemma_notify_all(begun, cx@.wakes);
            lemma_sleep_all(begun.notify_all(cx@.wakes), task, cx@.timers, now);
        }
        self.absorb(task, &cx, now);
        let ghost taken = self@;
        let outcome = match polled {
            Poll::Ready(_) => Resumed::Complete,
            Poll::Pending => Resumed::Suspended,
        };
        proof {
            lemma_finish_resume(taken, outcome);
            lemma_transitive(begun, begun.notify_all(cx@.wakes), taken);
        }
        let _ = self.finish_resume(outcome);
        proof {
            lemma_transitive(begun, taken, self@);
            lemma_transitive(start, begun, self@);
            let report = StepReport { wakes: cx@.wakes, timers: cx@.timers, outcome };
            assert(self@ == start.resume_step(report, now));
        }
        Ok(Some(task))
    }

    /// One pass of the run loop at time `now`. The timers that are due fire;
    /// then every task that stands in the ready set at that point is resumed
    /// once, in the order of the set. A task that is notified during the
    /// pass joins the tail and waits for the next pass. A violation, with
    /// nothing done, while a resume step is in progress.
    pub fn tick(&mut self, now: u64) -> (r: Result<Tick, TaskError>)
        requires
            old(self).wf(),
        ensures
            final(self).wf(),
            r is Err <==> old(self)@.running is Some,
            r is Err ==> final(self)@ == old(self)@ && final(self).computations() == old(
                self,
            ).computations(),
            final(self).computations().len() == old(self).computations().len(),
            r matches Ok(tick) ==> {
                &&& exists|reports: Seq<StepReport>|
                    old(self)@.pass_admits(reports, now) && final(self)@ == old(self)@.pass(
                        reports,
                        now,
                    )
                &&& tick.resumed@ == old(self)@.wake_expired(now).ready
                &&& forall|t: int|
                    0 <= t < old(self).computations().len() && !tick.resumed@.contains(t as usize)
                        ==> #[trigger] final(self).computations()[t] == old(
                        self,
                    ).computations()[t]
                &&& tick.idle == final(self)@.is_idle()
                &&& final(self)@.running is None
                &&& final(self)@.tasks.len() == old(self)@.tasks.len()
                &&& completed_stay(old(self)@, final(self)@)
                &&& all_after(final(self)@.sleeping, now)
            },
    {
        if self.running.is_some() {
            return Err(TaskError::ProtocolViolation);
        }
        proof {
            lemma_wake_expired(self@, now);
        }
        let _ = self.wake_expired(now);
        let ghost fired = self@;
        let ghost batch = self@.ready;
        let n = self.ready_tasks.len();
        let mut resumed: Vec<usize> = Vec::new();
        let ghost mut reports: Seq<StepReport> = Seq::empty();
        let mut i: usize = 0;
        proof {
            assert(batch.skip(0) =~= batch);
            assert(batch.take(0) =~= Seq::<usize>::empty());
        }
        while i < n
            invariant
                self.wf(),
                self@.running is None,
                self.computations().len() == old(self).computations().len(),
                forall|t: int|
                    0 <= t < old(self).computations().len() && !resumed@.contains(t as usize)
                        ==> #[trigger] self.computations()[t] == old(self).computations()[t],
                reports.len() == i,
                self@ == fired.resume_steps(reports, now),
                n == batch.len(),
                i <= n,
                resumed@ == batch.take(i as int),
                grown_at_tail(batch.skip(i as int), self@.ready),
                self@.tasks.len() == fired.tasks.len(),
                completed_stay(fired, self@),
                all_after(self@.sleeping, now),
            decreases n - i,
        {
            let ghost before = self@;
            let ghost held = self.computations();
            let ghost done = resumed@;
            proof {
                assert(batch.skip(i as int).len() > 0);
                assert(before.ready[0] == batch.skip(i as int)[0]);
                assert(batch.skip(i as int)[0] == batch[i as int]);
            }
            match self.resume_next(now) {
                Ok(Some(task)) => {
                    resumed.push(task);
                    proof {
                        let report = choose|report: StepReport|
                            self@ == before.resume_step(report, now);
                        assert(reports.push(report).drop_last() =~= reports);
                        reports = reports.push(report);
                        let rest = batch.skip(i + 1);
                        assert(batch.take(i + 1) =~= batch.take(i as int).push(task));
                        assert forall|k: int| 0 <= k < rest.len() implies #[trigger] self@.ready[k]
                            == rest[k] by {
                            assert(before.ready.drop_first()[k] == before.ready[k + 1]);
                            assert(before.ready[k + 1] == batch.skip(i as int)[k + 1]);
                        }
                        lemma_transitive(fired, before, self@);
                        assert forall|t: int|
                            0 <= t < old(self).computations().len() && !resumed@.contains(
                                t as usize,
                            ) implies #[trigger] self.computations()[t] == old(
                            self,
                        ).computations()[t] by {
                            assert(resumed@[done.len() as int] == task);
                            if done.contains(t as usize) {
                                let k = choose|k: int| 0 <= k < done.len() && done[k] == t as usize;
                                assert(resumed@[k] == t as usize);
                            }
                            assert(self.computations()[t] == held[t]);
                        }
                    }
                },
                Ok(None) => {},
                Err(_) => {},
            }
            i += 1;
        }
        proof {
            assert(batch.take(n as int) =~= batch);
            lemma_transitive(old(self)@, fired, self@);
            assert(old(self)@.pass_admits(reports, now) && self@ == old(self)@.pass(reports, now));
        }
        Ok(Tick { resumed, idle: self.is_idle() })
    }

    /// Runs passes until the ready set and the timers are both empty, but at
    /// most `max_ticks` of them. The clock starts at `start`, stands still
    /// while tasks are ready, and jumps to the earliest deadline when only
    /// timers are left. A violation, with nothing done, while a resume step
    /// is in progress.
    pub fn run(&mut self, start: u64, max_ticks: usize) -> (r: Result<RunReport, TaskError>)
        requires
            old(self).wf(),
        ensures
            final(self).wf(),
            r is Err <==> old(self)@.running is Some,
            r is Err ==> final(self)@ == old(self)@ && final(self).computations() == old(
                self,
            ).computations(),
            final(self).computations().len() == old(self).computations().len(),
            r matches Ok(report) ==> {
                &&& exists|reports: Seq<Seq<StepReport>>|
                    reports.len() == report.ticks && old(self)@.passes_admitted(start, reports)
                        && old(self)@.passes(start, reports) == (final(self)@, report.now)
                &&& report.idle == final(self)@.is_idle()
                &&& report.ticks <= max_ticks
                &&& !report.idle ==> report.ticks == max_ticks
                &&& old(self)@.is_idle() ==> report.ticks == 0
                &&& report.ticks == 0 ==> final(self)@ == old(self)@ && report.now == start
                    && final(self).computations() == old(self).computations()
                &&& report.now >= start
                &&& final(self)@.running is None
                &&& final(self)@.tasks.len() == old(self)@.tasks.len()
                &&& completed_stay(old(self)@, final(self)@)
            },
    {
        if self.running.is_some() {
            return Err(TaskError::ProtocolViolation);
        }
        let mut now = start;
        let mut ticks: usize = 0;
        let ghost mut reports: Seq<Seq<StepReport>> = Seq::empty();
        while ticks < max_ticks && !self.is_idle()
            invariant
                self.wf(),
                self@.running is None,
                self.computations().len() == old(self).computations().len(),
                ticks == 0 ==> self.computations() == old(self).computations(),
                reports.len() == ticks,
                old(self)@.passes_admitted(start, reports),
                old(self)@.passes(start, reports) == (self@, now),
                ticks <= max_ticks,
                now >= start,
                self@.tasks.len() == old(self)@.tasks.len(),
                completed_stay(old(self)@, self@),
                ticks == 0 ==> self@ == old(self)@ && now == start,
                old(self)@.is_idle() ==> ticks == 0,
            decreases max_ticks - ticks,
        {
            let ghost before = self@;
            let ghost clock = now;
            let _ = self.tick(now);
            proof {
                lemma_transitive(old(self)@, before, self@);
            }
            ticks += 1;
            if self.ready_tasks.len() == 0 {
                match self.next_deadline() {
                    Some(deadline) => {
                        if deadline > now {
                            now = deadline;
                        }
                    },
                    None => {},
                }
            }
            proof {
                let made = choose|made: Seq<StepReport>|
                    before.pass_admits(made, clock) && self@ == before.pass(made, clock);
                assert(reports.push(made).drop_last() =~= reports);
                reports = reports.push(made);
                assert(now == self@.next_time(clock));
            }
        }
        proof {
            assert(reports.len() == ticks && old(self)@.passes_admitted(start, reports) && old(
                self,
            )@.passes(start, reports) == (self@, now));
        }
        Ok(RunReport { ticks, now, idle: self.is_idle() })
    }
}

/// A suspension point that lets its task go on once the time has reached a
/// deadline.
#[derive(Clone, Copy, Debug, PartialEq, Eq, Structural)]
pub struct Sleep {
    pub deadline: u64,
}

impl Computation for Sleep {
    type Output = ();

    /// Finishes when the time of the step has reached the deadline.
    /// Otherwise asks for a timer at the deadline and stays pending; resumed
    /// again, it checks again.
    fn resume(&mut self, cx: &mut Context) -> (r: Poll<()>)
        ensures
            *final(self) == *old(self),
            r is Ready <==> old(cx)@.now >= old(self).deadline,
            r is Ready ==> final(cx)@ == old(cx)@,
            r is Pending ==> final(cx)@ == (ContextView {
                timers: old(cx)@.timers.push(old(self).deadline),
                ..old(cx)@
            }),
    {
        if cx.now() >= self.deadline {
            Poll::Ready(())
        } else {
            cx.sleep_until(self.deadline);
            Poll::Pending
        }
    }
}

/// A sleep that ends at `deadline`.
pub fn sleep_until(deadline: u64) -> (s: Sleep)
    ensures
        s.deadline == deadline,
{
    Sleep { deadline }
}

/// A sleep that begins at time `now` and lasts `duration`.
pub fn sleep(now: u64, duration: u64) -> (s: Sleep)
    requires
        now + duration <= u64::MAX,
    ensures
        s.deadline == now + duration,
{
    Sleep { deadline: now + duration }
}

} // verus!
