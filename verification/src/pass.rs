//! Whole resume steps and whole passes of the run loop as functions of the
//! scheduler's state, the time, and what the computations did.
//!
//! A computation is opaque, but all it can do to the scheduler in one step
//! is to leave wake signals and requests for timers, and to report whether
//! it finished. Given that report, the step is determined; given the
//! reports of all steps, so is the pass. Each is also a history of single
//! steps of the model, so what holds of all histories holds of it.

use crate::history::Event;
use crate::scheduler::{
    all_after, completed_stay, earliest, grown_at_tail, lemma_begin_resume,
    lemma_finish_resume, lemma_notify_all, lemma_sleep_all, lemma_transitive,
    lemma_wake_expired, ExecutorView,
};
use crate::task::Resumed;
use vstd::prelude::*;

verus! {

/// What a computation did in one resume step: the tasks it asked to notify,
/// the deadlines it asked timers for, and whether it finished.
pub struct StepReport {
    pub wakes: Seq<usize>,
    pub timers: Seq<u64>,
    pub outcome: Resumed,
}

/// The steps `BeginResume`, a `Notify` for each wake signal, a `SleepUntil`
/// for each deadline, and `FinishResume`: one resume step of `task` at time
/// `now`, spelled out.
pub open spec fn step_events(task: usize, report: StepReport, now: u64) -> Seq<Event> {
    seq![Event::BeginResume] + report.wakes.map_values(|w: usize| Event::Notify(w))
        + report.timers.map_values(|d: u64| Event::SleepUntil { task, deadline: d, now })
        + seq![Event::FinishResume(report.outcome)]
}

impl ExecutorView {
    /// The task that the next resume step is for, if one can begin.
    pub open spec fn next_task(self) -> Option<usize> {
        match self.begin_resume().1 {
            Ok(next) => next,
            Err(_) => None,
        }
    }

    /// The state after one whole resume step at time `now` in which the
    /// computation did what `report` says: the head of the ready set is
    /// taken, the wake signals are delivered in order, then the requests
    /// for timers are taken up in order, and the step ends with the
    /// reported outcome. Nothing happens when no step can begin.
    pub open spec fn resume_step(self, report: StepReport, now: u64) -> ExecutorView {
        match self.next_task() {
            Some(task) => self.begin_resume().0.notify_all(report.wakes).sleep_all(
                task,
                report.timers,
                now,
            ).finish_resume(report.outcome).0,
            None => self,
        }
    }

    /// The state after one resume step for each report of `reports`, in
    /// order.
    pub open spec fn resume_steps(self, reports: Seq<StepReport>, now: u64) -> ExecutorView
        decreases reports.len(),
    {
        if reports.len() == 0 {
            self
        } else {
            self.resume_steps(reports.drop_last(), now).resume_step(reports.last(), now)
        }
    }

    /// The state after one pass of the run loop at time `now`: the timers
    /// that are due fire, then one resume step is made for each report.
    pub open spec fn pass(self, reports: Seq<StepReport>, now: u64) -> ExecutorView {
        self.wake_expired(now).resume_steps(reports, now)
    }

    /// Whether `reports` holds one report for each task that a pass at `now`
    /// resumes: for each task in the ready set once the due timers have
    /// fired.
    pub open spec fn pass_admits(self, reports: Seq<StepReport>, now: u64) -> bool {
        reports.len() == self.wake_expired(now).ready.len()
    }

    /// The time of the pass that follows one made at `now` which left this
    /// state: the clock stands still while a task is ready and jumps to the
    /// earliest deadline when only timers are left.
    pub open spec fn next_time(self, now: u64) -> u64 {
        if self.ready.len() == 0 && self.sleeping.len() > 0 && earliest(self.sleeping) > now {
            earliest(self.sleeping)
        } else {
            now
        }
    }

    /// The state and the clock after one pass for each entry of `reports`,
    /// the first of them made at `start`.
    pub open spec fn passes(self, start: u64, reports: Seq<Seq<StepReport>>) -> (
        ExecutorView,
        u64,
    )
        decreases reports.len(),
    {
        if reports.len() == 0 {
            (self, start)
        } else {
            let (mid, now) = self.passes(start, reports.drop_last());
            let end = mid.pass(reports.last(), now);
            (end, end.next_time(now))
        }
    }

    /// Whether the passes for `reports` are passes that a run makes: none
    /// starts from a state in which both sets are empty, and each has one
    /// report for each task that it resumes.
    pub open spec fn passes_admitted(self, start: u64, reports: Seq<Seq<StepReport>>) -> bool
        decreases reports.len(),
    {
        reports.len() > 0 ==> {
            let (mid, now) = self.passes(start, reports.drop_last());
            &&& self.passes_admitted(start, reports.drop_last())
            &&& !mid.is_idle()
            &&& mid.pass_admits(reports.last(), now)
        }
    }

    /// The single steps that make up one resume step from this state.
    pub open spec fn step_history(self, report: StepReport, now: u64) -> Seq<Event> {
        match self.next_task() {
            Some(task) => step_events(task, report, now),
            None => Seq::empty(),
        }
    }

    /// The single steps that make up the resume steps for `reports`.
    pub open spec fn steps_history(self, reports: Seq<StepReport>, now: u64) -> Seq<Event>
        decreases reports.len(),
    {
        if reports.len() == 0 {
            Seq::empty()
        } else {
            self.steps_history(reports.drop_last(), now) + self.resume_steps(
                reports.drop_last(),
                now,
            ).step_history(reports.last(), now)
        }
    }

    /// The single steps that make up one pass from this state.
    pub open spec fn pass_history(self, reports: Seq<StepReport>, now: u64) -> Seq<Event> {
        seq![Event::WakeExpired { now }] + self.wake_expired(now).steps_history(reports, now)
    }
}

/// A history made of two parts is the first part followed by the second.
pub proof fn lemma_run_append(s: ExecutorView, first: Seq<Event>, second: Seq<Event>)
    ensures
        s.run(first + second) == s.run(first).run(second),
    decreases second.len(),
{
    if second.len() == 0 {
        assert(first + second =~= first);
    } else {
        lemma_run_append(s, first, second.drop_last());
        assert((first + second).drop_last() =~= first + second.drop_last());
        assert((first + second).last() == second.last());
    }
}

/// Delivering wake signals in a row is the history of the single signals.
pub proof fn lemma_notify_all_is_history(s: ExecutorView, tasks: Seq<usize>)
    ensures
        s.notify_all(tasks) == s.run(tasks.map_values(|w: usize| Event::Notify(w))),
    decreases tasks.len(),
{
    let events = tasks.map_values(|w: usize| Event::Notify(w));
    if tasks.len() > 0 {
        lemma_notify_all_is_history(s, tasks.drop_last());
        assert(events.drop_last() =~= tasks.drop_last().map_values(|w: usize| Event::Notify(w)));
        assert(events.last() == Event::Notify(tasks.last()));
    }
}

/// Taking up requests for timers in a row is the history of the single
/// requests.
pub proof fn lemma_sleep_all_is_history(s: ExecutorView, task: usize, deadlines: Seq<u64>, now: u64)
    ensures
        s.sleep_all(task, deadlines, now) == s.run(
            deadlines.map_values(|d: u64| Event::SleepUntil { task, deadline: d, now }),
        ),
    decreases deadlines.len(),
{
    let events = deadlines.map_values(|d: u64| Event::SleepUntil { task, deadline: d, now });
    if deadlines.len() > 0 {
        lemma_sleep_all_is_history(s, task, deadlines.drop_last(), now);
        assert(events.drop_last() =~= deadlines.drop_last().map_values(
            |d: u64| Event::SleepUntil { task, deadline: d, now },
        ));
        assert(events.last() == Event::SleepUntil { task, deadline: deadlines.last(), now });
    }
}

/// A whole resume step is a history of single steps, none of which submits
/// a computation: it begins one step, delivers signals, takes up requests
/// for timers and ends the step.
pub proof fn lemma_resume_step_is_history(s: ExecutorView, report: StepReport, now: u64)
    ensures
        s.resume_step(report, now) == s.run(s.step_history(report, now)),
        forall|k: int|
            0 <= k < s.step_history(report, now).len() ==> !(#[trigger] s.step_history(
                report,
                now,
            )[k] is Spawn),
{
    match s.next_task() {
        Some(task) => {
            let begin = seq![Event::BeginResume];
            let wakes = report.wakes.map_values(|w: usize| Event::Notify(w));
            let timers = report.timers.map_values(
                |d: u64| Event::SleepUntil { task, deadline: d, now },
            );
            let finish = seq![Event::FinishResume(report.outcome)];
            let begun = s.begin_resume().0;
            assert(s.run(begin) == begun) by {
                assert(begin.drop_last() =~= Seq::<Event>::empty());
                assert(s.run(begin.drop_last()) == s);
            }
            lemma_notify_all_is_history(begun, report.wakes);
            let woken = begun.notify_all(report.wakes);
            lemma_sleep_all_is_history(woken, task, report.timers, now);
            let asleep = woken.sleep_all(task, report.timers, now);
            assert(asleep.run(finish) == asleep.finish_resume(report.outcome).0) by {
                assert(finish.drop_last() =~= Seq::<Event>::empty());
                assert(asleep.run(finish.drop_last()) == asleep);
            }
            lemma_run_append(s, begin, wakes);
            lemma_run_append(s, begin + wakes, timers);
            lemma_run_append(s, begin + wakes + timers, finish);
        },
        None => {},
    }
}

/// The resume steps of a pass are a history of single steps without
/// submissions.
pub proof fn lemma_resume_steps_are_history(s: ExecutorView, reports: Seq<StepReport>, now: u64)
    ensures
        s.resume_steps(reports, now) == s.run(s.steps_history(reports, now)),
        forall|k: int|
            0 <= k < s.steps_history(reports, now).len() ==> !(#[trigger] s.steps_history(
                reports,
                now,
            )[k] is Spawn),
    decreases reports.len(),
{
    if reports.len() > 0 {
        let mid = s.resume_steps(reports.drop_last(), now);
        lemma_resume_steps_are_history(s, reports.drop_last(), now);
        lemma_resume_step_is_history(mid, reports.last(), now);
        lemma_run_append(
            s,
            s.steps_history(reports.drop_last(), now),
            mid.step_history(reports.last(), now),
        );
    }
}

/// A pass of the run loop is a history of single steps of the model, and
/// none of them submits a computation. So what holds of every history
/// holds of every pass: no wake signal is lost in it, and no resume step
/// begins in it while another is in progress.
pub proof fn lemma_pass_is_history(s: ExecutorView, reports: Seq<StepReport>, now: u64)
    ensures
        s.pass(reports, now) == s.run(s.pass_history(reports, now)),
        forall|k: int|
            0 <= k < s.pass_history(reports, now).len() ==> !(#[trigger] s.pass_history(
                reports,
                now,
            )[k] is Spawn),
{
    let fire = seq![Event::WakeExpired { now }];
    let fired = s.wake_expired(now);
    assert(s.run(fire) == fired) by {
        assert(fire.drop_last() =~= Seq::<Event>::empty());
        assert(s.run(fire.drop_last()) == s);
    }
    lemma_resume_steps_are_history(fired, reports, now);
    lemma_run_append(s, fire, fired.steps_history(reports, now));
}

/// A whole resume step keeps the state well formed and ends with no step in
/// progress. It takes the head of the ready set and adds at the tail only;
/// it keeps the tasks, keeps completed tasks completed, and sets no timer
/// that is due already.
pub proof fn lemma_resume_step(s: ExecutorView, report: StepReport, now: u64)
    requires
        s.wf(),
    ensures
        s.resume_step(report, now).wf(),
        s.resume_step(report, now).tasks.len() == s.tasks.len(),
        completed_stay(s, s.resume_step(report, now)),
        all_after(s.sleeping, now) ==> all_after(s.resume_step(report, now).sleeping, now),
        s.next_task() is Some <==> s.running is None && s.ready.len() > 0,
        s.next_task() is Some ==> s.next_task() == Some(s.ready[0]) && s.resume_step(
            report,
            now,
        ).running is None && grown_at_tail(s.ready.drop_first(), s.resume_step(report, now).ready),
        s.next_task() is None ==> s.resume_step(report, now) == s,
{
    lemma_begin_resume(s);
    match s.next_task() {
        Some(task) => {
            let begun = s.begin_resume().0;
            let woken = begun.notify_all(report.wakes);
            let asleep = woken.sleep_all(task, report.timers, now);
            let ended = asleep.finish_resume(report.outcome).0;
            lemma_notify_all(begun, report.wakes);
            lemma_sleep_all(woken, task, report.timers, now);
            lemma_finish_resume(asleep, report.outcome);
            lemma_transitive(begun, woken, asleep);
            lemma_transitive(begun, asleep, ended);
            lemma_transitive(s, begun, ended);
        },
        None => {},
    }
}

/// Resume steps in a row keep what one of them keeps, and after `k` of them
/// what is left of the ready set they started from is still at the head, in
/// order, with newcomers behind it.
pub proof fn lemma_resume_steps(s: ExecutorView, reports: Seq<StepReport>, now: u64)
    requires
        s.wf(),
        s.running is None,
        reports.len() <= s.ready.len(),
    ensures
        s.resume_steps(reports, now).wf(),
        s.resume_steps(reports, now).running is None,
        s.resume_steps(reports, now).tasks.len() == s.tasks.len(),
        completed_stay(s, s.resume_steps(reports, now)),
        all_after(s.sleeping, now) ==> all_after(s.resume_steps(reports, now).sleeping, now),
        grown_at_tail(s.ready.skip(reports.len() as int), s.resume_steps(reports, now).ready),
    decreases reports.len(),
{
    if reports.len() > 0 {
        let k = reports.len() - 1;
        let mid = s.resume_steps(reports.drop_last(), now);
        let end = mid.resume_step(reports.last(), now);
        lemma_resume_steps(s, reports.drop_last(), now);
        lemma_resume_step(mid, reports.last(), now);
        lemma_transitive(s, mid, end);
        assert(s.ready.skip(k).len() > 0);
        assert(mid.ready[0] == s.ready.skip(k)[0]);
        let rest = s.ready.skip(k + 1);
        assert forall|j: int| 0 <= j < rest.len() implies #[trigger] end.ready[j] == rest[j] by {
            assert(mid.ready.drop_first()[j] == mid.ready[j + 1]);
            assert(mid.ready[j + 1] == s.ready.skip(k)[j + 1]);
        }
    } else {
        assert(s.ready.skip(0) =~= s.ready);
    }
}

/// Within a pass the tasks are resumed first in, first out: the `k`-th
/// resume step of a pass is for the task at place `k` of the ready set as
/// it stands once the due timers have fired. A task that becomes ready
/// during the pass is not resumed before the next one.
pub proof fn lemma_pass_resumes_in_order(
    s: ExecutorView,
    reports: Seq<StepReport>,
    now: u64,
    k: int,
)
    requires
        s.wf(),
        s.running is None,
        s.pass_admits(reports, now),
        0 <= k < reports.len(),
    ensures
        s.wake_expired(now).resume_steps(reports.take(k), now).next_task() == Some(
            s.wake_expired(now).ready[k],
        ),
{
    let fired = s.wake_expired(now);
    lemma_wake_expired(s, now);
    lemma_resume_steps(fired, reports.take(k), now);
    let mid = fired.resume_steps(reports.take(k), now);
    lemma_begin_resume(mid);
    assert(fired.ready.skip(k).len() > 0);
    assert(mid.ready[0] == fired.ready.skip(k)[0]);
}

/// A pass keeps the state well formed and ends with no step in progress.
/// It keeps the tasks and keeps completed tasks completed; afterwards no
/// timer is left that is due at the time of the pass.
pub proof fn lemma_pass(s: ExecutorView, reports: Seq<StepReport>, now: u64)
    requires
        s.wf(),
        s.running is None,
        s.pass_admits(reports, now),
    ensures
        s.pass(reports, now).wf(),
        s.pass(reports, now).running is None,
        s.pass(reports, now).tasks.len() == s.tasks.len(),
        completed_stay(s, s.pass(reports, now)),
        all_after(s.pass(reports, now).sleeping, now),
{
    let fired = s.wake_expired(now);
    lemma_wake_expired(s, now);
    lemma_resume_steps(fired, reports, now);
    lemma_transitive(s, fired, s.pass(reports, now));
}

impl ExecutorView {
    /// The single steps that make up the passes for `reports`.
    pub open spec fn passes_history(self, start: u64, reports: Seq<Seq<StepReport>>) -> Seq<Event>
        decreases reports.len(),
    {
        if reports.len() == 0 {
            Seq::empty()
        } else {
            let (mid, now) = self.passes(start, reports.drop_last());
            self.passes_history(start, reports.drop_last()) + mid.pass_history(
                reports.last(),
                now,
            )
        }
    }
}

/// A run is a history of single steps of the model without submissions, so
/// what holds of every history holds of every run.
pub proof fn lemma_passes_are_history(s: ExecutorView, start: u64, reports: Seq<Seq<StepReport>>)
    ensures
        s.passes(start, reports).0 == s.run(s.passes_history(start, reports)),
        forall|k: int|
            0 <= k < s.passes_history(start, reports).len() ==> !(#[trigger] s.passes_history(
                start,
                reports,
            )[k] is Spawn),
    decreases reports.len(),
{
    if reports.len() > 0 {
        let (mid, now) = s.passes(start, reports.drop_last());
        lemma_passes_are_history(s, start, reports.drop_last());
        lemma_pass_is_history(mid, reports.last(), now);
        lemma_run_append(
            s,
            s.passes_history(start, reports.drop_last()),
            mid.pass_history(reports.last(), now),
        );
    }
}

/// A run keeps the state well formed and ends with no step in progress; it
/// keeps the tasks and keeps completed tasks completed, and its clock never
/// goes back.
pub proof fn lemma_passes(s: ExecutorView, start: u64, reports: Seq<Seq<StepReport>>)
    requires
        s.wf(),
        s.running is None,
        s.passes_admitted(start, reports),
    ensures
        s.passes(start, reports).0.wf(),
        s.passes(start, reports).0.running is None,
        s.passes(start, reports).0.tasks.len() == s.tasks.len(),
        completed_stay(s, s.passes(start, reports).0),
        s.passes(start, reports).1 >= start,
    decreases reports.len(),
{
    if reports.len() > 0 {
        let (mid, now) = s.passes(start, reports.drop_last());
        lemma_passes(s, start, reports.drop_last());
        lemma_pass(mid, reports.last(), now);
        lemma_transitive(s, mid, mid.pass(reports.last(), now));
    }
}

} // verus!
