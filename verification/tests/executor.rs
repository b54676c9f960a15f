use avtan::spawn::{sleep, sleep_until, Executor, RunReport, Sleep};
use avtan::task::{Computation, Context, Poll, Resumed, RunState, TaskError};
use std::cell::RefCell;
use std::rc::Rc;

type Log = Rc<RefCell<Vec<&'static str>>>;

/// Sleeps if it has a nap to take, then writes its label and finishes.
struct Recorder {
    nap: Option<Sleep>,
    label: &'static str,
    log: Log,
}

impl Computation for Recorder {
    type Output = ();

    fn resume(&mut self, cx: &mut Context) -> Poll<()> {
        if let Some(nap) = self.nap.as_mut() {
            if nap.resume(cx) == Poll::Pending {
                return Poll::Pending;
            }
            self.nap = None;
        }
        self.log.borrow_mut().push(self.label);
        Poll::Ready(())
    }
}

fn recorder(nap: Option<Sleep>, label: &'static str, log: &Log) -> Recorder {
    Recorder { nap, label, log: log.clone() }
}

/// Never finishes; wakes itself after every step when told to.
struct Restless {
    wake_itself: bool,
    steps: Rc<RefCell<usize>>,
}

impl Computation for Restless {
    type Output = ();

    fn resume(&mut self, cx: &mut Context) -> Poll<()> {
        *self.steps.borrow_mut() += 1;
        if self.wake_itself {
            cx.wake_by_ref();
        }
        Poll::Pending
    }
}

#[test]
fn the_sleeper_records_after_the_one_that_finishes_at_once() {
    let log: Log = Rc::new(RefCell::new(Vec::new()));
    let mut executor = Executor::new();
    executor.spawn(recorder(Some(sleep(0, 10)), "A", &log));
    executor.spawn(recorder(None, "B", &log));
    let report = executor.run(0, 100).unwrap();
    assert_eq!(*log.borrow(), vec!["B", "A"]);
    assert_eq!(report, RunReport { ticks: 2, now: 10, idle: true });
    assert!(executor.is_idle());
    assert_eq!(executor.state_of(0), Some(RunState::Complete));
    assert_eq!(executor.state_of(1), Some(RunState::Complete));
}

#[test]
fn the_sleeper_is_not_resumed_before_its_deadline() {
    let log: Log = Rc::new(RefCell::new(Vec::new()));
    let mut executor = Executor::new();
    let a = executor.spawn(recorder(Some(sleep(0, 10)), "A", &log));
    let tick = executor.tick(0).unwrap();
    assert_eq!(tick.resumed, vec![a]);
    assert!(!tick.idle);
    assert_eq!(executor.state_of(a), Some(RunState::Idle));
    assert_eq!(executor.wake_time_of(a), Some(10));
    assert_eq!(executor.sleeping_count(), 1);
    assert_eq!(executor.next_deadline(), Some(10));
    let tick = executor.tick(9).unwrap();
    assert_eq!(tick.resumed, Vec::<usize>::new());
    assert!(log.borrow().is_empty());
    let tick = executor.tick(10).unwrap();
    assert_eq!(tick.resumed, vec![a]);
    assert!(tick.idle);
    assert_eq!(*log.borrow(), vec!["A"]);
}

#[test]
fn a_new_executor_is_idle_and_spawn_numbers_the_tasks() {
    let log: Log = Rc::new(RefCell::new(Vec::new()));
    let mut executor = Executor::new();
    assert!(executor.is_idle());
    assert_eq!(executor.task_count(), 0);
    assert_eq!(executor.run(5, 10), Ok(RunReport { ticks: 0, now: 5, idle: true }));
    assert_eq!(executor.spawn(recorder(None, "x", &log)), 0);
    assert_eq!(executor.spawn(recorder(None, "y", &log)), 1);
    assert_eq!(executor.task_count(), 2);
    assert_eq!(executor.ready_count(), 2);
    assert_eq!(executor.state_of(0), Some(RunState::Notified));
    assert_eq!(executor.state_of(1), Some(RunState::Notified));
    assert_eq!(executor.state_of(2), None);
    assert!(!executor.is_idle());
}

#[test]
fn tasks_are_resumed_in_the_order_of_the_ready_set() {
    let log: Log = Rc::new(RefCell::new(Vec::new()));
    let mut executor = Executor::new();
    executor.spawn(recorder(None, "first", &log));
    executor.spawn(recorder(None, "second", &log));
    executor.spawn(recorder(None, "third", &log));
    let tick = executor.tick(0).unwrap();
    assert_eq!(tick.resumed, vec![0, 1, 2]);
    assert!(tick.idle);
    assert_eq!(*log.borrow(), vec!["first", "second", "third"]);
}

#[test]
fn a_wake_signal_during_a_resume_step_is_not_lost() {
    let steps = Rc::new(RefCell::new(0));
    let mut executor = Executor::new();
    let id = executor.spawn(Restless { wake_itself: false, steps: steps.clone() });
    assert_eq!(executor.begin_resume(), Ok(Some(id)));
    assert_eq!(executor.state_of(id), Some(RunState::Running));
    assert_eq!(executor.ready_count(), 0);
    // The signals arrive while the step is in progress.
    executor.notify(id);
    executor.notify(id);
    assert_eq!(executor.state_of(id), Some(RunState::Notified));
    assert_eq!(executor.ready_count(), 0);
    // The step ends suspended: the task goes back to the ready set, once.
    assert_eq!(executor.finish_resume(Resumed::Suspended), Ok(true));
    assert_eq!(executor.ready_count(), 1);
    assert_eq!(executor.running(), None);
    assert_eq!(executor.tick(0).unwrap().resumed, vec![id]);
    assert_eq!(*steps.borrow(), 1);
    assert_eq!(executor.state_of(id), Some(RunState::Idle));
}

#[test]
fn notifying_an_idle_task_many_times_resumes_it_once() {
    let steps = Rc::new(RefCell::new(0));
    let mut executor = Executor::new();
    let id = executor.spawn(Restless { wake_itself: false, steps: steps.clone() });
    assert_eq!(executor.tick(0).unwrap().resumed, vec![id]);
    assert_eq!(executor.state_of(id), Some(RunState::Idle));
    executor.notify(id);
    executor.notify(id);
    executor.notify(id);
    assert_eq!(executor.ready_count(), 1);
    assert_eq!(executor.tick(0).unwrap().resumed, vec![id]);
    assert_eq!(executor.tick(0).unwrap().resumed, Vec::<usize>::new());
    assert_eq!(*steps.borrow(), 2);
}

#[test]
fn no_resume_step_begins_while_one_is_in_progress() {
    let log: Log = Rc::new(RefCell::new(Vec::new()));
    let mut executor = Executor::new();
    executor.spawn(recorder(None, "a", &log));
    executor.spawn(recorder(None, "b", &log));
    assert_eq!(executor.begin_resume(), Ok(Some(0)));
    assert_eq!(executor.running(), Some(0));
    assert_eq!(executor.begin_resume(), Err(TaskError::ProtocolViolation));
    executor.notify(0);
    assert_eq!(executor.begin_resume(), Err(TaskError::ProtocolViolation));
    assert_eq!(executor.resume_next(0), Err(TaskError::ProtocolViolation));
    assert_eq!(executor.tick(0), Err(TaskError::ProtocolViolation));
    assert_eq!(executor.run(0, 10), Err(TaskError::ProtocolViolation));
    assert_eq!(executor.running(), Some(0));
    assert_eq!(executor.ready_count(), 1);
    assert!(log.borrow().is_empty());
    assert_eq!(executor.finish_resume(Resumed::Complete), Ok(false));
    assert_eq!(executor.begin_resume(), Ok(Some(1)));
}

#[test]
fn ending_a_step_without_one_in_progress_is_a_protocol_violation() {
    let mut executor: Executor<Sleep> = Executor::new();
    assert_eq!(executor.finish_resume(Resumed::Suspended), Err(TaskError::ProtocolViolation));
    executor.spawn(sleep_until(0));
    assert_eq!(executor.finish_resume(Resumed::Complete), Err(TaskError::ProtocolViolation));
    assert_eq!(executor.state_of(0), Some(RunState::Notified));
    assert_eq!(executor.begin_resume(), Ok(Some(0)));
    assert_eq!(executor.finish_resume(Resumed::Complete), Ok(false));
    assert_eq!(executor.begin_resume(), Ok(None));
}

#[test]
fn signals_for_completed_or_unknown_tasks_change_nothing() {
    let mut executor = Executor::new();
    let id = executor.spawn(sleep_until(0));
    assert!(executor.tick(0).unwrap().idle);
    assert_eq!(executor.state_of(id), Some(RunState::Complete));
    executor.notify(id);
    executor.notify(99);
    executor.push_task(id, 0);
    executor.sleep_until(99, 5, 0);
    assert_eq!(executor.state_of(id), Some(RunState::Complete));
    assert!(executor.is_idle());
    assert_eq!(executor.tick(1).unwrap().resumed, Vec::<usize>::new());
}

#[test]
fn timers_that_fire_together_wake_in_the_order_in_which_they_were_set() {
    let log: Log = Rc::new(RefCell::new(Vec::new()));
    let mut executor = Executor::new();
    executor.spawn(recorder(Some(sleep_until(30)), "late", &log));
    executor.spawn(recorder(Some(sleep_until(10)), "early", &log));
    executor.spawn(recorder(Some(sleep_until(20)), "middle", &log));
    assert_eq!(executor.tick(0).unwrap().resumed, vec![0, 1, 2]);
    assert_eq!(executor.sleeping_count(), 3);
    assert_eq!(executor.next_deadline(), Some(10));
    // All three are due: the batch keeps the order of insertion.
    let tick = executor.tick(30).unwrap();
    assert_eq!(tick.resumed, vec![0, 1, 2]);
    assert_eq!(*log.borrow(), vec!["late", "early", "middle"]);
    assert!(tick.idle);
}

#[test]
fn timers_mature_by_deadline_when_the_clock_moves_from_one_to_the_next() {
    let log: Log = Rc::new(RefCell::new(Vec::new()));
    let mut executor = Executor::new();
    executor.spawn(recorder(Some(sleep_until(30)), "late", &log));
    executor.spawn(recorder(Some(sleep_until(10)), "early", &log));
    executor.spawn(recorder(Some(sleep_until(20)), "middle", &log));
    let report = executor.run(0, 100).unwrap();
    assert_eq!(*log.borrow(), vec!["early", "middle", "late"]);
    assert_eq!(report, RunReport { ticks: 4, now: 30, idle: true });
}

#[test]
fn wake_expired_fires_only_what_is_due() {
    let mut executor: Executor<Sleep> = Executor::new();
    let a = executor.spawn(sleep_until(50));
    let b = executor.spawn(sleep_until(40));
    assert_eq!(executor.begin_resume(), Ok(Some(a)));
    executor.sleep_until(a, 50, 10);
    assert_eq!(executor.wake_time_of(a), Some(50));
    assert_eq!(executor.finish_resume(Resumed::Suspended), Ok(false));
    assert_eq!(executor.begin_resume(), Ok(Some(b)));
    executor.sleep_until(b, 40, 10);
    assert_eq!(executor.finish_resume(Resumed::Suspended), Ok(false));
    assert_eq!(executor.sleeping_count(), 2);

    assert_eq!(executor.wake_expired(39), 0);
    assert_eq!(executor.ready_count(), 0);
    assert_eq!(executor.wake_expired(40), 1);
    assert_eq!(executor.state_of(b), Some(RunState::Notified));
    assert_eq!(executor.state_of(a), Some(RunState::Idle));
    assert_eq!(executor.sleeping_count(), 1);
    assert_eq!(executor.next_deadline(), Some(50));
    assert_eq!(executor.wake_expired(u64::MAX), 1);
    assert_eq!(executor.sleeping_count(), 0);
    assert_eq!(executor.next_deadline(), None);
    assert_eq!(executor.ready_count(), 2);
    assert_eq!(executor.begin_resume(), Ok(Some(b)));
}

#[test]
fn push_task_goes_by_the_wake_time() {
    let steps = Rc::new(RefCell::new(0));
    let mut executor = Executor::new();
    let id = executor.spawn(Restless { wake_itself: false, steps: steps.clone() });
    assert_eq!(executor.tick(0).unwrap().resumed, vec![id]);
    assert_eq!(executor.state_of(id), Some(RunState::Idle));

    // Without a wake time the task is notified.
    executor.push_task(id, 100);
    assert_eq!(executor.state_of(id), Some(RunState::Notified));
    assert_eq!(executor.sleeping_count(), 0);
    assert_eq!(executor.tick(100).unwrap().resumed, vec![id]);

    // A wake time that has come is a wake signal.
    executor.sleep_until(id, 100, 100);
    assert_eq!(executor.state_of(id), Some(RunState::Notified));
    assert_eq!(executor.sleeping_count(), 0);
    assert_eq!(executor.tick(100).unwrap().resumed, vec![id]);
    assert_eq!(executor.wake_time_of(id), None);

    // A later one sets a timer and leaves the task idle.
    executor.sleep_until(id, 101, 100);
    assert_eq!(executor.state_of(id), Some(RunState::Idle));
    assert_eq!(executor.wake_time_of(id), Some(101));
    assert_eq!(executor.sleeping_count(), 1);
    assert_eq!(executor.ready_count(), 0);
    assert_eq!(executor.tick(100).unwrap().resumed, Vec::<usize>::new());
    assert_eq!(executor.tick(101).unwrap().resumed, vec![id]);
    assert_eq!(*steps.borrow(), 4);
}

#[test]
fn a_run_stops_when_its_budget_is_spent() {
    let steps = Rc::new(RefCell::new(0));
    let mut executor = Executor::new();
    executor.spawn(Restless { wake_itself: true, steps: steps.clone() });
    let report = executor.run(3, 7).unwrap();
    assert_eq!(report, RunReport { ticks: 7, now: 3, idle: false });
    assert_eq!(*steps.borrow(), 7);
    assert_eq!(executor.ready_count(), 1);
    let report = executor.run(3, 0).unwrap();
    assert_eq!(report, RunReport { ticks: 0, now: 3, idle: false });
}

#[test]
fn a_task_that_nobody_wakes_stays_suspended_and_the_run_ends() {
    let steps = Rc::new(RefCell::new(0));
    let mut executor = Executor::new();
    let id = executor.spawn(Restless { wake_itself: false, steps: steps.clone() });
    let report = executor.run(0, 100).unwrap();
    assert_eq!(report, RunReport { ticks: 1, now: 0, idle: true });
    assert_eq!(executor.state_of(id), Some(RunState::Idle));
    assert_eq!(*steps.borrow(), 1);
}

#[test]
fn sleep_ends_at_the_start_plus_the_duration() {
    assert_eq!(sleep(7, 35).deadline, 42);
    assert_eq!(sleep(0, 0).deadline, 0);
    assert_eq!(sleep(u64::MAX - 1, 1).deadline, u64::MAX);
    assert_eq!(sleep_until(9).deadline, 9);
}

#[test]
fn a_sleep_is_pending_until_its_deadline_and_asks_for_a_timer() {
    let mut nap = sleep(7, 35);
    let mut cx = Context::new(41, 3);
    assert_eq!(nap.resume(&mut cx), Poll::Pending);
    assert_eq!(*cx.timers(), vec![42]);
    assert!(cx.wakes().is_empty());
    // Resumed early, it checks again and asks again.
    assert_eq!(nap.resume(&mut cx), Poll::Pending);
    assert_eq!(*cx.timers(), vec![42, 42]);
    let mut cx = Context::new(42, 3);
    assert_eq!(nap.resume(&mut cx), Poll::Ready(()));
    assert!(cx.timers().is_empty());
    // A sleep that has matured simply completes again.
    let mut cx = Context::new(50, 3);
    assert_eq!(nap.resume(&mut cx), Poll::Ready(()));
}

#[test]
fn a_task_woken_by_another_is_resumed_in_the_next_pass() {
    struct Waker {
        target: usize,
    }
    impl Computation for Waker {
        type Output = ();
        fn resume(&mut self, cx: &mut Context) -> Poll<()> {
            cx.wake(self.target);
            cx.wake(1000);
            Poll::Ready(())
        }
    }
    enum Either {
        Sleeper(Restless),
        Waker(Waker),
    }
    impl Computation for Either {
        type Output = ();
        fn resume(&mut self, cx: &mut Context) -> Poll<()> {
            match self {
                Either::Sleeper(s) => s.resume(cx),
                Either::Waker(w) => w.resume(cx),
            }
        }
    }
    let steps = Rc::new(RefCell::new(0));
    let mut executor = Executor::new();
    let sleeper =
        executor.spawn(Either::Sleeper(Restless { wake_itself: false, steps: steps.clone() }));
    assert_eq!(executor.tick(0).unwrap().resumed, vec![sleeper]);
    let waker = executor.spawn(Either::Waker(Waker { target: sleeper }));
    let tick = executor.tick(0).unwrap();
    assert_eq!(tick.resumed, vec![waker]);
    assert!(!tick.idle);
    assert_eq!(executor.state_of(sleeper), Some(RunState::Notified));
    assert_eq!(executor.tick(0).unwrap().resumed, vec![sleeper]);
    assert_eq!(*steps.borrow(), 2);
}

#[test]
fn the_requests_of_a_step_are_taken_up_when_it_returns() {
    let steps = Rc::new(RefCell::new(0));
    let mut executor = Executor::new();
    let a = executor.spawn(Restless { wake_itself: false, steps: steps.clone() });
    let b = executor.spawn(Restless { wake_itself: false, steps: steps.clone() });
    assert_eq!(executor.tick(0).unwrap().resumed, vec![a, b]);

    let mut cx = Context::new(5, a);
    cx.wake(b);
    cx.wake(77);
    cx.sleep_until(9);
    cx.sleep_until(5);
    executor.absorb(a, &cx, 5);
    // The signal for the other task, then the timer, then the request that
    // is due at once, which is a signal for the task itself.
    assert_eq!(executor.state_of(b), Some(RunState::Notified));
    assert_eq!(executor.state_of(a), Some(RunState::Notified));
    assert_eq!(executor.sleeping_count(), 1);
    assert_eq!(executor.next_deadline(), Some(9));
    assert_eq!(executor.wake_time_of(a), Some(5));
    assert_eq!(executor.tick(5).unwrap().resumed, vec![b, a]);
}

#[test]
fn resume_next_makes_one_step_of_the_head_of_the_ready_set() {
    let log: Log = Rc::new(RefCell::new(Vec::new()));
    let mut executor = Executor::new();
    executor.spawn(recorder(Some(sleep_until(4)), "a", &log));
    executor.spawn(recorder(None, "b", &log));
    assert_eq!(executor.resume_next(0), Ok(Some(0)));
    assert_eq!(executor.running(), None);
    assert_eq!(executor.state_of(0), Some(RunState::Idle));
    assert_eq!(executor.sleeping_count(), 1);
    assert_eq!(executor.ready_count(), 1);
    assert_eq!(executor.resume_next(0), Ok(Some(1)));
    assert_eq!(executor.state_of(1), Some(RunState::Complete));
    assert_eq!(executor.resume_next(0), Ok(None));
    assert_eq!(*log.borrow(), vec!["b"]);
}

#[test]
fn time_to_next_is_the_distance_to_the_earliest_deadline() {
    let mut executor: Executor<Sleep> = Executor::new();
    assert_eq!(executor.time_to_next(3), None);
    executor.spawn(sleep_until(40));
    executor.spawn(sleep_until(25));
    assert_eq!(executor.tick(10).unwrap().resumed, vec![0, 1]);
    assert_eq!(executor.time_to_next(10), Some(15));
    assert_eq!(executor.time_to_next(25), Some(0));
    assert_eq!(executor.time_to_next(30), Some(0));
}
