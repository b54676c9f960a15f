use avtan::spawn::sleep_until;
use avtan::task::{Context, Poll, Resumed, RunState, Task, TaskError};

#[test]
fn a_new_task_is_idle_without_a_wake_time() {
    let task = Task::new(sleep_until(3));
    assert_eq!(task.state(), RunState::Idle);
    assert_eq!(task.wake_time(), None);
}

#[test]
fn notify_asks_for_a_place_in_the_ready_set_only_once() {
    let mut task = Task::new(());
    assert!(task.notify());
    assert_eq!(task.state(), RunState::Notified);
    assert!(!task.notify());
    assert!(!task.notify());
    assert_eq!(task.state(), RunState::Notified);
}

#[test]
fn a_step_without_a_signal_ends_idle() {
    let mut task = Task::new(());
    assert!(task.notify());
    assert_eq!(task.begin_resume(), Ok(()));
    assert_eq!(task.state(), RunState::Running);
    assert_eq!(task.finish_resume(Resumed::Suspended), Ok(false));
    assert_eq!(task.state(), RunState::Idle);
}

#[test]
fn a_signal_during_a_step_sends_the_task_back_to_the_ready_set() {
    let mut task = Task::new(());
    assert_eq!(task.begin_resume(), Ok(()));
    // The running task takes note; the notifier does not enqueue it.
    assert!(!task.notify());
    assert!(!task.notify());
    assert_eq!(task.state(), RunState::Notified);
    assert_eq!(task.finish_resume(Resumed::Suspended), Ok(true));
    assert_eq!(task.state(), RunState::Notified);
}

#[test]
fn a_finished_task_is_complete_whatever_arrived_during_the_step() {
    let mut quiet = Task::new(());
    assert_eq!(quiet.begin_resume(), Ok(()));
    assert_eq!(quiet.finish_resume(Resumed::Complete), Ok(false));
    assert_eq!(quiet.state(), RunState::Complete);

    let mut signalled = Task::new(());
    assert_eq!(signalled.begin_resume(), Ok(()));
    assert!(!signalled.notify());
    assert_eq!(signalled.finish_resume(Resumed::Complete), Ok(false));
    assert_eq!(signalled.state(), RunState::Complete);
    // Signals on a completed task change nothing.
    assert!(!signalled.notify());
    assert_eq!(signalled.state(), RunState::Complete);
}

#[test]
fn resuming_a_running_or_completed_task_is_a_protocol_violation() {
    let mut task = Task::new(());
    assert_eq!(task.begin_resume(), Ok(()));
    assert_eq!(task.begin_resume(), Err(TaskError::ProtocolViolation));
    assert_eq!(task.state(), RunState::Running);
    assert_eq!(task.finish_resume(Resumed::Complete), Ok(false));
    assert_eq!(task.begin_resume(), Err(TaskError::ProtocolViolation));
    assert_eq!(task.state(), RunState::Complete);
}

#[test]
fn ending_a_step_that_was_not_begun_is_a_protocol_violation() {
    let mut idle = Task::new(());
    assert_eq!(idle.finish_resume(Resumed::Suspended), Err(TaskError::ProtocolViolation));
    assert_eq!(idle.state(), RunState::Idle);
    let mut done = Task::new(());
    assert_eq!(done.begin_resume(), Ok(()));
    assert_eq!(done.finish_resume(Resumed::Complete), Ok(false));
    assert_eq!(done.finish_resume(Resumed::Complete), Err(TaskError::ProtocolViolation));
}

#[test]
fn beginning_a_step_clears_the_wake_time() {
    let mut task = Task::new(());
    task.set_wake_time(Some(40));
    assert_eq!(task.wake_time(), Some(40));
    assert!(task.notify());
    assert_eq!(task.wake_time(), Some(40));
    assert_eq!(task.begin_resume(), Ok(()));
    assert_eq!(task.wake_time(), None);
}

#[test]
fn a_context_keeps_requests_in_the_order_in_which_they_were_made() {
    let mut cx = Context::new(17, 2);
    assert_eq!(cx.now(), 17);
    assert_eq!(cx.task(), 2);
    assert!(cx.timers().is_empty());
    assert!(cx.wakes().is_empty());
    cx.sleep_until(30);
    cx.wake(5);
    cx.wake_by_ref();
    cx.sleep_until(20);
    cx.wake(5);
    assert_eq!(*cx.timers(), vec![30, 20]);
    assert_eq!(*cx.wakes(), vec![5, 2, 5]);
}

#[test]
fn poll_makes_one_step_of_the_computation_and_leaves_the_scheduling_data() {
    let mut task = Task::new(sleep_until(10));
    task.set_wake_time(Some(3));
    let mut early = Context::new(4, 1);
    assert_eq!(task.poll(&mut early), Poll::Pending);
    assert_eq!(*early.timers(), vec![10]);
    assert!(early.wakes().is_empty());
    assert_eq!(task.state(), RunState::Idle);
    assert_eq!(task.wake_time(), Some(3));
    let mut late = Context::new(10, 1);
    assert_eq!(task.poll(&mut late), Poll::Ready(()));
    assert!(late.timers().is_empty());
    assert_eq!(task.state(), RunState::Idle);
}
