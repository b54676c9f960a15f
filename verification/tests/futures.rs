use avtan::futures::{AvtanFuture, AvtanSharedFuture, SharedFutureState, AVTAN_STEPS};
use avtan::spawn::Executor;
use avtan::task::{Computation, Context, Poll, RunState};

#[test]
fn avtan_future_is_ready_at_the_fifth_step_with_the_count() {
    assert_eq!(AVTAN_STEPS, 5);
    let mut f = AvtanFuture::new();
    assert_eq!(f.count(), 0);
    for step in 1..5 {
        let mut cx = Context::new(0, 3);
        assert_eq!(f.resume(&mut cx), Poll::Pending);
        assert_eq!(f.count(), step);
        // It asked to be resumed again.
        assert_eq!(*cx.wakes(), vec![3]);
        assert!(cx.timers().is_empty());
    }
    let mut cx = Context::new(0, 3);
    assert_eq!(f.resume(&mut cx), Poll::Ready(5));
    assert!(cx.wakes().is_empty());
    let mut cx = Context::new(0, 3);
    assert_eq!(f.resume(&mut cx), Poll::Ready(6));
}

#[test]
fn avtan_future_runs_to_completion_in_five_passes() {
    let mut executor = Executor::new();
    let id = executor.spawn(AvtanFuture::new());
    let report = executor.run(0, 100).unwrap();
    assert!(report.idle);
    assert_eq!(report.ticks, 5);
    assert_eq!(report.now, 0);
    assert_eq!(executor.state_of(id), Some(RunState::Complete));
    assert_eq!(executor.computation_mut(id).unwrap().count(), 5);
}

#[test]
fn shared_future_hands_out_the_text_that_the_bytes_encode() {
    let mut f = AvtanSharedFuture::new();
    let mut cx = Context::new(0, 4);
    assert_eq!(f.resume(&mut cx), Poll::Pending);
    assert!(cx.wakes().is_empty());
    // The supplier learns whom to notify.
    assert_eq!(f.complete(vec![0x68, 0xc3, 0xa9, 0x6c, 0x6c, 0x6f]), Ok(Some(4)));
    let mut cx = Context::new(1, 4);
    assert_eq!(f.resume(&mut cx), Poll::Ready(String::from("h\u{e9}llo")));
    // The text is handed out once.
    let mut cx = Context::new(2, 4);
    assert_eq!(f.resume(&mut cx), Poll::Pending);
}

#[test]
fn shared_future_gives_back_bytes_that_are_not_utf8() {
    let mut state = SharedFutureState::new();
    assert_eq!(state.poll(8), Poll::Pending);
    assert_eq!(state.complete(vec![0xff, 0xfe]), Err(vec![0xff, 0xfe]));
    assert!(!state.is_ready());
    // The waiting task is still recorded.
    assert_eq!(state.complete(vec![0x6f, 0x6b]), Ok(Some(8)));
    assert!(state.is_ready());
    assert_eq!(state.complete(vec![0x6e, 0x6f]), Ok(None));
    assert_eq!(state.poll(8), Poll::Ready(String::from("no")));
}

#[test]
fn shared_future_under_the_executor_finishes_after_the_value_arrives() {
    let mut executor = Executor::new();
    let id = executor.spawn(AvtanSharedFuture::new());
    let tick = executor.tick(0).unwrap();
    assert_eq!(tick.resumed, vec![id]);
    assert!(tick.idle);
    assert_eq!(executor.state_of(id), Some(RunState::Idle));
    // Nothing happens until the value is supplied.
    assert_eq!(executor.tick(1).unwrap().resumed, Vec::<usize>::new());
    let waker = executor.computation_mut(id).unwrap().complete(vec![0x68, 0x69]).unwrap();
    assert_eq!(waker, Some(id));
    executor.notify(id);
    let tick = executor.tick(2).unwrap();
    assert_eq!(tick.resumed, vec![id]);
    assert_eq!(executor.state_of(id), Some(RunState::Complete));
}
