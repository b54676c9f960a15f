use avtan::mtx::{LockState, Mutex, MutexGuard};
use avtan::spawn::Executor;
use avtan::task::{Computation, Context, Poll};
use std::cell::RefCell;
use std::rc::Rc;

fn guard_of(poll: Poll<MutexGuard>) -> MutexGuard {
    match poll {
        Poll::Ready(guard) => guard,
        Poll::Pending => panic!("the lock was not free"),
    }
}

#[test]
fn a_free_lock_is_taken_at_once() {
    let mut m = Mutex::new(5u32);
    assert_eq!(m.state(), LockState::Free);
    let guard = guard_of(m.lock(1));
    assert_eq!(guard.task(), 1);
    assert_eq!(m.state(), LockState::Held(1));
    assert_eq!(m.get(&guard), Some(&5));
    assert_eq!(m.unlock(guard), None);
    assert_eq!(m.state(), LockState::Free);
}

#[test]
fn waiters_get_the_lock_in_the_order_in_which_they_asked() {
    let mut m = Mutex::new(());
    let first = guard_of(m.lock(9));
    assert_eq!(m.lock(1), Poll::Pending);
    assert_eq!(m.lock(2), Poll::Pending);
    assert_eq!(m.lock(3), Poll::Pending);
    assert_eq!(m.waiting(), 3);

    assert_eq!(m.unlock(first), Some(1));
    assert_eq!(m.state(), LockState::Granted(1));
    // Nobody slips in between the hand-off and the moment the guard is taken.
    assert_eq!(m.lock(2), Poll::Pending);
    assert_eq!(m.lock(7), Poll::Pending);
    assert_eq!(m.waiting(), 3);
    let g1 = guard_of(m.lock(1));

    assert_eq!(m.unlock(g1), Some(2));
    let g2 = guard_of(m.lock(2));
    assert_eq!(m.unlock(g2), Some(3));
    let g3 = guard_of(m.lock(3));
    assert_eq!(m.unlock(g3), Some(7));
    let g7 = guard_of(m.lock(7));
    assert_eq!(m.unlock(g7), None);
    assert_eq!(m.state(), LockState::Free);
}

#[test]
fn only_the_guard_that_is_out_opens_the_lock() {
    let mut a = Mutex::new(1u8);
    let mut b = Mutex::new(2u8);
    let ga = guard_of(a.lock(1));
    let gb = guard_of(b.lock(2));
    assert_eq!(a.get(&gb), None);
    assert_eq!(a.replace(&gb, 9), Err(9));
    assert_eq!(a.replace(&ga, 7), Ok(1));
    assert_eq!(a.get(&ga), Some(&7));
    // A guard of another lock changes nothing here.
    assert_eq!(a.unlock(gb), None);
    assert_eq!(a.state(), LockState::Held(1));
    assert_eq!(a.unlock(ga), None);
    assert_eq!(a.state(), LockState::Free);
}

struct Worker {
    name: usize,
    lock: Rc<RefCell<Mutex<Vec<usize>>>>,
    guard: Option<MutexGuard>,
    log: Rc<RefCell<Vec<(usize, &'static str)>>>,
}

impl Computation for Worker {
    type Output = ();

    fn resume(&mut self, cx: &mut Context) -> Poll<()> {
        match self.guard.take() {
            None => match self.lock.borrow_mut().lock(cx.task()) {
                Poll::Ready(guard) => {
                    self.log.borrow_mut().push((self.name, "enter"));
                    self.guard = Some(guard);
                    // Hold the lock over one suspension.
                    cx.wake_by_ref();
                    Poll::Pending
                }
                Poll::Pending => Poll::Pending,
            },
            Some(guard) => {
                let mut lock = self.lock.borrow_mut();
                let mut seen = lock.get(&guard).unwrap().clone();
                seen.push(self.name);
                assert!(lock.replace(&guard, seen).is_ok());
                self.log.borrow_mut().push((self.name, "leave"));
                if let Some(next) = lock.unlock(guard) {
                    cx.wake(next);
                }
                Poll::Ready(())
            }
        }
    }
}

#[test]
fn tasks_pass_through_the_critical_section_one_at_a_time_in_order() {
    let lock = Rc::new(RefCell::new(Mutex::new(Vec::new())));
    let log = Rc::new(RefCell::new(Vec::new()));
    let mut executor = Executor::new();
    for name in [10, 20, 30] {
        executor.spawn(Worker { name, lock: lock.clone(), guard: None, log: log.clone() });
    }
    let report = executor.run(0, 100).unwrap();
    assert!(report.idle);
    assert_eq!(
        *log.borrow(),
        vec![
            (10, "enter"),
            (10, "leave"),
            (20, "enter"),
            (20, "leave"),
            (30, "enter"),
            (30, "leave"),
        ]
    );
    assert_eq!(lock.borrow().state(), LockState::Free);
    let mut m = lock.borrow_mut();
    let guard = guard_of(m.lock(0));
    assert_eq!(m.get(&guard), Some(&vec![10, 20, 30]));
}
