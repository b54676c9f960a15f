//! A minimal cooperative runtime and its synchronisation primitives, as
//! sequential state machines: every operation takes the state it acts on,
//! changes it in one step and returns the wake-ups that the caller owes.
//!
//! Nothing in here blocks, reads a clock or starts a thread. A caller that
//! wants the primitives between threads keeps them under a lock and parks
//! the thread where an operation says `Blocked`; a caller that wants the
//! executor against the wall clock hands each pass the time.

pub mod channel;
pub mod futures;
pub mod history;
pub mod mtx;
pub mod pass;
pub mod scheduler;
pub mod semaphore;
pub mod spawn;
pub mod task;
pub mod waitq;

pub use spawn::{sleep, sleep_until, Executor};
