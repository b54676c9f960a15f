//! Two small computations: one that needs a fixed number of steps and wakes
//! itself after each, and one that waits for a value that somebody else
//! supplies.

use crate::task::{Computation, Context, ContextView, Poll};
use vstd::prelude::*;
use vstd::utf8::{decode_utf8, valid_utf8};

verus! {

/// The number of steps that an `AvtanFuture` takes to finish.
pub const AVTAN_STEPS: i32 = 5;

/// A computation that counts its steps and finishes with the count at the
/// fifth. After every earlier step it asks to be resumed again.
pub struct AvtanFuture {
    count: i32,
}

impl AvtanFuture {
    /// The number of steps made so far.
    pub closed spec fn steps(&self) -> int {
        self.count as int
    }

    /// A computation that has made no step.
    pub fn new() -> (f: AvtanFuture)
        ensures
            f.steps() == 0,
    {
        AvtanFuture { count: 0 }
    }

    /// The number of steps made so far.
    pub fn count(&self) -> (n: i32)
        ensures
            n == self.steps(),
    {
        self.count
    }
}

impl Computation for AvtanFuture {
    type Output = i32;

    /// Counts the step. Before the fifth it wakes its own task and stays
    /// pending; from the fifth on it is ready with the count. The count
    /// stops at the largest number it can hold.
    fn resume(&mut self, cx: &mut Context) -> (r: Poll<i32>)
        ensures
            final(self).steps() == if old(self).steps() < i32::MAX {
                old(self).steps() + 1
            } else {
                old(self).steps()
            },
            r is Pending <==> final(self).steps() < AVTAN_STEPS,
            r matches Poll::Ready(n) ==> n == final(self).steps() && final(cx)@ == old(cx)@,
            r is Pending ==> final(cx)@ == (ContextView {
                wakes: old(cx)@.wakes.push(old(cx)@.task),
                ..old(cx)@
            }),
    {
        if self.count < i32::MAX {
            self.count += 1;
        }
        if self.count < AVTAN_STEPS {
            cx.wake_by_ref();
            Poll::Pending
        } else {
            Poll::Ready(self.count)
        }
    }
}

/// `String::from_utf8` of the standard library. It succeeds exactly on
/// well-formed UTF-8 and the string then holds the text that the bytes
/// encode; on failure the error gives the same bytes back.
#[verifier::external_body]
fn string_from_utf8(bytes: Vec<u8>) -> (r: Result<String, Vec<u8>>)
    ensures
        match r {
            Ok(text) => valid_utf8(bytes@) && text@ == decode_utf8(bytes@),
            Err(back) => !valid_utf8(bytes@) && back@ == bytes@,
        },
{
    match String::from_utf8(bytes) {
        Ok(text) => Ok(text),
        Err(error) => Err(error.into_bytes()),
    }
}

/// The meeting point of a waiting task and the supplier of its value, as a
/// mathematical value: the text that has arrived and was not yet taken, and
/// the task to notify when a text arrives.
pub struct SharedFutureView {
    pub data: Option<Seq<char>>,
    pub waker: Option<usize>,
}

/// The meeting point of a waiting task and the supplier of its value.
pub struct SharedFutureState {
    data: Option<String>,
    waker: Option<usize>,
}

impl View for SharedFutureState {
    type V = SharedFutureView;

    closed spec fn view(&self) -> SharedFutureView {
        SharedFutureView {
            data: match self.data {
                Some(text) => Some(text@),
                None => None,
            },
            waker: self.waker,
        }
    }
}

impl SharedFutureState {
    /// A state without a value and without a waiting task.
    pub fn new() -> (s: SharedFutureState)
        ensures
            s@ == (SharedFutureView { data: None, waker: None }),
    {
        SharedFutureState { data: None, waker: None }
    }

    /// Whether a value has arrived and was not yet taken.
    pub fn is_ready(&self) -> (b: bool)
        ensures
            b == self@.data is Some,
    {
        self.data.is_some()
    }

    /// Supplies the value as UTF-8. Well-formed bytes become the text to
    /// hand out, replacing one not yet taken, and the waiting task, if any,
    /// is returned to be notified and forgotten. Other bytes are given back
    /// and change nothing.
    pub fn complete(&mut self, bytes: Vec<u8>) -> (r: Result<Option<usize>, Vec<u8>>)
        ensures
            valid_utf8(bytes@) ==> r == Ok::<Option<usize>, Vec<u8>>(old(self)@.waker)
                && final(self)@ == (SharedFutureView {
                data: Some(decode_utf8(bytes@)),
                waker: None,
            }),
            !valid_utf8(bytes@) ==> (r matches Err(back) && back@ == bytes@) && final(self)@ == old(
                self,
            )@,
    {
        match string_from_utf8(bytes) {
            Ok(text) => {
                self.data = Some(text);
                let waker = self.waker;
                self.waker = None;
                Ok(waker)
            },
            Err(back) => Err(back),
        }
    }

    /// One step of the waiting side on behalf of `task`. Takes the text if
    /// one has arrived. Otherwise records `task` as the one to notify, in
    /// the place of any earlier one, and stays pending.
    pub fn poll(&mut self, task: usize) -> (r: Poll<String>)
        ensures
            match old(self)@.data {
                Some(text) => (r matches Poll::Ready(out) && out@ == text) && final(self)@ == (
                SharedFutureView { data: None, waker: old(self)@.waker }),
                None => r is Pending && final(self)@ == (SharedFutureView {
                    data: None,
                    waker: Some(task),
                }),
            },
    {
        match self.data.take() {
            Some(text) => Poll::Ready(text),
            None => {
                self.waker = Some(task);
                Poll::Pending
            },
        }
    }
}

/// A computation that finishes with a text once somebody has supplied it.
pub struct AvtanSharedFuture {
    state: SharedFutureState,
}

impl View for AvtanSharedFuture {
    type V = SharedFutureView;

    closed spec fn view(&self) -> SharedFutureView {
        self.state@
    }
}

impl AvtanSharedFuture {
    /// A computation that waits for its value.
    pub fn new() -> (f: AvtanSharedFuture)
        ensures
            f@ == (SharedFutureView { data: None, waker: None }),
    {
        AvtanSharedFuture { state: SharedFutureState::new() }
    }

    /// Supplies the value, as `SharedFutureState::complete` does.
    pub fn complete(&mut self, bytes: Vec<u8>) -> (r: Result<Option<usize>, Vec<u8>>)
        ensures
            valid_utf8(bytes@) ==> r == Ok::<Option<usize>, Vec<u8>>(old(self)@.waker)
                && final(self)@ == (SharedFutureView {
                data: Some(decode_utf8(bytes@)),
                waker: None,
            }),
            !valid_utf8(bytes@) ==> (r matches Err(back) && back@ == bytes@) && final(self)@ == old(
                self,
            )@,
    {
        self.state.complete(bytes)
    }
}

impl Computation for AvtanSharedFuture {
    type Output = String;

    /// Ready with the text if it has arrived; otherwise pending, with the
    /// task of the step recorded as the one to notify.
    fn resume(&mut self, cx: &mut Context) -> (r: Poll<String>)
        ensures
            final(cx)@ == old(cx)@,
            match old(self)@.data {
                Some(text) => (r matches Poll::Ready(out) && out@ == text) && final(self)@ == (
                SharedFutureView { data: None, waker: old(self)@.waker }),
                None => r is Pending && final(self)@ == (SharedFutureView {
                    data: None,
                    waker: Some(old(cx)@.task),
                }),
            },
    {
        self.state.poll(cx.task())
    }
}

} // verus!
