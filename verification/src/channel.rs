//! A first-in, first-out hand-off queue with many senders and receivers and
//! an explicit close.
//!
//! Nothing here blocks. A receive on an empty open queue records the
//! receiver as blocked and says so; a send returns the one receiver to wake
//! and a close returns all of them. A woken receiver asks again.

use crate::waitq::{with_waiter, without, lemma_without, WaitQueue};
use std::collections::VecDeque;
use vstd::prelude::*;

verus! {

/// Why an operation on a queue was refused.
#[derive(Clone, Copy, Debug, PartialEq, Eq, Structural)]
pub enum ChannelError {
    /// The queue has been closed.
    Closed,
}

/// What a receive came to.
#[derive(Debug, PartialEq, Eq)]
pub enum Recv<T> {
    /// The oldest item of the queue.
    Item(T),
    /// The queue is closed and holds nothing more.
    Finished,
    /// The queue is open and empty: the receiver now counts as blocked.
    Blocked,
}

/// The queue as a mathematical value: the items in arrival order, the
/// closed flag and the blocked receivers in arrival order.
#[verifier::ext_equal]
pub struct ChannelView<T> {
    pub items: Seq<T>,
    pub closed: bool,
    pub receivers: Seq<usize>,
}

/// One operation on a queue, for statements about histories.
pub enum ChannelOp<T> {
    Send(T),
    Recv(usize),
    Close,
}

impl<T> ChannelView<T> {
    /// An open queue without items or receivers.
    pub open spec fn init() -> ChannelView<T> {
        ChannelView { items: Seq::empty(), closed: false, receivers: Seq::empty() }
    }

    /// No receiver is recorded twice, and none is left blocked on a closed
    /// queue.
    pub open spec fn wf(self) -> bool {
        &&& self.receivers.no_duplicates()
        &&& self.closed ==> self.receivers.len() == 0
    }

    /// The queue after a send, and the answer: refused when closed, else the
    /// item goes to the tail and the first blocked receiver, if any, is
    /// released to be woken.
    pub open spec fn send(self, item: T) -> (ChannelView<T>, Result<Option<usize>, ChannelError>) {
        if self.closed {
            (self, Err(ChannelError::Closed))
        } else if self.receivers.len() > 0 {
            (
                ChannelView {
                    items: self.items.push(item),
                    closed: false,
                    receivers: self.receivers.drop_first(),
                },
                Ok(Some(self.receivers[0])),
            )
        } else {
            (
                ChannelView {
                    items: self.items.push(item),
                    closed: false,
                    receivers: self.receivers,
                },
                Ok(None),
            )
        }
    }

    /// The queue after `receiver` asked for an item, and the answer.
    pub open spec fn recv(self, receiver: usize) -> (ChannelView<T>, Recv<T>) {
        if self.items.len() > 0 {
            (
                ChannelView {
                    items: self.items.drop_first(),
                    closed: self.closed,
                    receivers: without(self.receivers, receiver),
                },
                Recv::Item(self.items[0]),
            )
        } else if self.closed {
            (self, Recv::Finished)
        } else {
            (
                ChannelView {
                    items: self.items,
                    closed: false,
                    receivers: with_waiter(self.receivers, receiver),
                },
                Recv::Blocked,
            )
        }
    }

    /// The queue after a close, and the receivers to wake: all that were
    /// blocked. The items stay.
    pub open spec fn close(self) -> (ChannelView<T>, Seq<usize>) {
        (ChannelView { items: self.items, closed: true, receivers: Seq::empty() }, self.receivers)
    }

    /// The queue after one operation.
    pub open spec fn step(self, op: ChannelOp<T>) -> ChannelView<T> {
        match op {
            ChannelOp::Send(item) => self.send(item).0,
            ChannelOp::Recv(receiver) => self.recv(receiver).0,
            ChannelOp::Close => self.close().0,
        }
    }

    /// The queue after the operations of `ops`, applied in order.
    pub open spec fn run(self, ops: Seq<ChannelOp<T>>) -> ChannelView<T>
        decreases ops.len(),
    {
        if ops.len() == 0 {
            self
        } else {
            self.run(ops.drop_last()).step(ops.last())
        }
    }

    /// The items that the sends of `ops` put in the queue, in order: those
    /// of the sends that were not refused.
    pub open spec fn accepted(self, ops: Seq<ChannelOp<T>>) -> Seq<T>
        decreases ops.len(),
    {
        if ops.len() == 0 {
            Seq::empty()
        } else {
            let before = self.accepted(ops.drop_last());
            match ops.last() {
                ChannelOp::Send(item) => if self.run(ops.drop_last()).closed {
                    before
                } else {
                    before.push(item)
                },
                _ => before,
            }
        }
    }

    /// The items that the receives of `ops` handed out, in order.
    pub open spec fn delivered(self, ops: Seq<ChannelOp<T>>) -> Seq<T>
        decreases ops.len(),
    {
        if ops.len() == 0 {
            Seq::empty()
        } else {
            let before = self.delivered(ops.drop_last());
            match ops.last() {
                ChannelOp::Recv(receiver) => match self.run(ops.drop_last()).recv(receiver).1 {
                    Recv::Item(item) => before.push(item),
                    _ => before,
                },
                _ => before,
            }
        }
    }

    /// The queue after each receiver of `receivers` has asked once, in order.
    pub open spec fn after_recvs(self, receivers: Seq<usize>) -> ChannelView<T>
        decreases receivers.len(),
    {
        if receivers.len() == 0 {
            self
        } else {
            self.after_recvs(receivers.drop_last()).recv(receivers.last()).0
        }
    }
}

/// Sends, receives and closes keep a queue well formed.
pub proof fn lemma_channel_steps_preserve_wf<T>(s: ChannelView<T>, item: T, receiver: usize)
    requires
        s.wf(),
    ensures
        s.send(item).0.wf(),
        s.recv(receiver).0.wf(),
        s.close().0.wf(),
{
    lemma_without(s.receivers, receiver);
}

/// One queue for all senders and receivers, first in, first out. Along
/// any history of sends, receives and closes, what the queue held at the
/// start followed by what was sent and not refused is what was handed out
/// followed by what the queue still holds: every item is handed out once
/// at most, none is lost, and the order of arrival is the order of
/// delivery.
pub proof fn lemma_queue_is_fifo<T>(s: ChannelView<T>, ops: Seq<ChannelOp<T>>)
    ensures
        s.items + s.accepted(ops) == s.delivered(ops) + s.run(ops).items,
        s.closed ==> s.run(ops).closed && s.accepted(ops).len() == 0,
    decreases ops.len(),
{
    if ops.len() > 0 {
        let before = ops.drop_last();
        let mid = s.run(before);
        lemma_queue_is_fifo(s, before);
        match ops.last() {
            ChannelOp::Send(item) => {
                if !mid.closed {
                    assert(s.items + s.accepted(before).push(item) =~= (s.items + s.accepted(
                        before,
                    )).push(item));
                    assert(s.delivered(before) + mid.items.push(item) =~= (s.delivered(before)
                        + mid.items).push(item));
                }
            },
            ChannelOp::Recv(receiver) => {
                if mid.items.len() > 0 {
                    let out = s.delivered(before);
                    assert(out.push(mid.items[0]) + mid.items.drop_first() =~= out + mid.items);
                }
            },
            ChannelOp::Close => {},
        }
    } else {
        assert(s.items + Seq::<T>::empty() =~= Seq::<T>::empty() + s.items);
    }
}

/// Closing is idempotent: a second close changes nothing and wakes nobody.
pub proof fn lemma_close_idempotent<T>(s: ChannelView<T>)
    ensures
        s.close().0.close().0 == s.close().0,
        s.close().0.close().1 == Seq::<usize>::empty(),
{
}

/// Once closed, a queue stays closed and refuses every send, whatever was
/// received in between; a refused send changes nothing.
pub proof fn lemma_send_after_close_fails<T>(s: ChannelView<T>, receivers: Seq<usize>, item: T)
    requires
        s.closed,
    ensures
        s.after_recvs(receivers).closed,
        s.after_recvs(receivers).send(item).1 == Err::<Option<usize>, ChannelError>(
            ChannelError::Closed,
        ),
        s.after_recvs(receivers).send(item).0 == s.after_recvs(receivers),
    decreases receivers.len(),
{
    if receivers.len() > 0 {
        lemma_send_after_close_fails(s, receivers.drop_last(), item);
    }
}

/// What was sent before a close is still handed out after it, oldest first:
/// on a closed queue, after `receivers.len()` receives the next one returns
/// the item at that place, and the end of the stream is reported only when
/// every item has been handed out.
pub proof fn lemma_closed_queue_drains_in_order<T>(
    s: ChannelView<T>,
    receivers: Seq<usize>,
    next: usize,
)
    requires
        s.wf(),
        s.closed,
    ensures
        s.close().0.items == s.items,
        receivers.len() <= s.items.len() ==> s.after_recvs(receivers).items == s.items.skip(
            receivers.len() as int,
        ),
        receivers.len() < s.items.len() ==> s.after_recvs(receivers).recv(next).1 == Recv::Item(
            s.items[receivers.len() as int],
        ),
        receivers.len() >= s.items.len() ==> s.after_recvs(receivers).recv(next).1
            == Recv::<T>::Finished,
        s.after_recvs(receivers).wf(),
        s.after_recvs(receivers).closed,
    decreases receivers.len(),
{
    if receivers.len() > 0 {
        let before = receivers.drop_last();
        lemma_closed_queue_drains_in_order(s, before, receivers.last());
        let t = s.after_recvs(before);
        lemma_without(t.receivers, receivers.last());
        if before.len() < s.items.len() {
            assert(t.items == s.items.skip(before.len() as int));
            assert(t.items.drop_first() =~= s.items.skip(receivers.len() as int));
        } else {
            assert(t.recv(receivers.last()).0 == t);
        }
    } else {
        assert(s.items.skip(0) =~= s.items);
    }
}

/// Closing loses nothing and ends the stream only after the last item.
/// Whatever a queue holds when it is closed is still handed out afterwards,
/// oldest first, while every send is refused; a receive reports the end of
/// the stream exactly when all of it has been handed out.
pub proof fn lemma_items_survive_close<T>(
    s: ChannelView<T>,
    receivers: Seq<usize>,
    next: usize,
    item: T,
)
    requires
        s.wf(),
    ensures
        s.close().0.items == s.items,
        s.close().0.after_recvs(receivers).send(item).1 == Err::<Option<usize>, ChannelError>(
            ChannelError::Closed,
        ),
        receivers.len() < s.items.len() ==> s.close().0.after_recvs(receivers).recv(next).1
            == Recv::Item(s.items[receivers.len() as int]),
        receivers.len() >= s.items.len() <==> s.close().0.after_recvs(receivers).recv(next).1
            == Recv::<T>::Finished,
{
    let closed = s.close().0;
    lemma_send_after_close_fails(closed, receivers, item);
    lemma_closed_queue_drains_in_order(closed, receivers, next);
}

/// A hand-off queue of items of type `T`.
pub struct AvtanChannel<T> {
    queue: VecDeque<T>,
    closed: bool,
    receivers: WaitQueue,
}

impl<T> View for AvtanChannel<T> {
    type V = ChannelView<T>;

    closed spec fn view(&self) -> ChannelView<T> {
        ChannelView { items: self.queue@, closed: self.closed, receivers: self.receivers@ }
    }
}

impl<T> AvtanChannel<T> {
    /// What holds of every queue that this module hands out.
    pub closed spec fn wf(&self) -> bool {
        &&& self.receivers.wf()
        &&& self.closed ==> self.receivers@.len() == 0
    }

    /// The model of a well-formed queue is well formed.
    pub proof fn lemma_view_wf(&self)
        requires
            self.wf(),
        ensures
            self@.wf(),
    {
    }

    /// An open, empty queue.
    pub fn new() -> (c: AvtanChannel<T>)
        ensures
            c.wf(),
            c@ == ChannelView::<T>::init(),
    {
        AvtanChannel { queue: VecDeque::new(), closed: false, receivers: WaitQueue::new() }
    }

    /// Whether the queue has been closed.
    pub fn is_closed(&self) -> (b: bool)
        ensures
            b == self@.closed,
    {
        self.closed
    }

    /// The number of items waiting to be received.
    pub fn len(&self) -> (n: usize)
        ensures
            n == self@.items.len(),
    {
        self.queue.len()
    }

    /// Appends `item` unless the queue is closed. On success returns the one
    /// blocked receiver to wake, if any is blocked.
    pub fn send(&mut self, item: T) -> (r: Result<Option<usize>, ChannelError>)
        requires
            old(self).wf(),
        ensures
            final(self).wf(),
            final(self)@ == old(self)@.send(item).0,
            r == old(self)@.send(item).1,
            r is Err <==> old(self)@.closed,
    {
        if self.closed {
            return Err(ChannelError::Closed);
        }
        self.queue.push_back(item);
        Ok(self.receivers.dequeue())
    }

    /// Hands out the oldest item. With none left, reports the end of the
    /// stream on a closed queue and records `receiver` as blocked on an open
    /// one.
    pub fn recv(&mut self, receiver: usize) -> (r: Recv<T>)
        requires
            old(self).wf(),
        ensures
            final(self).wf(),
            final(self)@ == old(self)@.recv(receiver).0,
            r == old(self)@.recv(receiver).1,
            r is Finished <==> old(self)@.closed && old(self)@.items.len() == 0,
            r is Blocked <==> !old(self)@.closed && old(self)@.items.len() == 0,
    {
        proof {
            lemma_without(self.receivers@, receiver);
        }
        match self.queue.pop_front() {
            Some(item) => {
                let _ = self.receivers.remove(receiver);
                Recv::Item(item)
            },
            None => {
                if self.closed {
                    Recv::Finished
                } else {
                    let _ = self.receivers.enqueue(receiver);
                    Recv::Blocked
                }
            },
        }
    }

    /// Marks the queue closed and returns every blocked receiver, to be
    /// woken. Closing a closed queue changes nothing.
    pub fn close(&mut self) -> (wake: Vec<usize>)
        requires
            old(self).wf(),
        ensures
            final(self).wf(),
            final(self)@ == old(self)@.close().0,
            wake@ == old(self)@.close().1,
    {
        self.closed = true;
        self.receivers.drain()
    }
}

} // verus!
