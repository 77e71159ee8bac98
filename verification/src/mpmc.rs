//! Lock-free multi-producer, multi-consumer channel.
//!
//! An unbounded MPMC channel built on:
//! - a lock-free Michael-Scott queue for message storage, and
//! - a lock-free waiter stack for parking and unparking blocked receivers.
//!
//! # Semantics
//!
//! - `send` succeeds while at least one [`Receiver`] is left.
//! - `recv` blocks until a message is available, or reports the disconnect when all
//!   [`Sender`] handles are closed and the queue is empty.
//! - `try_recv` does not block.
//! - `recv_timeout` blocks for at most the given time.
//!
//! The handles act on a [`Channel`], which is passed to each call. A call runs its operation
//! to the end; [`Channel::step`] runs operations side by side, one access at a time.
use vstd::prelude::*;

use core::marker::PhantomData;

use crate::error::{RecvError, RecvTimeoutError, SendError, TryRecvError};
use crate::mpmc_channel::Channel;
use crate::mpmc_history::Move;
use crate::mpmc_model::{sending, Act, ChannelView, Waiter};
use crate::mpmc_protocol::WaiterState;

verus! {

/// Sending side of the channel.
///
/// Cloning creates another producer handle.
#[derive(Debug)]
pub struct Sender<T> {
    messages: PhantomData<T>,
}

impl<T> Sender<T> {
    fn new() -> (sender: Self) {
        Sender { messages: PhantomData }
    }

    /// Sends a value into the channel and wakes a blocked receiver, if there is one.
    ///
    /// Returns [`SendError`] with the value when no receiver is left.
    pub fn send(&self, channel: &mut Channel<T>, msg: T) -> (result: Result<(), SendError<T>>)
        requires
            old(channel).wf(),
            old(channel)@.senders > 0,
        ensures
            final(channel).wf(),
            result == (if old(channel)@.receivers > 0 {
                Ok(())
            } else {
                Err(SendError(msg))
            }),
            final(channel)@ == (if old(channel)@.receivers > 0 {
                old(channel)@.enqueue(msg).notify_one()
            } else {
                old(channel)@
            }),
            final(channel)@.items == (if old(channel)@.receivers > 0 {
                old(channel)@.items.push(msg)
            } else {
                old(channel)@.items
            }),
            final(channel)@.senders == old(channel)@.senders,
            final(channel)@.receivers == old(channel)@.receivers,
            final(channel)@.ops == old(channel)@.ops,
            old(channel)@.moves_to(Move::Send(msg), final(channel)@),
            final(channel)@.sent == (if old(channel)@.receivers > 0 {
                old(channel)@.sent.push(msg)
            } else {
                old(channel)@.sent
            }),
            final(channel)@.received == old(channel)@.received,
            old(channel)@.receivers == 0 ==> final(channel)@ == old(channel)@,
    {
        channel.send(msg)
    }

    /// Creates another handle.
    pub fn clone(&self, channel: &mut Channel<T>) -> (sender: Self)
        requires
            old(channel).wf(),
            0 < old(channel)@.senders < usize::MAX,
        ensures
            final(channel).wf(),
            final(channel)@ == (ChannelView {
                senders: old(channel)@.senders + 1,
                ..old(channel)@
            }),
            old(channel)@.moves_to(Move::CloneSender, final(channel)@),
    {
        channel.increment_sender();
        Sender::new()
    }

    /// Gives the handle up. The last one wakes every blocked receiver, and is not given up while
    /// somebody sends with it.
    pub fn close(self, channel: &mut Channel<T>)
        requires
            old(channel).wf(),
            old(channel)@.senders > 0,
            old(channel)@.senders == 1 ==> !sending(old(channel)@),
        ensures
            final(channel).wf(),
            final(channel)@ == ({
                let v = ChannelView {
                    senders: (old(channel)@.senders - 1) as nat,
                    ..old(channel)@
                };
                if old(channel)@.senders == 1 {
                    v.notify_all()
                } else {
                    v
                }
            }),
            final(channel)@.items == old(channel)@.items,
            final(channel)@.senders == old(channel)@.senders - 1,
            final(channel)@.receivers == old(channel)@.receivers,
            final(channel)@.ops == old(channel)@.ops,
            old(channel)@.moves_to(Move::CloseSender, final(channel)@),
            final(channel)@.sent == old(channel)@.sent,
            final(channel)@.received == old(channel)@.received,
            old(channel)@.senders == 1 ==> final(channel)@.waiters.len() == 0,
            old(channel)@.senders > 1 ==> final(channel)@.waiters == old(channel)@.waiters && final(channel)@.registry == old(channel)@.registry,
    {
        channel.close_sender();
    }
}

/// Receiving side of the channel.
///
/// Cloning creates another consumer handle.
#[derive(Debug)]
pub struct Receiver<T> {
    messages: PhantomData<T>,
}

impl<T> Receiver<T> {
    fn new() -> (receiver: Self) {
        Receiver { messages: PhantomData }
    }

    /// Receives the next value.
    ///
    /// Returns [`RecvError`] only when no sender is left and the queue is empty. This call
    /// does not return while it is blocked; [`Channel::begin_recv`] starts a receive that
    /// blocks while other operations go on.
    pub fn recv(&self, channel: &mut Channel<T>) -> (result: Result<T, RecvError>)
        requires
            old(channel).wf(),
            old(channel)@.items.len() > 0 || old(channel)@.senders == 0,
        ensures
            final(channel).wf(),
            result == (if old(channel)@.items.len() > 0 {
                Ok(old(channel)@.items.first())
            } else {
                Err(RecvError)
            }),
            final(channel)@ == old(channel)@.dequeue(),
            old(channel)@.moves_to(Move::Recv(None), final(channel)@),
            final(channel)@.items == (if old(channel)@.items.len() > 0 {
                old(channel)@.items.drop_first()
            } else {
                old(channel)@.items
            }),
            final(channel)@.received == (if old(channel)@.items.len() > 0 {
                old(channel)@.received.push(old(channel)@.items[0])
            } else {
                old(channel)@.received
            }),
            final(channel)@.sent == old(channel)@.sent,
            final(channel)@.senders == old(channel)@.senders,
            final(channel)@.receivers == old(channel)@.receivers,
            final(channel)@.ops == old(channel)@.ops,
            final(channel)@.waiters == old(channel)@.waiters,
            final(channel)@.registry == old(channel)@.registry,
    {
        let mut clock: u64 = 0;
        match channel.recv(&mut clock, None) {
            Ok(msg) => Ok(msg),
            Err(_) => Err(RecvError),
        }
    }

    /// Attempts to receive without blocking.
    ///
    /// Returns
    /// - [`TryRecvError::Empty`] if the queue is empty and a sender is left,
    /// - [`TryRecvError::Disconnected`] if the queue is empty and no sender is left.
    pub fn try_recv(&self, channel: &mut Channel<T>) -> (result: Result<T, TryRecvError>)
        requires
            old(channel).wf(),
        ensures
            final(channel).wf(),
            result == (if old(channel)@.items.len() > 0 {
                Ok(old(channel)@.items.first())
            } else if old(channel)@.senders > 0 {
                Err(TryRecvError::Empty)
            } else {
                Err(TryRecvError::Disconnected)
            }),
            final(channel)@ == old(channel)@.dequeue(),
            old(channel)@.moves_to(Move::TryRecv, final(channel)@),
            final(channel)@.items == (if old(channel)@.items.len() > 0 {
                old(channel)@.items.drop_first()
            } else {
                old(channel)@.items
            }),
            final(channel)@.received == (if old(channel)@.items.len() > 0 {
                old(channel)@.received.push(old(channel)@.items[0])
            } else {
                old(channel)@.received
            }),
            final(channel)@.sent == old(channel)@.sent,
            final(channel)@.senders == old(channel)@.senders,
            final(channel)@.receivers == old(channel)@.receivers,
            final(channel)@.ops == old(channel)@.ops,
            final(channel)@.waiters == old(channel)@.waiters,
            final(channel)@.registry == old(channel)@.registry,
    {
        channel.try_recv()
    }

    /// Receives the next value, waiting up to `timeout`. `clock` tells the time: if the call
    /// has to wait it goes on by `timeout`, and not otherwise.
    ///
    /// Returns [`RecvTimeoutError::Timeout`] when the time is up before a value arrives. The
    /// waiter of such a receive stays on the stack until a send or the closing of the last
    /// sender takes it from there.
    pub fn recv_timeout(
        &self,
        channel: &mut Channel<T>,
        clock: &mut u64,
        timeout: u64,
    ) -> (result: Result<T, RecvTimeoutError>)
        requires
            old(channel).wf(),
            *old(clock) + timeout <= u64::MAX,
        ensures
            final(channel).wf(),
            result == (if old(channel)@.items.len() > 0 {
                Ok(old(channel)@.items.first())
            } else if old(channel)@.senders == 0 {
                Err(RecvTimeoutError::Disconnected)
            } else {
                Err(RecvTimeoutError::Timeout)
            }),
            final(channel)@ == (if old(channel)@.items.len() > 0 {
                old(channel)@.dequeue()
            } else if old(channel)@.senders == 0 {
                old(channel)@
            } else {
                old(channel)@.abandoned()
            }),
            old(channel)@.moves_to(
                Move::Recv(Some((*old(clock) + timeout) as u64)),
                final(channel)@,
            ),
            *final(clock) == (if old(channel)@.items.len() == 0 && old(channel)@.senders > 0 {
                *old(clock) + timeout
            } else {
                *old(clock) as int
            }),
            final(channel)@.items == (if old(channel)@.items.len() > 0 {
                old(channel)@.items.drop_first()
            } else {
                old(channel)@.items
            }),
            final(channel)@.received == (if old(channel)@.items.len() > 0 {
                old(channel)@.received.push(old(channel)@.items[0])
            } else {
                old(channel)@.received
            }),
            final(channel)@.sent == old(channel)@.sent,
            final(channel)@.senders == old(channel)@.senders,
            final(channel)@.receivers == old(channel)@.receivers,
            final(channel)@.ops == old(channel)@.ops,
            old(channel)@.items.len() > 0 || old(channel)@.senders == 0 ==> final(channel)@.waiters == old(
                channel,
            )@.waiters && final(channel)@.registry == old(channel)@.registry,
            old(channel)@.items.len() == 0 && old(channel)@.senders > 0 ==> {
                let w = final(channel)@.waiters.last();
                &&& final(channel)@.waiters == old(channel)@.waiters.push(w)
                &&& w < old(channel)@.registry.len() ==> old(channel)@.registry[w as int] is None
                &&& final(channel)@.registry[w as int] == Some(
                    Waiter { state: WaiterState::Cancelled, refs: 1, token: false },
                )
                &&& forall|x: int|
                    0 <= x < old(channel)@.registry.len() && x != w ==> #[trigger] final(channel)@.registry[x] == old(channel)@.registry[x]
            },
    {
        let deadline: u64 = *clock + timeout;
        channel.recv(clock, Some(deadline))
    }

    /// Returns a blocking iterator over the values received from the channel.
    ///
    /// The iterator yields messages until no sender is left and the queue is empty.
    pub fn iter(&self) -> (iter: Iter<'_, T>)
        ensures
            iter@ == self,
    {
        Iter { receiver: self }
    }

    /// Returns a non-blocking iterator over the values currently available.
    ///
    /// Iteration stops once the queue is empty.
    pub fn try_iter(&self) -> (iter: TryIter<'_, T>)
        ensures
            iter@ == self,
    {
        TryIter { receiver: self }
    }

    /// Creates another handle.
    pub fn clone(&self, channel: &mut Channel<T>) -> (receiver: Self)
        requires
            old(channel).wf(),
            0 < old(channel)@.receivers < usize::MAX,
        ensures
            final(channel).wf(),
            final(channel)@ == (ChannelView {
                receivers: old(channel)@.receivers + 1,
                ..old(channel)@
            }),
            old(channel)@.moves_to(Move::CloneReceiver, final(channel)@),
    {
        channel.increment_receiver();
        Receiver::new()
    }

    /// Gives the handle up.
    pub fn close(self, channel: &mut Channel<T>)
        requires
            old(channel).wf(),
            old(channel)@.receivers > 0,
        ensures
            final(channel).wf(),
            final(channel)@ == (ChannelView {
                receivers: (old(channel)@.receivers - 1) as nat,
                ..old(channel)@
            }),
            old(channel)@.moves_to(Move::CloseReceiver, final(channel)@),
    {
        channel.decrement_receiver();
    }
}

/// Blocking iterator made by [`Receiver::iter`].
#[derive(Debug)]
pub struct Iter<'a, T> {
    receiver: &'a Receiver<T>,
}

impl<'a, T> View for Iter<'a, T> {
    type V = &'a Receiver<T>;

    /// The receiver whose values it yields.
    closed spec fn view(&self) -> &'a Receiver<T> {
        self.receiver
    }
}

impl<'a, T> Iter<'a, T> {
    /// Receives the next value; `None` when no sender is left and the queue is empty.
    pub fn next(&mut self, channel: &mut Channel<T>) -> (item: Option<T>)
        requires
            old(channel).wf(),
            old(channel)@.items.len() > 0 || old(channel)@.senders == 0,
        ensures
            final(channel).wf(),
            final(self)@ == old(self)@,
            item == old(channel)@.front(),
            final(channel)@ == old(channel)@.dequeue(),
            item == (if old(channel)@.items.len() > 0 {
                Some(old(channel)@.items[0])
            } else {
                None
            }),
            final(channel)@.items == (if old(channel)@.items.len() > 0 {
                old(channel)@.items.drop_first()
            } else {
                old(channel)@.items
            }),
            final(channel)@.received == (if old(channel)@.items.len() > 0 {
                old(channel)@.received.push(old(channel)@.items[0])
            } else {
                old(channel)@.received
            }),
            final(channel)@.sent == old(channel)@.sent,
            final(channel)@.senders == old(channel)@.senders,
            final(channel)@.receivers == old(channel)@.receivers,
            final(channel)@.ops == old(channel)@.ops,
            final(channel)@.waiters == old(channel)@.waiters,
            final(channel)@.registry == old(channel)@.registry,
    {
        match self.receiver.recv(channel) {
            Ok(msg) => Some(msg),
            Err(_) => None,
        }
    }

    /// Receives all values that are left.
    pub fn collect(self, channel: &mut Channel<T>) -> (items: Vec<T>)
        requires
            old(channel).wf(),
            old(channel)@.senders == 0,
        ensures
            final(channel).wf(),
            items@ == old(channel)@.items,
            final(channel)@ == old(channel)@.drained(),
            final(channel)@.items.len() == 0,
            final(channel)@.received == old(channel)@.received + old(channel)@.items,
            final(channel)@.sent == old(channel)@.sent,
            final(channel)@.senders == old(channel)@.senders,
            final(channel)@.receivers == old(channel)@.receivers,
            final(channel)@.ops == old(channel)@.ops,
            final(channel)@.waiters == old(channel)@.waiters,
            final(channel)@.registry == old(channel)@.registry,
    {
        let mut iter = self;
        let mut items: Vec<T> = Vec::new();
        let ghost v = channel@;
        loop
            invariant
                channel.wf(),
                v == old(channel)@,
                channel@.senders == 0,
                items@ + channel@.items == v.items,
                channel@ == (ChannelView {
                    items: channel@.items,
                    received: v.received + items@,
                    ..v
                }),
            decreases channel@.items.len(),
        {
            let ghost u = channel@;
            let ghost taken = items@;
            match iter.next(channel) {
                Some(item) => {
                    items.push(item);
                    proof {
                        assert(items@ + channel@.items =~= taken + u.items);
                        assert(u.received.push(item) =~= v.received + items@);
                    }
                },
                None => {
                    proof {
                        assert(channel@.items =~= Seq::empty());
                        assert(items@ =~= v.items);
                    }
                    return items;
                },
            }
        }
    }
}

/// Non-blocking iterator made by [`Receiver::try_iter`].
#[derive(Debug)]
pub struct TryIter<'a, T> {
    receiver: &'a Receiver<T>,
}

impl<'a, T> View for TryIter<'a, T> {
    type V = &'a Receiver<T>;

    /// The receiver whose values it yields.
    closed spec fn view(&self) -> &'a Receiver<T> {
        self.receiver
    }
}

impl<'a, T> TryIter<'a, T> {
    /// Receives the next value; `None` when the queue is empty.
    pub fn next(&mut self, channel: &mut Channel<T>) -> (item: Option<T>)
        requires
            old(channel).wf(),
        ensures
            final(channel).wf(),
            final(self)@ == old(self)@,
            item == old(channel)@.front(),
            final(channel)@ == old(channel)@.dequeue(),
            item == (if old(channel)@.items.len() > 0 {
                Some(old(channel)@.items[0])
            } else {
                None
            }),
            final(channel)@.items == (if old(channel)@.items.len() > 0 {
                old(channel)@.items.drop_first()
            } else {
                old(channel)@.items
            }),
            final(channel)@.received == (if old(channel)@.items.len() > 0 {
                old(channel)@.received.push(old(channel)@.items[0])
            } else {
                old(channel)@.received
            }),
            final(channel)@.sent == old(channel)@.sent,
            final(channel)@.senders == old(channel)@.senders,
            final(channel)@.receivers == old(channel)@.receivers,
            final(channel)@.ops == old(channel)@.ops,
            final(channel)@.waiters == old(channel)@.waiters,
            final(channel)@.registry == old(channel)@.registry,
    {
        match self.receiver.try_recv(channel) {
            Ok(msg) => Some(msg),
            Err(_) => None,
        }
    }

    /// Receives all values that are available.
    pub fn collect(self, channel: &mut Channel<T>) -> (items: Vec<T>)
        requires
            old(channel).wf(),
        ensures
            final(channel).wf(),
            items@ == old(channel)@.items,
            final(channel)@ == old(channel)@.drained(),
            final(channel)@.items.len() == 0,
            final(channel)@.received == old(channel)@.received + old(channel)@.items,
            final(channel)@.sent == old(channel)@.sent,
            final(channel)@.senders == old(channel)@.senders,
            final(channel)@.receivers == old(channel)@.receivers,
            final(channel)@.ops == old(channel)@.ops,
            final(channel)@.waiters == old(channel)@.waiters,
            final(channel)@.registry == old(channel)@.registry,
    {
        let mut iter = self;
        let mut items: Vec<T> = Vec::new();
        let ghost v = channel@;
        loop
            invariant
                channel.wf(),
                v == old(channel)@,
                items@ + channel@.items == v.items,
                channel@ == (ChannelView {
                    items: channel@.items,
                    received: v.received + items@,
                    ..v
                }),
            decreases channel@.items.len(),
        {
            let ghost u = channel@;
            let ghost taken = items@;
            match iter.next(channel) {
                Some(item) => {
                    items.push(item);
                    proof {
                        assert(items@ + channel@.items =~= taken + u.items);
                        assert(u.received.push(item) =~= v.received + items@);
                    }
                },
                None => {
                    proof {
                        assert(channel@.items =~= Seq::empty());
                        assert(items@ =~= v.items);
                    }
                    return items;
                },
            }
        }
    }
}

/// Creates a channel with a handle for each side.
pub fn channel<T>() -> (made: (Sender<T>, Receiver<T>, Channel<T>))
    ensures
        made.2.wf(),
        made.2@ == ChannelView::<T>::fresh(),
        made.2@.items == Seq::<T>::empty(),
        made.2@.sent == Seq::<T>::empty(),
        made.2@.received == Seq::<T>::empty(),
        made.2@.senders == 1,
        made.2@.receivers == 1,
        made.2@.waiters == Seq::<usize>::empty(),
        made.2@.ops == Map::<int, Act<T>>::empty(),
{
    (Sender::new(), Receiver::new(), Channel::new())
}

} // verus!
