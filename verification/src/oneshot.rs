//! A oneshot channel for sending a single value between threads.
//!
//! The channel is created with [`channel`], which returns a [`Sender`] and a [`Receiver`].
//! Both halves are consumed on use, so that each of them is used once.
//!
//! The handles act on a [`Channel`], which is passed to each call. A call runs its side to
//! the end; [`Channel::step_sender`] and [`Channel::step_receiver`] run both sides side by
//! side, one access at a time.
use vstd::prelude::*;

use core::marker::PhantomData;

use crate::error::{RecvError, RecvTimeoutError, SendError, TryRecvError};
use crate::oneshot_channel::{Channel, ChannelView, Fate};
use crate::oneshot_history::Move;
use crate::oneshot_protocol::Flags;

verus! {

/// The sending half of a oneshot channel.
///
/// Consumed on [`send`](Sender::send), or closed to tell the receiver that nothing comes.
#[derive(Debug)]
pub struct Sender<T> {
    value: PhantomData<T>,
}

impl<T> Sender<T> {
    fn new() -> (sender: Self) {
        Sender { value: PhantomData }
    }

    /// Sends `msg` through the channel, consuming the sender.
    ///
    /// Returns `Err(SendError(msg))` if the receiver has been closed.
    pub fn send(self, channel: &mut Channel<T>, msg: T) -> (result: Result<(), SendError<T>>)
        requires
            old(channel).wf(),
            old(channel)@.sender is Idle,
        ensures
            final(channel).wf(),
            result == (if old(channel)@.flags.receiver_closed {
                Err(SendError(msg))
            } else {
                Ok(())
            }),
            final(channel)@ == old(channel)@.after_send(msg),
            final(channel)@.flags.sent,
            final(channel)@.flags.sender_closed,
            final(channel)@.flags.receiver_closed == old(channel)@.flags.receiver_closed,
            final(channel)@.flags.waiting == old(channel)@.flags.waiting,
            final(channel)@.flags.received == old(channel)@.flags.received,
            final(channel)@.written == Some(msg),
            final(channel)@.sender is Gone,
            final(channel)@.receiver == old(channel)@.receiver,
            final(channel)@.shares + 1 == old(channel)@.shares,
            old(channel)@.flags.receiver_closed ==> final(channel)@.data is None && final(channel)@.fate
                == Some(Fate::Returned) && final(channel)@.thread == old(channel)@.thread,
            !old(channel)@.flags.receiver_closed ==> final(channel)@.data == Some(msg) && final(channel)@.fate
                is None,
            !old(channel)@.flags.receiver_closed && old(channel)@.flags.waiting ==> final(channel)@.thread
                == Some(true),
            !old(channel)@.flags.receiver_closed && !old(channel)@.flags.waiting ==> final(channel)@.thread
                == old(channel)@.thread,
            old(channel)@.moves_to(Move::Send(msg), final(channel)@),
    {
        channel.send(msg)
    }

    /// Gives the handle up without sending.
    pub fn close(self, channel: &mut Channel<T>)
        requires
            old(channel).wf(),
            old(channel)@.sender is Idle,
        ensures
            final(channel).wf(),
            final(channel)@ == old(channel)@.after_close_sender(),
            final(channel)@.flags == (Flags { sender_closed: true, ..old(channel)@.flags }),
            final(channel)@.data == old(channel)@.data,
            final(channel)@.written == old(channel)@.written,
            final(channel)@.fate == old(channel)@.fate,
            final(channel)@.sender is Gone,
            final(channel)@.receiver == old(channel)@.receiver,
            final(channel)@.shares + 1 == old(channel)@.shares,
            !old(channel)@.flags.receiver_closed && old(channel)@.flags.waiting ==> final(channel)@.thread
                == Some(true),
            old(channel)@.flags.receiver_closed || !old(channel)@.flags.waiting ==> final(channel)@.thread
                == old(channel)@.thread,
            old(channel)@.moves_to(Move::CloseSender, final(channel)@),
    {
        channel.close_sender();
    }
}

/// The receiving half of a oneshot channel.
///
/// All receive methods consume the receiver.
#[derive(Debug)]
pub struct Receiver<T> {
    value: PhantomData<T>,
}

impl<T> Receiver<T> {
    fn new() -> (receiver: Self) {
        Receiver { value: PhantomData }
    }

    /// Receives the value, or reports that the sender was closed.
    ///
    /// This call does not return while it is blocked; [`Channel::begin_recv`] starts a
    /// receive that blocks while the sender goes on.
    pub fn recv(self, channel: &mut Channel<T>) -> (result: Result<T, RecvError>)
        requires
            old(channel).wf(),
            old(channel)@.receiver is Idle,
            old(channel)@.flags.sender_closed,
        ensures
            final(channel).wf(),
            result == (if old(channel)@.flags.sent {
                Ok(old(channel)@.data->0)
            } else {
                Err(RecvError)
            }),
            final(channel)@ == old(channel)@.after_recv(),
            final(channel)@.flags.sent == old(channel)@.flags.sent,
            final(channel)@.flags.sender_closed == old(channel)@.flags.sender_closed,
            final(channel)@.flags.receiver_closed,
            final(channel)@.written == old(channel)@.written,
            final(channel)@.sender == old(channel)@.sender,
            final(channel)@.receiver is Gone,
            final(channel)@.shares + 1 == old(channel)@.shares,
            old(channel)@.flags.sent ==> final(channel)@.data is None && final(channel)@.fate == Some(
                Fate::Received,
            ),
            !old(channel)@.flags.sent ==> final(channel)@.data == old(channel)@.data && final(channel)@.fate
                == old(channel)@.fate,
            final(channel)@.flags.received == old(channel)@.flags.sent,
            final(channel)@.flags.waiting,
            final(channel)@.thread == Some(false),
            old(channel)@.moves_to(Move::Recv(None), final(channel)@),
    {
        let mut clock: u64 = 0;
        match channel.recv(&mut clock, None) {
            Ok(msg) => Ok(msg),
            Err(_) => Err(RecvError),
        }
    }

    /// Returns the value if it has already been sent, without blocking.
    ///
    /// Returns
    /// - [`TryRecvError::Empty`] if nothing has been sent and the sender is not closed,
    /// - [`TryRecvError::Disconnected`] if the sender was closed without sending.
    pub fn try_recv(self, channel: &mut Channel<T>) -> (result: Result<T, TryRecvError>)
        requires
            old(channel).wf(),
            old(channel)@.receiver is Idle,
        ensures
            final(channel).wf(),
            result == old(channel)@.try_recv_answer(),
            old(channel)@.flags.sent ==> result == Ok::<T, TryRecvError>(old(channel)@.data->0) && old(channel)@.data
                == old(channel)@.written && old(channel)@.data is Some,
            !old(channel)@.flags.sent && old(channel)@.flags.sender_closed ==> result == Err::<T, TryRecvError>(
                TryRecvError::Disconnected,
            ),
            !old(channel)@.flags.sent && !old(channel)@.flags.sender_closed ==> result == Err::<T, TryRecvError>(
                TryRecvError::Empty,
            ),
            final(channel)@ == old(channel)@.after_try_recv(),
            final(channel)@.flags.sent == old(channel)@.flags.sent,
            final(channel)@.flags.sender_closed == old(channel)@.flags.sender_closed,
            final(channel)@.flags.receiver_closed,
            final(channel)@.written == old(channel)@.written,
            final(channel)@.sender == old(channel)@.sender,
            final(channel)@.receiver is Gone,
            final(channel)@.shares + 1 == old(channel)@.shares,
            old(channel)@.flags.sent ==> final(channel)@.data is None && final(channel)@.fate == Some(
                Fate::Received,
            ),
            !old(channel)@.flags.sent ==> final(channel)@.data == old(channel)@.data && final(channel)@.fate
                == old(channel)@.fate,
            final(channel)@.flags.received == old(channel)@.flags.sent,
            final(channel)@.flags.waiting == old(channel)@.flags.waiting,
            final(channel)@.thread == old(channel)@.thread,
            old(channel)@.moves_to(Move::TryRecv, final(channel)@),
    {
        channel.try_recv()
    }

    /// Waits for a value for at most `timeout`. `clock` tells the time: if the call has to wait
    /// it goes on by `timeout`, and not otherwise.
    pub fn recv_timeout(
        self,
        channel: &mut Channel<T>,
        clock: &mut u64,
        timeout: u64,
    ) -> (result: Result<T, RecvTimeoutError>)
        requires
            old(channel).wf(),
            old(channel)@.receiver is Idle,
            *old(clock) + timeout <= u64::MAX,
        ensures
            final(channel).wf(),
            result == old(channel)@.recv_answer(),
            old(channel)@.flags.sent ==> result == Ok::<T, RecvTimeoutError>(old(channel)@.data->0) && old(channel)@.data
                == old(channel)@.written && old(channel)@.data is Some,
            !old(channel)@.flags.sent && old(channel)@.flags.sender_closed ==> result == Err::<T, RecvTimeoutError>(
                RecvTimeoutError::Disconnected,
            ),
            !old(channel)@.flags.sent && !old(channel)@.flags.sender_closed ==> result == Err::<T, RecvTimeoutError>(
                RecvTimeoutError::Timeout,
            ),
            final(channel)@ == old(channel)@.after_recv(),
            final(channel)@.flags.sent == old(channel)@.flags.sent,
            final(channel)@.flags.sender_closed == old(channel)@.flags.sender_closed,
            final(channel)@.flags.receiver_closed,
            final(channel)@.written == old(channel)@.written,
            final(channel)@.sender == old(channel)@.sender,
            final(channel)@.receiver is Gone,
            final(channel)@.shares + 1 == old(channel)@.shares,
            old(channel)@.flags.sent ==> final(channel)@.data is None && final(channel)@.fate == Some(
                Fate::Received,
            ),
            !old(channel)@.flags.sent ==> final(channel)@.data == old(channel)@.data && final(channel)@.fate
                == old(channel)@.fate,
            final(channel)@.flags.received == old(channel)@.flags.sent,
            final(channel)@.flags.waiting,
            final(channel)@.thread == Some(false),
            old(channel)@.moves_to(
                Move::Recv(Some((*old(clock) + timeout) as u64)),
                final(channel)@,
            ),
            *final(clock) == (if !old(channel)@.flags.sent && !old(channel)@.flags.sender_closed {
                *old(clock) + timeout
            } else {
                *old(clock) as int
            }),
    {
        let deadline: u64 = *clock + timeout;
        self.recv_deadline(channel, clock, deadline)
    }

    /// Waits for a value until `deadline` at most. `clock` tells the time: if the call has to
    /// wait it goes on to the deadline, unless that has passed, and not otherwise.
    pub fn recv_deadline(
        self,
        channel: &mut Channel<T>,
        clock: &mut u64,
        deadline: u64,
    ) -> (result: Result<T, RecvTimeoutError>)
        requires
            old(channel).wf(),
            old(channel)@.receiver is Idle,
        ensures
            final(channel).wf(),
            result == old(channel)@.recv_answer(),
            old(channel)@.flags.sent ==> result == Ok::<T, RecvTimeoutError>(old(channel)@.data->0) && old(channel)@.data
                == old(channel)@.written && old(channel)@.data is Some,
            !old(channel)@.flags.sent && old(channel)@.flags.sender_closed ==> result == Err::<T, RecvTimeoutError>(
                RecvTimeoutError::Disconnected,
            ),
            !old(channel)@.flags.sent && !old(channel)@.flags.sender_closed ==> result == Err::<T, RecvTimeoutError>(
                RecvTimeoutError::Timeout,
            ),
            final(channel)@ == old(channel)@.after_recv(),
            final(channel)@.flags.sent == old(channel)@.flags.sent,
            final(channel)@.flags.sender_closed == old(channel)@.flags.sender_closed,
            final(channel)@.flags.receiver_closed,
            final(channel)@.written == old(channel)@.written,
            final(channel)@.sender == old(channel)@.sender,
            final(channel)@.receiver is Gone,
            final(channel)@.shares + 1 == old(channel)@.shares,
            old(channel)@.flags.sent ==> final(channel)@.data is None && final(channel)@.fate == Some(
                Fate::Received,
            ),
            !old(channel)@.flags.sent ==> final(channel)@.data == old(channel)@.data && final(channel)@.fate
                == old(channel)@.fate,
            final(channel)@.flags.received == old(channel)@.flags.sent,
            final(channel)@.flags.waiting,
            final(channel)@.thread == Some(false),
            old(channel)@.moves_to(Move::Recv(Some(deadline)), final(channel)@),
            *final(clock) == (if !old(channel)@.flags.sent && !old(channel)@.flags.sender_closed
                && *old(clock) < deadline {
                deadline
            } else {
                *old(clock)
            }),
    {
        channel.recv(clock, Some(deadline))
    }

    /// Gives the handle up without receiving; a value that is in the channel is dropped.
    pub fn close(self, channel: &mut Channel<T>)
        requires
            old(channel).wf(),
            old(channel)@.receiver is Idle,
        ensures
            final(channel).wf(),
            final(channel)@ == old(channel)@.after_close_receiver(),
            final(channel)@.flags.sent == old(channel)@.flags.sent,
            final(channel)@.flags.sender_closed == old(channel)@.flags.sender_closed,
            final(channel)@.flags.receiver_closed,
            final(channel)@.written == old(channel)@.written,
            final(channel)@.sender == old(channel)@.sender,
            final(channel)@.receiver is Gone,
            final(channel)@.shares + 1 == old(channel)@.shares,
            old(channel)@.flags.sent ==> final(channel)@.data is None && final(channel)@.fate == Some(
                Fate::Dropped,
            ),
            !old(channel)@.flags.sent ==> final(channel)@.data == old(channel)@.data && final(channel)@.fate
                == old(channel)@.fate,
            final(channel)@.flags.received == old(channel)@.flags.received,
            final(channel)@.flags.waiting == old(channel)@.flags.waiting,
            final(channel)@.thread == old(channel)@.thread,
            old(channel)@.moves_to(Move::CloseReceiver, final(channel)@),
    {
        channel.close_receiver();
    }
}

/// Creates a oneshot channel with both halves.
pub fn channel<T>() -> (made: (Sender<T>, Receiver<T>, Channel<T>))
    ensures
        made.2.wf(),
        made.2@ == ChannelView::<T>::fresh(),
        !made.2@.flags.sent && !made.2@.flags.sender_closed && !made.2@.flags.receiver_closed,
        !made.2@.flags.waiting && !made.2@.flags.received,
        made.2@.data is None && made.2@.written is None && made.2@.fate is None && made.2@.thread is None,
        made.2@.shares == 2,
        made.2@.sender is Idle,
        made.2@.receiver is Idle,
{
    (Sender::new(), Receiver::new(), Channel::new())
}

} // verus!
