//! What each step of either side of a channel of [`crate::oneshot`] means for its caller.
use vstd::prelude::*;

use crate::error::{RecvTimeoutError, SendError, TryRecvError};
use crate::oneshot_channel::{ChannelView, Fate, Received, ReceiverAct, SenderAct};
use crate::oneshot_protocol::{
    law_flags, CloseState, Flags, RecvState, SendState, TryRecvState,
};

verus! {

impl<T> ChannelView<T> {
    /// A new channel holds nothing, no flag is set, and neither side has been used or closed,
    /// whatever the type of the value is.
    pub proof fn law_new_channel_is_unused()
        ensures
            !ChannelView::<T>::fresh().flags.sent,
            !ChannelView::<T>::fresh().flags.sender_closed,
            !ChannelView::<T>::fresh().flags.receiver_closed,
            !ChannelView::<T>::fresh().flags.waiting,
            !ChannelView::<T>::fresh().flags.received,
            ChannelView::<T>::fresh().data is None,
            ChannelView::<T>::fresh().written is None,
            ChannelView::<T>::fresh().fate is None,
            ChannelView::<T>::fresh().thread is None,
            ChannelView::<T>::fresh().shares == 2,
            ChannelView::<T>::fresh().sender is Idle,
            ChannelView::<T>::fresh().receiver is Idle,
            ChannelView::<T>::fresh().inv(),
    {
        law_flags(0);
    }

    /// A new channel passes a value on: a send on it puts the value in, and either receive then
    /// gets it. Before the send there is nothing to receive and the sender is not gone; if the
    /// sender is closed instead, either receive reports the disconnect; if the receiver is closed
    /// instead, the value does not get in.
    pub proof fn law_new_channel_passes_the_value_on(msg: T)
        ensures
            ChannelView::<T>::fresh().after_send(msg).data == Some(msg),
            ChannelView::<T>::fresh().after_send(msg).fate is None,
            ChannelView::<T>::fresh().after_send(msg).recv_answer() == Ok::<T, RecvTimeoutError>(
                msg,
            ),
            ChannelView::<T>::fresh().after_send(msg).try_recv_answer() == Ok::<T, TryRecvError>(
                msg,
            ),
            ChannelView::<T>::fresh().recv_answer() == Err::<T, RecvTimeoutError>(
                RecvTimeoutError::Timeout,
            ),
            ChannelView::<T>::fresh().try_recv_answer() == Err::<T, TryRecvError>(
                TryRecvError::Empty,
            ),
            ChannelView::<T>::fresh().after_close_sender().recv_answer() == Err::<
                T,
                RecvTimeoutError,
            >(RecvTimeoutError::Disconnected),
            ChannelView::<T>::fresh().after_close_sender().try_recv_answer() == Err::<
                T,
                TryRecvError,
            >(TryRecvError::Disconnected),
            ChannelView::<T>::fresh().after_close_receiver().flags.receiver_closed,
            ChannelView::<T>::fresh().after_close_receiver().after_send(msg).data is None,
    {
        law_flags(0);
    }

    /// Either receive answers by what the sender has done: the value if it was sent, the
    /// disconnect if the sender is closed and sent nothing, and else that nothing has come.
    pub proof fn law_receive_answers_what_the_sender_did(self)
        ensures
            self.flags.sent ==> self.recv_answer() == Ok::<T, RecvTimeoutError>(self.data->0),
            self.flags.sent ==> self.try_recv_answer() == Ok::<T, TryRecvError>(self.data->0),
            self.recv_answer() is Ok ==> self.flags.sent,
            self.try_recv_answer() is Ok ==> self.flags.sent,
            self.recv_answer() == Err::<T, RecvTimeoutError>(RecvTimeoutError::Disconnected) <==>
                self.flags.sender_closed && !self.flags.sent,
            self.try_recv_answer() == Err::<T, TryRecvError>(TryRecvError::Disconnected) <==>
                self.flags.sender_closed && !self.flags.sent,
            self.recv_answer() == Err::<T, RecvTimeoutError>(RecvTimeoutError::Timeout) <==>
                !self.flags.sender_closed && !self.flags.sent,
            self.try_recv_answer() == Err::<T, TryRecvError>(TryRecvError::Empty) <==>
                !self.flags.sender_closed && !self.flags.sent,
    {
    }

    /// A receive that may wait and one that may not tell the same of a channel: they get the
    /// same value, or both report the disconnect, or both that nothing has come.
    pub proof fn law_both_receives_agree(self)
        ensures
            match (self.recv_answer(), self.try_recv_answer()) {
                (Ok(a), Ok(b)) => a == b,
                (Err(RecvTimeoutError::Disconnected), Err(TryRecvError::Disconnected)) => true,
                (Err(RecvTimeoutError::Timeout), Err(TryRecvError::Empty)) => true,
                _ => false,
            },
    {
    }

    /// A send writes its value first. Then it is refused exactly if the receiver is closed, and
    /// else wakes the receiver exactly if that waits. The value is handed back only if it is
    /// refused, and what the send has decided on it returns.
    pub proof fn law_send_is_taken_or_refused(self)
        ensures
            self.sender matches SenderAct::Send(SendState::Write { msg }) ==> self.next_sender()
                == (ChannelView {
                data: Some(msg),
                written: Some(msg),
                sender: SenderAct::Send(SendState::Publish),
                ..self
            }),
            self.sender == SenderAct::<T>::Send(SendState::Publish) ==> self.next_sender() == (
            ChannelView {
                flags: Flags { sent: true, sender_closed: true, ..self.flags },
                sender: if self.flags.receiver_closed {
                    SenderAct::Send(SendState::TakeBack)
                } else if self.flags.waiting {
                    SenderAct::Send(SendState::Unpark)
                } else {
                    SenderAct::Send(SendState::LetGo { result: Ok(()) })
                },
                ..self
            }),
            self.sender == SenderAct::<T>::Send(SendState::TakeBack) ==> self.next_sender() == (
            ChannelView {
                data: None,
                fate: Some(Fate::Returned),
                sender: SenderAct::Send(SendState::LetGo { result: Err(SendError(self.data->0)) }),
                ..self
            }),
            self.sender == SenderAct::<T>::Send(SendState::Unpark) ==> self.next_sender() == (
            ChannelView {
                thread: Some(true),
                sender: SenderAct::Send(SendState::LetGo { result: Ok(()) }),
                ..self
            }),
            self.sender matches SenderAct::Send(SendState::LetGo { result }) ==> self.next_sender()
                == (ChannelView {
                shares: (self.shares - 1) as nat,
                sender: SenderAct::Send(SendState::Done { result }),
                ..self
            }),
    {
    }

    /// A sender that is closed without sending says so, and wakes the receiver exactly if that
    /// waits; it drops a value only if one was sent that nobody takes.
    pub proof fn law_closing_sender_wakes_the_receiver(self)
        ensures
            self.sender == SenderAct::<T>::Close(CloseState::Publish) ==> self.next_sender() == (
            ChannelView {
                flags: Flags { sender_closed: true, ..self.flags },
                sender: if !self.flags.receiver_closed && self.flags.waiting {
                    SenderAct::Close(CloseState::Unpark)
                } else if self.flags.receiver_closed && self.flags.sent && !self.flags.received {
                    SenderAct::Close(CloseState::DropValue)
                } else {
                    SenderAct::Close(CloseState::LetGo)
                },
                ..self
            }),
            self.sender == SenderAct::<T>::Close(CloseState::Unpark) ==> self.next_sender() == (
            ChannelView {
                thread: Some(true),
                sender: SenderAct::Close(CloseState::LetGo),
                ..self
            }),
            self.sender == SenderAct::<T>::Close(CloseState::DropValue) ==> self.next_sender() == (
            ChannelView {
                data: None,
                fate: Some(Fate::Dropped),
                sender: SenderAct::Close(CloseState::LetGo),
                ..self
            }),
            self.sender == SenderAct::<T>::Close(CloseState::LetGo) ==> self.next_sender() == (
            ChannelView {
                shares: (self.shares - 1) as nat,
                sender: SenderAct::Close(CloseState::Done),
                ..self
            }),
    {
    }

    /// A receive that looks at the flags goes for the value if it was sent, reports the
    /// disconnect if the sender is closed and sent nothing, and else prepares to block: with a
    /// time limit it reads the clock first.
    pub proof fn law_receive_looks_at_the_flags(self, now: u64)
        ensures
            self.receiver matches ReceiverAct::Recv(d, s) ==> s is SetWaiting || s is Load
                ==> self.next_receiver(now).receiver == (if self.flags.sent {
                ReceiverAct::<T>::Recv(d, RecvState::MarkReceived)
            } else if self.flags.sender_closed {
                ReceiverAct::<T>::Recv(
                    d,
                    RecvState::Done { result: Err(RecvTimeoutError::Disconnected) },
                )
            } else if d is Some {
                ReceiverAct::<T>::Recv(d, RecvState::Clock)
            } else {
                ReceiverAct::<T>::Recv(d, RecvState::Park)
            }),
            self.receiver matches ReceiverAct::Recv(d, RecvState::StoreThread)
                ==> self.next_receiver(now) == (ChannelView {
                thread: Some(false),
                receiver: ReceiverAct::Recv(d, RecvState::SetWaiting),
                ..self
            }),
            self.receiver matches ReceiverAct::Recv(d, RecvState::SetWaiting)
                ==> self.next_receiver(now).flags == (Flags { waiting: true, ..self.flags }),
            self.receiver matches ReceiverAct::Recv(d, RecvState::Load) ==> self.next_receiver(
                now,
            ).flags == self.flags,
            self.receiver matches ReceiverAct::Recv(d, s) ==> s is SetWaiting || s is Load || s
                is Park || s is Clock || s is StoreThread ==> self.next_receiver(now).data
                == self.data && self.next_receiver(now).fate == self.fate,
    {
    }

    /// A receive that wakes looks at the flags, whatever the time is. At the clock it gives up
    /// exactly if its time limit is reached, and else it blocks.
    pub proof fn law_woken_receive_looks_first(self, now: u64)
        ensures
            self.receiver matches ReceiverAct::Recv(d, RecvState::Park) ==> self.next_receiver(now)
                == (ChannelView {
                thread: Some(false),
                receiver: ReceiverAct::Recv(d, RecvState::Load),
                ..self
            }),
            self.receiver matches ReceiverAct::Recv(Some(deadline), RecvState::Clock) ==> now
                >= deadline ==> self.next_receiver(now) == (ChannelView {
                receiver: ReceiverAct::Recv(
                    Some(deadline),
                    RecvState::Done { result: Err(RecvTimeoutError::Timeout) },
                ),
                ..self
            }),
            self.receiver matches ReceiverAct::Recv(Some(deadline), RecvState::Clock) ==> now
                < deadline ==> self.next_receiver(now) == (ChannelView {
                receiver: ReceiverAct::Recv(Some(deadline), RecvState::Park),
                ..self
            }),
    {
    }

    /// A receive that goes for the value says so and takes it, once; that is what it returns.
    pub proof fn law_receive_takes_the_value(self, now: u64)
        ensures
            self.receiver matches ReceiverAct::Recv(d, RecvState::MarkReceived)
                ==> self.next_receiver(now) == (ChannelView {
                flags: Flags { received: true, ..self.flags },
                receiver: ReceiverAct::Recv(d, RecvState::Take),
                ..self
            }),
            self.receiver matches ReceiverAct::Recv(d, RecvState::Take) ==> self.next_receiver(now)
                == (ChannelView {
                data: None,
                fate: Some(Fate::Received),
                receiver: ReceiverAct::Recv(d, RecvState::Done { result: Ok(self.data->0) }),
                ..self
            }),
            self.receiver == ReceiverAct::<T>::TryRecv(TryRecvState::MarkReceived)
                ==> self.next_receiver(now) == (ChannelView {
                flags: Flags { received: true, ..self.flags },
                receiver: ReceiverAct::TryRecv(TryRecvState::Take),
                ..self
            }),
            self.receiver == ReceiverAct::<T>::TryRecv(TryRecvState::Take) ==> self.next_receiver(
                now,
            ) == (ChannelView {
                data: None,
                fate: Some(Fate::Received),
                receiver: ReceiverAct::TryRecv(TryRecvState::Done { result: Ok(self.data->0) }),
                ..self
            }),
    {
    }

    /// A receive that is not to block looks once: it goes for the value if it was sent, reports
    /// the disconnect if the sender is closed and sent nothing, and else that nothing has come.
    pub proof fn law_try_receive_looks_once(self, now: u64)
        requires
            self.receiver == ReceiverAct::<T>::TryRecv(TryRecvState::Load),
        ensures
            self.next_receiver(now).receiver == (if self.flags.sent {
                ReceiverAct::<T>::TryRecv(TryRecvState::MarkReceived)
            } else if self.flags.sender_closed {
                ReceiverAct::<T>::TryRecv(
                    TryRecvState::Done { result: Err(TryRecvError::Disconnected) },
                )
            } else {
                ReceiverAct::<T>::TryRecv(TryRecvState::Done { result: Err(TryRecvError::Empty) })
            }),
            self.next_receiver(now).flags == self.flags,
            self.next_receiver(now).data == self.data,
            self.next_receiver(now).fate == self.fate,
    {
    }

    /// What a receiver has decided to return it returns. It closes before, and drops a value that
    /// was sent and that it did not take.
    pub proof fn law_decision_is_kept(self, now: u64)
        ensures
            self.receiver matches ReceiverAct::Recv(d, RecvState::Done { result })
                ==> self.next_receiver(now) == (ChannelView {
                flags: Flags { receiver_closed: true, ..self.flags },
                receiver: ReceiverAct::Close(
                    Received::Waited(result),
                    if self.flags.sender_closed && self.flags.sent && !self.flags.received {
                        CloseState::DropValue
                    } else {
                        CloseState::LetGo
                    },
                ),
                ..self
            }),
            self.receiver matches ReceiverAct::TryRecv(TryRecvState::Done { result })
                ==> self.next_receiver(now) == (ChannelView {
                flags: Flags { receiver_closed: true, ..self.flags },
                receiver: ReceiverAct::Close(
                    Received::Tried(result),
                    if self.flags.sender_closed && self.flags.sent && !self.flags.received {
                        CloseState::DropValue
                    } else {
                        CloseState::LetGo
                    },
                ),
                ..self
            }),
            self.receiver matches ReceiverAct::Close(received, CloseState::Publish)
                ==> self.next_receiver(now) == (ChannelView {
                flags: Flags { receiver_closed: true, ..self.flags },
                receiver: ReceiverAct::Close(
                    received,
                    if self.flags.sender_closed && self.flags.sent && !self.flags.received {
                        CloseState::DropValue
                    } else {
                        CloseState::LetGo
                    },
                ),
                ..self
            }),
            self.receiver matches ReceiverAct::Close(received, CloseState::DropValue)
                ==> self.next_receiver(now) == (ChannelView {
                data: None,
                fate: Some(Fate::Dropped),
                receiver: ReceiverAct::Close(received, CloseState::LetGo),
                ..self
            }),
            self.receiver matches ReceiverAct::Close(received, CloseState::LetGo)
                ==> self.next_receiver(now) == (ChannelView {
                shares: (self.shares - 1) as nat,
                receiver: ReceiverAct::Close(received, CloseState::Done),
                ..self
            }),
    {
    }

    /// A receive comes to its answer only by what it sees: to a value only by taking it, to the
    /// disconnect only if the sender is closed and sent nothing, to the timeout only at the clock
    /// when its limit is reached.
    pub proof fn law_receive_decides_on_what_it_sees(self, now: u64)
        ensures
            match (self.receiver, self.next_receiver(now).receiver) {
                (ReceiverAct::Recv(d, s), ReceiverAct::Recv(_, RecvState::Done { result })) => match result {
                    Ok(msg) => s is Take && msg == self.data->0,
                    Err(RecvTimeoutError::Disconnected) => (s is SetWaiting || s is Load)
                        && self.flags.sender_closed && !self.flags.sent,
                    Err(RecvTimeoutError::Timeout) => s is Clock && (d is Some ==> now >= d->0),
                },
                _ => true,
            },
            match (self.receiver, self.next_receiver(now).receiver) {
                (ReceiverAct::TryRecv(s), ReceiverAct::TryRecv(TryRecvState::Done { result })) => match result {
                    Ok(msg) => s is Take && msg == self.data->0,
                    Err(TryRecvError::Disconnected) => s is Load && self.flags.sender_closed
                        && !self.flags.sent,
                    Err(TryRecvError::Empty) => s is Load && !self.flags.sender_closed
                        && !self.flags.sent,
                },
                _ => true,
            },
    {
    }

    /// Neither side moves the other, nor clears a flag.
    pub proof fn law_sides_go_on_their_own(self, now: u64)
        ensures
            self.next_sender().receiver == self.receiver,
            self.next_receiver(now).sender == self.sender,
            self.flags.sent ==> self.next_sender().flags.sent && self.next_receiver(now).flags.sent,
            self.flags.sender_closed ==> self.next_sender().flags.sender_closed
                && self.next_receiver(now).flags.sender_closed,
            self.flags.receiver_closed ==> self.next_sender().flags.receiver_closed
                && self.next_receiver(now).flags.receiver_closed,
            self.next_sender().flags.receiver_closed == self.flags.receiver_closed,
            self.next_sender().flags.waiting == self.flags.waiting,
            self.next_sender().flags.received == self.flags.received,
            self.next_receiver(now).flags.sent == self.flags.sent,
            self.next_receiver(now).flags.sender_closed == self.flags.sender_closed,
            self.next_receiver(now).written == self.written,
    {
    }

    /// Both ends agree on the value: a value that was received is the one that was sent by a send
    /// that succeeded, a value that was handed back was not received, and if the receiver reports
    /// the disconnect nothing was sent.
    pub proof fn law_both_ends_agree(
        self,
        result: Result<(), SendError<T>>,
        received: Received<T>,
    )
        requires
            self.inv(),
            self.sender == SenderAct::Send(SendState::Done { result }),
            self.receiver == ReceiverAct::Close(received, CloseState::Done),
        ensures
            match (result, received) {
                (Ok(_), Received::Waited(Ok(msg))) => self.written == Some(msg),
                (Ok(_), Received::Tried(Ok(msg))) => self.written == Some(msg),
                (Ok(_), Received::Waited(Err(e))) => e is Timeout && self.fate == Some(Fate::Dropped),
                (Ok(_), Received::Tried(Err(e))) => e is Empty && self.fate == Some(Fate::Dropped),
                (Ok(_), Received::Nothing) => self.fate == Some(Fate::Dropped),
                (Err(SendError(msg)), Received::Waited(r)) => r == Err::<T, RecvTimeoutError>(
                    RecvTimeoutError::Timeout,
                ) && self.written == Some(msg),
                (Err(SendError(msg)), Received::Tried(r)) => r == Err::<T, TryRecvError>(
                    TryRecvError::Empty,
                ) && self.written == Some(msg),
                (Err(SendError(msg)), Received::Nothing) => self.written == Some(msg),
            },
    {
    }
}

} // verus!
