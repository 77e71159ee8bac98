//! The decisions of a multi-producer, multi-consumer channel.
//!
//! Each operation is a state machine. A state says what the operation does next, and one
//! function per state says where it goes when it has done that. `T` is the type of the
//! messages and `W` that of a handle to a waiter, the record by which a blocked receiver
//! is found and woken.
use vstd::prelude::*;

use crate::error::{RecvTimeoutError, SendError, TryRecvError};

verus! {

/// What a waiter has been told.
#[derive(Debug, Clone, Copy, PartialEq, Eq, Structural)]
pub enum WaiterState {
    /// Nothing: its receiver may be blocked.
    Waiting,
    /// To look at the channel again.
    Notified,
    /// Its receiver does not need it any more.
    Cancelled,
}

/// The number by which a [`WaiterState`] is kept in an atomic cell.
pub open spec fn state_byte(state: WaiterState) -> u8 {
    match state {
        WaiterState::Waiting => 0,
        WaiterState::Notified => 1,
        WaiterState::Cancelled => 2,
    }
}

impl From<WaiterState> for u8 {
    fn from(value: WaiterState) -> (byte: u8) {
        match value {
            WaiterState::Waiting => 0,
            WaiterState::Notified => 1,
            WaiterState::Cancelled => 2,
        }
    }
}

impl vstd::std_specs::convert::FromSpecImpl<WaiterState> for u8 {
    open spec fn obeys_from_spec() -> bool {
        true
    }

    open spec fn from_spec(value: WaiterState) -> u8 {
        state_byte(value)
    }
}

impl WaiterState {
    /// Reads back the number of a state.
    pub fn from_byte(value: u8) -> (state: WaiterState)
        requires
            value <= 2,
        ensures
            state_byte(state) == value,
            state is Waiting <==> value == 0,
            state is Notified <==> value == 1,
            state is Cancelled <==> value == 2,
    {
        match value {
            0 => WaiterState::Waiting,
            1 => WaiterState::Notified,
            _ => WaiterState::Cancelled,
        }
    }

    /// A state is read back as it was written.
    pub proof fn law_byte_round_trip(self, other: WaiterState)
        ensures
            state_byte(self) <= 2,
            state_byte(self) == state_byte(other) ==> self == other,
            state_byte(self) == 0 <==> self is Waiting,
            state_byte(self) == 1 <==> self is Notified,
            state_byte(self) == 2 <==> self is Cancelled,
    {
    }
}

/// Where a send stands.
#[derive(Debug)]
pub enum SendState<T, W> {
    /// Look whether a receiver is left.
    LoadReceivers { msg: T },
    /// Put the message into the queue.
    Enqueue { msg: T },
    /// Take the waiter on top of the stack.
    PopWaiter,
    /// Tell the waiter, if it is still waiting.
    Notify { waiter: W },
    /// Wake the thread of the waiter.
    Unpark { waiter: W },
    /// Return.
    Done { result: Result<(), SendError<T>> },
}

impl<T, W> SendState<T, W> {
    /// After the look at the receivers.
    pub open spec fn spec_receivers_loaded(msg: T, connected: bool) -> SendState<T, W> {
        if connected {
            SendState::Enqueue { msg }
        } else {
            SendState::Done { result: Err(SendError(msg)) }
        }
    }

    /// After a look for a waiter.
    pub open spec fn spec_popped(waiter: Option<W>) -> SendState<T, W> {
        match waiter {
            Some(waiter) => SendState::Notify { waiter },
            None => SendState::Done { result: Ok(()) },
        }
    }

    /// After the attempt to tell the waiter.
    pub open spec fn spec_notified(waiter: W, won: bool) -> SendState<T, W> {
        if won {
            SendState::Unpark { waiter }
        } else {
            SendState::PopWaiter
        }
    }

    /// Starts to send `msg`.
    pub fn start(msg: T) -> (state: Self)
        ensures
            state == (SendState::<T, W>::LoadReceivers { msg }),
    {
        SendState::LoadReceivers { msg }
    }

    /// Goes on after the look at the receivers: `connected` if one is left.
    pub fn receivers_loaded(msg: T, connected: bool) -> (state: Self)
        ensures
            state == Self::spec_receivers_loaded(msg, connected),
            connected ==> state == (SendState::<T, W>::Enqueue { msg }),
            !connected ==> state == (SendState::<T, W>::Done { result: Err(SendError(msg)) }),
    {
        if connected {
            SendState::Enqueue { msg }
        } else {
            SendState::Done { result: Err(SendError(msg)) }
        }
    }

    /// Goes on after the message was put into the queue.
    pub fn enqueued() -> (state: Self)
        ensures
            state == SendState::<T, W>::PopWaiter,
    {
        SendState::PopWaiter
    }

    /// Goes on after a look for a waiter.
    pub fn popped(waiter: Option<W>) -> (state: Self)
        ensures
            state == Self::spec_popped(waiter),
            waiter matches Some(w) ==> state == (SendState::<T, W>::Notify { waiter: w }),
            waiter is None ==> state == (SendState::<T, W>::Done { result: Ok(()) }),
    {
        match waiter {
            Some(waiter) => SendState::Notify { waiter },
            None => SendState::Done { result: Ok(()) },
        }
    }

    /// Goes on after the attempt to tell the waiter: `won` if it was still waiting.
    pub fn notified(waiter: W, won: bool) -> (state: Self)
        ensures
            state == Self::spec_notified(waiter, won),
            won ==> state == (SendState::<T, W>::Unpark { waiter }),
            !won ==> state == SendState::<T, W>::PopWaiter,
    {
        if won {
            SendState::Unpark { waiter }
        } else {
            SendState::PopWaiter
        }
    }

    /// Goes on after the thread of the waiter was woken.
    pub fn unparked() -> (state: Self)
        ensures
            state == (SendState::<T, W>::Done { result: Ok(()) }),
    {
        SendState::Done { result: Ok(()) }
    }
}

/// Where the closing of a sender stands.
#[derive(Debug)]
pub enum CloseState<W> {
    /// Count the sender off.
    Decrement,
    /// It was the last one: take the waiter on top of the stack.
    PopWaiter,
    /// Tell the waiter, if it is still waiting.
    Notify { waiter: W },
    /// Wake the thread of the waiter.
    Unpark { waiter: W },
    /// Return.
    Done,
}

impl<W> CloseState<W> {
    /// After the sender was counted off and there were `senders` before.
    pub open spec fn spec_decremented(senders: nat) -> CloseState<W> {
        if senders == 1 {
            CloseState::PopWaiter
        } else {
            CloseState::Done
        }
    }

    /// After a look for a waiter.
    pub open spec fn spec_popped(waiter: Option<W>) -> CloseState<W> {
        match waiter {
            Some(waiter) => CloseState::Notify { waiter },
            None => CloseState::Done,
        }
    }

    /// After the attempt to tell the waiter.
    pub open spec fn spec_notified(waiter: W, won: bool) -> CloseState<W> {
        if won {
            CloseState::Unpark { waiter }
        } else {
            CloseState::PopWaiter
        }
    }

    /// Starts to close a sender.
    pub fn start() -> (state: Self)
        ensures
            state == CloseState::<W>::Decrement,
    {
        CloseState::Decrement
    }

    /// Goes on after the sender was counted off; there were `senders` before.
    pub fn decremented(senders: usize) -> (state: Self)
        ensures
            state == Self::spec_decremented(senders as nat),
            senders == 1 ==> state == CloseState::<W>::PopWaiter,
            senders != 1 ==> state == CloseState::<W>::Done,
    {
        if senders == 1 {
            CloseState::PopWaiter
        } else {
            CloseState::Done
        }
    }

    /// Goes on after a look for a waiter.
    pub fn popped(waiter: Option<W>) -> (state: Self)
        ensures
            state == Self::spec_popped(waiter),
            waiter matches Some(w) ==> state == (CloseState::<W>::Notify { waiter: w }),
            waiter is None ==> state == CloseState::<W>::Done,
    {
        match waiter {
            Some(waiter) => CloseState::Notify { waiter },
            None => CloseState::Done,
        }
    }

    /// Goes on after the attempt to tell the waiter: `won` if it was still waiting.
    pub fn notified(waiter: W, won: bool) -> (state: Self)
        ensures
            state == Self::spec_notified(waiter, won),
            won ==> state == (CloseState::<W>::Unpark { waiter }),
            !won ==> state == CloseState::<W>::PopWaiter,
    {
        if won {
            CloseState::Unpark { waiter }
        } else {
            CloseState::PopWaiter
        }
    }

    /// Goes on after the thread of the waiter was woken.
    pub fn unparked() -> (state: Self)
        ensures
            state == CloseState::<W>::PopWaiter,
    {
        CloseState::PopWaiter
    }
}

/// Where a receive stands.
#[derive(Debug)]
pub enum RecvState<T, W> {
    /// Take a message; `told` if a waiter of this receive has been told.
    Dequeue { told: bool },
    /// There was none: look whether a sender is left.
    LoadSenders,
    /// No sender is left: look once more for a message.
    DequeueLast,
    /// Make a waiter for this thread.
    Register,
    /// Push the waiter onto the stack.
    Push { waiter: W },
    /// Take a message.
    Poll { waiter: W },
    /// There was none: look whether a sender is left.
    PollSenders { waiter: W },
    /// No sender is left: look once more for a message.
    PollLast { waiter: W },
    /// Look what the waiter has been told.
    LoadState { waiter: W },
    /// Nothing yet: look whether the time limit is reached.
    Clock { waiter: W },
    /// Block until this thread is woken, or until the time limit.
    Park { waiter: W },
    /// Cancel the waiter, and see what it had been told.
    Cancel { waiter: W, result: Result<T, RecvTimeoutError> },
    /// It had been told, and this receive does not need that any more: take the waiter on
    /// top of the stack.
    PassOn { result: Result<T, RecvTimeoutError> },
    /// Tell that waiter, if it is still waiting.
    PassNotify { waiter: W, result: Result<T, RecvTimeoutError> },
    /// Wake the thread of that waiter.
    PassUnpark { waiter: W, result: Result<T, RecvTimeoutError> },
    /// Return.
    Done { result: Result<T, RecvTimeoutError> },
}

impl<T, W> RecvState<T, W> {
    /// After the first look for a message.
    pub open spec fn spec_dequeued(msg: Option<T>) -> RecvState<T, W> {
        match msg {
            Some(msg) => RecvState::Done { result: Ok(msg) },
            None => RecvState::LoadSenders,
        }
    }

    /// After the look at the senders.
    pub open spec fn spec_senders_loaded(connected: bool) -> RecvState<T, W> {
        if connected {
            RecvState::Register
        } else {
            RecvState::DequeueLast
        }
    }

    /// After the last look for a message.
    pub open spec fn spec_last_dequeued(msg: Option<T>) -> RecvState<T, W> {
        match msg {
            Some(msg) => RecvState::Done { result: Ok(msg) },
            None => RecvState::Done { result: Err(RecvTimeoutError::Disconnected) },
        }
    }

    /// After a look for a message with a waiter on the stack.
    pub open spec fn spec_polled(waiter: W, msg: Option<T>) -> RecvState<T, W> {
        match msg {
            Some(msg) => RecvState::Cancel { waiter, result: Ok(msg) },
            None => RecvState::PollSenders { waiter },
        }
    }

    /// After a look at the senders with a waiter on the stack.
    pub open spec fn spec_senders_polled(waiter: W, connected: bool) -> RecvState<T, W> {
        if connected {
            RecvState::LoadState { waiter }
        } else {
            RecvState::PollLast { waiter }
        }
    }

    /// After the last look for a message with a waiter on the stack.
    pub open spec fn spec_last_polled(waiter: W, msg: Option<T>) -> RecvState<T, W> {
        match msg {
            Some(msg) => RecvState::Cancel { waiter, result: Ok(msg) },
            None => RecvState::Cancel { waiter, result: Err(RecvTimeoutError::Disconnected) },
        }
    }

    /// After the look at what the waiter has been told.
    pub open spec fn spec_state_loaded(
        waiter: W,
        state: WaiterState,
        timed: bool,
    ) -> RecvState<T, W> {
        match state {
            WaiterState::Waiting => if timed {
                RecvState::Clock { waiter }
            } else {
                RecvState::Park { waiter }
            },
            _ => RecvState::Dequeue { told: true },
        }
    }

    /// After the look at the clock.
    pub open spec fn spec_clock_read(waiter: W, expired: bool) -> RecvState<T, W> {
        if expired {
            RecvState::Cancel { waiter, result: Err(RecvTimeoutError::Timeout) }
        } else {
            RecvState::Park { waiter }
        }
    }

    /// After the waiter was cancelled, which had been told `state`.
    pub open spec fn spec_cancelled(
        state: WaiterState,
        result: Result<T, RecvTimeoutError>,
    ) -> RecvState<T, W> {
        match state {
            WaiterState::Notified => RecvState::PassOn { result },
            _ => RecvState::Done { result },
        }
    }

    /// After a look for another waiter.
    pub open spec fn spec_pass_popped(
        waiter: Option<W>,
        result: Result<T, RecvTimeoutError>,
    ) -> RecvState<T, W> {
        match waiter {
            Some(waiter) => RecvState::PassNotify { waiter, result },
            None => RecvState::Done { result },
        }
    }

    /// After the attempt to tell another waiter.
    pub open spec fn spec_pass_notified(
        waiter: W,
        won: bool,
        result: Result<T, RecvTimeoutError>,
    ) -> RecvState<T, W> {
        if won {
            RecvState::PassUnpark { waiter, result }
        } else {
            RecvState::PassOn { result }
        }
    }

    /// Starts to receive.
    pub fn start() -> (state: Self)
        ensures
            state == (RecvState::<T, W>::Dequeue { told: false }),
    {
        RecvState::Dequeue { told: false }
    }

    /// Goes on after the first look for a message.
    pub fn dequeued(msg: Option<T>) -> (state: Self)
        ensures
            state == Self::spec_dequeued(msg),
            msg matches Some(m) ==> state == (RecvState::<T, W>::Done { result: Ok(m) }),
            msg is None ==> state == RecvState::<T, W>::LoadSenders,
    {
        match msg {
            Some(msg) => RecvState::Done { result: Ok(msg) },
            None => RecvState::LoadSenders,
        }
    }

    /// Goes on after the look at the senders: `connected` if one is left.
    pub fn senders_loaded(connected: bool) -> (state: Self)
        ensures
            state == Self::spec_senders_loaded(connected),
            connected ==> state == RecvState::<T, W>::Register,
            !connected ==> state == RecvState::<T, W>::DequeueLast,
    {
        if connected {
            RecvState::Register
        } else {
            RecvState::DequeueLast
        }
    }

    /// Goes on after the last look for a message.
    pub fn last_dequeued(msg: Option<T>) -> (state: Self)
        ensures
            state == Self::spec_last_dequeued(msg),
            msg matches Some(m) ==> state == (RecvState::<T, W>::Done { result: Ok(m) }),
            msg is None ==> state == (RecvState::<T, W>::Done { result: Err(RecvTimeoutError::Disconnected) }),
    {
        match msg {
            Some(msg) => RecvState::Done { result: Ok(msg) },
            None => RecvState::Done { result: Err(RecvTimeoutError::Disconnected) },
        }
    }

    /// Goes on after the waiter was made.
    pub fn registered(waiter: W) -> (state: Self)
        ensures
            state == (RecvState::<T, W>::Push { waiter }),
    {
        RecvState::Push { waiter }
    }

    /// Goes on after the waiter was pushed.
    pub fn pushed(waiter: W) -> (state: Self)
        ensures
            state == (RecvState::<T, W>::Poll { waiter }),
    {
        RecvState::Poll { waiter }
    }

    /// Goes on after a look for a message.
    pub fn polled(waiter: W, msg: Option<T>) -> (state: Self)
        ensures
            state == Self::spec_polled(waiter, msg),
            msg matches Some(m) ==> state == (RecvState::<T, W>::Cancel { waiter, result: Ok(m) }),
            msg is None ==> state == (RecvState::<T, W>::PollSenders { waiter }),
    {
        match msg {
            Some(msg) => RecvState::Cancel { waiter, result: Ok(msg) },
            None => RecvState::PollSenders { waiter },
        }
    }

    /// Goes on after a look at the senders: `connected` if one is left.
    pub fn senders_polled(waiter: W, connected: bool) -> (state: Self)
        ensures
            state == Self::spec_senders_polled(waiter, connected),
            connected ==> state == (RecvState::<T, W>::LoadState { waiter }),
            !connected ==> state == (RecvState::<T, W>::PollLast { waiter }),
    {
        if connected {
            RecvState::LoadState { waiter }
        } else {
            RecvState::PollLast { waiter }
        }
    }

    /// Goes on after the last look for a message.
    pub fn last_polled(waiter: W, msg: Option<T>) -> (state: Self)
        ensures
            state == Self::spec_last_polled(waiter, msg),
            msg matches Some(m) ==> state == (RecvState::<T, W>::Cancel { waiter, result: Ok(m) }),
            msg is None ==> state == (RecvState::<T, W>::Cancel {
                waiter,
                result: Err(RecvTimeoutError::Disconnected),
            }),
    {
        match msg {
            Some(msg) => RecvState::Cancel { waiter, result: Ok(msg) },
            None => RecvState::Cancel { waiter, result: Err(RecvTimeoutError::Disconnected) },
        }
    }

    /// Goes on after the look at what the waiter has been told; `timed` if there is a time
    /// limit. Only the receiver itself cancels its waiter, and it does so when it leaves.
    pub fn state_loaded(waiter: W, state: WaiterState, timed: bool) -> (next: Self)
        requires
            !(state is Cancelled),
        ensures
            next == Self::spec_state_loaded(waiter, state, timed),
            state is Notified ==> next == (RecvState::<T, W>::Dequeue { told: true }),
            state is Waiting && timed ==> next == (RecvState::<T, W>::Clock { waiter }),
            state is Waiting && !timed ==> next == (RecvState::<T, W>::Park { waiter }),
    {
        match state {
            WaiterState::Waiting => {
                if timed {
                    RecvState::Clock { waiter }
                } else {
                    RecvState::Park { waiter }
                }
            },
            _ => RecvState::Dequeue { told: true },
        }
    }

    /// Goes on after the look at the clock: `expired` if the time limit is reached.
    pub fn clock_read(waiter: W, expired: bool) -> (state: Self)
        ensures
            state == Self::spec_clock_read(waiter, expired),
            expired ==> state == (RecvState::<T, W>::Cancel {
                waiter,
                result: Err(RecvTimeoutError::Timeout),
            }),
            !expired ==> state == (RecvState::<T, W>::Park { waiter }),
    {
        if expired {
            RecvState::Cancel { waiter, result: Err(RecvTimeoutError::Timeout) }
        } else {
            RecvState::Park { waiter }
        }
    }

    /// Goes on after the thread was woken, or woke by itself.
    pub fn woken(waiter: W) -> (state: Self)
        ensures
            state == (RecvState::<T, W>::Poll { waiter }),
    {
        RecvState::Poll { waiter }
    }

    /// Goes on after the waiter was cancelled, which had been told `state`. A receive that
    /// was told and leaves tells another one in its place.
    pub fn cancelled(state: WaiterState, result: Result<T, RecvTimeoutError>) -> (next: Self)
        ensures
            next == Self::spec_cancelled(state, result),
            state is Notified ==> next == (RecvState::<T, W>::PassOn { result }),
            !(state is Notified) ==> next == (RecvState::<T, W>::Done { result }),
    {
        match state {
            WaiterState::Notified => RecvState::PassOn { result },
            _ => RecvState::Done { result },
        }
    }

    /// Goes on after a look for another waiter.
    pub fn pass_popped(waiter: Option<W>, result: Result<T, RecvTimeoutError>) -> (state: Self)
        ensures
            state == Self::spec_pass_popped(waiter, result),
            waiter matches Some(w) ==> state == (RecvState::<T, W>::PassNotify { waiter: w, result }),
            waiter is None ==> state == (RecvState::<T, W>::Done { result }),
    {
        match waiter {
            Some(waiter) => RecvState::PassNotify { waiter, result },
            None => RecvState::Done { result },
        }
    }

    /// Goes on after the attempt to tell another waiter: `won` if it was still waiting.
    pub fn pass_notified(waiter: W, won: bool, result: Result<T, RecvTimeoutError>) -> (state: Self)
        ensures
            state == Self::spec_pass_notified(waiter, won, result),
            won ==> state == (RecvState::<T, W>::PassUnpark { waiter, result }),
            !won ==> state == (RecvState::<T, W>::PassOn { result }),
    {
        if won {
            RecvState::PassUnpark { waiter, result }
        } else {
            RecvState::PassOn { result }
        }
    }

    /// Goes on after the thread of another waiter was woken.
    pub fn pass_unparked(result: Result<T, RecvTimeoutError>) -> (state: Self)
        ensures
            state == (RecvState::<T, W>::Done { result }),
    {
        RecvState::Done { result }
    }
}

/// Where a receive that does not block stands.
#[derive(Debug)]
pub enum TryRecvState<T> {
    /// Take a message.
    Dequeue,
    /// There was none: look whether a sender is left.
    LoadSenders,
    /// No sender is left: look once more for a message.
    DequeueLast,
    /// Return.
    Done { result: Result<T, TryRecvError> },
}

impl<T> TryRecvState<T> {
    /// After the first look for a message.
    pub open spec fn spec_dequeued(msg: Option<T>) -> TryRecvState<T> {
        match msg {
            Some(msg) => TryRecvState::Done { result: Ok(msg) },
            None => TryRecvState::LoadSenders,
        }
    }

    /// After the look at the senders.
    pub open spec fn spec_senders_loaded(connected: bool) -> TryRecvState<T> {
        if connected {
            TryRecvState::Done { result: Err(TryRecvError::Empty) }
        } else {
            TryRecvState::DequeueLast
        }
    }

    /// After the last look for a message.
    pub open spec fn spec_last_dequeued(msg: Option<T>) -> TryRecvState<T> {
        match msg {
            Some(msg) => TryRecvState::Done { result: Ok(msg) },
            None => TryRecvState::Done { result: Err(TryRecvError::Disconnected) },
        }
    }

    /// Starts to receive.
    pub fn start() -> (state: Self)
        ensures
            state == TryRecvState::<T>::Dequeue,
    {
        TryRecvState::Dequeue
    }

    /// Goes on after the first look for a message.
    pub fn dequeued(msg: Option<T>) -> (state: Self)
        ensures
            state == Self::spec_dequeued(msg),
            msg matches Some(m) ==> state == (TryRecvState::<T>::Done { result: Ok(m) }),
            msg is None ==> state == TryRecvState::<T>::LoadSenders,
    {
        match msg {
            Some(msg) => TryRecvState::Done { result: Ok(msg) },
            None => TryRecvState::LoadSenders,
        }
    }

    /// Goes on after the look at the senders: `connected` if one is left.
    pub fn senders_loaded(connected: bool) -> (state: Self)
        ensures
            state == Self::spec_senders_loaded(connected),
            connected ==> state == (TryRecvState::<T>::Done { result: Err(TryRecvError::Empty) }),
            !connected ==> state == TryRecvState::<T>::DequeueLast,
    {
        if connected {
            TryRecvState::Done { result: Err(TryRecvError::Empty) }
        } else {
            TryRecvState::DequeueLast
        }
    }

    /// Goes on after the last look for a message.
    pub fn last_dequeued(msg: Option<T>) -> (state: Self)
        ensures
            state == Self::spec_last_dequeued(msg),
            msg matches Some(m) ==> state == (TryRecvState::<T>::Done { result: Ok(m) }),
            msg is None ==> state == (TryRecvState::<T>::Done { result: Err(TryRecvError::Disconnected) }),
    {
        match msg {
            Some(msg) => TryRecvState::Done { result: Ok(msg) },
            None => TryRecvState::Done { result: Err(TryRecvError::Disconnected) },
        }
    }
}

} // verus!
