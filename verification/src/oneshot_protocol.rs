//! The decisions of a oneshot channel.
//!
//! Sender and receiver share a byte of flags. Each of them sets flags and decides by the
//! flags that were set before. As in [`crate::mpmc_protocol`], a state says what an
//! operation does next, and one function per state says where it goes then.
use vstd::prelude::*;

use crate::error::{RecvTimeoutError, SendError, TryRecvError};

verus! {

/// Initial state: no flags set.
pub const EMPTY: u8 = 0b0;

/// The value has been written to the channel.
pub const SENT: u8 = 0b00000001;

/// The sender has been dropped or consumed.
pub const SENDER_CLOSED: u8 = 0b00000010;

/// The receiver has been dropped or consumed.
pub const RECEIVER_CLOSED: u8 = 0b00000100;

/// The receiver is or was waiting for a value, and its thread is known.
pub const WAITING: u8 = 0b00001000;

/// The receiver takes the value.
pub const RECEIVED: u8 = 0b00010000;

/// Whether all bits of `flag` are set in `state`.
pub fn has(state: u8, flag: u8) -> (set: bool)
    ensures
        set == (state & flag == flag),
{
    state & flag == flag
}

/// Whether a bit of `flags` is set in `state`.
pub fn has_any(state: u8, flags: u8) -> (set: bool)
    ensures
        set == (state & flags != 0),
{
    state & flags != 0
}

/// The flags one by one.
pub struct Flags {
    pub sent: bool,
    pub sender_closed: bool,
    pub receiver_closed: bool,
    pub waiting: bool,
    pub received: bool,
}

/// The flags in a byte.
pub open spec fn flags_of(state: u8) -> Flags {
    Flags {
        sent: state & SENT == SENT,
        sender_closed: state & SENDER_CLOSED == SENDER_CLOSED,
        receiver_closed: state & RECEIVER_CLOSED == RECEIVER_CLOSED,
        waiting: state & WAITING == WAITING,
        received: state & RECEIVED == RECEIVED,
    }
}

/// The flags stand each in a bit of its own.
pub proof fn law_flags_are_bits(state: u8)
    ensures
        flags_of(state).sent == (state & 1 != 0),
        flags_of(state).sender_closed == (state & 2 != 0),
        flags_of(state).receiver_closed == (state & 4 != 0),
        flags_of(state).waiting == (state & 8 != 0),
        flags_of(state).received == (state & 16 != 0),
        EMPTY == 0 && SENT == 1 && SENDER_CLOSED == 2 && RECEIVER_CLOSED == 4 && WAITING == 8
            && RECEIVED == 16,
{
    assert((state & 1 == 1) == (state & 1 != 0)) by (bit_vector);
    assert((state & 2 == 2) == (state & 2 != 0)) by (bit_vector);
    assert((state & 4 == 4) == (state & 4 != 0)) by (bit_vector);
    assert((state & 8 == 8) == (state & 8 != 0)) by (bit_vector);
    assert((state & 16 == 16) == (state & 16 != 0)) by (bit_vector);
}

/// What setting flags in a byte does to the flags.
pub proof fn law_flags(state: u8)
    ensures
        flags_of(EMPTY) == (Flags {
            sent: false,
            sender_closed: false,
            receiver_closed: false,
            waiting: false,
            received: false,
        }),
        flags_of(state | (SENT | SENDER_CLOSED)) == (Flags {
            sent: true,
            sender_closed: true,
            ..flags_of(state)
        }),
        flags_of(state | SENDER_CLOSED) == (Flags { sender_closed: true, ..flags_of(state) }),
        flags_of(state | RECEIVER_CLOSED) == (Flags { receiver_closed: true, ..flags_of(state) }),
        flags_of(state | WAITING) == (Flags { waiting: true, ..flags_of(state) }),
        flags_of(state | RECEIVED) == (Flags { received: true, ..flags_of(state) }),
        (state & (SENT | SENDER_CLOSED) != 0) == (flags_of(state).sent || flags_of(
            state,
        ).sender_closed),
{
    assert(forall|f: u8|
        #![trigger EMPTY & f]
        f == SENT || f == SENDER_CLOSED || f == RECEIVER_CLOSED || f == WAITING || f == RECEIVED
            ==> EMPTY & f != f) by (bit_vector);
    assert(forall|f: u8|
        #![trigger (state | (SENT | SENDER_CLOSED)) & f]
        f == RECEIVER_CLOSED || f == WAITING || f == RECEIVED ==> (state | (SENT | SENDER_CLOSED))
            & f == state & f) by (bit_vector);
    assert((state | (SENT | SENDER_CLOSED)) & SENT == SENT) by (bit_vector);
    assert((state | (SENT | SENDER_CLOSED)) & SENDER_CLOSED == SENDER_CLOSED) by (bit_vector);
    assert(forall|f: u8, g: u8|
        #![trigger (state | g) & f]
        (f == SENT || f == SENDER_CLOSED || f == RECEIVER_CLOSED || f == WAITING || f == RECEIVED)
            && (g == SENDER_CLOSED || g == RECEIVER_CLOSED || g == WAITING || g == RECEIVED) ==> (
        state | g) & f == (if f == g {
            f
        } else {
            state & f
        })) by (bit_vector);
    assert((state & (SENT | SENDER_CLOSED) != 0) == (state & SENT == SENT || state & SENDER_CLOSED
        == SENDER_CLOSED)) by (bit_vector);
}

/// Where a send stands.
#[derive(Debug)]
pub enum SendState<T> {
    /// Write the value.
    Write { msg: T },
    /// Set `SENT` and `SENDER_CLOSED`.
    Publish,
    /// The receiver was gone before: take the value back.
    TakeBack,
    /// The receiver is waiting: wake its thread.
    Unpark,
    /// Let go of the shared state.
    LetGo { result: Result<(), SendError<T>> },
    /// Return.
    Done { result: Result<(), SendError<T>> },
}

impl<T> SendState<T> {
    /// After the flags were set and were `prior` before.
    pub open spec fn spec_published(prior: Flags) -> SendState<T> {
        if prior.receiver_closed {
            SendState::TakeBack
        } else if prior.waiting {
            SendState::Unpark
        } else {
            SendState::LetGo { result: Ok(()) }
        }
    }

    /// Starts to send `msg`.
    pub fn start(msg: T) -> (state: Self)
        ensures
            state == (SendState::Write { msg }),
    {
        SendState::Write { msg }
    }

    /// Goes on after the value was written.
    pub fn written() -> (state: Self)
        ensures
            state == SendState::<T>::Publish,
    {
        SendState::Publish
    }

    /// Goes on after the flags were set; they were `prior` before.
    pub fn published(prior: u8) -> (state: Self)
        ensures
            state == Self::spec_published(flags_of(prior)),
            prior & RECEIVER_CLOSED != 0 ==> state == SendState::<T>::TakeBack,
            prior & RECEIVER_CLOSED == 0 && prior & WAITING != 0 ==> state == SendState::<T>::Unpark,
            prior & RECEIVER_CLOSED == 0 && prior & WAITING == 0 ==> state == (SendState::<
                T,
            >::LetGo { result: Ok(()) }),
    {
        proof {
            law_flags_are_bits(prior);
        }
        if has(prior, RECEIVER_CLOSED) {
            SendState::TakeBack
        } else if has(prior, WAITING) {
            SendState::Unpark
        } else {
            SendState::LetGo { result: Ok(()) }
        }
    }

    /// Goes on after the value was taken back.
    pub fn taken_back(msg: T) -> (state: Self)
        ensures
            state == (SendState::LetGo { result: Err(SendError(msg)) }),
    {
        SendState::LetGo { result: Err(SendError(msg)) }
    }

    /// Goes on after the thread of the receiver was woken.
    pub fn unparked() -> (state: Self)
        ensures
            state == (SendState::<T>::LetGo { result: Ok(()) }),
    {
        SendState::LetGo { result: Ok(()) }
    }

    /// Goes on after the shared state was let go of.
    pub fn let_go(result: Result<(), SendError<T>>) -> (state: Self)
        ensures
            state == (SendState::Done { result }),
    {
        SendState::Done { result }
    }
}

/// Where the closing of a sender or of a receiver stands.
#[derive(Debug, Clone, Copy, PartialEq, Eq, Structural)]
pub enum CloseState {
    /// Set `SENDER_CLOSED`, or `RECEIVER_CLOSED`.
    Publish,
    /// Drop the value that nobody took.
    DropValue,
    /// The receiver is waiting: wake its thread.
    Unpark,
    /// Let go of the shared state.
    LetGo,
    /// Return.
    Done,
}

impl CloseState {
    /// After the sender set its flag and the flags were `prior` before.
    pub open spec fn spec_sender_published(prior: Flags) -> CloseState {
        if prior.receiver_closed {
            if prior.sent && !prior.received {
                CloseState::DropValue
            } else {
                CloseState::LetGo
            }
        } else if prior.waiting {
            CloseState::Unpark
        } else {
            CloseState::LetGo
        }
    }

    /// After the receiver set its flag and the flags were `prior` before.
    pub open spec fn spec_receiver_published(prior: Flags) -> CloseState {
        if prior.sender_closed && prior.sent && !prior.received {
            CloseState::DropValue
        } else {
            CloseState::LetGo
        }
    }

    /// Starts to close.
    pub fn start() -> (state: Self)
        ensures
            state == CloseState::Publish,
    {
        CloseState::Publish
    }

    /// Goes on after the sender set its flag; the flags were `prior` before.
    pub fn sender_published(prior: u8) -> (state: Self)
        ensures
            state == Self::spec_sender_published(flags_of(prior)),
            prior & RECEIVER_CLOSED != 0 && prior & SENT != 0 && prior & RECEIVED == 0 ==> state
                == CloseState::DropValue,
            prior & RECEIVER_CLOSED != 0 && !(prior & SENT != 0 && prior & RECEIVED == 0) ==> state
                == CloseState::LetGo,
            prior & RECEIVER_CLOSED == 0 && prior & WAITING != 0 ==> state == CloseState::Unpark,
            prior & RECEIVER_CLOSED == 0 && prior & WAITING == 0 ==> state == CloseState::LetGo,
    {
        proof {
            law_flags_are_bits(prior);
        }
        let received = has(prior, RECEIVED);
        if has(prior, RECEIVER_CLOSED) {
            if has(prior, SENT) && !received {
                CloseState::DropValue
            } else {
                CloseState::LetGo
            }
        } else if has(prior, WAITING) {
            CloseState::Unpark
        } else {
            CloseState::LetGo
        }
    }

    /// Goes on after the receiver set its flag; the flags were `prior` before.
    pub fn receiver_published(prior: u8) -> (state: Self)
        ensures
            state == Self::spec_receiver_published(flags_of(prior)),
            state == (if prior & SENDER_CLOSED != 0 && prior & SENT != 0 && prior & RECEIVED == 0 {
                CloseState::DropValue
            } else {
                CloseState::LetGo
            }),
    {
        proof {
            law_flags_are_bits(prior);
        }
        let received = has(prior, RECEIVED);
        if has(prior, SENDER_CLOSED) && has(prior, SENT) && !received {
            CloseState::DropValue
        } else {
            CloseState::LetGo
        }
    }

    /// Goes on after the value was dropped.
    pub fn value_dropped() -> (state: Self)
        ensures
            state == CloseState::LetGo,
    {
        CloseState::LetGo
    }

    /// Goes on after the thread of the receiver was woken.
    pub fn unparked() -> (state: Self)
        ensures
            state == CloseState::LetGo,
    {
        CloseState::LetGo
    }

    /// Goes on after the shared state was let go of.
    pub fn let_go() -> (state: Self)
        ensures
            state == CloseState::Done,
    {
        CloseState::Done
    }
}

/// Where a receive stands.
#[derive(Debug)]
pub enum RecvState<T> {
    /// Leave the handle of this thread.
    StoreThread,
    /// Set `WAITING`.
    SetWaiting,
    /// Nothing has happened yet: look whether the time limit is reached.
    Clock,
    /// Block until this thread is woken, or until the time limit.
    Park,
    /// Look at the flags again.
    Load,
    /// The value is there: set `RECEIVED`.
    MarkReceived,
    /// Take the value.
    Take,
    /// Close the receiver and return.
    Done { result: Result<T, RecvTimeoutError> },
}

impl<T> RecvState<T> {
    /// After a look at the flags.
    pub open spec fn spec_inspected(flags: Flags, timed: bool) -> RecvState<T> {
        if !flags.sent && !flags.sender_closed {
            if timed {
                RecvState::Clock
            } else {
                RecvState::Park
            }
        } else if flags.sent {
            RecvState::MarkReceived
        } else {
            RecvState::Done { result: Err(RecvTimeoutError::Disconnected) }
        }
    }

    /// After the look at the clock.
    pub open spec fn spec_clock_read(expired: bool) -> RecvState<T> {
        if expired {
            RecvState::Done { result: Err(RecvTimeoutError::Timeout) }
        } else {
            RecvState::Park
        }
    }

    /// Starts to receive.
    pub fn start() -> (state: Self)
        ensures
            state == RecvState::<T>::StoreThread,
    {
        RecvState::StoreThread
    }

    /// Goes on after the handle of the thread was left.
    pub fn thread_stored() -> (state: Self)
        ensures
            state == RecvState::<T>::SetWaiting,
    {
        RecvState::SetWaiting
    }

    /// Goes on after a look at the flags, when `WAITING` was set or later; `timed` if there is
    /// a time limit.
    pub fn inspected(state: u8, timed: bool) -> (next: Self)
        ensures
            next == Self::spec_inspected(flags_of(state), timed),
            state & SENT != 0 ==> next == RecvState::<T>::MarkReceived,
            state & SENT == 0 && state & SENDER_CLOSED != 0 ==> next == (RecvState::<T>::Done {
                result: Err(RecvTimeoutError::Disconnected),
            }),
            state & SENT == 0 && state & SENDER_CLOSED == 0 && timed ==> next == RecvState::<T>::Clock,
            state & SENT == 0 && state & SENDER_CLOSED == 0 && !timed ==> next == RecvState::<T>::Park,
    {
        proof {
            law_flags(state);
            law_flags_are_bits(state);
        }
        if !has_any(state, SENT | SENDER_CLOSED) {
            if timed {
                RecvState::Clock
            } else {
                RecvState::Park
            }
        } else if has(state, SENT) {
            RecvState::MarkReceived
        } else {
            RecvState::Done { result: Err(RecvTimeoutError::Disconnected) }
        }
    }

    /// Goes on after the look at the clock: `expired` if the time limit is reached.
    pub fn clock_read(expired: bool) -> (state: Self)
        ensures
            state == Self::spec_clock_read(expired),
            expired ==> state == (RecvState::<T>::Done { result: Err(RecvTimeoutError::Timeout) }),
            !expired ==> state == RecvState::<T>::Park,
    {
        if expired {
            RecvState::Done { result: Err(RecvTimeoutError::Timeout) }
        } else {
            RecvState::Park
        }
    }

    /// Goes on after the thread was woken, or woke by itself.
    pub fn woken() -> (state: Self)
        ensures
            state == RecvState::<T>::Load,
    {
        RecvState::Load
    }

    /// Goes on after `RECEIVED` was set.
    pub fn marked() -> (state: Self)
        ensures
            state == RecvState::<T>::Take,
    {
        RecvState::Take
    }

    /// Goes on after the value was taken.
    pub fn taken(msg: T) -> (state: Self)
        ensures
            state == (RecvState::Done { result: Ok(msg) }),
    {
        RecvState::Done { result: Ok(msg) }
    }
}

/// Where a receive that does not block stands.
#[derive(Debug)]
pub enum TryRecvState<T> {
    /// Look at the flags.
    Load,
    /// The value is there: set `RECEIVED`.
    MarkReceived,
    /// Take the value.
    Take,
    /// Close the receiver and return.
    Done { result: Result<T, TryRecvError> },
}

impl<T> TryRecvState<T> {
    /// After the look at the flags.
    pub open spec fn spec_loaded(flags: Flags) -> TryRecvState<T> {
        if !flags.sent && !flags.sender_closed {
            TryRecvState::Done { result: Err(TryRecvError::Empty) }
        } else if flags.sent {
            TryRecvState::MarkReceived
        } else {
            TryRecvState::Done { result: Err(TryRecvError::Disconnected) }
        }
    }

    /// Starts to receive.
    pub fn start() -> (state: Self)
        ensures
            state == TryRecvState::<T>::Load,
    {
        TryRecvState::Load
    }

    /// Goes on after the look at the flags.
    pub fn loaded(state: u8) -> (next: Self)
        ensures
            next == Self::spec_loaded(flags_of(state)),
            state & SENT != 0 ==> next == TryRecvState::<T>::MarkReceived,
            state & SENT == 0 && state & SENDER_CLOSED != 0 ==> next == (TryRecvState::<T>::Done {
                result: Err(TryRecvError::Disconnected),
            }),
            state & SENT == 0 && state & SENDER_CLOSED == 0 ==> next == (TryRecvState::<T>::Done {
                result: Err(TryRecvError::Empty),
            }),
    {
        proof {
            law_flags(state);
            law_flags_are_bits(state);
        }
        if !has_any(state, SENT | SENDER_CLOSED) {
            TryRecvState::Done { result: Err(TryRecvError::Empty) }
        } else if has(state, SENT) {
            TryRecvState::MarkReceived
        } else {
            TryRecvState::Done { result: Err(TryRecvError::Disconnected) }
        }
    }

    /// Goes on after `RECEIVED` was set.
    pub fn marked() -> (state: Self)
        ensures
            state == TryRecvState::<T>::Take,
    {
        TryRecvState::Take
    }

    /// Goes on after the value was taken.
    pub fn taken(msg: T) -> (state: Self)
        ensures
            state == (TryRecvState::Done { result: Ok(msg) }),
    {
        TryRecvState::Done { result: Ok(msg) }
    }
}

} // verus!
