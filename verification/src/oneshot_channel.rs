//! The shared state of a oneshot channel.
//!
//! A [`Channel`] holds the value and the flags, and says where sender and receiver stand.
//! [`Channel::step_sender`] and [`Channel::step_receiver`] make one access each, so that a
//! caller who chooses the steps sees every interleaving; a blocked receiver is one that
//! nobody steps until it is woken. The functions that are not called `begin` run one side to
//! its end.
use vstd::prelude::*;

use crate::error::{RecvTimeoutError, SendError, TryRecvError};
use crate::oneshot_history::Move;
use crate::oneshot_protocol::{
    flags_of, law_flags, CloseState, Flags, RecvState, SendState, TryRecvState, EMPTY, RECEIVED,
    RECEIVER_CLOSED, SENDER_CLOSED, SENT, WAITING,
};

verus! {

/// Where the sender stands.
#[derive(Debug)]
pub enum SenderAct<T> {
    /// It has not been used.
    Idle,
    /// It sends.
    Send(SendState<T>),
    /// It is closed without having sent.
    Close(CloseState),
    /// It is gone.
    Gone,
}

/// What a receiver returns.
#[derive(Debug)]
pub enum Received<T> {
    /// It was closed without a receive.
    Nothing,
    /// A receive returns.
    Waited(Result<T, RecvTimeoutError>),
    /// A receive that does not block returns.
    Tried(Result<T, TryRecvError>),
}

/// Where the receiver stands.
#[derive(Debug)]
pub enum ReceiverAct<T> {
    /// It has not been used.
    Idle,
    /// It receives, and blocks until the time limit at most if there is one.
    Recv(Option<u64>, RecvState<T>),
    /// It receives without blocking.
    TryRecv(TryRecvState<T>),
    /// It is closed.
    Close(Received<T>, CloseState),
    /// It is gone.
    Gone,
}

/// What became of the value.
pub enum Fate {
    /// The receiver took it.
    Received,
    /// The sender handed it back.
    Returned,
    /// It was dropped.
    Dropped,
}

/// What a oneshot channel holds, and where both sides stand.
#[verifier::ext_equal]
pub struct ChannelView<T> {
    /// The flags that are set.
    pub flags: Flags,
    /// The value, while it is in the channel.
    pub data: Option<T>,
    /// The thread of the receiver: whether it was woken and has not noticed yet.
    pub thread: Option<bool>,
    /// How many sides have not let go of the shared state; it is freed at zero.
    pub shares: nat,
    /// Where the sender stands.
    pub sender: SenderAct<T>,
    /// Where the receiver stands.
    pub receiver: ReceiverAct<T>,
    /// The value that was written.
    pub written: Option<T>,
    /// What became of it.
    pub fate: Option<Fate>,
}

impl<T> ChannelView<T> {
    /// A channel that has not been used.
    pub open spec fn fresh() -> ChannelView<T> {
        ChannelView {
            flags: flags_of(EMPTY),
            data: None,
            thread: None,
            shares: 2,
            sender: SenderAct::Idle,
            receiver: ReceiverAct::Idle,
            written: None,
            fate: None,
        }
    }

    /// The channel after the thread of the receiver was woken.
    pub open spec fn woken(self) -> ChannelView<T> {
        ChannelView { thread: Some(true), ..self }
    }

    /// The channel after one side let go of it.
    pub open spec fn let_go(self) -> ChannelView<T> {
        ChannelView { shares: (self.shares - 1) as nat, ..self }
    }

    /// The channel after the value left it.
    pub open spec fn without_value(self, fate: Fate) -> ChannelView<T> {
        ChannelView { data: None, fate: Some(fate), ..self }
    }

    /// Whether the receiver is parked and nobody has woken it.
    pub open spec fn blocked(self) -> bool {
        match self.receiver {
            ReceiverAct::Recv(d, RecvState::Park) => self.thread != Some(true),
            _ => false,
        }
    }

    /// The channel after the next step of the sender.
    pub open spec fn next_sender(self) -> ChannelView<T> {
        match self.sender {
            SenderAct::Send(s) => match s {
                SendState::Write { msg } => ChannelView {
                    data: Some(msg),
                    written: Some(msg),
                    sender: SenderAct::Send(SendState::Publish),
                    ..self
                },
                SendState::Publish => ChannelView {
                    flags: Flags { sent: true, sender_closed: true, ..self.flags },
                    sender: SenderAct::Send(SendState::spec_published(self.flags)),
                    ..self
                },
                SendState::TakeBack => ChannelView {
                    sender: SenderAct::Send(
                        SendState::LetGo { result: Err(SendError(self.data->0)) },
                    ),
                    ..self.without_value(Fate::Returned)
                },
                SendState::Unpark => ChannelView {
                    sender: SenderAct::Send(SendState::LetGo { result: Ok(()) }),
                    ..self.woken()
                },
                SendState::LetGo { result } => ChannelView {
                    sender: SenderAct::Send(SendState::Done { result }),
                    ..self.let_go()
                },
                SendState::Done { result } => self,
            },
            SenderAct::Close(s) => match s {
                CloseState::Publish => ChannelView {
                    flags: Flags { sender_closed: true, ..self.flags },
                    sender: SenderAct::Close(CloseState::spec_sender_published(self.flags)),
                    ..self
                },
                CloseState::DropValue => ChannelView {
                    sender: SenderAct::Close(CloseState::LetGo),
                    ..self.without_value(Fate::Dropped)
                },
                CloseState::Unpark => ChannelView {
                    sender: SenderAct::Close(CloseState::LetGo),
                    ..self.woken()
                },
                CloseState::LetGo => ChannelView {
                    sender: SenderAct::Close(CloseState::Done),
                    ..self.let_go()
                },
                CloseState::Done => self,
            },
            _ => self,
        }
    }

    /// The channel after the receiver started to close with what it returns.
    pub open spec fn closing_receiver(self, received: Received<T>) -> ChannelView<T> {
        ChannelView {
            flags: Flags { receiver_closed: true, ..self.flags },
            receiver: ReceiverAct::Close(
                received,
                CloseState::spec_receiver_published(self.flags),
            ),
            ..self
        }
    }

    /// The channel after the next step of the receiver at the time `now`.
    pub open spec fn next_receiver(self, now: u64) -> ChannelView<T> {
        match self.receiver {
            ReceiverAct::Recv(d, s) => match s {
                RecvState::StoreThread => ChannelView {
                    thread: Some(false),
                    receiver: ReceiverAct::Recv(d, RecvState::SetWaiting),
                    ..self
                },
                RecvState::SetWaiting => ChannelView {
                    flags: Flags { waiting: true, ..self.flags },
                    receiver: ReceiverAct::Recv(
                        d,
                        RecvState::spec_inspected(self.flags, d is Some),
                    ),
                    ..self
                },
                RecvState::Clock => ChannelView {
                    receiver: ReceiverAct::Recv(d, RecvState::spec_clock_read(now >= d->0)),
                    ..self
                },
                RecvState::Park => ChannelView {
                    thread: Some(false),
                    receiver: ReceiverAct::Recv(d, RecvState::Load),
                    ..self
                },
                RecvState::Load => ChannelView {
                    receiver: ReceiverAct::Recv(
                        d,
                        RecvState::spec_inspected(self.flags, d is Some),
                    ),
                    ..self
                },
                RecvState::MarkReceived => ChannelView {
                    flags: Flags { received: true, ..self.flags },
                    receiver: ReceiverAct::Recv(d, RecvState::Take),
                    ..self
                },
                RecvState::Take => ChannelView {
                    receiver: ReceiverAct::Recv(d, RecvState::Done { result: Ok(self.data->0) }),
                    ..self.without_value(Fate::Received)
                },
                RecvState::Done { result } => self.closing_receiver(Received::Waited(result)),
            },
            ReceiverAct::TryRecv(s) => match s {
                TryRecvState::Load => ChannelView {
                    receiver: ReceiverAct::TryRecv(TryRecvState::spec_loaded(self.flags)),
                    ..self
                },
                TryRecvState::MarkReceived => ChannelView {
                    flags: Flags { received: true, ..self.flags },
                    receiver: ReceiverAct::TryRecv(TryRecvState::Take),
                    ..self
                },
                TryRecvState::Take => ChannelView {
                    receiver: ReceiverAct::TryRecv(TryRecvState::Done { result: Ok(self.data->0) }),
                    ..self.without_value(Fate::Received)
                },
                TryRecvState::Done { result } => self.closing_receiver(Received::Tried(result)),
            },
            ReceiverAct::Close(received, s) => match s {
                CloseState::Publish => self.closing_receiver(received),
                CloseState::DropValue => ChannelView {
                    receiver: ReceiverAct::Close(received, CloseState::LetGo),
                    ..self.without_value(Fate::Dropped)
                },
                CloseState::LetGo => ChannelView {
                    receiver: ReceiverAct::Close(received, CloseState::Done),
                    ..self.let_go()
                },
                _ => self,
            },
            _ => self,
        }
    }

    /// Whether the sender has let go of the shared state.
    pub open spec fn sender_through(self) -> bool {
        match self.sender {
            SenderAct::Send(s) => s is Done,
            SenderAct::Close(s) => s is Done,
            SenderAct::Gone => true,
            SenderAct::Idle => false,
        }
    }

    /// Whether the receiver has let go of the shared state.
    pub open spec fn receiver_through(self) -> bool {
        match self.receiver {
            ReceiverAct::Close(received, s) => s is Done,
            ReceiverAct::Gone => true,
            _ => false,
        }
    }

    /// Whether the sender is about to wake the receiver.
    pub open spec fn waking(self) -> bool {
        match self.sender {
            SenderAct::Send(s) => s is Unpark,
            SenderAct::Close(s) => s is Unpark,
            _ => false,
        }
    }

    /// The flags and the value fit where the sender stands.
    pub open spec fn sender_inv(self) -> bool {
        let f = self.flags;
        let unused = !f.sent && !f.sender_closed && self.data is None && self.written is None;
        match self.sender {
            SenderAct::Idle => unused,
            SenderAct::Send(s) => match s {
                SendState::Write { msg } => unused,
                SendState::Publish => !f.sent && !f.sender_closed && self.written is Some,
                SendState::TakeBack => f.sent && f.receiver_closed && !f.received && self.data
                    is Some,
                SendState::Unpark => f.sent && f.waiting && self.fate != Some(Fate::Returned),
                SendState::LetGo { result } => f.sent && self.returned(result),
                SendState::Done { result } => f.sent && self.returned(result),
            },
            SenderAct::Close(s) => match s {
                CloseState::Publish => unused,
                CloseState::DropValue => false,
                CloseState::Unpark => f.sender_closed && !f.sent && f.waiting,
                _ => f.sender_closed && !f.sent,
            },
            SenderAct::Gone => f.sender_closed,
        }
    }

    /// Whether `result` is what a send returns.
    pub open spec fn returned(self, result: Result<(), SendError<T>>) -> bool {
        match result {
            Ok(unit) => unit == () && self.fate != Some(Fate::Returned),
            Err(SendError(msg)) => self.fate == Some(Fate::Returned) && self.written == Some(msg)
                && self.flags.receiver_closed,
        }
    }

    /// Whether the receiver has got `msg`.
    pub open spec fn got(self, msg: T) -> bool {
        self.flags.received && self.written == Some(msg) && self.fate == Some(Fate::Received)
    }

    /// Whether `received` is what the receiver returns.
    pub open spec fn answers(self, received: Received<T>) -> bool {
        match received {
            Received::Nothing => !self.flags.received,
            Received::Waited(Ok(msg)) => self.got(msg),
            Received::Waited(Err(RecvTimeoutError::Disconnected)) => !self.flags.received
                && self.flags.sender_closed && !self.flags.sent,
            Received::Waited(Err(RecvTimeoutError::Timeout)) => !self.flags.received,
            Received::Tried(Ok(msg)) => self.got(msg),
            Received::Tried(Err(TryRecvError::Disconnected)) => !self.flags.received
                && self.flags.sender_closed && !self.flags.sent,
            Received::Tried(Err(TryRecvError::Empty)) => !self.flags.received,
        }
    }

    /// The flags and the value fit where the receiver stands.
    pub open spec fn receiver_inv(self) -> bool {
        let f = self.flags;
        match self.receiver {
            ReceiverAct::Idle => !f.receiver_closed && !f.received && !f.waiting,
            ReceiverAct::Recv(d, s) => !f.receiver_closed && match s {
                RecvState::StoreThread => !f.received && !f.waiting,
                RecvState::SetWaiting => !f.received && !f.waiting && self.thread is Some,
                RecvState::MarkReceived => !f.received && f.sent && f.waiting && self.thread
                    is Some,
                RecvState::Take => f.received && f.sent && f.waiting && self.data is Some
                    && self.thread is Some,
                RecvState::Done { result } => self.answers(Received::Waited(result)) && f.waiting
                    && self.thread is Some && (result == Err::<T, RecvTimeoutError>(
                    RecvTimeoutError::Timeout,
                ) ==> d is Some),
                RecvState::Load => !f.received && f.waiting && self.thread is Some,
                RecvState::Clock => !f.received && f.waiting && self.thread is Some && d is Some
                    && (f.sender_closed ==> self.thread == Some(true) || self.waking()),
                RecvState::Park => !f.received && f.waiting && self.thread is Some && (
                f.sender_closed ==> self.thread == Some(true) || self.waking()),
            },
            ReceiverAct::TryRecv(s) => !f.receiver_closed && !f.waiting && match s {
                TryRecvState::Load => !f.received,
                TryRecvState::MarkReceived => !f.received && f.sent,
                TryRecvState::Take => f.received && f.sent && self.data is Some,
                TryRecvState::Done { result } => self.answers(Received::Tried(result)),
            },
            ReceiverAct::Close(received, s) => match s {
                CloseState::Publish => !f.receiver_closed && !f.received && !f.waiting && received
                    is Nothing,
                CloseState::DropValue => f.receiver_closed && f.sent && !f.received && self.data
                    is Some && self.answers(received),
                CloseState::Unpark => false,
                _ => f.receiver_closed && self.answers(received),
            },
            ReceiverAct::Gone => f.receiver_closed,
        }
    }

    /// The value is in the channel from when it was written until it is received, handed
    /// back or dropped; somebody is responsible for it all the time.
    pub open spec fn value_inv(self) -> bool {
        let f = self.flags;
        &&& f.sent ==> f.sender_closed && self.written is Some
        &&& match self.fate {
            None => self.data == self.written,
            Some(fate) => {
                &&& self.data is None
                &&& f.sent
                &&& match fate {
                    Fate::Received => f.received,
                    _ => f.receiver_closed && !f.received,
                }
            },
        }
        &&& f.waiting ==> self.thread is Some
        &&& f.sent && self.data is Some && f.receiver_closed ==> {
            ||| self.sender matches SenderAct::Send(s) && s is TakeBack
            ||| self.receiver matches ReceiverAct::Close(received, s) && s is DropValue
        }
        &&& f.received ==> f.sent
        &&& !f.sent && self.written is Some ==> (self.sender matches SenderAct::Send(s) && s
            is Publish)
        &&& (self.sender matches SenderAct::Send(s) && s is TakeBack) ==> !(self.receiver matches
            ReceiverAct::Close(received, s) && s is DropValue)
    }

    /// What is true of a channel in every state.
    pub open spec fn inv(self) -> bool {
        &&& self.sender_inv()
        &&& self.receiver_inv()
        &&& self.value_inv()
        &&& self.shares == (if self.sender_through() {
            0nat
        } else {
            1
        }) + (if self.receiver_through() {
            0nat
        } else {
            1
        })
    }

    /// Every step of the sender keeps the channel in order.
    pub proof fn lemma_sender_step(self)
        requires
            self.inv(),
        ensures
            self.next_sender().inv(),
    {
    }

    /// Every step of the receiver keeps the channel in order.
    pub proof fn lemma_receiver_step(self, now: u64)
        requires
            self.inv(),
        ensures
            self.next_receiver(now).inv(),
    {
    }
}

/// What a sender returns.
#[derive(Debug)]
pub enum Sent<T> {
    /// A send returns.
    Sent(Result<(), SendError<T>>),
    /// The sender is closed.
    Closed,
}

/// What is known of a channel beyond what it holds.
struct Book<T> {
    written: Option<T>,
    fate: Option<Fate>,
}

/// The shared state of a oneshot channel, with both sides.
pub struct Channel<T> {
    state: u8,
    data: Option<T>,
    thread: Option<bool>,
    shares: u8,
    sender: SenderAct<T>,
    receiver: ReceiverAct<T>,
    book: Ghost<Book<T>>,
}

impl<T> View for Channel<T> {
    type V = ChannelView<T>;

    closed spec fn view(&self) -> ChannelView<T> {
        ChannelView {
            flags: flags_of(self.state),
            data: self.data,
            thread: self.thread,
            shares: self.shares as nat,
            sender: self.sender,
            receiver: self.receiver,
            written: self.book@.written,
            fate: self.book@.fate,
        }
    }
}

impl<T> Channel<T> {
    /// The channel is in order.
    pub open spec fn wf(self) -> bool {
        self@.inv()
    }

    /// Creates a channel.
    pub fn new() -> (channel: Self)
        ensures
            channel.wf(),
            channel@ == ChannelView::<T>::fresh(),
            !channel@.flags.sent && !channel@.flags.sender_closed && !channel@.flags.receiver_closed,
            !channel@.flags.waiting && !channel@.flags.received,
            channel@.data is None && channel@.written is None && channel@.fate is None && channel@.thread is None,
            channel@.shares == 2,
            channel@.sender is Idle,
            channel@.receiver is Idle,
    {
        proof {
            law_flags(EMPTY);
        }
        Channel {
            state: EMPTY,
            data: None,
            thread: None,
            shares: 2,
            sender: SenderAct::Idle,
            receiver: ReceiverAct::Idle,
            book: Ghost(Book { written: None, fate: None }),
        }
    }

    /// Sets `flags` and returns the flags that were set before.
    fn fetch_or(&mut self, flags: u8) -> (prior: u8)
        ensures
            prior == old(self).state,
            *final(self) == (Channel { state: old(self).state | flags, ..*old(self) }),
    {
        let prior: u8 = self.state;
        self.state = prior | flags;
        prior
    }

    /// Takes the value out.
    fn take_value(&mut self, Ghost(fate): Ghost<Fate>) -> (msg: Option<T>)
        ensures
            msg == old(self).data,
            *final(self) == (Channel {
                data: None,
                book: Ghost(Book { fate: Some(fate), ..old(self).book@ }),
                ..*old(self)
            }),
    {
        let ghost b = self.book@;
        self.book = Ghost(Book { fate: Some(fate), ..b });
        self.data.take()
    }

    /// Starts to send `msg`.
    pub fn begin_send(&mut self, msg: T)
        requires
            old(self).wf(),
            old(self)@.sender is Idle,
        ensures
            final(self).wf(),
            final(self)@ == (ChannelView {
                sender: SenderAct::Send(SendState::Write { msg }),
                ..old(self)@
            }),
            old(self)@.moves_to(Move::BeginSend(msg), final(self)@),
    {
        self.sender = SenderAct::Send(SendState::start(msg));
    }

    /// Starts to close the sender.
    pub fn begin_close_sender(&mut self)
        requires
            old(self).wf(),
            old(self)@.sender is Idle,
        ensures
            final(self).wf(),
            final(self)@ == (ChannelView {
                sender: SenderAct::Close(CloseState::Publish),
                ..old(self)@
            }),
            old(self)@.moves_to(Move::BeginCloseSender, final(self)@),
    {
        self.sender = SenderAct::Close(CloseState::start());
    }

    /// Starts to receive; with a `deadline`, the receiver blocks no longer than until that
    /// time.
    pub fn begin_recv(&mut self, deadline: Option<u64>)
        requires
            old(self).wf(),
            old(self)@.receiver is Idle,
        ensures
            final(self).wf(),
            final(self)@ == (ChannelView {
                receiver: ReceiverAct::Recv(deadline, RecvState::StoreThread),
                ..old(self)@
            }),
            old(self)@.moves_to(Move::BeginRecv(deadline), final(self)@),
    {
        self.receiver = ReceiverAct::Recv(deadline, RecvState::start());
    }

    /// Starts to receive at the time `now`; the receiver blocks no longer than for `timeout`.
    pub fn begin_recv_timeout(&mut self, now: u64, timeout: u64)
        requires
            old(self).wf(),
            old(self)@.receiver is Idle,
            now + timeout <= u64::MAX,
        ensures
            final(self).wf(),
            final(self)@ == (ChannelView {
                receiver: ReceiverAct::Recv(
                    Some((now + timeout) as u64),
                    RecvState::StoreThread,
                ),
                ..old(self)@
            }),
            old(self)@.moves_to(Move::BeginRecv(Some((now + timeout) as u64)), final(self)@),
    {
        self.begin_recv(Some(now + timeout));
    }

    /// Starts to receive without blocking.
    pub fn begin_try_recv(&mut self)
        requires
            old(self).wf(),
            old(self)@.receiver is Idle,
        ensures
            final(self).wf(),
            final(self)@ == (ChannelView {
                receiver: ReceiverAct::TryRecv(TryRecvState::Load),
                ..old(self)@
            }),
            old(self)@.moves_to(Move::BeginTryRecv, final(self)@),
    {
        self.receiver = ReceiverAct::TryRecv(TryRecvState::start());
    }

    /// Starts to close the receiver.
    pub fn begin_close_receiver(&mut self)
        requires
            old(self).wf(),
            old(self)@.receiver is Idle,
        ensures
            final(self).wf(),
            final(self)@ == (ChannelView {
                receiver: ReceiverAct::Close(Received::Nothing, CloseState::Publish),
                ..old(self)@
            }),
            old(self)@.moves_to(Move::BeginCloseReceiver, final(self)@),
    {
        self.receiver = ReceiverAct::Close(Received::Nothing, CloseState::start());
    }

    /// Whether the receiver is parked and nobody has woken it.
    pub fn is_blocked(&self) -> (blocked: bool)
        ensures
            blocked == self@.blocked(),
            blocked == (self@.thread != Some(true) && (self@.receiver matches ReceiverAct::Recv(
                d,
                RecvState::Park,
            ))),
    {
        match (&self.receiver, &self.thread) {
            (ReceiverAct::Recv(_, RecvState::Park), Some(token)) => !*token,
            (ReceiverAct::Recv(_, RecvState::Park), None) => true,
            _ => false,
        }
    }

    /// Makes the next access of the sender; returns what it returns if it is through.
    pub fn step_sender(&mut self) -> (outcome: Option<Sent<T>>)
        requires
            old(self).wf(),
            old(self)@.sender is Send || old(self)@.sender is Close,
        ensures
            final(self).wf(),
            match outcome {
                Some(sent) => {
                    &&& old(self)@.sender_through()
                    &&& old(self)@.sender == (match sent {
                        Sent::Sent(result) => SenderAct::Send(SendState::Done { result }),
                        Sent::Closed => SenderAct::Close(CloseState::Done),
                    })
                    &&& final(self)@ == (ChannelView { sender: SenderAct::Gone, ..old(self)@ })
                    &&& old(self)@.moves_to(Move::EndSender, final(self)@)
                },
                None => {
                    &&& !old(self)@.sender_through()
                    &&& !(old(self)@.sender matches SenderAct::Send(SendState::Done { result }))
                    &&& old(self)@.sender != SenderAct::<T>::Close(CloseState::Done)
                    &&& final(self)@ == old(self)@.next_sender()
                    &&& old(self)@.moves_to(Move::StepSender, final(self)@)
                },
            },
    {
        proof {
            self@.lemma_sender_step();
            law_flags(self.state);
        }
        let mut act: SenderAct<T> = SenderAct::Gone;
        core::mem::swap(&mut act, &mut self.sender);
        match act {
            SenderAct::Send(SendState::Write { msg }) => {
                let ghost b = self.book@;
                self.book = Ghost(Book { written: Some(msg), ..b });
                self.data = Some(msg);
                self.sender = SenderAct::Send(SendState::written());
                None
            },
            SenderAct::Send(SendState::Publish) => {
                let prior: u8 = self.fetch_or(SENT | SENDER_CLOSED);
                self.sender = SenderAct::Send(SendState::published(prior));
                None
            },
            SenderAct::Send(SendState::TakeBack) => {
                if let Some(msg) = self.take_value(Ghost(Fate::Returned)) {
                    self.sender = SenderAct::Send(SendState::taken_back(msg));
                }
                None
            },
            SenderAct::Send(SendState::Unpark) => {
                self.thread = Some(true);
                self.sender = SenderAct::Send(SendState::unparked());
                None
            },
            SenderAct::Send(SendState::LetGo { result }) => {
                self.shares = self.shares - 1;
                self.sender = SenderAct::Send(SendState::let_go(result));
                None
            },
            SenderAct::Send(SendState::Done { result }) => Some(Sent::Sent(result)),
            SenderAct::Close(CloseState::Publish) => {
                let prior: u8 = self.fetch_or(SENDER_CLOSED);
                self.sender = SenderAct::Close(CloseState::sender_published(prior));
                None
            },
            SenderAct::Close(CloseState::DropValue) => {
                let value = self.take_value(Ghost(Fate::Dropped));
                self.sender = SenderAct::Close(CloseState::value_dropped());
                None
            },
            SenderAct::Close(CloseState::Unpark) => {
                self.thread = Some(true);
                self.sender = SenderAct::Close(CloseState::unparked());
                None
            },
            SenderAct::Close(CloseState::LetGo) => {
                self.shares = self.shares - 1;
                self.sender = SenderAct::Close(CloseState::let_go());
                None
            },
            SenderAct::Close(CloseState::Done) => Some(Sent::Closed),
            _ => None,
        }
    }

    /// Makes the next access of the receiver at the time `now`; returns what it returns if it
    /// is through.
    pub fn step_receiver(&mut self, now: u64) -> (outcome: Option<Received<T>>)
        requires
            old(self).wf(),
            !(old(self)@.receiver is Idle),
            !(old(self)@.receiver is Gone),
        ensures
            final(self).wf(),
            match outcome {
                Some(received) => {
                    &&& old(self)@.receiver == ReceiverAct::Close(received, CloseState::Done)
                    &&& final(self)@ == (ChannelView { receiver: ReceiverAct::Gone, ..old(self)@ })
                    &&& old(self)@.moves_to(Move::EndReceiver, final(self)@)
                },
                None => {
                    &&& !old(self)@.receiver_through()
                    &&& !(old(self)@.receiver matches ReceiverAct::Close(received, CloseState::Done))
                    &&& final(self)@ == old(self)@.next_receiver(now)
                    &&& old(self)@.moves_to(Move::StepReceiver(now), final(self)@)
                },
            },
    {
        proof {
            self@.lemma_receiver_step(now);
            law_flags(self.state);
        }
        let mut act: ReceiverAct<T> = ReceiverAct::Gone;
        core::mem::swap(&mut act, &mut self.receiver);
        match act {
            ReceiverAct::Recv(d, RecvState::StoreThread) => {
                self.thread = Some(false);
                self.receiver = ReceiverAct::Recv(d, RecvState::thread_stored());
                None
            },
            ReceiverAct::Recv(d, RecvState::SetWaiting) => {
                let prior: u8 = self.fetch_or(WAITING);
                self.receiver = ReceiverAct::Recv(d, RecvState::inspected(prior, d.is_some()));
                None
            },
            ReceiverAct::Recv(d, RecvState::Clock) => {
                let expired = match d {
                    Some(deadline) => now >= deadline,
                    None => false,
                };
                self.receiver = ReceiverAct::Recv(d, RecvState::clock_read(expired));
                None
            },
            ReceiverAct::Recv(d, RecvState::Park) => {
                self.thread = Some(false);
                self.receiver = ReceiverAct::Recv(d, RecvState::woken());
                None
            },
            ReceiverAct::Recv(d, RecvState::Load) => {
                let state: u8 = self.state;
                self.receiver = ReceiverAct::Recv(d, RecvState::inspected(state, d.is_some()));
                None
            },
            ReceiverAct::Recv(d, RecvState::MarkReceived) => {
                let prior: u8 = self.fetch_or(RECEIVED);
                self.receiver = ReceiverAct::Recv(d, RecvState::marked());
                None
            },
            ReceiverAct::Recv(d, RecvState::Take) => {
                if let Some(msg) = self.take_value(Ghost(Fate::Received)) {
                    self.receiver = ReceiverAct::Recv(d, RecvState::taken(msg));
                }
                None
            },
            ReceiverAct::Recv(d, RecvState::Done { result }) => {
                let prior: u8 = self.fetch_or(RECEIVER_CLOSED);
                self.receiver = ReceiverAct::Close(
                    Received::Waited(result),
                    CloseState::receiver_published(prior),
                );
                None
            },
            ReceiverAct::TryRecv(TryRecvState::Load) => {
                let state: u8 = self.state;
                self.receiver = ReceiverAct::TryRecv(TryRecvState::loaded(state));
                None
            },
            ReceiverAct::TryRecv(TryRecvState::MarkReceived) => {
                let prior: u8 = self.fetch_or(RECEIVED);
                self.receiver = ReceiverAct::TryRecv(TryRecvState::marked());
                None
            },
            ReceiverAct::TryRecv(TryRecvState::Take) => {
                if let Some(msg) = self.take_value(Ghost(Fate::Received)) {
                    self.receiver = ReceiverAct::TryRecv(TryRecvState::taken(msg));
                }
                None
            },
            ReceiverAct::TryRecv(TryRecvState::Done { result }) => {
                let prior: u8 = self.fetch_or(RECEIVER_CLOSED);
                self.receiver = ReceiverAct::Close(
                    Received::Tried(result),
                    CloseState::receiver_published(prior),
                );
                None
            },
            ReceiverAct::Close(received, CloseState::Publish) => {
                let prior: u8 = self.fetch_or(RECEIVER_CLOSED);
                self.receiver = ReceiverAct::Close(
                    received,
                    CloseState::receiver_published(prior),
                );
                None
            },
            ReceiverAct::Close(received, CloseState::DropValue) => {
                let value = self.take_value(Ghost(Fate::Dropped));
                self.receiver = ReceiverAct::Close(received, CloseState::value_dropped());
                None
            },
            ReceiverAct::Close(received, CloseState::LetGo) => {
                self.shares = self.shares - 1;
                self.receiver = ReceiverAct::Close(received, CloseState::let_go());
                None
            },
            ReceiverAct::Close(received, CloseState::Done) => Some(received),
            _ => None,
        }
    }
}

impl<T> ChannelView<T> {
    /// How many steps are left to the sender, at most.
    pub open spec fn sender_rank(self) -> nat {
        match self.sender {
            SenderAct::Send(s) => match s {
                SendState::Write { msg } => 4,
                SendState::Publish => 3,
                SendState::TakeBack => 2,
                SendState::Unpark => 2,
                SendState::LetGo { result } => 1,
                SendState::Done { result } => 0,
            },
            SenderAct::Close(s) => match s {
                CloseState::Publish => 3,
                CloseState::DropValue => 2,
                CloseState::Unpark => 2,
                CloseState::LetGo => 1,
                CloseState::Done => 0,
            },
            _ => 0,
        }
    }

    /// What becomes of the channel when the sender runs to its end.
    spec fn settle_sender(self) -> ChannelView<T>
        decreases self.sender_rank(),
    {
        if self.sender_rank() == 0 {
            ChannelView { sender: SenderAct::Gone, ..self }
        } else {
            self.next_sender().settle_sender()
        }
    }

    /// How many steps are left to the receiver, at most, if it does not have to wait.
    pub open spec fn receiver_rank(self) -> nat {
        match self.receiver {
            ReceiverAct::Recv(d, s) => match s {
                RecvState::StoreThread => 10,
                RecvState::SetWaiting => 9,
                RecvState::Park => 8,
                RecvState::Load => 7,
                RecvState::Clock => 6,
                RecvState::MarkReceived => 5,
                RecvState::Take => 4,
                RecvState::Done { result } => 3,
            },
            ReceiverAct::TryRecv(s) => match s {
                TryRecvState::Load => 6,
                TryRecvState::MarkReceived => 5,
                TryRecvState::Take => 4,
                TryRecvState::Done { result } => 3,
            },
            ReceiverAct::Close(received, s) => match s {
                CloseState::Publish => 3,
                CloseState::DropValue => 2,
                CloseState::Unpark => 0,
                CloseState::LetGo => 1,
                CloseState::Done => 0,
            },
            _ => 0,
        }
    }

    /// How many steps are left to the receiver, at most, once the sender is closed.
    pub open spec fn receiver_rank_after_close(self) -> nat {
        match self.receiver {
            ReceiverAct::Recv(d, RecvState::StoreThread) => 11,
            ReceiverAct::Recv(d, RecvState::SetWaiting) => 10,
            ReceiverAct::Recv(d, RecvState::Clock) => 9,
            _ => self.receiver_rank(),
        }
    }

    /// Whether the receiver waits without a time limit for something to happen.
    spec fn stuck(self) -> bool {
        self.receiver matches ReceiverAct::Recv(None, s) && (s is Load || s is Park || s
            is SetWaiting) && !self.flags.sent && !self.flags.sender_closed
    }

    /// What becomes of the channel when the receiver runs to its end and its time is up.
    spec fn settle_receiver(self) -> ChannelView<T>
        decreases self.receiver_rank(),
    {
        if self.receiver_rank() == 0 || self.stuck() {
            ChannelView { receiver: ReceiverAct::Gone, ..self }
        } else {
            self.next_receiver(u64::MAX).settle_receiver()
        }
    }

    /// What the receiver returns when it runs to its end and its time is up.
    spec fn settle_received(self) -> Received<T>
        decreases self.receiver_rank(),
    {
        if self.receiver_rank() == 0 || self.stuck() {
            match self.receiver {
                ReceiverAct::Close(received, s) => received,
                _ => Received::Nothing,
            }
        } else {
            self.next_receiver(u64::MAX).settle_received()
        }
    }

    /// How many steps are left to a receiver that runs alone; `early` if the time limit is
    /// ahead.
    spec fn solo_rank(self, early: bool) -> nat {
        match self.receiver {
            ReceiverAct::Recv(d, RecvState::Park) => if early {
                9
            } else {
                8
            },
            _ => self.receiver_rank() + if early {
                10nat
            } else {
                0
            },
        }
    }

    /// The channel after a send of `msg` that ran to its end.
    pub open spec fn after_send(self, msg: T) -> ChannelView<T> {
        let closed = self.flags.receiver_closed;
        ChannelView {
            flags: Flags { sent: true, sender_closed: true, ..self.flags },
            data: if closed {
                None
            } else {
                Some(msg)
            },
            thread: if !closed && self.flags.waiting {
                Some(true)
            } else {
                self.thread
            },
            shares: (self.shares - 1) as nat,
            sender: SenderAct::Gone,
            receiver: self.receiver,
            written: Some(msg),
            fate: if closed {
                Some(Fate::Returned)
            } else {
                None
            },
        }
    }

    /// The channel after the closing of an unused sender that ran to its end.
    pub open spec fn after_close_sender(self) -> ChannelView<T> {
        ChannelView {
            flags: Flags { sender_closed: true, ..self.flags },
            thread: if !self.flags.receiver_closed && self.flags.waiting {
                Some(true)
            } else {
                self.thread
            },
            shares: (self.shares - 1) as nat,
            sender: SenderAct::Gone,
            ..self
        }
    }

    /// The channel after a receive that ran to its end.
    pub open spec fn after_recv(self) -> ChannelView<T> {
        ChannelView {
            flags: Flags { waiting: true, ..self.after_try_recv().flags },
            thread: Some(false),
            ..self.after_try_recv()
        }
    }

    /// The channel after a receive that did not block and ran to its end.
    pub open spec fn after_try_recv(self) -> ChannelView<T> {
        ChannelView {
            flags: Flags { received: self.flags.sent, receiver_closed: true, ..self.flags },
            data: if self.flags.sent {
                None
            } else {
                self.data
            },
            shares: (self.shares - 1) as nat,
            receiver: ReceiverAct::Gone,
            fate: if self.flags.sent {
                Some(Fate::Received)
            } else {
                self.fate
            },
            ..self
        }
    }

    /// The channel after the closing of an unused receiver that ran to its end.
    pub open spec fn after_close_receiver(self) -> ChannelView<T> {
        ChannelView {
            flags: Flags { receiver_closed: true, ..self.flags },
            data: if self.flags.sent {
                None
            } else {
                self.data
            },
            shares: (self.shares - 1) as nat,
            receiver: ReceiverAct::Gone,
            fate: if self.flags.sent {
                Some(Fate::Dropped)
            } else {
                self.fate
            },
            ..self
        }
    }

    /// A send that runs to its end.
    proof fn lemma_settle_send(self, msg: T)
        requires
            self.inv(),
            self.sender == SenderAct::Send(SendState::Write { msg }),
        ensures
            self.settle_sender() == self.after_send(msg),
    {
        reveal_with_fuel(ChannelView::settle_sender, 5);
    }

    /// The closing of an unused sender that runs to its end.
    proof fn lemma_settle_close_sender(self)
        requires
            self.inv(),
            self.sender == SenderAct::<T>::Close(CloseState::Publish),
        ensures
            self.settle_sender() == self.after_close_sender(),
    {
        reveal_with_fuel(ChannelView::settle_sender, 5);
    }

    /// A receive that runs to its end.
    proof fn lemma_settle_recv(self, d: Option<u64>)
        requires
            self.inv(),
            self.receiver == ReceiverAct::<T>::Recv(d, RecvState::StoreThread),
            d is None ==> self.flags.sender_closed,
        ensures
            self.settle_receiver() == self.after_recv(),
            self.settle_received() == Received::Waited(self.recv_answer()),
    {
        reveal_with_fuel(ChannelView::settle_receiver, 11);
        reveal_with_fuel(ChannelView::settle_received, 11);
    }

    /// What a receive returns that runs to its end.
    pub open spec fn recv_answer(self) -> Result<T, RecvTimeoutError> {
        if self.flags.sent {
            Ok(self.data->0)
        } else if self.flags.sender_closed {
            Err(RecvTimeoutError::Disconnected)
        } else {
            Err(RecvTimeoutError::Timeout)
        }
    }

    /// What a receive returns that does not block.
    pub open spec fn try_recv_answer(self) -> Result<T, TryRecvError> {
        if self.flags.sent {
            Ok(self.data->0)
        } else if self.flags.sender_closed {
            Err(TryRecvError::Disconnected)
        } else {
            Err(TryRecvError::Empty)
        }
    }

    /// A receive that does not block and runs to its end.
    proof fn lemma_settle_try_recv(self)
        requires
            self.inv(),
            self.receiver == ReceiverAct::<T>::TryRecv(TryRecvState::Load),
        ensures
            self.settle_receiver() == self.after_try_recv(),
            self.settle_received() == Received::Tried(self.try_recv_answer()),
    {
        reveal_with_fuel(ChannelView::settle_receiver, 7);
        reveal_with_fuel(ChannelView::settle_received, 7);
    }

    /// The closing of an unused receiver that runs to its end.
    proof fn lemma_settle_close_receiver(self)
        requires
            self.inv(),
            self.receiver == ReceiverAct::Close(Received::<T>::Nothing, CloseState::Publish),
        ensures
            self.settle_receiver() == self.after_close_receiver(),
    {
        reveal_with_fuel(ChannelView::settle_receiver, 5);
    }
}

impl<T> Channel<T> {
    /// Sends `msg`: puts it into the channel and wakes the receiver if it is blocked, or hands
    /// it back if the receiver is closed.
    #[verifier::loop_isolation(false)]
    pub fn send(&mut self, msg: T) -> (result: Result<(), SendError<T>>)
        requires
            old(self).wf(),
            old(self)@.sender is Idle,
        ensures
            final(self).wf(),
            result == (if old(self)@.flags.receiver_closed {
                Err(SendError(msg))
            } else {
                Ok(())
            }),
            final(self)@ == old(self)@.after_send(msg),
            final(self)@.flags.sent,
            final(self)@.flags.sender_closed,
            final(self)@.flags.receiver_closed == old(self)@.flags.receiver_closed,
            final(self)@.flags.waiting == old(self)@.flags.waiting,
            final(self)@.flags.received == old(self)@.flags.received,
            final(self)@.written == Some(msg),
            final(self)@.sender is Gone,
            final(self)@.receiver == old(self)@.receiver,
            final(self)@.shares + 1 == old(self)@.shares,
            old(self)@.flags.receiver_closed ==> final(self)@.data is None && final(self)@.fate
                == Some(Fate::Returned) && final(self)@.thread == old(self)@.thread,
            !old(self)@.flags.receiver_closed ==> final(self)@.data == Some(msg) && final(self)@.fate
                is None,
            !old(self)@.flags.receiver_closed && old(self)@.flags.waiting ==> final(self)@.thread
                == Some(true),
            !old(self)@.flags.receiver_closed && !old(self)@.flags.waiting ==> final(self)@.thread
                == old(self)@.thread,
            old(self)@.moves_to(Move::Send(msg), final(self)@),
    {
        self.begin_send(msg);
        let ghost target = self@.settle_sender();
        proof {
            self@.lemma_settle_send(msg);
        }
        loop
            invariant
                self.wf(),
                self@.sender is Send,
                self@.settle_sender() == target,
            decreases self@.sender_rank(),
        {
            let ghost u = self@;
            match self.step_sender() {
                Some(Sent::Sent(result)) => {
                    proof {
                        assert(u.returned(result));
                        assert(u.fate == target.fate && u.written == target.written);
                    }
                    return result;
                },
                _ => {},
            }
        }
    }

    /// Closes the sender without sending, and wakes the receiver if it is blocked.
    #[verifier::loop_isolation(false)]
    pub fn close_sender(&mut self)
        requires
            old(self).wf(),
            old(self)@.sender is Idle,
        ensures
            final(self).wf(),
            final(self)@ == old(self)@.after_close_sender(),
            final(self)@.flags == (Flags { sender_closed: true, ..old(self)@.flags }),
            final(self)@.data == old(self)@.data,
            final(self)@.written == old(self)@.written,
            final(self)@.fate == old(self)@.fate,
            final(self)@.sender is Gone,
            final(self)@.receiver == old(self)@.receiver,
            final(self)@.shares + 1 == old(self)@.shares,
            !old(self)@.flags.receiver_closed && old(self)@.flags.waiting ==> final(self)@.thread
                == Some(true),
            old(self)@.flags.receiver_closed || !old(self)@.flags.waiting ==> final(self)@.thread
                == old(self)@.thread,
            old(self)@.moves_to(Move::CloseSender, final(self)@),
    {
        self.begin_close_sender();
        let ghost target = self@.settle_sender();
        proof {
            self@.lemma_settle_close_sender();
        }
        loop
            invariant
                self.wf(),
                self@.sender is Close,
                self@.settle_sender() == target,
            decreases self@.sender_rank(),
        {
            match self.step_sender() {
                Some(_) => {
                    return ;
                },
                None => {},
            }
        }
    }

    /// Receives, blocking until `deadline` at most if there is one. While the receiver is
    /// blocked nothing happens but that time passes, which `clock` tells: it goes on to the
    /// deadline if the receiver has to wait for it, and not otherwise.
    #[verifier::loop_isolation(false)]
    pub fn recv(&mut self, clock: &mut u64, deadline: Option<u64>) -> (result: Result<
        T,
        RecvTimeoutError,
    >)
        requires
            old(self).wf(),
            old(self)@.receiver is Idle,
            deadline is None ==> old(self)@.flags.sender_closed,
        ensures
            final(self).wf(),
            result == old(self)@.recv_answer(),
            old(self)@.flags.sent ==> result == Ok::<T, RecvTimeoutError>(old(self)@.data->0) && old(self)@.data
                == old(self)@.written && old(self)@.data is Some,
            !old(self)@.flags.sent && old(self)@.flags.sender_closed ==> result == Err::<T, RecvTimeoutError>(
                RecvTimeoutError::Disconnected,
            ),
            !old(self)@.flags.sent && !old(self)@.flags.sender_closed ==> result == Err::<T, RecvTimeoutError>(
                RecvTimeoutError::Timeout,
            ),
            final(self)@ == old(self)@.after_recv(),
            final(self)@.flags.sent == old(self)@.flags.sent,
            final(self)@.flags.sender_closed == old(self)@.flags.sender_closed,
            final(self)@.flags.receiver_closed,
            final(self)@.written == old(self)@.written,
            final(self)@.sender == old(self)@.sender,
            final(self)@.receiver is Gone,
            final(self)@.shares + 1 == old(self)@.shares,
            old(self)@.flags.sent ==> final(self)@.data is None && final(self)@.fate == Some(
                Fate::Received,
            ),
            !old(self)@.flags.sent ==> final(self)@.data == old(self)@.data && final(self)@.fate
                == old(self)@.fate,
            final(self)@.flags.received == old(self)@.flags.sent,
            final(self)@.flags.waiting,
            final(self)@.thread == Some(false),
            old(self)@.moves_to(Move::Recv(deadline), final(self)@),
            *final(clock) == (if !old(self)@.flags.sent && !old(self)@.flags.sender_closed && *old(
                clock,
            ) < deadline->0 {
                deadline->0
            } else {
                *old(clock)
            }),
    {
        let ghost starved = !self@.flags.sent && !self@.flags.sender_closed;
        self.begin_recv(deadline);
        let ghost target = self@.settle_receiver();
        let ghost promise = self@.settle_received();
        proof {
            self@.lemma_settle_recv(deadline);
        }
        loop
            invariant
                self.wf(),
                self@.settle_receiver() == target,
                self@.settle_received() == promise,
                deadline is None ==> self@.flags.sender_closed,
                starved == (!self@.flags.sent && !self@.flags.sender_closed),
                *clock == *old(clock) || (starved && *old(clock) < deadline->0 && *clock
                    == deadline->0),
                match self@.receiver {
                    ReceiverAct::Recv(d, s) => d == deadline && match s {
                        RecvState::StoreThread => true,
                        RecvState::SetWaiting => self@.thread == Some(false),
                        RecvState::Park | RecvState::Load | RecvState::Clock => {
                            &&& self@.thread == Some(false)
                            &&& !self@.flags.sent
                            &&& !self@.flags.sender_closed
                        },
                        _ => starved ==> *clock >= deadline->0,
                    },
                    ReceiverAct::Close(received, s) => received is Waited && (starved ==> *clock
                        >= deadline->0),
                    _ => false,
                },
            decreases self@.solo_rank(deadline is Some && *clock < deadline->0),
        {
            let ghost u = self@;
            if self.is_blocked() {
                if let Some(until) = deadline {
                    if *clock < until {
                        *clock = until;
                    }
                }
            }
            proof {
                if let ReceiverAct::Recv(d, RecvState::Clock) = u.receiver {
                    // Blocking once more leads to the same end.
                    reveal_with_fuel(ChannelView::settle_receiver, 5);
                    reveal_with_fuel(ChannelView::settle_received, 5);
                    let parked = ChannelView {
                        receiver: ReceiverAct::Recv(d, RecvState::Park),
                        ..u
                    };
                    assert(parked.next_receiver(u64::MAX).next_receiver(u64::MAX) == u);
                }
            }
            match self.step_receiver(*clock) {
                Some(Received::Waited(result)) => {
                    return result;
                },
                _ => {},
            }
        }
    }

    /// Receives without blocking.
    #[verifier::loop_isolation(false)]
    pub fn try_recv(&mut self) -> (result: Result<T, TryRecvError>)
        requires
            old(self).wf(),
            old(self)@.receiver is Idle,
        ensures
            final(self).wf(),
            result == old(self)@.try_recv_answer(),
            old(self)@.flags.sent ==> result == Ok::<T, TryRecvError>(old(self)@.data->0) && old(self)@.data
                == old(self)@.written && old(self)@.data is Some,
            !old(self)@.flags.sent && old(self)@.flags.sender_closed ==> result == Err::<T, TryRecvError>(
                TryRecvError::Disconnected,
            ),
            !old(self)@.flags.sent && !old(self)@.flags.sender_closed ==> result == Err::<T, TryRecvError>(
                TryRecvError::Empty,
            ),
            final(self)@ == old(self)@.after_try_recv(),
            final(self)@.flags.sent == old(self)@.flags.sent,
            final(self)@.flags.sender_closed == old(self)@.flags.sender_closed,
            final(self)@.flags.receiver_closed,
            final(self)@.written == old(self)@.written,
            final(self)@.sender == old(self)@.sender,
            final(self)@.receiver is Gone,
            final(self)@.shares + 1 == old(self)@.shares,
            old(self)@.flags.sent ==> final(self)@.data is None && final(self)@.fate == Some(
                Fate::Received,
            ),
            !old(self)@.flags.sent ==> final(self)@.data == old(self)@.data && final(self)@.fate
                == old(self)@.fate,
            final(self)@.flags.received == old(self)@.flags.sent,
            final(self)@.flags.waiting == old(self)@.flags.waiting,
            final(self)@.thread == old(self)@.thread,
            old(self)@.moves_to(Move::TryRecv, final(self)@),
    {
        self.begin_try_recv();
        let ghost target = self@.settle_receiver();
        let ghost promise = self@.settle_received();
        proof {
            self@.lemma_settle_try_recv();
        }
        loop
            invariant
                self.wf(),
                self@.settle_receiver() == target,
                self@.settle_received() == promise,
                self@.receiver is TryRecv || (self@.receiver matches ReceiverAct::Close(received, s)
                    && received is Tried),
            decreases self@.receiver_rank(),
        {
            match self.step_receiver(0) {
                Some(Received::Tried(result)) => {
                    return result;
                },
                _ => {},
            }
        }
    }

    /// Closes the receiver without receiving; a value that is in the channel is dropped.
    #[verifier::loop_isolation(false)]
    pub fn close_receiver(&mut self)
        requires
            old(self).wf(),
            old(self)@.receiver is Idle,
        ensures
            final(self).wf(),
            final(self)@ == old(self)@.after_close_receiver(),
            final(self)@.flags.sent == old(self)@.flags.sent,
            final(self)@.flags.sender_closed == old(self)@.flags.sender_closed,
            final(self)@.flags.receiver_closed,
            final(self)@.written == old(self)@.written,
            final(self)@.sender == old(self)@.sender,
            final(self)@.receiver is Gone,
            final(self)@.shares + 1 == old(self)@.shares,
            old(self)@.flags.sent ==> final(self)@.data is None && final(self)@.fate == Some(
                Fate::Dropped,
            ),
            !old(self)@.flags.sent ==> final(self)@.data == old(self)@.data && final(self)@.fate
                == old(self)@.fate,
            final(self)@.flags.received == old(self)@.flags.received,
            final(self)@.flags.waiting == old(self)@.flags.waiting,
            final(self)@.thread == old(self)@.thread,
            old(self)@.moves_to(Move::CloseReceiver, final(self)@),
    {
        self.begin_close_receiver();
        let ghost target = self@.settle_receiver();
        proof {
            self@.lemma_settle_close_receiver();
        }
        loop
            invariant
                self.wf(),
                self@.settle_receiver() == target,
                self@.receiver is Close,
            decreases self@.receiver_rank(),
        {
            match self.step_receiver(0) {
                Some(_) => {
                    return ;
                },
                None => {},
            }
        }
    }
}

impl<T> ChannelView<T> {
    /// A receiver that gets a value gets the one that was written.
    pub proof fn law_received_value_was_sent(self, msg: T)
        requires
            self.inv(),
            self.receiver matches ReceiverAct::Close(received, s) && (received == Received::Waited(
                Ok(msg),
            ) || received == Received::Tried(Ok(msg))),
        ensures
            self.written == Some(msg),
            self.fate == Some(Fate::Received),
            self.flags.sent,
    {
    }

    /// A send that fails hands back the value that was to be sent, and the receiver was closed
    /// before.
    pub proof fn law_refused_value_is_handed_back(self, msg: T)
        requires
            self.inv(),
            self.sender == SenderAct::Send(SendState::Done { result: Err(SendError(msg)) }),
        ensures
            self.written == Some(msg),
            self.fate == Some(Fate::Returned),
            self.flags.receiver_closed,
            !self.flags.received,
    {
    }

    /// A receiver reports the disconnect only if the sender was closed without sending.
    pub proof fn law_disconnect_means_nothing_was_sent(self)
        requires
            self.inv(),
            self.receiver matches ReceiverAct::Close(received, s) && (received == Received::Waited(
                Err::<T, RecvTimeoutError>(RecvTimeoutError::Disconnected),
            ) || received == Received::Tried(Err::<T, TryRecvError>(TryRecvError::Disconnected))),
        ensures
            self.flags.sender_closed,
            !self.flags.sent,
            self.written is None,
    {
    }

    /// A receiver gives up only when its time limit is reached and neither a value nor the
    /// closing of the sender was there when it last looked.
    pub proof fn law_timeout_is_reported_in_time(self, now: u64)
        requires
            self.inv(),
            self.receiver matches ReceiverAct::Recv(d, s) && !(s is Done),
            self.next_receiver(now).receiver matches ReceiverAct::Recv(
                d,
                RecvState::Done { result },
            ) && result == Err::<T, RecvTimeoutError>(RecvTimeoutError::Timeout),
        ensures
            self.receiver matches ReceiverAct::Recv(Some(deadline), s) && s is Clock && now
                >= deadline,
    {
    }

    /// A blocked receiver is not forgotten: once the sender has closed, it is about to wake it.
    pub proof fn law_blocked_receiver_is_woken(self)
        requires
            self.inv(),
            self.blocked(),
        ensures
            self.flags.sender_closed ==> self.waking(),
    {
    }

    /// A receive ends once the sender is closed: each of its steps then brings it closer to its
    /// end, and no step of the sender takes it back.
    pub proof fn law_receive_ends_once_the_sender_is_closed(self, now: u64)
        requires
            self.inv(),
            self.flags.sender_closed,
            !(self.receiver is Idle),
            !self.receiver_through(),
        ensures
            self.next_receiver(now).receiver_rank_after_close() < self.receiver_rank_after_close()
                <= 11,
            self.next_receiver(now).flags.sender_closed,
            self.next_sender().receiver == self.receiver,
            self.next_sender().flags.sender_closed,
    {
    }

    /// A receive does not wait beyond its time limit: from then on it does not block any more,
    /// and each of its steps brings it closer to its end.
    pub proof fn law_time_limit_ends_the_wait(self, now: u64)
        requires
            self.inv(),
            self.receiver matches ReceiverAct::Recv(Some(deadline), s) && now >= deadline,
        ensures
            !(self.next_receiver(now).receiver matches ReceiverAct::Recv(d, RecvState::Park)),
            self.next_receiver(now).receiver_rank() < self.receiver_rank() <= 10,
            self.next_sender().receiver == self.receiver,
    {
    }

    /// The shared state is freed when both sides have let go of it, and a side that has let go
    /// of it does not touch it any more.
    pub proof fn law_shared_state_is_freed_at_the_end(self, now: u64)
        requires
            self.inv(),
        ensures
            self.shares <= 2,
            self.shares == 0 <==> self.sender_through() && self.receiver_through(),
            self.sender_through() ==> self.next_sender() == self,
            self.receiver_through() ==> self.next_receiver(now) == self,
    {
    }

    /// When both sides are through, no value is left behind: one that was sent was received,
    /// handed back or dropped.
    pub proof fn law_no_value_is_left_behind(self)
        requires
            self.inv(),
            self.sender_through(),
            self.receiver_through(),
        ensures
            self.data is None,
            self.flags.sent <==> self.fate is Some,
    {
    }

    /// What became of the value does not change any more: it is received, handed back or
    /// dropped once.
    pub proof fn law_fate_is_final(self, now: u64)
        requires
            self.inv(),
            self.fate is Some,
        ensures
            self.next_sender().fate == self.fate,
            self.next_receiver(now).fate == self.fate,
            self.next_sender().data is None,
            self.next_receiver(now).data is None,
    {
    }

    /// The sender never waits: each of its steps brings it closer to its end.
    pub proof fn law_sender_is_wait_free(self)
        requires
            self.inv(),
            self.sender is Send || self.sender is Close,
            !self.sender_through(),
        ensures
            self.next_sender().sender_rank() < self.sender_rank() <= 4,
    {
    }

    /// A receive after a send gets the value, a send after the receiver was closed gives it
    /// back. Before the send a receive reports that nothing has come, and after the sender was
    /// closed it reports the disconnect, whether it may block or not.
    pub proof fn law_round_trip(self, msg: T)
        requires
            self.inv(),
            self.sender is Idle,
            self.receiver is Idle,
        ensures
            self.after_send(msg).recv_answer() == Ok::<T, RecvTimeoutError>(msg),
            self.after_send(msg).try_recv_answer() == Ok::<T, TryRecvError>(msg),
            self.after_send(msg).after_close_receiver().fate == Some(Fate::Dropped),
            self.after_close_receiver().after_send(msg).fate == Some(Fate::Returned),
            self.after_close_sender().recv_answer() == Err::<T, RecvTimeoutError>(
                RecvTimeoutError::Disconnected,
            ),
            self.after_close_sender().try_recv_answer() == Err::<T, TryRecvError>(
                TryRecvError::Disconnected,
            ),
            self.recv_answer() == Err::<T, RecvTimeoutError>(RecvTimeoutError::Timeout),
            self.try_recv_answer() == Err::<T, TryRecvError>(TryRecvError::Empty),
            !self.flags.receiver_closed,
            self.after_close_receiver().flags.receiver_closed,
            self.after_recv().flags.receiver_closed,
            self.after_try_recv().flags.receiver_closed,
    {
    }
}

} // verus!
