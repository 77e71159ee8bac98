//! The channel of [`crate::mpmc`] as one value that its operations change one step at a
//! time, what is true of it in every state, and why every step keeps it true.
use vstd::prelude::*;

use crate::error::{RecvTimeoutError, SendError, TryRecvError};
use crate::mpmc_protocol::{CloseState, RecvState, SendState, TryRecvState, WaiterState};

verus! {

/// The record by which a blocked receiver is found and woken.
#[derive(Debug)]
pub struct Waiter {
    /// What it has been told.
    pub state: WaiterState,
    /// How many hold it: its receiver, and the stack or whoever took it from there.
    pub refs: u8,
    /// Whether its thread was woken and has not noticed yet.
    pub token: bool,
}

/// An operation on a channel.
#[derive(Debug)]
pub enum Act<T> {
    /// A send.
    Send(SendState<T, usize>),
    /// The closing of a sender.
    Close(CloseState<usize>),
    /// A receive, with the time until which it may block.
    Recv(Option<u64>, RecvState<T, usize>),
    /// A receive that does not block.
    TryRecv(TryRecvState<T>),
}

/// What a channel holds, and where the operations under way stand.
#[verifier::ext_equal]
pub struct ChannelView<T> {
    /// The messages in the queue, the oldest first.
    pub items: Seq<T>,
    /// All messages that were put into the queue so far.
    pub sent: Seq<T>,
    /// All messages that were taken from the queue so far.
    pub received: Seq<T>,
    /// How many senders are left.
    pub senders: nat,
    /// How many receivers are left.
    pub receivers: nat,
    /// The waiters on the stack, from the bottom to the top.
    pub waiters: Seq<usize>,
    /// The waiters by number.
    pub registry: Seq<Option<Waiter>>,
    /// The operations under way.
    pub ops: Map<int, Act<T>>,
}

/// The number that the next waiter gets.
pub open spec fn free_number(registry: Seq<Option<Waiter>>) -> int {
    first_free(registry, 0)
}

/// The first free number that is not below `from`.
pub open spec fn first_free(registry: Seq<Option<Waiter>>, from: int) -> int
    decreases registry.len() - from,
{
    if from >= registry.len() || registry[from] is None {
        from
    } else {
        first_free(registry, from + 1)
    }
}

/// The registry after `waiter` got the number `w`.
pub open spec fn enter(
    registry: Seq<Option<Waiter>>,
    w: int,
    waiter: Waiter,
) -> Seq<Option<Waiter>> {
    if w < registry.len() {
        registry.update(w, Some(waiter))
    } else {
        registry.push(Some(waiter))
    }
}

impl<T> ChannelView<T> {
    /// A channel without messages, with one sender and one receiver.
    pub open spec fn fresh() -> ChannelView<T> {
        ChannelView {
            items: Seq::empty(),
            sent: Seq::empty(),
            received: Seq::empty(),
            senders: 1,
            receivers: 1,
            waiters: Seq::empty(),
            registry: Seq::empty(),
            ops: Map::empty(),
        }
    }

    /// The channel after all messages were taken.
    pub open spec fn drained(self) -> ChannelView<T> {
        ChannelView { items: Seq::empty(), received: self.received + self.items, ..self }
    }

    /// Whether there is a waiter with the number `w`.
    pub open spec fn live(self, w: usize) -> bool {
        w < self.registry.len() && self.registry[w as int] is Some
    }

    /// The waiter with the number `w`.
    pub open spec fn cell(self, w: usize) -> Waiter {
        self.registry[w as int]->0
    }

    /// Whether operation `id` is parked and nobody has woken it.
    pub open spec fn blocked(self, id: int) -> bool {
        match self.ops[id] {
            Act::Recv(d, RecvState::Park { waiter }) => !self.cell(waiter).token,
            _ => false,
        }
    }

    /// The channel after operation `id` went to `act`.
    pub open spec fn go(self, id: int, act: Act<T>) -> ChannelView<T> {
        ChannelView { ops: self.ops.insert(id, act), ..self }
    }

    /// The channel after the state of waiter `w` became `state`.
    pub open spec fn tell(self, w: usize, state: WaiterState) -> ChannelView<T> {
        ChannelView {
            registry: self.registry.update(
                w as int,
                Some(Waiter { state, refs: self.cell(w).refs, token: self.cell(w).token }),
            ),
            ..self
        }
    }

    /// The channel after the thread of waiter `w` was woken, or noticed it.
    pub open spec fn wake(self, w: usize, token: bool) -> ChannelView<T> {
        ChannelView {
            registry: self.registry.update(
                w as int,
                Some(Waiter { state: self.cell(w).state, refs: self.cell(w).refs, token }),
            ),
            ..self
        }
    }

    /// The channel after one who held waiter `w` let go of it.
    pub open spec fn let_go(self, w: usize) -> ChannelView<T> {
        ChannelView {
            registry: self.registry.update(
                w as int,
                if self.cell(w).refs <= 1 {
                    None
                } else {
                    Some(
                        Waiter {
                            state: self.cell(w).state,
                            refs: (self.cell(w).refs - 1) as u8,
                            token: self.cell(w).token,
                        },
                    )
                },
            ),
            ..self
        }
    }

    /// The oldest message, if there is one.
    pub open spec fn front(self) -> Option<T> {
        if self.items.len() > 0 {
            Some(self.items.first())
        } else {
            None
        }
    }

    /// The channel after the oldest message was taken, if there is one.
    pub open spec fn dequeue(self) -> ChannelView<T> {
        if self.items.len() > 0 {
            ChannelView {
                items: self.items.drop_first(),
                received: self.received.push(self.items.first()),
                ..self
            }
        } else {
            self
        }
    }

    /// The waiter on top of the stack, if there is one.
    pub open spec fn top(self) -> Option<usize> {
        if self.waiters.len() > 0 {
            Some(self.waiters.last())
        } else {
            None
        }
    }

    /// The channel after the waiter on top of the stack was taken, if there is one.
    pub open spec fn pop(self) -> ChannelView<T> {
        if self.waiters.len() > 0 {
            ChannelView { waiters: self.waiters.drop_last(), ..self }
        } else {
            self
        }
    }

    /// The channel after the next step of send `id`.
    pub open spec fn send_step(self, id: int, s: SendState<T, usize>) -> ChannelView<T> {
        match s {
            SendState::LoadReceivers { msg } => self.go(
                id,
                Act::Send(SendState::spec_receivers_loaded(msg, self.receivers > 0)),
            ),
            SendState::Enqueue { msg } => ChannelView {
                items: self.items.push(msg),
                sent: self.sent.push(msg),
                ..self
            }.go(id, Act::Send(SendState::PopWaiter)),
            SendState::PopWaiter => self.pop().go(
                id,
                Act::Send(SendState::spec_popped(self.top())),
            ),
            SendState::Notify { waiter } => if self.cell(waiter).state is Waiting {
                self.tell(waiter, WaiterState::Notified).go(
                    id,
                    Act::Send(SendState::Unpark { waiter }),
                )
            } else {
                self.let_go(waiter).go(id, Act::Send(SendState::PopWaiter))
            },
            SendState::Unpark { waiter } => self.wake(waiter, true).let_go(waiter).go(
                id,
                Act::Send(SendState::Done { result: Ok(()) }),
            ),
            SendState::Done { result } => self,
        }
    }

    /// The channel after the next step of the closing `id`.
    pub open spec fn close_step(self, id: int, s: CloseState<usize>) -> ChannelView<T> {
        match s {
            CloseState::PopWaiter => self.pop().go(
                id,
                Act::Close(CloseState::spec_popped(self.top())),
            ),
            CloseState::Notify { waiter } => if self.cell(waiter).state is Waiting {
                self.tell(waiter, WaiterState::Notified).go(
                    id,
                    Act::Close(CloseState::Unpark { waiter }),
                )
            } else {
                self.let_go(waiter).go(id, Act::Close(CloseState::PopWaiter))
            },
            CloseState::Unpark { waiter } => self.wake(waiter, true).let_go(waiter).go(
                id,
                Act::Close(CloseState::PopWaiter),
            ),
            _ => self,
        }
    }

    /// The channel after the next step of receive `id` at the time `now`.
    pub open spec fn recv_step(
        self,
        id: int,
        d: Option<u64>,
        s: RecvState<T, usize>,
        now: u64,
    ) -> ChannelView<T> {
        match s {
            RecvState::Dequeue { told } => self.dequeue().go(
                id,
                Act::Recv(d, RecvState::spec_dequeued(self.front())),
            ),
            RecvState::LoadSenders => self.go(
                id,
                Act::Recv(d, RecvState::spec_senders_loaded(self.senders > 0)),
            ),
            RecvState::DequeueLast => self.dequeue().go(
                id,
                Act::Recv(d, RecvState::spec_last_dequeued(self.front())),
            ),
            RecvState::Register => {
                let w = free_number(self.registry);
                let waiter = Waiter { state: WaiterState::Waiting, refs: 2, token: false };
                ChannelView { registry: enter(self.registry, w, waiter), ..self }.go(
                    id,
                    Act::Recv(d, RecvState::Push { waiter: w as usize }),
                )
            },
            RecvState::Push { waiter } => ChannelView {
                waiters: self.waiters.push(waiter),
                ..self
            }.go(id, Act::Recv(d, RecvState::Poll { waiter })),
            RecvState::Poll { waiter } => self.dequeue().go(
                id,
                Act::Recv(d, RecvState::spec_polled(waiter, self.front())),
            ),
            RecvState::PollSenders { waiter } => self.go(
                id,
                Act::Recv(d, RecvState::spec_senders_polled(waiter, self.senders > 0)),
            ),
            RecvState::PollLast { waiter } => self.dequeue().go(
                id,
                Act::Recv(d, RecvState::spec_last_polled(waiter, self.front())),
            ),
            RecvState::LoadState { waiter } => {
                let next = Act::Recv(
                    d,
                    RecvState::spec_state_loaded(waiter, self.cell(waiter).state, d is Some),
                );
                if self.cell(waiter).state is Waiting {
                    self.go(id, next)
                } else {
                    self.let_go(waiter).go(id, next)
                }
            },
            RecvState::Clock { waiter } => self.go(
                id,
                Act::Recv(d, RecvState::spec_clock_read(waiter, now >= d->0)),
            ),
            RecvState::Park { waiter } => self.wake(waiter, false).go(
                id,
                Act::Recv(d, RecvState::Poll { waiter }),
            ),
            RecvState::Cancel { waiter, result } => self.tell(
                waiter,
                WaiterState::Cancelled,
            ).let_go(waiter).go(
                id,
                Act::Recv(d, RecvState::spec_cancelled(self.cell(waiter).state, result)),
            ),
            RecvState::PassOn { result } => self.pop().go(
                id,
                Act::Recv(d, RecvState::spec_pass_popped(self.top(), result)),
            ),
            RecvState::PassNotify { waiter, result } => if self.cell(waiter).state is Waiting {
                self.tell(waiter, WaiterState::Notified).go(
                    id,
                    Act::Recv(d, RecvState::PassUnpark { waiter, result }),
                )
            } else {
                self.let_go(waiter).go(id, Act::Recv(d, RecvState::PassOn { result }))
            },
            RecvState::PassUnpark { waiter, result } => self.wake(waiter, true).let_go(waiter).go(
                id,
                Act::Recv(d, RecvState::Done { result }),
            ),
            RecvState::Done { result } => self,
        }
    }

    /// The channel after the next step of the receive `id` that does not block.
    pub open spec fn try_recv_step(self, id: int, s: TryRecvState<T>) -> ChannelView<T> {
        match s {
            TryRecvState::Dequeue => self.dequeue().go(
                id,
                Act::TryRecv(TryRecvState::spec_dequeued(self.front())),
            ),
            TryRecvState::LoadSenders => self.go(
                id,
                Act::TryRecv(TryRecvState::spec_senders_loaded(self.senders > 0)),
            ),
            TryRecvState::DequeueLast => self.dequeue().go(
                id,
                Act::TryRecv(TryRecvState::spec_last_dequeued(self.front())),
            ),
            TryRecvState::Done { result } => self,
        }
    }

    /// The channel after the next step of operation `id` at the time `now`.
    pub open spec fn next(self, id: int, now: u64) -> ChannelView<T> {
        match self.ops[id] {
            Act::Send(s) => self.send_step(id, s),
            Act::Close(s) => self.close_step(id, s),
            Act::Recv(d, s) => self.recv_step(id, d, s, now),
            Act::TryRecv(s) => self.try_recv_step(id, s),
        }
    }
}

/// Whether an operation has nothing left to do but to return.
pub open spec fn done<T>(act: Act<T>) -> bool {
    match act {
        Act::Send(s) => s is Done,
        Act::Close(s) => s is Done,
        Act::Recv(d, s) => s is Done,
        Act::TryRecv(s) => s is Done,
    }
}

/// The waiter that an operation has taken from the stack and is about to tell.
pub open spec fn telling<T>(act: Act<T>) -> Option<usize> {
    match act {
        Act::Send(SendState::Notify { waiter }) => Some(waiter),
        Act::Close(CloseState::Notify { waiter }) => Some(waiter),
        Act::Recv(d, RecvState::PassNotify { waiter, result }) => Some(waiter),
        _ => None,
    }
}

/// The waiter that an operation has told and is about to wake.
pub open spec fn waking<T>(act: Act<T>) -> Option<usize> {
    match act {
        Act::Send(SendState::Unpark { waiter }) => Some(waiter),
        Act::Close(CloseState::Unpark { waiter }) => Some(waiter),
        Act::Recv(d, RecvState::PassUnpark { waiter, result }) => Some(waiter),
        _ => None,
    }
}

/// The waiter that an operation has taken from the stack.
pub open spec fn holds<T>(act: Act<T>) -> Option<usize> {
    match telling(act) {
        Some(w) => Some(w),
        None => waking(act),
    }
}

/// The waiter that a receive has made and not let go of.
pub open spec fn waits<T>(act: Act<T>) -> Option<usize> {
    match act {
        Act::Recv(d, s) => match s {
            RecvState::Push { waiter } => Some(waiter),
            RecvState::Poll { waiter } => Some(waiter),
            RecvState::PollSenders { waiter } => Some(waiter),
            RecvState::PollLast { waiter } => Some(waiter),
            RecvState::LoadState { waiter } => Some(waiter),
            RecvState::Clock { waiter } => Some(waiter),
            RecvState::Park { waiter } => Some(waiter),
            RecvState::Cancel { waiter, result } => Some(waiter),
            _ => None,
        },
        _ => None,
    }
}

/// The waiter that a receive has made and is about to push.
pub open spec fn pushes<T>(act: Act<T>) -> Option<usize> {
    match act {
        Act::Recv(d, RecvState::Push { waiter }) => Some(waiter),
        _ => None,
    }
}

/// The waiter of a receive that is blocked or has only the clock to read before it blocks.
pub open spec fn blocks<T>(act: Act<T>) -> Option<usize> {
    match act {
        Act::Recv(d, RecvState::Clock { waiter }) => Some(waiter),
        Act::Recv(d, RecvState::Park { waiter }) => Some(waiter),
        _ => None,
    }
}

/// The waiter of a receive that has seen a sender since it pushed the waiter and has not
/// looked again since.
pub open spec fn trusts<T>(act: Act<T>) -> Option<usize> {
    match act {
        Act::Recv(d, RecvState::LoadState { waiter }) => Some(waiter),
        _ => blocks(act),
    }
}

/// Whether an operation is the closing of the last sender, waking everybody.
pub open spec fn drains<T>(act: Act<T>) -> bool {
    match act {
        Act::Close(s) => !(s is Decrement) && !(s is Done),
        _ => false,
    }
}

/// Whether an operation has seen that no sender is left and looks for a message once more.
pub open spec fn last_look<T>(act: Act<T>) -> bool {
    match act {
        Act::Recv(d, s) => s is DequeueLast || s is PollLast,
        Act::TryRecv(s) => s is DequeueLast,
        _ => false,
    }
}

/// What a receive has decided to return: once it has a message, has seen the disconnect or
/// has reached its time limit.
pub open spec fn recv_verdict<T>(s: RecvState<T, usize>) -> Option<Result<T, RecvTimeoutError>> {
    match s {
        RecvState::Cancel { waiter, result } => Some(result),
        RecvState::PassOn { result } => Some(result),
        RecvState::PassNotify { waiter, result } => Some(result),
        RecvState::PassUnpark { waiter, result } => Some(result),
        RecvState::Done { result } => Some(result),
        _ => None,
    }
}

/// Whether an operation is a receive that reports the disconnect.
pub open spec fn reports_disconnect<T>(act: Act<T>) -> bool {
    match act {
        Act::Recv(d, s) => recv_verdict(s) == Some(
            Err::<T, RecvTimeoutError>(RecvTimeoutError::Disconnected),
        ),
        Act::TryRecv(TryRecvState::Done { result }) => result == Err::<T, TryRecvError>(
            TryRecvError::Disconnected,
        ),
        _ => false,
    }
}

/// Whether an operation is a receive that reports that its time limit was reached.
pub open spec fn reports_timeout<T>(act: Act<T>) -> bool {
    match act {
        Act::Recv(d, s) => recv_verdict(s) == Some(
            Err::<T, RecvTimeoutError>(RecvTimeoutError::Timeout),
        ),
        _ => false,
    }
}

/// The message that a receive has taken from the queue and is about to return.
pub open spec fn carries<T>(act: Act<T>) -> Option<T> {
    match act {
        Act::Recv(d, s) => match recv_verdict(s) {
            Some(Ok(msg)) => Some(msg),
            _ => None,
        },
        Act::TryRecv(TryRecvState::Done { result: Ok(msg) }) => Some(msg),
        _ => None,
    }
}

/// Who holds which waiter, and who wakes everybody because the last sender closed.
pub struct Roles {
    /// The receive that made a waiter and has not let go of it.
    pub owner: Map<usize, int>,
    /// The operation that took a waiter from the stack and has not let go of it.
    pub holder: Map<usize, int>,
    /// The closing of the last sender, while it is under way.
    pub drain: Option<int>,
}

/// Whether the receive that made `w` has not pushed it yet.
pub open spec fn unpushed<T>(v: ChannelView<T>, r: Roles, w: usize) -> bool {
    r.owner.contains_key(w) && pushes(v.ops[r.owner[w]]) == Some(w)
}

/// Whether `w` counts as held by the stack or by whoever took it from there.
pub open spec fn listed<T>(v: ChannelView<T>, r: Roles, w: usize) -> bool {
    v.waiters.contains(w) || r.holder.contains_key(w) || unpushed(v, r, w)
}

/// The roles are those that the operations under way play.
pub open spec fn roles_inv<T>(v: ChannelView<T>, r: Roles) -> bool {
    &&& forall|i: int| #[trigger]
        v.ops.contains_key(i) ==> match waits(v.ops[i]) {
            Some(w) => r.owner.contains_key(w) && r.owner[w] == i,
            None => true,
        }
    &&& forall|w: usize| #[trigger]
        r.owner.contains_key(w) ==> v.ops.contains_key(r.owner[w]) && waits(v.ops[r.owner[w]])
            == Some(w)
    &&& forall|i: int| #[trigger]
        v.ops.contains_key(i) ==> match holds(v.ops[i]) {
            Some(w) => r.holder.contains_key(w) && r.holder[w] == i,
            None => true,
        }
    &&& forall|w: usize| #[trigger]
        r.holder.contains_key(w) ==> v.ops.contains_key(r.holder[w]) && holds(v.ops[r.holder[w]])
            == Some(w) && !unpushed(v, r, w)
    &&& v.waiters.no_duplicates()
    &&& forall|w: usize| #[trigger]
        v.waiters.contains(w) ==> !r.holder.contains_key(w) && !unpushed(v, r, w)
    &&& match r.drain {
        Some(i) => v.ops.contains_key(i) && drains(v.ops[i]) && v.senders == 0,
        None => true,
    }
    &&& forall|i: int| #[trigger] v.ops.contains_key(i) && drains(v.ops[i]) ==> r.drain == Some(i)
    &&& forall|i: int| #[trigger]
        v.ops.contains_key(i) ==> !(v.ops[i] matches Act::Close(CloseState::Decrement))
    &&& forall|i: int| #[trigger]
        v.ops.contains_key(i) ==> match v.ops[i] {
            Act::Recv(d, RecvState::Clock { waiter }) => d is Some,
            _ => true,
        }
    &&& forall|i: int| #[trigger] v.ops.contains_key(i) && last_look(v.ops[i]) ==> v.senders == 0
}

/// Each waiter is counted by those that hold it, and is gone when nobody does.
pub open spec fn refs_inv<T>(v: ChannelView<T>, r: Roles) -> bool {
    &&& forall|w: usize| #[trigger] v.live(w) ==> listed(v, r, w) || r.owner.contains_key(w)
    &&& forall|w: usize|
        #![trigger v.live(w)]
        #![trigger r.owner.contains_key(w)]
        #![trigger r.holder.contains_key(w)]
        #![trigger v.waiters.contains(w)]
        listed(v, r, w) || r.owner.contains_key(w) ==> {
            &&& v.live(w)
            &&& v.cell(w).refs == (if listed(v, r, w) {
                1int
            } else {
                0
            }) + (if r.owner.contains_key(w) {
                1int
            } else {
                0
            })
        }
}

/// What a waiter has been told fits what has been done to it.
pub open spec fn states_inv<T>(v: ChannelView<T>, r: Roles) -> bool {
    &&& forall|w: usize| #[trigger]
        r.owner.contains_key(w) ==> {
            let act = v.ops[r.owner[w]];
            let cell = v.cell(w);
            &&& !(cell.state is Cancelled)
            &&& cell.token ==> cell.state is Notified
            &&& pushes(act) is Some ==> cell.state is Waiting && !cell.token
            &&& pushes(act) is None && cell.state is Waiting ==> v.waiters.contains(w) || (
            r.holder.contains_key(w) && telling(v.ops[r.holder[w]]) is Some)
            &&& blocks(act) is Some && cell.state is Notified ==> cell.token || (
            r.holder.contains_key(w) && waking(v.ops[r.holder[w]]) is Some)
            &&& trusts(act) is Some && v.waiters.contains(w) ==> v.senders > 0 || r.drain is Some
        }
    &&& forall|w: usize| #[trigger]
        v.live(w) && !r.owner.contains_key(w) ==> !(v.cell(w).state is Waiting)
    &&& forall|w: usize| #[trigger]
        r.holder.contains_key(w) && waking(v.ops[r.holder[w]]) is Some ==> !(v.cell(w).state
            is Waiting)
}

/// What is true of a channel in every state.
pub open spec fn channel_inv<T>(v: ChannelView<T>, r: Roles) -> bool {
    &&& v.received + v.items == v.sent
    &&& roles_inv(v, r)
    &&& refs_inv(v, r)
    &&& states_inv(v, r)
}

/// Whether no sender is left and no message is in the queue.
pub open spec fn exhausted<T>(v: ChannelView<T>) -> bool {
    v.senders == 0 && v.items.len() == 0
}

/// Whether a send is under way.
pub open spec fn sending<T>(v: ChannelView<T>) -> bool {
    exists|i: int| #[trigger] v.ops.contains_key(i) && v.ops[i] is Send
}

/// Without a sender nothing is sent any more, and a receive reports the disconnect only when
/// the last message has been taken.
pub open spec fn ends_inv<T>(v: ChannelView<T>) -> bool {
    &&& v.senders == 0 ==> !sending(v)
    &&& forall|i: int| #[trigger]
        v.ops.contains_key(i) && reports_disconnect(v.ops[i]) ==> exhausted(v)
}

/// The roles after the next step of operation `id`.
pub open spec fn next_roles<T>(v: ChannelView<T>, r: Roles, id: int) -> Roles {
    match v.ops[id] {
        Act::Send(SendState::PopWaiter) if v.waiters.len() > 0 => Roles {
            holder: r.holder.insert(v.waiters.last(), id),
            ..r
        },
        Act::Close(CloseState::PopWaiter) => if v.waiters.len() > 0 {
            Roles { holder: r.holder.insert(v.waiters.last(), id), ..r }
        } else {
            Roles { drain: None, ..r }
        },
        Act::Send(SendState::Notify { waiter }) if !(v.cell(waiter).state is Waiting) => Roles {
            holder: r.holder.remove(waiter),
            ..r
        },
        Act::Close(CloseState::Notify { waiter }) if !(v.cell(waiter).state is Waiting) => Roles {
            holder: r.holder.remove(waiter),
            ..r
        },
        Act::Send(SendState::Unpark { waiter }) => Roles { holder: r.holder.remove(waiter), ..r },
        Act::Close(CloseState::Unpark { waiter }) => Roles { holder: r.holder.remove(waiter), ..r },
        Act::Recv(d, RecvState::Register) => Roles {
            owner: r.owner.insert(free_number(v.registry) as usize, id),
            ..r
        },
        Act::Recv(d, RecvState::LoadState { waiter }) if !(v.cell(waiter).state
            is Waiting) => Roles { owner: r.owner.remove(waiter), ..r },
        Act::Recv(d, RecvState::Cancel { waiter, result }) => Roles {
            owner: r.owner.remove(waiter),
            ..r
        },
        Act::Recv(d, RecvState::PassOn { result }) if v.waiters.len() > 0 => Roles {
            holder: r.holder.insert(v.waiters.last(), id),
            ..r
        },
        Act::Recv(d, RecvState::PassNotify { waiter, result }) if !(v.cell(waiter).state
            is Waiting) => Roles { holder: r.holder.remove(waiter), ..r },
        Act::Recv(d, RecvState::PassUnpark { waiter, result }) => Roles {
            holder: r.holder.remove(waiter),
            ..r
        },
        _ => r,
    }
}

/// The next number is not taken.
pub proof fn lemma_free_number(registry: Seq<Option<Waiter>>, from: int)
    requires
        0 <= from <= registry.len(),
    ensures
        from <= first_free(registry, from) <= registry.len(),
        first_free(registry, from) < registry.len() ==> registry[first_free(registry, from)]
            is None,
    decreases registry.len() - from,
{
    if from < registry.len() && registry[from] is Some {
        lemma_free_number(registry, from + 1);
    }
}

/// Taking the last element leaves the others.
proof fn lemma_popped(s: Seq<usize>)
    requires
        s.no_duplicates(),
        s.len() > 0,
    ensures
        s.contains(s.last()),
        s.drop_last().no_duplicates(),
        forall|w: usize| #[trigger] s.drop_last().contains(w) == (s.contains(w) && w != s.last()),
{
    assert(s[s.len() - 1] == s.last());
    assert forall|w: usize| #[trigger] s.drop_last().contains(w) == (s.contains(w) && w
        != s.last()) by {
        if s.contains(w) && w != s.last() {
            let k = choose|k: int| 0 <= k < s.len() && s[k] == w;
            assert(s.drop_last()[k] == w);
        }
        if s.drop_last().contains(w) {
            let k = choose|k: int| 0 <= k < s.drop_last().len() && s.drop_last()[k] == w;
            assert(s[k] == w);
        }
    }
}

/// What every step asks of the state that an operation goes to.
pub open spec fn sound<T>(act: Act<T>) -> bool {
    match act {
        Act::Close(CloseState::Decrement) => false,
        Act::Recv(d, RecvState::Clock { waiter }) => d is Some,
        _ => true,
    }
}

/// An operation goes on without touching a waiter.
proof fn lemma_go<T>(v: ChannelView<T>, r: Roles, id: int, act: Act<T>)
    requires
        channel_inv(v, r),
        v.ops.contains_key(id),
        sound(act),
        last_look(act) ==> v.senders == 0,
        waits(act) == waits(v.ops[id]),
        telling(act) == telling(v.ops[id]),
        waking(act) == waking(v.ops[id]),
        pushes(act) == pushes(v.ops[id]),
        drains(act) == drains(v.ops[id]),
        blocks(act) matches Some(w) ==> blocks(v.ops[id]) == Some(w) || v.cell(w).state is Waiting,
        trusts(act) matches Some(w) ==> trusts(v.ops[id]) == Some(w) || v.senders > 0,
    ensures
        channel_inv(v.go(id, act), r),
{
    let v2 = v.go(id, act);
    assert forall|w: usize| unpushed(v2, r, w) == unpushed(v, r, w) by {}
    assert forall|w: usize| listed(v2, r, w) == listed(v, r, w) by {}
    assert forall|w: usize| v2.live(w) == v.live(w) by {}
    assert(roles_inv(v2, r));
    assert(refs_inv(v2, r));
    assert forall|w: usize| #[trigger] r.owner.contains_key(w) implies {
        let a = v2.ops[r.owner[w]];
        let cell = v2.cell(w);
        &&& !(cell.state is Cancelled)
        &&& cell.token ==> cell.state is Notified
        &&& pushes(a) is Some ==> cell.state is Waiting && !cell.token
        &&& pushes(a) is None && cell.state is Waiting ==> v2.waiters.contains(w) || (
        r.holder.contains_key(w) && telling(v2.ops[r.holder[w]]) is Some)
        &&& blocks(a) is Some && cell.state is Notified ==> cell.token || (r.holder.contains_key(w)
            && waking(v2.ops[r.holder[w]]) is Some)
        &&& trusts(a) is Some && v2.waiters.contains(w) ==> v2.senders > 0 || r.drain is Some
    } by {
        let o = v.ops[r.owner[w]];
        assert(waits(o) == Some(w));
    }
}

/// An operation takes the waiter on top of the stack.
proof fn lemma_take_waiter<T>(v: ChannelView<T>, r: Roles, id: int, act: Act<T>)
    requires
        channel_inv(v, r),
        v.ops.contains_key(id),
        sound(act),
        last_look(act) ==> v.senders == 0,
        v.waiters.len() > 0,
        waits(v.ops[id]) is None,
        holds(v.ops[id]) is None,
        waits(act) is None,
        telling(act) == Some(v.waiters.last()),
        drains(act) == drains(v.ops[id]),
    ensures
        channel_inv(
            v.pop().go(id, act),
            Roles { holder: r.holder.insert(v.waiters.last(), id), ..r },
        ),
{
    let w0 = v.waiters.last();
    let v2 = v.pop().go(id, act);
    let r2 = Roles { holder: r.holder.insert(w0, id), ..r };
    lemma_popped(v.waiters);
    assert forall|w: usize| unpushed(v2, r2, w) == unpushed(v, r, w) by {}
    assert forall|w: usize| listed(v2, r2, w) == listed(v, r, w) by {}
    assert forall|w: usize| v2.live(w) == v.live(w) by {}
    assert(roles_inv(v2, r2));
    assert(refs_inv(v2, r2));
    assert(states_inv(v2, r2));
}

/// An operation tells a waiter that is waiting.
proof fn lemma_tell<T>(v: ChannelView<T>, r: Roles, id: int, act: Act<T>, w0: usize)
    requires
        channel_inv(v, r),
        v.ops.contains_key(id),
        sound(act),
        last_look(act) ==> v.senders == 0,
        telling(v.ops[id]) == Some(w0),
        v.cell(w0).state is Waiting,
        waits(act) is None,
        waits(v.ops[id]) is None,
        telling(act) is None,
        waking(act) == Some(w0),
        drains(act) == drains(v.ops[id]),
    ensures
        channel_inv(v.tell(w0, WaiterState::Notified).go(id, act), r),
{
    let v2 = v.tell(w0, WaiterState::Notified).go(id, act);
    assert(r.holder.contains_key(w0));
    assert(v.live(w0));
    assert forall|w: usize| unpushed(v2, r, w) == unpushed(v, r, w) by {}
    assert forall|w: usize| listed(v2, r, w) == listed(v, r, w) by {}
    assert forall|w: usize| v2.live(w) == v.live(w) by {}
    assert forall|w: usize| v.live(w) && w != w0 implies v2.cell(w) == v.cell(w) by {}
    assert(roles_inv(v2, r));
    assert(refs_inv(v2, r));
    assert(states_inv(v2, r));
}

/// An operation lets go of a waiter that it took, after it woke it or found it told.
proof fn lemma_drop_waiter<T>(
    v: ChannelView<T>,
    r: Roles,
    id: int,
    act: Act<T>,
    w0: usize,
    wake: bool,
)
    requires
        channel_inv(v, r),
        v.ops.contains_key(id),
        sound(act),
        last_look(act) ==> v.senders == 0,
        holds(v.ops[id]) == Some(w0),
        wake || !(v.cell(w0).state is Waiting),
        wake == (waking(v.ops[id]) is Some),
        waits(act) is None,
        waits(v.ops[id]) is None,
        holds(act) is None,
        drains(act) == drains(v.ops[id]),
    ensures
        channel_inv(
            (if wake {
                v.wake(w0, true)
            } else {
                v
            }).let_go(w0).go(id, act),
            Roles { holder: r.holder.remove(w0), ..r },
        ),
{
    let v1 = if wake {
        v.wake(w0, true)
    } else {
        v
    };
    let v2 = v1.let_go(w0).go(id, act);
    let r2 = Roles { holder: r.holder.remove(w0), ..r };
    assert(r.holder.contains_key(w0));
    assert(v.live(w0));
    assert(!v.waiters.contains(w0) && !unpushed(v, r, w0));
    assert forall|w: usize| unpushed(v2, r2, w) == unpushed(v, r, w) by {}
    assert forall|w: usize| listed(v2, r2, w) == (listed(v, r, w) && w != w0) by {}
    assert forall|w: usize| w != w0 implies v2.live(w) == v.live(w) by {}
    assert(v2.live(w0) == r.owner.contains_key(w0));
    assert forall|w: usize| v.live(w) && w != w0 implies v2.cell(w) == v.cell(w) by {}
    assert(roles_inv(v2, r2));
    assert(refs_inv(v2, r2));
    assert(states_inv(v2, r2));
}

/// A receive makes a waiter.
proof fn lemma_register<T>(v: ChannelView<T>, r: Roles, id: int, d: Option<u64>)
    requires
        channel_inv(v, r),
        v.ops.contains_key(id),
        v.ops[id] == Act::<T>::Recv(d, RecvState::Register),
        v.registry.len() <= usize::MAX,
    ensures
        channel_inv(
            v.recv_step(id, d, RecvState::Register, 0),
            Roles { owner: r.owner.insert(free_number(v.registry) as usize, id), ..r },
        ),
{
    let v2 = v.recv_step(id, d, RecvState::Register, 0);
    lemma_free_number(v.registry, 0);
    let w0 = free_number(v.registry) as usize;
    let r2 = Roles { owner: r.owner.insert(w0, id), ..r };
    assert(!v.live(w0));
    assert(!r.owner.contains_key(w0) && !r.holder.contains_key(w0) && !v.waiters.contains(w0));
    assert forall|w: usize| unpushed(v2, r2, w) == (unpushed(v, r, w) || w == w0) by {}
    assert forall|w: usize| listed(v2, r2, w) == (listed(v, r, w) || w == w0) by {}
    assert forall|w: usize| v2.live(w) == (v.live(w) || w == w0) by {}
    assert forall|w: usize| v.live(w) implies v2.cell(w) == v.cell(w) by {}
    assert(roles_inv(v2, r2));
    assert(refs_inv(v2, r2));
    assert(states_inv(v2, r2));
}

/// A receive pushes its waiter.
proof fn lemma_push_waiter<T>(v: ChannelView<T>, r: Roles, id: int, d: Option<u64>, w0: usize)
    requires
        channel_inv(v, r),
        v.ops.contains_key(id),
        v.ops[id] == Act::<T>::Recv(d, RecvState::Push { waiter: w0 }),
    ensures
        channel_inv(v.recv_step(id, d, RecvState::Push { waiter: w0 }, 0), r),
{
    let v2 = v.recv_step(id, d, RecvState::Push { waiter: w0 }, 0);
    assert(r.owner.contains_key(w0));
    assert(unpushed(v, r, w0));
    assert(!v.waiters.contains(w0));
    assert forall|w: usize| #[trigger] v2.waiters.contains(w) == (v.waiters.contains(w) || w
        == w0) by {
        if v.waiters.contains(w) {
            let k = choose|k: int| 0 <= k < v.waiters.len() && v.waiters[k] == w;
            assert(v2.waiters[k] == w);
        }
        assert(v2.waiters[v.waiters.len() as int] == w0);
    }
    assert forall|w: usize| unpushed(v2, r, w) == (unpushed(v, r, w) && w != w0) by {
        if unpushed(v, r, w) && w != w0 {
            assert(waits(v.ops[r.owner[w]]) == Some(w));
        }
    }
    assert forall|w: usize| listed(v2, r, w) == listed(v, r, w) by {}
    assert forall|w: usize| v2.live(w) == v.live(w) by {}
    assert(roles_inv(v2, r));
    assert(refs_inv(v2, r));
    assert(states_inv(v2, r));
}

/// A receive wakes up.
proof fn lemma_wake_up<T>(v: ChannelView<T>, r: Roles, id: int, d: Option<u64>, w0: usize)
    requires
        channel_inv(v, r),
        v.ops.contains_key(id),
        v.ops[id] == Act::<T>::Recv(d, RecvState::Park { waiter: w0 }),
    ensures
        channel_inv(v.recv_step(id, d, RecvState::Park { waiter: w0 }, 0), r),
{
    let v2 = v.recv_step(id, d, RecvState::Park { waiter: w0 }, 0);
    assert(r.owner.contains_key(w0));
    assert(v.live(w0));
    assert forall|w: usize| unpushed(v2, r, w) == unpushed(v, r, w) by {}
    assert forall|w: usize| listed(v2, r, w) == listed(v, r, w) by {}
    assert forall|w: usize| v2.live(w) == v.live(w) by {}
    assert forall|w: usize| v.live(w) && w != w0 implies v2.cell(w) == v.cell(w) by {}
    assert(roles_inv(v2, r));
    assert(refs_inv(v2, r));
    assert(states_inv(v2, r));
}

/// A receive lets go of its waiter, after it was told or by cancelling it.
proof fn lemma_leave<T>(
    v: ChannelView<T>,
    r: Roles,
    id: int,
    act: Act<T>,
    w0: usize,
    cancel: bool,
)
    requires
        channel_inv(v, r),
        v.ops.contains_key(id),
        sound(act),
        last_look(act) ==> v.senders == 0,
        waits(v.ops[id]) == Some(w0),
        pushes(v.ops[id]) is None,
        cancel || !(v.cell(w0).state is Waiting),
        waits(act) is None,
        holds(act) is None,
        holds(v.ops[id]) is None,
        !drains(act),
        !drains(v.ops[id]),
    ensures
        channel_inv(
            (if cancel {
                v.tell(w0, WaiterState::Cancelled)
            } else {
                v
            }).let_go(w0).go(id, act),
            Roles { owner: r.owner.remove(w0), ..r },
        ),
{
    let v1 = if cancel {
        v.tell(w0, WaiterState::Cancelled)
    } else {
        v
    };
    let v2 = v1.let_go(w0).go(id, act);
    let r2 = Roles { owner: r.owner.remove(w0), ..r };
    assert(r.owner.contains_key(w0));
    assert(v.live(w0));
    assert(!unpushed(v, r, w0));
    assert forall|w: usize| unpushed(v2, r2, w) == unpushed(v, r, w) by {
        if unpushed(v, r, w) {
            assert(waits(v.ops[r.owner[w]]) == Some(w));
        }
    }
    assert forall|w: usize| listed(v2, r2, w) == listed(v, r, w) by {}
    assert forall|w: usize| w != w0 implies v2.live(w) == v.live(w) by {}
    assert(v2.live(w0) == listed(v, r, w0));
    assert forall|w: usize| v.live(w) && w != w0 implies v2.cell(w) == v.cell(w) by {}
    assert(roles_inv(v2, r2));
    assert(refs_inv(v2, r2));
    assert(states_inv(v2, r2));
}

/// The order does not depend on the messages.
proof fn lemma_messages<T>(v: ChannelView<T>, r: Roles, v2: ChannelView<T>)
    requires
        channel_inv(v, r),
        v2.received + v2.items == v2.sent,
        v2 == (ChannelView { items: v2.items, sent: v2.sent, received: v2.received, ..v }),
    ensures
        channel_inv(v2, r),
{
    assert forall|w: usize| unpushed(v2, r, w) == unpushed(v, r, w) by {}
    assert forall|w: usize| listed(v2, r, w) == listed(v, r, w) by {}
    assert forall|w: usize| v2.live(w) == v.live(w) by {}
}

proof fn lemma_dequeue<T>(v: ChannelView<T>, r: Roles)
    requires
        channel_inv(v, r),
    ensures
        channel_inv(v.dequeue(), r),
{
    let v2 = v.dequeue();
    assert(v2.received + v2.items =~= v.received + v.items);
    lemma_messages(v, r, v2);
}

/// Every step of an operation keeps the channel in order.
pub proof fn lemma_step<T>(v: ChannelView<T>, r: Roles, id: int, now: u64)
    requires
        channel_inv(v, r),
        v.ops.contains_key(id),
        !done(v.ops[id]),
        v.registry.len() <= usize::MAX,
    ensures
        channel_inv(v.next(id, now), next_roles(v, r, id)),
{
    let v2 = v.next(id, now);
    let act = v2.ops[id];
    match v.ops[id] {
        Act::Send(s) => match s {
            SendState::LoadReceivers { msg } => lemma_go(v, r, id, act),
            SendState::Enqueue { msg } => {
                let v1 = ChannelView {
                    items: v.items.push(msg),
                    sent: v.sent.push(msg),
                    ..v
                };
                assert(v1.received + v1.items =~= v1.sent);
                lemma_messages(v, r, v1);
                lemma_go(v1, r, id, act);
            },
            SendState::PopWaiter => if v.waiters.len() > 0 {
                lemma_take_waiter(v, r, id, act);
            } else {
                lemma_go(v, r, id, act);
            },
            SendState::Notify { waiter } => if v.cell(waiter).state is Waiting {
                lemma_tell(v, r, id, act, waiter);
            } else {
                lemma_drop_waiter(v, r, id, act, waiter, false);
            },
            SendState::Unpark { waiter } => lemma_drop_waiter(v, r, id, act, waiter, true),
            SendState::Done { result } => {},
        },
        Act::Close(s) => match s {
            CloseState::PopWaiter => if v.waiters.len() > 0 {
                lemma_take_waiter(v, r, id, act);
            } else {
                lemma_drained(v, r, id);
            },
            CloseState::Notify { waiter } => if v.cell(waiter).state is Waiting {
                lemma_tell(v, r, id, act, waiter);
            } else {
                lemma_drop_waiter(v, r, id, act, waiter, false);
            },
            CloseState::Unpark { waiter } => lemma_drop_waiter(v, r, id, act, waiter, true),
            _ => {},
        },
        Act::Recv(d, s) => match s {
            RecvState::Dequeue { told } => {
                lemma_dequeue(v, r);
                lemma_go(v.dequeue(), r, id, act);
            },
            RecvState::LoadSenders => lemma_go(v, r, id, act),
            RecvState::DequeueLast => {
                lemma_dequeue(v, r);
                lemma_go(v.dequeue(), r, id, act);
            },
            RecvState::Register => lemma_register(v, r, id, d),
            RecvState::Push { waiter } => lemma_push_waiter(v, r, id, d, waiter),
            RecvState::Poll { waiter } => {
                lemma_dequeue(v, r);
                lemma_go(v.dequeue(), r, id, act);
            },
            RecvState::PollSenders { waiter } => lemma_go(v, r, id, act),
            RecvState::PollLast { waiter } => {
                lemma_dequeue(v, r);
                lemma_go(v.dequeue(), r, id, act);
            },
            RecvState::LoadState { waiter } => if v.cell(waiter).state is Waiting {
                lemma_go(v, r, id, act);
            } else {
                lemma_leave(v, r, id, act, waiter, false);
            },
            RecvState::Clock { waiter } => lemma_go(v, r, id, act),
            RecvState::Park { waiter } => lemma_wake_up(v, r, id, d, waiter),
            RecvState::Cancel { waiter, result } => lemma_leave(v, r, id, act, waiter, true),
            RecvState::PassOn { result } => if v.waiters.len() > 0 {
                lemma_take_waiter(v, r, id, act);
            } else {
                lemma_go(v, r, id, act);
            },
            RecvState::PassNotify { waiter, result } => if v.cell(waiter).state is Waiting {
                lemma_tell(v, r, id, act, waiter);
            } else {
                lemma_drop_waiter(v, r, id, act, waiter, false);
            },
            RecvState::PassUnpark { waiter, result } => lemma_drop_waiter(
                v,
                r,
                id,
                act,
                waiter,
                true,
            ),
            RecvState::Done { result } => {},
        },
        Act::TryRecv(s) => {
            lemma_dequeue(v, r);
            match s {
                TryRecvState::LoadSenders => lemma_go(v, r, id, act),
                _ => lemma_go(v.dequeue(), r, id, act),
            }
        },
    }
}

/// The closing of the last sender has woken everybody.
proof fn lemma_drained<T>(v: ChannelView<T>, r: Roles, id: int)
    requires
        channel_inv(v, r),
        v.ops.contains_key(id),
        v.ops[id] == Act::<T>::Close(CloseState::PopWaiter),
        v.waiters.len() == 0,
    ensures
        channel_inv(v.go(id, Act::Close(CloseState::Done)), Roles { drain: None, ..r }),
{
    let v2 = v.go(id, Act::Close(CloseState::Done));
    let r2 = Roles { drain: None, ..r };
    assert forall|w: usize| unpushed(v2, r2, w) == unpushed(v, r, w) by {}
    assert forall|w: usize| listed(v2, r2, w) == listed(v, r, w) by {}
    assert forall|w: usize| v2.live(w) == v.live(w) by {}
    assert(roles_inv(v2, r2));
    assert(refs_inv(v2, r2));
    assert(states_inv(v2, r2));
}

/// Every step of an operation leaves the channel as it is without a sender, and reports the
/// disconnect in time.
pub proof fn lemma_ends_step<T>(v: ChannelView<T>, r: Roles, id: int, now: u64)
    requires
        channel_inv(v, r),
        ends_inv(v),
        v.ops.contains_key(id),
        !done(v.ops[id]),
    ensures
        ends_inv(v.next(id, now)),
        exhausted(v) ==> exhausted(v.next(id, now)),
{
    let v2 = v.next(id, now);
    assert(v2.ops.dom() =~= v.ops.dom());
    assert forall|i: int| i != id implies v2.ops[i] == v.ops[i] by {}
    if v2.senders == 0 && sending(v2) {
        let i = choose|i: int| #[trigger] v2.ops.contains_key(i) && v2.ops[i] is Send;
        assert(v.ops.contains_key(i) && v.ops[i] is Send);
    }
    if v.ops[id] is Send {
        assert(sending(v));
    }
    assert forall|i: int| #[trigger]
        v2.ops.contains_key(i) && reports_disconnect(v2.ops[i]) implies exhausted(v2) by {
        assert(v.ops.contains_key(i));
    }
}

/// An operation that is through leaves.
pub proof fn lemma_finish<T>(v: ChannelView<T>, r: Roles, id: int)
    requires
        channel_inv(v, r),
        v.ops.contains_key(id),
        done(v.ops[id]),
    ensures
        channel_inv(ChannelView { ops: v.ops.remove(id), ..v }, r),
{
    let v2 = ChannelView { ops: v.ops.remove(id), ..v };
    assert forall|w: usize| unpushed(v2, r, w) == unpushed(v, r, w) by {}
    assert forall|w: usize| listed(v2, r, w) == listed(v, r, w) by {}
    assert forall|w: usize| v2.live(w) == v.live(w) by {}
    assert(roles_inv(v2, r));
    assert(refs_inv(v2, r));
    assert(states_inv(v2, r));
}

/// An operation starts that holds no waiter.
pub proof fn lemma_begin<T>(v: ChannelView<T>, r: Roles, id: int, act: Act<T>)
    requires
        channel_inv(v, r),
        !v.ops.contains_key(id),
        sound(act),
        last_look(act) ==> v.senders == 0,
        waits(act) is None,
        holds(act) is None,
        !drains(act),
    ensures
        channel_inv(v.go(id, act), r),
{
    let v2 = v.go(id, act);
    assert forall|w: usize| unpushed(v2, r, w) == unpushed(v, r, w) by {}
    assert forall|w: usize| listed(v2, r, w) == listed(v, r, w) by {}
    assert forall|w: usize| v2.live(w) == v.live(w) by {}
    assert(roles_inv(v2, r));
    assert(refs_inv(v2, r));
    assert(states_inv(v2, r));
}

/// The number of senders and receivers changes, and not from or to no senders.
pub proof fn lemma_counts<T>(v: ChannelView<T>, r: Roles, senders: nat, receivers: nat)
    requires
        channel_inv(v, r),
        senders > 0 <==> v.senders > 0,
    ensures
        channel_inv(ChannelView { senders, receivers, ..v }, r),
{
    let v2 = ChannelView { senders, receivers, ..v };
    assert forall|w: usize| unpushed(v2, r, w) == unpushed(v, r, w) by {}
    assert forall|w: usize| listed(v2, r, w) == listed(v, r, w) by {}
    assert forall|w: usize| v2.live(w) == v.live(w) by {}
    assert(roles_inv(v2, r));
    assert(refs_inv(v2, r));
    assert(states_inv(v2, r));
}

/// The last sender is counted off, and its closing starts to wake everybody.
pub proof fn lemma_last_sender<T>(v: ChannelView<T>, r: Roles, id: int)
    requires
        channel_inv(v, r),
        !v.ops.contains_key(id),
        v.senders == 1,
    ensures
        channel_inv(
            ChannelView { senders: 0, ..v }.go(id, Act::Close(CloseState::PopWaiter)),
            Roles { drain: Some(id), ..r },
        ),
{
    let v2 = ChannelView { senders: 0, ..v }.go(id, Act::Close(CloseState::PopWaiter));
    let r2 = Roles { drain: Some(id), ..r };
    assert forall|w: usize| unpushed(v2, r2, w) == unpushed(v, r, w) by {}
    assert forall|w: usize| listed(v2, r2, w) == listed(v, r, w) by {}
    assert forall|w: usize| v2.live(w) == v.live(w) by {}
    assert(roles_inv(v2, r2));
    assert(refs_inv(v2, r2));
    assert(states_inv(v2, r2));
}

impl<T> ChannelView<T> {
    /// The channel without operation `id`.
    pub open spec fn without(self, id: int) -> ChannelView<T> {
        ChannelView { ops: self.ops.remove(id), ..self }
    }

    /// The channel after `msg` was put into the queue.
    pub open spec fn enqueue(self, msg: T) -> ChannelView<T> {
        ChannelView { items: self.items.push(msg), sent: self.sent.push(msg), ..self }
    }

    /// The channel after the topmost waiter that is waiting was told and woken; those above
    /// it are gone from the stack.
    pub open spec fn notify_one(self) -> ChannelView<T>
        decreases self.waiters.len(),
    {
        if self.waiters.len() == 0 {
            self
        } else {
            let w = self.waiters.last();
            if self.cell(w).state is Waiting {
                self.pop().tell(w, WaiterState::Notified).wake(w, true).let_go(w)
            } else {
                self.pop().let_go(w).notify_one()
            }
        }
    }

    /// The channel after every waiter on the stack that is waiting was told and woken.
    pub open spec fn notify_all(self) -> ChannelView<T>
        decreases self.waiters.len(),
    {
        if self.waiters.len() == 0 {
            self
        } else {
            let w = self.waiters.last();
            if self.cell(w).state is Waiting {
                self.pop().tell(w, WaiterState::Notified).wake(w, true).let_go(w).notify_all()
            } else {
                self.pop().let_go(w).notify_all()
            }
        }
    }
}

/// What becomes of a channel when a send that stands at `s` runs to its end.
pub open spec fn settle_send<T>(v: ChannelView<T>, s: SendState<T, usize>) -> ChannelView<T> {
    match s {
        SendState::LoadReceivers { msg } => if v.receivers > 0 {
            v.enqueue(msg).notify_one()
        } else {
            v
        },
        SendState::Enqueue { msg } => v.enqueue(msg).notify_one(),
        SendState::PopWaiter => v.notify_one(),
        SendState::Notify { waiter } => if v.cell(waiter).state is Waiting {
            v.tell(waiter, WaiterState::Notified).wake(waiter, true).let_go(waiter)
        } else {
            v.let_go(waiter).notify_one()
        },
        SendState::Unpark { waiter } => v.wake(waiter, true).let_go(waiter),
        SendState::Done { result } => v,
    }
}

/// What a send that stands at `s` returns when it runs to its end.
pub open spec fn send_result<T>(
    v: ChannelView<T>,
    s: SendState<T, usize>,
) -> Result<(), SendError<T>> {
    match s {
        SendState::LoadReceivers { msg } => if v.receivers > 0 {
            Ok(())
        } else {
            Err(SendError(msg))
        },
        SendState::Done { result } => result,
        _ => Ok(()),
    }
}

/// How many steps are left to a send that runs to its end, at most.
pub open spec fn send_rank<T>(v: ChannelView<T>, s: SendState<T, usize>) -> nat {
    match s {
        SendState::LoadReceivers { msg } => 3 * v.waiters.len() + 5,
        SendState::Enqueue { msg } => 3 * v.waiters.len() + 4,
        SendState::PopWaiter => 3 * v.waiters.len() + 3,
        SendState::Notify { waiter } => 3 * v.waiters.len() + 4,
        SendState::Unpark { waiter } => 1,
        SendState::Done { result } => 0,
    }
}

/// A step of a send does not change what becomes of the channel.
pub proof fn lemma_settle_send<T>(v: ChannelView<T>, id: int, s: SendState<T, usize>, now: u64)
    requires
        v.ops.contains_key(id),
        v.ops[id] == Act::Send(s),
        !(s is Done),
    ensures
        v.next(id, now).ops.contains_key(id),
        v.next(id, now).ops[id] matches Act::Send(s2) && {
            &&& settle_send(v.next(id, now).without(id), s2) == settle_send(v.without(id), s)
            &&& send_result(v.next(id, now), s2) == send_result(v, s)
            &&& send_rank(v.next(id, now), s2) < send_rank(v, s)
        },
{
    let v2 = v.next(id, now);
    let u = v.without(id);
    match s {
        SendState::LoadReceivers { msg } => {
            assert(v2.without(id) =~= u);
        },
        SendState::Enqueue { msg } => {
            assert(v2.without(id) =~= u.enqueue(msg));
        },
        SendState::PopWaiter => {
            assert(v2.without(id) =~= u.pop());
        },
        SendState::Notify { waiter } => {
            if v.cell(waiter).state is Waiting {
                assert(v2.without(id) =~= u.tell(waiter, WaiterState::Notified));
            } else {
                assert(v2.without(id) =~= u.let_go(waiter));
            }
        },
        SendState::Unpark { waiter } => {
            assert(v2.without(id) =~= u.wake(waiter, true).let_go(waiter));
        },
        SendState::Done { result } => {},
    }
}

/// What becomes of a channel when a closing that stands at `s` runs to its end.
pub open spec fn settle_close<T>(v: ChannelView<T>, s: CloseState<usize>) -> ChannelView<T> {
    match s {
        CloseState::PopWaiter => v.notify_all(),
        CloseState::Notify { waiter } => if v.cell(waiter).state is Waiting {
            v.tell(waiter, WaiterState::Notified).wake(waiter, true).let_go(waiter).notify_all()
        } else {
            v.let_go(waiter).notify_all()
        },
        CloseState::Unpark { waiter } => v.wake(waiter, true).let_go(waiter).notify_all(),
        _ => v,
    }
}

/// How many steps are left to a closing that runs to its end, at most.
pub open spec fn close_rank<T>(v: ChannelView<T>, s: CloseState<usize>) -> nat {
    match s {
        CloseState::PopWaiter => 3 * v.waiters.len() + 1,
        CloseState::Notify { waiter } => 3 * v.waiters.len() + 3,
        CloseState::Unpark { waiter } => 3 * v.waiters.len() + 2,
        _ => 0,
    }
}

/// A step of a closing does not change what becomes of the channel.
pub proof fn lemma_settle_close<T>(v: ChannelView<T>, id: int, s: CloseState<usize>, now: u64)
    requires
        v.ops.contains_key(id),
        v.ops[id] == Act::<T>::Close(s),
        !(s is Done),
        !(s is Decrement),
    ensures
        v.next(id, now).ops.contains_key(id),
        v.next(id, now).ops[id] matches Act::Close(s2) && {
            &&& !(s2 is Decrement)
            &&& settle_close(v.next(id, now).without(id), s2) == settle_close(v.without(id), s)
            &&& close_rank(v.next(id, now), s2) < close_rank(v, s)
        },
{
    let v2 = v.next(id, now);
    let u = v.without(id);
    match s {
        CloseState::PopWaiter => {
            assert(v2.without(id) =~= u.pop());
        },
        CloseState::Notify { waiter } => {
            if v.cell(waiter).state is Waiting {
                assert(v2.without(id) =~= u.tell(waiter, WaiterState::Notified));
            } else {
                assert(v2.without(id) =~= u.let_go(waiter));
            }
        },
        CloseState::Unpark { waiter } => {
            assert(v2.without(id) =~= u.wake(waiter, true).let_go(waiter));
        },
        _ => {},
    }
}

impl<T> ChannelView<T> {
    /// The channel after a receive made `waiter`, which gets the next number.
    pub open spec fn registered(self, waiter: Waiter) -> ChannelView<T> {
        ChannelView {
            registry: enter(self.registry, free_number(self.registry), waiter),
            ..self
        }
    }

    /// The channel after the waiter with the number `w` was pushed onto the stack.
    pub open spec fn stacked(self, w: usize) -> ChannelView<T> {
        ChannelView { waiters: self.waiters.push(w), ..self }
    }

    /// The channel after a receive gave up: it has left a cancelled waiter on the stack.
    pub open spec fn abandoned(self) -> ChannelView<T> {
        self.registered(
            Waiter { state: WaiterState::Cancelled, refs: 1, token: false },
        ).stacked(free_number(self.registry) as usize)
    }
}

/// What the channel `u` has become of `v` when a receive that runs alone stands at `s`.
pub open spec fn recv_path<T>(
    v: ChannelView<T>,
    u: ChannelView<T>,
    s: RecvState<T, usize>,
) -> bool {
    let w = free_number(v.registry) as usize;
    let fresh = Waiter { state: WaiterState::Waiting, refs: 2, token: false };
    let starved = v.items.len() == 0 && v.senders > 0;
    match s {
        RecvState::Dequeue { told } => u == v,
        RecvState::LoadSenders => u == v && v.items.len() == 0,
        RecvState::DequeueLast => u == v && v.items.len() == 0 && v.senders == 0,
        RecvState::Register => u == v && starved,
        RecvState::Push { waiter } => u == v.registered(fresh) && starved && waiter == w,
        RecvState::Poll { waiter } => u == v.registered(fresh).stacked(w) && starved && waiter == w,
        RecvState::PollSenders { waiter } => u == v.registered(fresh).stacked(w) && starved
            && waiter == w,
        RecvState::PollLast { waiter } => false,
        RecvState::LoadState { waiter } => u == v.registered(fresh).stacked(w) && starved && waiter
            == w,
        RecvState::Clock { waiter } => u == v.registered(fresh).stacked(w) && starved && waiter
            == w,
        RecvState::Park { waiter } => u == v.registered(fresh).stacked(w) && starved && waiter == w,
        RecvState::Cancel { waiter, result } => {
            &&& u == v.registered(fresh).stacked(w)
            &&& starved
            &&& waiter == w
            &&& result == Err::<T, RecvTimeoutError>(RecvTimeoutError::Timeout)
        },
        RecvState::PassOn { result } => false,
        RecvState::PassNotify { waiter, result } => false,
        RecvState::PassUnpark { waiter, result } => false,
        RecvState::Done { result } => if v.items.len() > 0 {
            u == v.dequeue() && result == Ok::<T, RecvTimeoutError>(v.items.first())
        } else if v.senders == 0 {
            u == v && result == Err::<T, RecvTimeoutError>(RecvTimeoutError::Disconnected)
        } else {
            u == v.abandoned() && result == Err::<T, RecvTimeoutError>(RecvTimeoutError::Timeout)
        },
    }
}

/// How many steps are left to a receive that runs alone; `early` if the deadline is ahead.
pub open spec fn recv_rank<T>(s: RecvState<T, usize>, early: bool) -> nat {
    let round: nat = if early {
        10
    } else {
        0
    };
    match s {
        RecvState::Dequeue { told } => 30,
        RecvState::LoadSenders => 29,
        RecvState::DequeueLast => 28,
        RecvState::Register => 28,
        RecvState::Push { waiter } => 27,
        RecvState::Poll { waiter } => 7 + round,
        RecvState::PollSenders { waiter } => 6 + round,
        RecvState::LoadState { waiter } => 5 + round,
        RecvState::Clock { waiter } => 4 + round,
        RecvState::Park { waiter } => 9 + if early { 1 } else { 0nat },
        RecvState::Cancel { waiter, result } => 1,
        _ => 0,
    }
}

/// A receive that runs alone stays on its path and comes closer to its end.
pub proof fn lemma_recv_path<T>(
    v: ChannelView<T>,
    u: ChannelView<T>,
    id: int,
    d: Option<u64>,
    s: RecvState<T, usize>,
    now: u64,
    early: bool,
)
    requires
        u.ops.contains_key(id),
        u.ops[id] == Act::Recv(d, s),
        !(s is Done),
        recv_path(v, u.without(id), s),
        0 <= free_number(v.registry) <= v.registry.len() <= usize::MAX,
        d is None ==> v.items.len() > 0 || v.senders == 0,
        if s is Park {
            d is Some && now >= d->0
        } else {
            early == (d is Some && now < d->0)
        },
    ensures
        u.next(id, now).ops.contains_key(id),
        u.next(id, now).ops[id] matches Act::Recv(d2, s2) && {
            &&& d2 == d
            &&& recv_path(v, u.next(id, now).without(id), s2)
            &&& recv_rank(s2, d is Some && now < d->0) < recv_rank(s, early)
        },
{
    let u2 = u.next(id, now);
    let w = free_number(v.registry) as usize;
    let fresh = Waiter { state: WaiterState::Waiting, refs: 2, token: false };
    match s {
        RecvState::Register => {
            assert(u2.without(id) =~= v.registered(fresh));
        },
        RecvState::Push { waiter } => {
            assert(u2.without(id) =~= v.registered(fresh).stacked(w));
        },
        RecvState::Park { waiter } => {
            assert(u.cell(w) == fresh);
            assert(u2.registry =~= u.registry);
            assert(u2.without(id) =~= u.without(id));
        },
        RecvState::Cancel { waiter, result } => {
            assert(u.cell(w) == fresh);
            assert(u2.registry =~= v.abandoned().registry);
            assert(u2.without(id) =~= v.abandoned());
        },
        RecvState::LoadState { waiter } => {
            assert(u.cell(w) == fresh);
            assert(u2.without(id) =~= u.without(id));
        },
        RecvState::Dequeue { told } => {
            assert(u2.without(id) =~= v.dequeue());
        },
        _ => {
            assert(u2.without(id) =~= u.without(id));
        },
    }
}

impl<T> ChannelView<T> {
    /// Each waiter on the stack is there once and exists, and one that is waiting is also
    /// held by its receive.
    pub open spec fn stack_sound(self) -> bool {
        &&& self.waiters.no_duplicates()
        &&& forall|k: int|
            0 <= k < self.waiters.len() ==> self.live(#[trigger] self.waiters[k]) && (self.cell(
                self.waiters[k],
            ).state is Waiting ==> self.cell(self.waiters[k]).refs >= 2)
    }

    /// Taking the topmost waiter and telling it, if it is waiting, leaves the others.
    proof fn lemma_serve_top(self, v: ChannelView<T>)
        requires
            self.stack_sound(),
            self.waiters.len() > 0,
            v == (if self.cell(self.waiters.last()).state is Waiting {
                self.pop().tell(self.waiters.last(), WaiterState::Notified).wake(
                    self.waiters.last(),
                    true,
                ).let_go(self.waiters.last())
            } else {
                self.pop().let_go(self.waiters.last())
            }),
        ensures
            v.stack_sound(),
            v.waiters == self.waiters.drop_last(),
            v.registry.len() == self.registry.len(),
            forall|x: int|
                0 <= x < self.registry.len() && x != self.waiters.last()
                    ==> #[trigger] v.registry[x] == self.registry[x],
            self.cell(self.waiters.last()).state is Waiting
                ==> v.registry[self.waiters.last() as int] == Some(
                Waiter {
                    state: WaiterState::Notified,
                    refs: (self.cell(self.waiters.last()).refs - 1) as u8,
                    token: true,
                },
            ),
    {
        let last = self.waiters.len() - 1;
        assert(self.live(self.waiters[last]));
        assert forall|k: int| 0 <= k < v.waiters.len() implies v.live(#[trigger] v.waiters[k]) && (
        v.cell(v.waiters[k]).state is Waiting ==> v.cell(v.waiters[k]).refs >= 2) by {
            assert(self.live(self.waiters[k]));
            assert(self.waiters[k] != self.waiters[last]);
        }
    }

    /// Telling receivers changes nothing but the waiters.
    pub proof fn law_notifying_keeps_messages(self)
        ensures
            self.notify_one() == (ChannelView {
                waiters: self.notify_one().waiters,
                registry: self.notify_one().registry,
                ..self
            }),
            self.notify_all() == (ChannelView {
                waiters: Seq::<usize>::empty(),
                registry: self.notify_all().registry,
                ..self
            }),
        decreases self.waiters.len(),
    {
        if self.waiters.len() == 0 {
            assert(self.waiters =~= Seq::empty());
        } else {
            let w = self.waiters.last();
            if self.cell(w).state is Waiting {
                self.pop().tell(w, WaiterState::Notified).wake(w, true).let_go(
                    w,
                ).law_notifying_keeps_messages();
            } else {
                self.pop().let_go(w).law_notifying_keeps_messages();
            }
        }
    }

    /// A send tells the topmost waiter that is waiting, and only that one: the waiters above
    /// it are gone from the stack, those below it stay as they are.
    pub proof fn law_notify_one_tells_the_topmost(self, k: int)
        requires
            self.stack_sound(),
            0 <= k < self.waiters.len(),
            self.cell(self.waiters[k]).state is Waiting,
            forall|j: int|
                k < j < self.waiters.len() ==> !(self.cell(#[trigger] self.waiters[j]).state
                    is Waiting),
        ensures
            self.notify_one().waiters == self.waiters.take(k),
            self.notify_one().registry.len() == self.registry.len(),
            self.notify_one().registry[self.waiters[k] as int] == Some(
                Waiter {
                    state: WaiterState::Notified,
                    refs: (self.cell(self.waiters[k]).refs - 1) as u8,
                    token: true,
                },
            ),
            forall|w: usize|
                w < self.registry.len() && !self.waiters.skip(k).contains(w)
                    ==> #[trigger] self.notify_one().registry[w as int]
                    == self.registry[w as int],
        decreases self.waiters.len(),
    {
        let last = self.waiters.len() - 1;
        let w = self.waiters.last();
        assert(self.waiters.skip(k)[last - k] == w);
        if k == last {
            self.lemma_serve_top(
                self.pop().tell(w, WaiterState::Notified).wake(w, true).let_go(w),
            );
            assert(self.waiters.take(k) =~= self.waiters.drop_last());
        } else {
            assert(!(self.cell(self.waiters[last]).state is Waiting));
            let v = self.pop().let_go(w);
            self.lemma_serve_top(v);
            assert forall|j: int| 0 <= j < last implies self.cell(#[trigger] self.waiters[j])
                == v.cell(self.waiters[j]) by {
                assert(self.live(self.waiters[j]));
                assert(self.waiters[j] != self.waiters[last]);
            }
            assert(v.waiters[k] == self.waiters[k]);
            assert forall|j: int| k < j < v.waiters.len() implies !(v.cell(
                #[trigger] v.waiters[j],
            ).state is Waiting) by {
                assert(v.waiters[j] == self.waiters[j]);
            }
            v.law_notify_one_tells_the_topmost(k);
            assert(v.waiters.take(k) =~= self.waiters.take(k));
            assert forall|x: usize|
                x < self.registry.len() && !self.waiters.skip(
                    k,
                ).contains(x) implies #[trigger] self.notify_one().registry[x as int]
                == self.registry[x as int] by {
                if v.waiters.skip(k).contains(x) {
                    let n = choose|n: int|
                        0 <= n < v.waiters.skip(k).len() && v.waiters.skip(k)[n] == x;
                    assert(self.waiters.skip(k)[n] == x);
                }
                assert(v.registry[x as int] == self.registry[x as int]);
            }
        }
    }

    /// The closing of the last sender tells every waiter on the stack that is waiting.
    pub proof fn law_notify_all_tells_everybody(self, k: int)
        requires
            self.stack_sound(),
            0 <= k < self.waiters.len(),
            self.cell(self.waiters[k]).state is Waiting,
        ensures
            self.notify_all().registry[self.waiters[k] as int] == Some(
                Waiter {
                    state: WaiterState::Notified,
                    refs: (self.cell(self.waiters[k]).refs - 1) as u8,
                    token: true,
                },
            ),
        decreases self.waiters.len(),
    {
        let last = self.waiters.len() - 1;
        let w = self.waiters.last();
        let v = if self.cell(w).state is Waiting {
            self.pop().tell(w, WaiterState::Notified).wake(w, true).let_go(w)
        } else {
            self.pop().let_go(w)
        };
        self.lemma_serve_top(v);
        assert(self.live(self.waiters[k]));
        if k == last {
            assert(!v.waiters.contains(w)) by {
                if v.waiters.contains(w) {
                    let n = choose|n: int| 0 <= n < v.waiters.len() && v.waiters[n] == w;
                    assert(self.waiters[n] == self.waiters[last]);
                }
            }
            v.lemma_notify_all_leaves(w);
        } else {
            assert(self.waiters[k] != self.waiters[last]);
            assert(v.waiters[k] == self.waiters[k]);
            assert(v.registry[self.waiters[k] as int] == self.registry[self.waiters[k] as int]);
            v.law_notify_all_tells_everybody(k);
        }
    }

    /// A waiter that is not on the stack stays as it is.
    proof fn lemma_notify_all_leaves(self, w: usize)
        requires
            self.stack_sound(),
            !self.waiters.contains(w),
            w < self.registry.len(),
        ensures
            self.notify_all().registry[w as int] == self.registry[w as int],
        decreases self.waiters.len(),
    {
        if self.waiters.len() > 0 {
            let x = self.waiters.last();
            assert(self.waiters[self.waiters.len() - 1] == x);
            let v = if self.cell(x).state is Waiting {
                self.pop().tell(x, WaiterState::Notified).wake(x, true).let_go(x)
            } else {
                self.pop().let_go(x)
            };
            self.lemma_serve_top(v);
            assert(!v.waiters.contains(w)) by {
                if v.waiters.contains(w) {
                    let k = choose|k: int| 0 <= k < v.waiters.len() && v.waiters[k] == w;
                    assert(self.waiters[k] == w);
                }
            }
            assert(v.registry[w as int] == self.registry[w as int]);
            v.lemma_notify_all_leaves(w);
        }
    }

    /// A receive that gave up does not stand in the way: the next send sweeps its waiter from
    /// the stack and goes on as if it had not been there.
    pub proof fn law_abandoned_waiter_is_swept(self, msg: T)
        requires
            self.registry.len() <= usize::MAX,
        ensures
            ({
                let swept = enter(
                    self.registry,
                    free_number(self.registry),
                    Waiter { state: WaiterState::Cancelled, refs: 1, token: false },
                ).update(free_number(self.registry), None);
                self.abandoned().enqueue(msg).notify_one() == ChannelView {
                    registry: swept,
                    ..self
                }.enqueue(msg).notify_one()
            }),
    {
        lemma_free_number(self.registry, 0);
        let v = self.abandoned().enqueue(msg);
        let w = free_number(self.registry) as usize;
        assert(v.waiters.last() == w);
        assert(v.waiters.drop_last() =~= self.waiters);
        assert(v.cell(w).state is Cancelled);
    }
}

} // verus!
