//! The shared state of a multi-producer, multi-consumer channel.
//!
//! A [`Channel`] holds the messages and the blocked receivers, and the operations under way.
//! Each [`Channel::step`] makes one access of one operation, so that a caller who chooses
//! the steps sees every interleaving; a blocked receiver is an operation that nobody steps
//! until it is woken. The functions that are not called `begin` run one operation to its
//! end.
use vstd::prelude::*;

use crate::error::{RecvTimeoutError, SendError, TryRecvError};
use crate::mpmc_history::Move;
use crate::mpmc_model::{
    carries, channel_inv, close_rank, done, drains, ends_inv, enter, exhausted, first_free, free_number,
    holds, last_look, lemma_begin, lemma_counts, lemma_ends_step, lemma_finish,
    lemma_free_number, lemma_last_sender, lemma_recv_path, lemma_settle_close,
    lemma_settle_send, lemma_step, next_roles, recv_path, recv_rank, recv_verdict, reports_disconnect,
    reports_timeout, send_rank, send_result, sending, settle_close, settle_send, sound, telling,
    trusts, waits, waking, Act, ChannelView, Roles, Waiter,
};
use crate::mpmc_progress::{lemma_leaving_keeps_rest, unrest};
use crate::mpmc_wakeup::{
    covered, helpers, helps, lemma_covered_begin, lemma_covered_counts, lemma_covered_finish,
    lemma_covered_step, starves, starving,
};
use crate::mpmc_protocol::{CloseState, RecvState, SendState, TryRecvState, WaiterState};
use crate::ms_queue::{Queue, QueueView, Response as QueueResponse};
use crate::ms_queue_proof::Status as QueueStatus;
use crate::treiber_stack::{Response as StackResponse, Stack, StackView};
use crate::treiber_stack_proof::Status as StackStatus;

verus! {

/// An operation under way: between two steps of its own, or inside an operation on the
/// queue or on the stack.
enum Flight<T> {
    At(Act<T>),
    Enqueue(usize),
    SendPop(usize),
    ClosePop(usize),
    Dequeue(usize, Option<u64>, bool),
    DequeueLast(usize, Option<u64>),
    Push(usize, Option<u64>, usize),
    Poll(usize, Option<u64>, usize),
    PollLast(usize, Option<u64>, usize),
    PassPop(usize, Option<u64>, Result<T, RecvTimeoutError>),
    TryDequeue(usize),
    TryDequeueLast(usize),
}

impl<T> Flight<T> {
    /// The operation on the queue that this one is inside of.
    spec fn queue_op(self) -> Option<int> {
        match self {
            Flight::Enqueue(op) => Some(op as int),
            Flight::Dequeue(op, d, told) => Some(op as int),
            Flight::DequeueLast(op, d) => Some(op as int),
            Flight::Poll(op, d, w) => Some(op as int),
            Flight::PollLast(op, d, w) => Some(op as int),
            Flight::TryDequeue(op) => Some(op as int),
            Flight::TryDequeueLast(op) => Some(op as int),
            _ => None,
        }
    }

    /// The operation on the stack that this one is inside of.
    spec fn stack_op(self) -> Option<int> {
        match self {
            Flight::SendPop(op) => Some(op as int),
            Flight::ClosePop(op) => Some(op as int),
            Flight::Push(op, d, w) => Some(op as int),
            Flight::PassPop(op, d, result) => Some(op as int),
            _ => None,
        }
    }

    /// Whether the operation on the queue or on the stack is of the right kind.
    spec fn fits(self, q: QueueView<T>, s: StackView<usize>) -> bool {
        match self {
            Flight::At(act) => true,
            Flight::Enqueue(op) => q.ops[op as int] is Enqueueing || q.ops[op as int] is Enqueued,
            Flight::SendPop(op) => s.ops[op as int] is Popping || s.ops[op as int] is Popped,
            Flight::ClosePop(op) => s.ops[op as int] is Popping || s.ops[op as int] is Popped,
            Flight::Push(op, d, w) => s.ops[op as int] == StackStatus::Pushing(w)
                || s.ops[op as int] is Pushed,
            Flight::PassPop(op, d, result) => s.ops[op as int] is Popping || s.ops[op as int]
                is Popped,
            _ => q.ops[self.queue_op()->0] is Dequeueing || q.ops[self.queue_op()->0] is Dequeued,
        }
    }

    /// Where the operation stands, seen from outside.
    spec fn act(self, q: QueueView<T>, s: StackView<usize>) -> Act<T> {
        match self {
            Flight::At(act) => act,
            Flight::Enqueue(op) => match q.ops[op as int] {
                QueueStatus::Enqueueing(msg) => Act::Send(SendState::Enqueue { msg }),
                _ => Act::Send(SendState::PopWaiter),
            },
            Flight::SendPop(op) => match s.ops[op as int] {
                StackStatus::Popped(w) => Act::Send(SendState::spec_popped(w)),
                _ => Act::Send(SendState::PopWaiter),
            },
            Flight::ClosePop(op) => match s.ops[op as int] {
                StackStatus::Popped(w) => Act::Close(CloseState::spec_popped(w)),
                _ => Act::Close(CloseState::PopWaiter),
            },
            Flight::Dequeue(op, d, told) => match q.ops[op as int] {
                QueueStatus::Dequeued(m) => Act::Recv(d, RecvState::spec_dequeued(m)),
                _ => Act::Recv(d, RecvState::Dequeue { told }),
            },
            Flight::DequeueLast(op, d) => match q.ops[op as int] {
                QueueStatus::Dequeued(m) => Act::Recv(d, RecvState::spec_last_dequeued(m)),
                _ => Act::Recv(d, RecvState::DequeueLast),
            },
            Flight::Push(op, d, w) => match s.ops[op as int] {
                StackStatus::Pushed => Act::Recv(d, RecvState::Poll { waiter: w }),
                _ => Act::Recv(d, RecvState::Push { waiter: w }),
            },
            Flight::Poll(op, d, w) => match q.ops[op as int] {
                QueueStatus::Dequeued(m) => Act::Recv(d, RecvState::spec_polled(w, m)),
                _ => Act::Recv(d, RecvState::Poll { waiter: w }),
            },
            Flight::PollLast(op, d, w) => match q.ops[op as int] {
                QueueStatus::Dequeued(m) => Act::Recv(d, RecvState::spec_last_polled(w, m)),
                _ => Act::Recv(d, RecvState::PollLast { waiter: w }),
            },
            Flight::PassPop(op, d, result) => match s.ops[op as int] {
                StackStatus::Popped(w) => Act::Recv(d, RecvState::spec_pass_popped(w, result)),
                _ => Act::Recv(d, RecvState::PassOn { result }),
            },
            Flight::TryDequeue(op) => match q.ops[op as int] {
                QueueStatus::Dequeued(m) => Act::TryRecv(TryRecvState::spec_dequeued(m)),
                _ => Act::TryRecv(TryRecvState::Dequeue),
            },
            Flight::TryDequeueLast(op) => match q.ops[op as int] {
                QueueStatus::Dequeued(m) => Act::TryRecv(TryRecvState::spec_last_dequeued(m)),
                _ => Act::TryRecv(TryRecvState::DequeueLast),
            },
        }
    }

    /// Whether the operation on the queue or on the stack has taken effect.
    spec fn settled(self, q: QueueView<T>, s: StackView<usize>) -> bool {
        match self.queue_op() {
            Some(op) => !q.waiting(op),
            None => match self.stack_op() {
                Some(op) => !s.waiting(op),
                None => false,
            },
        }
    }
}

/// What an operation returns.
#[derive(Debug)]
pub enum Outcome<T> {
    /// A send returns.
    Sent(Result<(), SendError<T>>),
    /// A sender is closed.
    Closed,
    /// A receive returns.
    Received(Result<T, RecvTimeoutError>),
    /// A receive that does not block returns.
    Tried(Result<T, TryRecvError>),
}

impl<T> Outcome<T> {
    /// Whether an operation that stands at `act` returns this.
    pub open spec fn ends(self, act: Act<T>) -> bool {
        match self {
            Outcome::Sent(result) => act == Act::Send(SendState::Done { result }),
            Outcome::Closed => act == Act::<T>::Close(CloseState::Done),
            Outcome::Received(result) => act matches Act::Recv(d, s) && s == (RecvState::<
                T,
                usize,
            >::Done { result }),
            Outcome::Tried(result) => act == Act::TryRecv(TryRecvState::Done { result }),
        }
    }

    /// An operation returns what it has come to, whatever the type of its message is: a receive
    /// the message that it has taken or the error that it has decided on, a send its success or
    /// its own message. It returns nothing else, and nothing before.
    pub proof fn law_operation_returns_what_it_came_to(self, act: Act<T>)
        ensures
            act matches Act::Send(SendState::Done { result }) ==> (self.ends(act) <==> self
                == Outcome::Sent(result)),
            act matches Act::Recv(d, RecvState::Done { result }) ==> (self.ends(act) <==> self
                == Outcome::Received(result)),
            act matches Act::TryRecv(TryRecvState::Done { result }) ==> (self.ends(act) <==> self
                == Outcome::Tried(result)),
            act == Act::<T>::Close(CloseState::Done) ==> (self.ends(act) <==> self
                == Outcome::<T>::Closed),
            self.ends(act) ==> match act {
                Act::Send(s) => s is Done,
                Act::Close(s) => s is Done,
                Act::Recv(d, s) => s is Done,
                Act::TryRecv(s) => s is Done,
            },
    {
    }

    /// What a receive returns is what it carries: a message exactly if it has taken one.
    pub proof fn law_receive_returns_what_it_carries(self, act: Act<T>)
        requires
            self.ends(act),
        ensures
            match self {
                Outcome::Received(Ok(msg)) => carries(act) == Some(msg),
                Outcome::Tried(Ok(msg)) => carries(act) == Some(msg),
                _ => carries(act) is None,
            },
    {
    }
}

/// What is known of a channel beyond what it holds.
struct Book<T> {
    sent: Seq<T>,
    received: Seq<T>,
    roles: Roles,
    queue_ops: Map<int, int>,
    stack_ops: Map<int, int>,
}

/// The shared state of a channel, with the operations under way.
pub struct Channel<T> {
    sender_count: usize,
    receiver_count: usize,
    messages: Queue<T>,
    waiters: Stack<usize>,
    registry: Vec<Option<Waiter>>,
    flights: Vec<Option<Flight<T>>>,
    book: Ghost<Book<T>>,
}

impl<T> View for Channel<T> {
    type V = ChannelView<T>;

    closed spec fn view(&self) -> ChannelView<T> {
        ChannelView {
            items: self.messages@.items,
            sent: self.book@.sent,
            received: self.book@.received,
            senders: self.sender_count as nat,
            receivers: self.receiver_count as nat,
            waiters: self.waiters@.items,
            registry: self.registry@,
            ops: Map::new(|id: int| self.under_way(id), |id: int| self.act(id)),
        }
    }
}

impl<T> Channel<T> {
    spec fn under_way(self, id: int) -> bool {
        0 <= id < self.flights@.len() && self.flights@[id] is Some
    }

    spec fn act(self, id: int) -> Act<T> {
        (self.flights@[id]->0).act(self.messages@, self.waiters@)
    }

    /// Each operation on the queue and on the stack belongs to one operation under way.
    spec fn subs_wf(self) -> bool {
        let q = self.messages@;
        let s = self.waiters@;
        let b = self.book@;
        &&& self.messages.wf()
        &&& self.waiters.wf()
        &&& forall|id: int| #[trigger]
            self.under_way(id) ==> {
                let f = self.flights@[id]->0;
                &&& f.fits(q, s)
                &&& f.queue_op() matches Some(op) ==> b.queue_ops.contains_key(op)
                    && b.queue_ops[op] == id
                &&& f.stack_op() matches Some(op) ==> b.stack_ops.contains_key(op)
                    && b.stack_ops[op] == id
            }
        &&& forall|op: int| #[trigger] q.ops.contains_key(op) <==> b.queue_ops.contains_key(op)
        &&& forall|op: int| #[trigger] s.ops.contains_key(op) <==> b.stack_ops.contains_key(op)
        &&& forall|op: int| #[trigger]
            b.queue_ops.contains_key(op) ==> self.under_way(b.queue_ops[op])
                && (self.flights@[b.queue_ops[op]]->0).queue_op() == Some(op)
        &&& forall|op: int| #[trigger]
            b.stack_ops.contains_key(op) ==> self.under_way(b.stack_ops[op])
                && (self.flights@[b.stack_ops[op]]->0).stack_op() == Some(op)
    }

    /// The channel is in order: no message is lost or doubled, each waiter is held by those
    /// that count for it, somebody is on the way for each message while a receive waits, nothing
    /// is sent without a sender, and each operation under way stands where the channel says.
    pub closed spec fn wf(self) -> bool {
        &&& self.subs_wf()
        &&& channel_inv(self@, self.book@.roles)
        &&& ends_inv(self@)
        &&& covered(self@)
    }

    /// Who holds which waiter.
    pub closed spec fn roles(self) -> Roles {
        self.book@.roles
    }

    /// How far operation `id` is from its next visible step: 3 if it has to leave an
    /// operation on the queue or stack, 2 if it has to enter one, 1 if it is inside.
    pub closed spec fn phase(self, id: int) -> int {
        match self.flights@[id]->0 {
            Flight::At(act) => 2,
            _ => if (self.flights@[id]->0).settled(self.messages@, self.waiters@) {
                3
            } else {
                1
            },
        }
    }

    /// How many accesses are left to the operation on the queue or stack that operation
    /// `id` is inside of.
    pub closed spec fn accesses(self, id: int) -> int {
        let f = self.flights@[id]->0;
        match f.queue_op() {
            Some(op) => self.messages.steps_left(op),
            None => match f.stack_op() {
                Some(op) => self.waiters.steps_left(op),
                None => 0,
            },
        }
    }

    /// The phase of operation `id`, or 0 if it is not under way.
    spec fn phase_of(self, id: int) -> int {
        if self.under_way(id) {
            self.phase(id)
        } else {
            0
        }
    }

    /// The sum of the phases of the operations below `n`.
    spec fn phases_below(self, n: int) -> int
        decreases n,
    {
        if n <= 0 {
            0
        } else {
            self.phases_below(n - 1) + self.phase_of(n - 1)
        }
    }

    /// The sum of the phases of the operations under way.
    pub closed spec fn phases(self) -> int {
        self.phases_below(self.flights@.len() as int)
    }

    /// How far the tail link of the queue is behind.
    pub closed spec fn lag(self) -> int {
        self.messages.linked() - self.messages.advanced()
    }

    /// How many accesses are left to the operations on the queue and on the stack if none of
    /// them moves a link, at most.
    pub closed spec fn work_left(self) -> int {
        self.messages.work_left() + self.waiters.work_left()
    }

    /// Whether the operations under way are closer to rest than `before`: fewer steps are left
    /// to them, or as many and the next ones are closer. Among those that have as many steps
    /// left, an operation enters or leaves one on the queue or on the stack, or the tail link
    /// catches up, or else there is less work left. None of the four numbers is negative.
    pub open spec fn closer_to_rest(self, before: Self) -> bool {
        ||| unrest(self@) < unrest(before@)
        ||| {
            &&& unrest(self@) == unrest(before@)
            &&& {
                ||| self.phases() < before.phases()
                ||| self.phases() == before.phases() && self.lag() < before.lag()
                ||| self.phases() == before.phases() && self.lag() == before.lag()
                    && self.work_left() < before.work_left()
            }
        }
    }

    /// Nothing but the phase of operation `id` changed.
    proof fn lemma_phases_below(self, before: Self, id: int, n: int)
        requires
            0 <= id < n,
            forall|j: int| j != id ==> #[trigger] self.phase_of(j) == before.phase_of(j),
        ensures
            self.phases_below(n) == before.phases_below(n) - before.phase_of(id) + self.phase_of(
                id,
            ),
        decreases n,
    {
        assert(n - 1 != id ==> self.phase_of(n - 1) == before.phase_of(n - 1));
        if id < n - 1 {
            self.lemma_phases_below(before, id, n - 1);
        } else {
            self.lemma_same_phases_below(before, n - 1);
        }
    }

    /// No phase below `n` changed.
    proof fn lemma_same_phases_below(self, before: Self, n: int)
        requires
            forall|j: int| 0 <= j < n ==> #[trigger] self.phase_of(j) == before.phase_of(j),
        ensures
            self.phases_below(n) == before.phases_below(n),
        decreases n,
    {
        if n > 0 {
            assert(self.phase_of(n - 1) == before.phase_of(n - 1));
            self.lemma_same_phases_below(before, n - 1);
        }
    }

    /// The phases are not negative.
    proof fn lemma_phases_nonneg(self, n: int)
        ensures
            self.phases_below(n) >= 0,
        decreases n,
    {
        if n > 0 {
            self.lemma_phases_nonneg(n - 1);
        }
    }

    /// The numbers by which the operations come closer to rest are not negative.
    pub proof fn law_distance_from_rest_is_not_negative(self)
        requires
            self.wf(),
        ensures
            self.phases() >= 0,
            self.lag() >= 0,
            self.work_left() >= 0,
    {
        self.lemma_phases_nonneg(self.flights@.len() as int);
        self.messages.lemma_bounded();
        self.waiters.lemma_bounded();
    }

    /// Whether a node of the queue is allocated at `addr`.
    pub closed spec fn queue_holds(self, addr: usize) -> bool {
        self.messages.allocated(addr)
    }

    /// The nodes of the queue that are unlinked and wait to be reclaimed.
    pub closed spec fn queue_retired(self) -> Set<usize> {
        self.messages.retired()
    }

    /// Those among them that no operation used when a reclaimer looked.
    pub closed spec fn queue_condemned(self) -> Set<usize> {
        self.messages.condemned()
    }

    /// Whether an operation under way uses the node of the queue at `addr`.
    pub closed spec fn queue_uses(self, addr: usize) -> bool {
        self.messages.protected(addr)
    }

    /// Whether a node of the stack is allocated at `addr`.
    pub closed spec fn stack_holds(self, addr: usize) -> bool {
        self.waiters.allocated(addr)
    }

    /// The nodes of the stack that are unlinked and wait to be reclaimed.
    pub closed spec fn stack_retired(self) -> Set<usize> {
        self.waiters.retired()
    }

    /// Those among them that no operation used when a reclaimer looked.
    pub closed spec fn stack_condemned(self) -> Set<usize> {
        self.waiters.condemned()
    }

    /// Whether an operation under way uses the node of the stack at `addr`.
    pub closed spec fn stack_uses(self, addr: usize) -> bool {
        self.waiters.protected(addr)
    }

    /// Nothing but operation `id` changed, and what it is inside of.
    proof fn lemma_others(self, before: Self, id: int)
        requires
            before.subs_wf(),
            0 <= id < before.flights@.len(),
            self.flights@ =~= before.flights@.update(id, self.flights@[id]),
            self.messages.wf(),
            self.waiters.wf(),
            forall|op: int| #[trigger]
                self.messages@.ops.contains_key(op) <==> self.book@.queue_ops.contains_key(op),
            forall|op: int| #[trigger]
                self.waiters@.ops.contains_key(op) <==> self.book@.stack_ops.contains_key(op),
            forall|op: int| #[trigger]
                before.book@.queue_ops.contains_key(op) && before.book@.queue_ops[op] != id
                    ==> self.book@.queue_ops.contains_key(op) && self.book@.queue_ops[op]
                    == before.book@.queue_ops[op] && self.messages@.ops[op]
                    == before.messages@.ops[op],
            forall|op: int| #[trigger]
                before.book@.stack_ops.contains_key(op) && before.book@.stack_ops[op] != id
                    ==> self.book@.stack_ops.contains_key(op) && self.book@.stack_ops[op]
                    == before.book@.stack_ops[op] && self.waiters@.ops[op]
                    == before.waiters@.ops[op],
            forall|op: int| #[trigger]
                self.book@.queue_ops.contains_key(op) && self.book@.queue_ops[op] != id
                    ==> before.book@.queue_ops.contains_key(op) && before.book@.queue_ops[op]
                    == self.book@.queue_ops[op],
            forall|op: int| #[trigger]
                self.book@.stack_ops.contains_key(op) && self.book@.stack_ops[op] != id
                    ==> before.book@.stack_ops.contains_key(op) && before.book@.stack_ops[op]
                    == self.book@.stack_ops[op],
            self.flights@[id] matches Some(f) ==> {
                &&& f.fits(self.messages@, self.waiters@)
                &&& f.queue_op() matches Some(op) ==> self.book@.queue_ops.contains_key(op)
                    && self.book@.queue_ops[op] == id
                &&& f.stack_op() matches Some(op) ==> self.book@.stack_ops.contains_key(op)
                    && self.book@.stack_ops[op] == id
            },
            forall|op: int| #[trigger]
                self.book@.queue_ops.contains_key(op) && self.book@.queue_ops[op] == id
                    ==> self.under_way(id) && (self.flights@[id]->0).queue_op() == Some(op),
            forall|op: int| #[trigger]
                self.book@.stack_ops.contains_key(op) && self.book@.stack_ops[op] == id
                    ==> self.under_way(id) && (self.flights@[id]->0).stack_op() == Some(op),
        ensures
            self.subs_wf(),
            forall|j: int|
                j != id ==> #[trigger] self.under_way(j) == before.under_way(j) && (
                before.under_way(j) ==> self.act(j) == before.act(j)),
            self.phases() == before.phases() - before.phase_of(id) + self.phase_of(id),
    {
        assert forall|j: int| j != id implies #[trigger] self.under_way(j) == before.under_way(j)
            && (before.under_way(j) ==> self.act(j) == before.act(j) && (self.flights@[j]->0).fits(
            self.messages@,
            self.waiters@,
        )) by {
            if before.under_way(j) {
                let f = before.flights@[j]->0;
                assert(self.flights@[j] == before.flights@[j]);
                assert(f.fits(before.messages@, before.waiters@));
            }
        }
        assert forall|j: int| j != id implies #[trigger] self.phase_of(j) == before.phase_of(
            j,
        ) by {
            assert(self.under_way(j) == before.under_way(j));
            if before.under_way(j) {
                assert(self.flights@[j] == before.flights@[j]);
            }
        }
        self.lemma_phases_below(before, id, before.flights@.len() as int);
    }

    /// What is known after an access of the operation on the queue that `id` is inside of.
    spec fn after_queue_step(self, id: int, q: QueueView<T>) -> Book<T> {
        let b = self.book@;
        if q.items.len() > self.messages@.items.len() {
            Book { sent: b.sent.push(q.items.last()), ..b }
        } else if q.items.len() < self.messages@.items.len() {
            Book { received: b.received.push(self.messages@.items.first()), ..b }
        } else {
            b
        }
    }

    /// The roles after an access of the operation on the stack that `id` is inside of.
    spec fn after_stack_step(self, id: int, s: StackView<usize>) -> Roles {
        if s.ops != self.waiters@.ops {
            next_roles(self@, self.book@.roles, id)
        } else {
            self.book@.roles
        }
    }

    /// The next step of operation `id` keeps the channel in order.
    proof fn lemma_next(self, id: int, now: u64)
        requires
            self.wf(),
            self@.ops.contains_key(id),
            !done(self@.ops[id]),
        ensures
            channel_inv(self@.next(id, now), next_roles(self@, self.book@.roles, id)),
            ends_inv(self@.next(id, now)),
            covered(self@.next(id, now)),
    {
        let r = self.book@.roles;
        self.lemma_in_order();
        lemma_step(self@, r, id, now);
        lemma_ends_step(self@, r, id, now);
        lemma_covered_step(self@, r, id, now);
    }

    /// An access of the operation on the queue is the next step, or changes nothing visible.
    proof fn lemma_inside_queue(self, before: Self, id: int, op: int, now: u64)
        requires
            before.wf(),
            before.under_way(id),
            (before.flights@[id]->0).queue_op() == Some(op),
            self.messages.wf(),
            self.messages@ == before.messages@ || (before.messages@.waiting(op) && self.messages@
                == before.messages@.effect(op)),
            self == (Channel {
                messages: self.messages,
                flights: self.flights,
                book: self.book,
                ..before
            }),
            self.flights@ =~= before.flights@,
            self.book@ == before.after_queue_step(id, self.messages@),
        ensures
            self.wf(),
            if self.messages@ == before.messages@ {
                self@ == before@
            } else {
                &&& self@ == before@.next(id, now)
                &&& !done(before@.ops[id])
            },
            before@.ops.contains_key(id),
            self@.ops.contains_key(id),
            (self.flights@[id]->0).settled(self.messages@, self.waiters@) == (
            !self.messages@.waiting(op)),
            self.phases() == before.phases() - before.phase_of(id) + self.phase_of(id),
            self.messages@ != before.messages@ ==> unrest(self@) < unrest(before@),
    {
        let f = before.flights@[id]->0;
        let r = before.book@.roles;
        assert(before@.ops.contains_key(id));
        assert(f.fits(before.messages@, before.waiters@));
        if self.messages@ == before.messages@ {
            self.lemma_others(before, id);
            assert(self@.ops =~= before@.ops);
        } else {
            self.lemma_others(before, id);
            assert(next_roles(before@, r, id) == r);
            before.lemma_next(id, now);
            before.law_step_brings_rest_closer(id, now);
            assert(self@.ops =~= before@.next(id, now).ops);
            assert(self@ =~= before@.next(id, now));
        }
    }

    /// An access of the operation on the stack is the next step, or changes nothing visible.
    proof fn lemma_inside_stack(self, before: Self, id: int, op: int, now: u64)
        requires
            before.wf(),
            before.under_way(id),
            (before.flights@[id]->0).stack_op() == Some(op),
            self.waiters.wf(),
            self.waiters@ == before.waiters@ || (before.waiters@.waiting(op) && self.waiters@
                == before.waiters@.effect(op)),
            self == (Channel {
                waiters: self.waiters,
                flights: self.flights,
                book: self.book,
                ..before
            }),
            self.flights@ =~= before.flights@,
            self.book@ == (Book {
                roles: before.after_stack_step(id, self.waiters@),
                ..before.book@
            }),
        ensures
            self.wf(),
            if self.waiters@ == before.waiters@ {
                self@ == before@
            } else {
                &&& self@ == before@.next(id, now)
                &&& !done(before@.ops[id])
            },
            before@.ops.contains_key(id),
            self@.ops.contains_key(id),
            (self.flights@[id]->0).settled(self.messages@, self.waiters@) == (
            !self.waiters@.waiting(op)),
            self.phases() == before.phases() - before.phase_of(id) + self.phase_of(id),
            self.waiters@ != before.waiters@ ==> unrest(self@) < unrest(before@),
    {
        let f = before.flights@[id]->0;
        let r = before.book@.roles;
        assert(before@.ops.contains_key(id));
        assert(f.fits(before.messages@, before.waiters@));
        if self.waiters@ == before.waiters@ {
            self.lemma_others(before, id);
            assert(self@.ops =~= before@.ops);
        } else {
            assert(self.waiters@.ops != before.waiters@.ops) by {
                assert(self.waiters@.ops[op] != before.waiters@.ops[op]);
            }
            self.lemma_others(before, id);
            before.lemma_next(id, now);
            before.law_step_brings_rest_closer(id, now);
            assert(self@.ops =~= before@.next(id, now).ops);
            assert(self@ =~= before@.next(id, now));
        }
    }

    /// A step that an operation makes by itself.
    proof fn lemma_own_step(self, before: Self, id: int, now: u64)
        requires
            before.wf(),
            before.under_way(id),
            before.flights@[id] matches Some(Flight::At(act)),
            !done(before.act(id)),
            self == (Channel {
                registry: self.registry,
                flights: self.flights,
                book: self.book,
                ..before
            }),
            self.flights@ =~= before.flights@.update(id, self.flights@[id]),
            self.flights@[id] matches Some(Flight::At(act)),
            self.act(id) == before@.next(id, now).ops[id],
            self.registry@ == before@.next(id, now).registry,
            self@.items == before@.next(id, now).items,
            self@.waiters == before@.next(id, now).waiters,
            self.book@ == (Book {
                roles: next_roles(before@, before.book@.roles, id),
                ..before.book@
            }),
            self@.sent == before@.next(id, now).sent,
            self@.received == before@.next(id, now).received,
        ensures
            self.wf(),
            before@.ops.contains_key(id),
            self@.ops.contains_key(id),
            self@ == before@.next(id, now),
            !done(before@.ops[id]),
            !before@.blocked(id) ==> unrest(self@) < unrest(before@),
    {
        let r = before.book@.roles;
        assert(before@.ops.contains_key(id));
        self.lemma_others(before, id);
        before.lemma_next(id, now);
        if !before@.blocked(id) {
            before.law_step_brings_rest_closer(id, now);
        }
        assert(self@.ops =~= before@.next(id, now).ops);
        assert(self@ =~= before@.next(id, now));
    }

    /// An operation that is through leaves.
    proof fn lemma_leave(self, before: Self, id: int)
        requires
            before.wf(),
            before.under_way(id),
            before.flights@[id] matches Some(Flight::At(act)),
            done(before.act(id)),
            self == (Channel { flights: self.flights, ..before }),
            self.flights@ =~= before.flights@.update(id, None),
        ensures
            self.wf(),
            before@.ops.contains_key(id),
            self@ == (ChannelView { ops: before@.ops.remove(id), ..before@ }),
            self.phases() == before.phases() - before.phase_of(id),
            unrest(self@) == unrest(before@),
    {
        assert(before@.ops.contains_key(id));
        self.lemma_others(before, id);
        lemma_finish(before@, before.book@.roles, id);
        before.lemma_ops_finite();
        lemma_covered_finish(before@, id);
        lemma_leaving_keeps_rest(before@, id);
        assert(self@.ops =~= before@.ops.remove(id));
        assert(self@ =~= before@.without(id));
        assert forall|i: int| #[trigger] self@.ops.contains_key(i) implies before@.ops.contains_key(
            i,
        ) && self@.ops[i] == before@.ops[i] by {}
    }

    /// Only the number of senders and receivers changed.
    proof fn lemma_counted(self, before: Self)
        requires
            before.wf(),
            self == (Channel {
                sender_count: self.sender_count,
                receiver_count: self.receiver_count,
                ..before
            }),
            self.sender_count > 0 <==> before.sender_count > 0,
        ensures
            self.wf(),
            self@ == (ChannelView {
                senders: self.sender_count as nat,
                receivers: self.receiver_count as nat,
                ..before@
            }),
    {
        assert forall|j: int| #[trigger] self.under_way(j) == before.under_way(j) by {}
        assert(self@.ops =~= before@.ops);
        lemma_counts(before@, before.book@.roles, self@.senders, self@.receivers);
        lemma_covered_counts(before@, self@.senders, self@.receivers);
    }

    /// Whether a receiver is left.
    pub fn has_receivers(&self) -> (left: bool)
        ensures
            left == (self@.receivers > 0),
    {
        self.receiver_count > 0
    }

    /// Whether a sender is left.
    pub fn has_senders(&self) -> (left: bool)
        ensures
            left == (self@.senders > 0),
    {
        self.sender_count > 0
    }

    /// Notes that operation `id` stands at `act`.
    fn arrive(&mut self, id: usize, act: Act<T>)
        requires
            id < old(self).flights@.len(),
        ensures
            *final(self) == (Channel { flights: final(self).flights, ..*old(self) }),
            final(self).flights@ == old(self).flights@.update(id as int, Some(Flight::At(act))),
    {
        self.flights.set(id, Some(Flight::At(act)));
    }

    /// Makes the next access of operation `id` at the time `now`; returns what the operation
    /// returns if it is through.
    ///
    /// The access is the next step of the operation, or it brings that step closer and
    /// changes nothing that can be seen. An access of an operation that is not blocked brings
    /// all operations under way closer to rest.
    #[verifier::rlimit(40)]
    pub fn step(&mut self, id: usize, now: u64) -> (outcome: Option<Outcome<T>>)
        requires
            old(self).wf(),
            old(self)@.ops.contains_key(id as int),
        ensures
            final(self).wf(),
            match outcome {
                Some(o) => {
                    &&& o.ends(old(self)@.ops[id as int])
                    &&& match o {
                        Outcome::Sent(result) => old(self)@.ops[id as int] == Act::Send(
                            SendState::Done { result },
                        ),
                        Outcome::Closed => old(self)@.ops[id as int] == Act::<T>::Close(
                            CloseState::Done,
                        ),
                        Outcome::Received(result) => {
                            &&& old(self)@.ops[id as int] matches Act::Recv(
                                d,
                                RecvState::Done { result: known },
                            ) && known == result
                            &&& carries(old(self)@.ops[id as int]) == (match result {
                                Ok(msg) => Some(msg),
                                Err(_) => None,
                            })
                            &&& result matches Err(RecvTimeoutError::Disconnected) ==> old(
                                self,
                            )@.senders == 0 && old(self)@.items.len() == 0
                        },
                        Outcome::Tried(result) => {
                            &&& old(self)@.ops[id as int] == Act::TryRecv(
                                TryRecvState::Done { result },
                            )
                            &&& carries(old(self)@.ops[id as int]) == (match result {
                                Ok(msg) => Some(msg),
                                Err(_) => None,
                            })
                            &&& result matches Err(TryRecvError::Disconnected) ==> old(
                                self,
                            )@.senders == 0 && old(self)@.items.len() == 0
                        },
                    }
                    &&& old(self)@.moves_to(Move::End(id as int), final(self)@)
                    &&& final(self)@ == (ChannelView {
                        ops: old(self)@.ops.remove(id as int),
                        ..old(self)@
                    })
                },
                None => {
                    ||| {
                        &&& final(self)@ == old(self)@.next(id as int, now)
                        &&& !done(old(self)@.ops[id as int])
                        &&& match old(self)@.ops[id as int] {
                            Act::Send(s) => !(s is Done),
                            Act::Close(s) => !(s is Done),
                            Act::Recv(d, s) => !(s is Done),
                            Act::TryRecv(s) => !(s is Done),
                        }
                        &&& old(self)@.moves_to(Move::Step(id as int, now), final(self)@)
                    }
                    ||| {
                        &&& final(self)@ == old(self)@
                        &&& final(self).phase(id as int) <= old(self).phase(id as int)
                        &&& final(self).phase(id as int) == old(self).phase(id as int) ==> 0
                            < final(self).accesses(id as int) < old(self).accesses(id as int)
                    }
                },
            },
            final(self).phase(id as int) >= 0,
            !old(self)@.blocked(id as int) ==> final(self).closer_to_rest(*old(self)),
    {
        let ghost i = id as int;
        let ghost before = *self;
        let ghost b = self.book@;
        match self.flights[id].take() {
            Some(Flight::At(Act::Send(SendState::LoadReceivers { msg }))) => {
                let connected = self.has_receivers();
                self.arrive(id, Act::Send(SendState::receivers_loaded(msg, connected)));
                self.book = Ghost(Book { roles: next_roles(before@, b.roles, i), ..b });
                proof {
                    self.lemma_own_step(before, i, now);
                }
                None
            },
            Some(Flight::At(Act::Send(SendState::Enqueue { msg }))) => {
                let op: usize = self.messages.begin_enqueue(msg);
                self.flights.set(id, Some(Flight::Enqueue(op)));
                self.book = Ghost(Book { queue_ops: b.queue_ops.insert(op as int, i), ..b });
                proof {
                    self.lemma_others(before, i);
                    assert(self@.ops =~= before@.ops);
                }
                None
            },
            Some(Flight::Enqueue(op)) => {
                match self.messages.step(op) {
                    None => {
                        self.flights.set(id, Some(Flight::Enqueue(op)));
                        self.book = Ghost(before.after_queue_step(i, self.messages@));
                        proof {
                            self.lemma_inside_queue(before, i, op as int, now);
                        }
                    },
                    Some(QueueResponse::Enqueued) => {
                        self.arrive(id, Act::Send(SendState::enqueued()));
                        self.book = Ghost(
                            Book { queue_ops: b.queue_ops.remove(op as int), ..b },
                        );
                        proof {
                            self.lemma_others(before, i);
                            assert(self@.ops =~= before@.ops);
                        }
                    },
                    Some(QueueResponse::Dequeued(msg)) => {},
                }
                None
            },
            Some(Flight::At(Act::Send(SendState::PopWaiter))) => {
                let op: usize = self.waiters.begin_pop();
                self.flights.set(id, Some(Flight::SendPop(op)));
                self.book = Ghost(Book { stack_ops: b.stack_ops.insert(op as int, i), ..b });
                proof {
                    self.lemma_others(before, i);
                    assert(self@.ops =~= before@.ops);
                }
                None
            },
            Some(Flight::SendPop(op)) => {
                match self.waiters.step(op) {
                    None => {
                        self.flights.set(id, Some(Flight::SendPop(op)));
                        self.book = Ghost(
                            Book { roles: before.after_stack_step(i, self.waiters@), ..b },
                        );
                        proof {
                            self.lemma_inside_stack(before, i, op as int, now);
                        }
                    },
                    Some(StackResponse::Popped(waiter)) => {
                        self.arrive(id, Act::Send(SendState::popped(waiter)));
                        self.book = Ghost(
                            Book { stack_ops: b.stack_ops.remove(op as int), ..b },
                        );
                        proof {
                            self.lemma_others(before, i);
                            assert(self@.ops =~= before@.ops);
                        }
                    },
                    Some(StackResponse::Pushed) => {},
                }
                None
            },
            Some(Flight::At(Act::Send(SendState::Notify { waiter }))) => {
                proof {
                    lemma_held(before@, b.roles, i, waiter);
                }
                let won = is_waiting(&self.registry, waiter);
                if won {
                    tell(&mut self.registry, waiter, WaiterState::Notified);
                } else {
                    let_go(&mut self.registry, waiter);
                }
                self.arrive(id, Act::Send(SendState::notified(waiter, won)));
                self.book = Ghost(Book { roles: next_roles(before@, b.roles, i), ..b });
                proof {
                    self.lemma_own_step(before, i, now);
                }
                None
            },
            Some(Flight::At(Act::Send(SendState::Unpark { waiter }))) => {
                proof {
                    lemma_held(before@, b.roles, i, waiter);
                }
                wake(&mut self.registry, waiter, true);
                let_go(&mut self.registry, waiter);
                self.arrive(id, Act::Send(SendState::unparked()));
                self.book = Ghost(Book { roles: next_roles(before@, b.roles, i), ..b });
                proof {
                    self.lemma_own_step(before, i, now);
                }
                None
            },
            Some(Flight::At(Act::Send(SendState::Done { result }))) => {
                proof {
                    self.lemma_leave(before, i);
                }
                Some(Outcome::Sent(result))
            },
            Some(Flight::At(Act::Close(CloseState::PopWaiter))) => {
                let op: usize = self.waiters.begin_pop();
                self.flights.set(id, Some(Flight::ClosePop(op)));
                self.book = Ghost(Book { stack_ops: b.stack_ops.insert(op as int, i), ..b });
                proof {
                    self.lemma_others(before, i);
                    assert(self@.ops =~= before@.ops);
                }
                None
            },
            Some(Flight::ClosePop(op)) => {
                match self.waiters.step(op) {
                    None => {
                        self.flights.set(id, Some(Flight::ClosePop(op)));
                        self.book = Ghost(
                            Book { roles: before.after_stack_step(i, self.waiters@), ..b },
                        );
                        proof {
                            self.lemma_inside_stack(before, i, op as int, now);
                        }
                    },
                    Some(StackResponse::Popped(waiter)) => {
                        self.arrive(id, Act::Close(CloseState::popped(waiter)));
                        self.book = Ghost(
                            Book { stack_ops: b.stack_ops.remove(op as int), ..b },
                        );
                        proof {
                            self.lemma_others(before, i);
                            assert(self@.ops =~= before@.ops);
                        }
                    },
                    Some(StackResponse::Pushed) => {},
                }
                None
            },
            Some(Flight::At(Act::Close(CloseState::Notify { waiter }))) => {
                proof {
                    lemma_held(before@, b.roles, i, waiter);
                }
                let won = is_waiting(&self.registry, waiter);
                if won {
                    tell(&mut self.registry, waiter, WaiterState::Notified);
                } else {
                    let_go(&mut self.registry, waiter);
                }
                self.arrive(id, Act::Close(CloseState::notified(waiter, won)));
                self.book = Ghost(Book { roles: next_roles(before@, b.roles, i), ..b });
                proof {
                    self.lemma_own_step(before, i, now);
                }
                None
            },
            Some(Flight::At(Act::Close(CloseState::Unpark { waiter }))) => {
                proof {
                    lemma_held(before@, b.roles, i, waiter);
                }
                wake(&mut self.registry, waiter, true);
                let_go(&mut self.registry, waiter);
                self.arrive(id, Act::Close(CloseState::unparked()));
                self.book = Ghost(Book { roles: next_roles(before@, b.roles, i), ..b });
                proof {
                    self.lemma_own_step(before, i, now);
                }
                None
            },
            Some(Flight::At(Act::Close(CloseState::Done))) => {
                proof {
                    self.lemma_leave(before, i);
                }
                Some(Outcome::Closed)
            },
            Some(Flight::At(Act::Close(CloseState::Decrement))) => {
                proof {
                    assert(before@.ops.contains_key(i));
                }
                None
            },
            Some(Flight::At(Act::Recv(d, RecvState::Dequeue { told }))) => {
                let op: usize = self.messages.begin_dequeue();
                self.flights.set(id, Some(Flight::Dequeue(op, d, told)));
                self.book = Ghost(Book { queue_ops: b.queue_ops.insert(op as int, i), ..b });
                proof {
                    self.lemma_others(before, i);
                    assert(self@.ops =~= before@.ops);
                }
                None
            },
            Some(Flight::Dequeue(op, d, told)) => {
                match self.messages.step(op) {
                    None => {
                        self.flights.set(id, Some(Flight::Dequeue(op, d, told)));
                        self.book = Ghost(before.after_queue_step(i, self.messages@));
                        proof {
                            self.lemma_inside_queue(before, i, op as int, now);
                        }
                    },
                    Some(QueueResponse::Dequeued(msg)) => {
                        self.arrive(id, Act::Recv(d, RecvState::dequeued(msg)));
                        self.book = Ghost(
                            Book { queue_ops: b.queue_ops.remove(op as int), ..b },
                        );
                        proof {
                            self.lemma_others(before, i);
                            assert(self@.ops =~= before@.ops);
                        }
                    },
                    Some(QueueResponse::Enqueued) => {},
                }
                None
            },
            Some(Flight::At(Act::Recv(d, RecvState::LoadSenders))) => {
                let connected = self.has_senders();
                self.arrive(id, Act::Recv(d, RecvState::senders_loaded(connected)));
                self.book = Ghost(Book { roles: next_roles(before@, b.roles, i), ..b });
                proof {
                    self.lemma_own_step(before, i, now);
                }
                None
            },
            Some(Flight::At(Act::Recv(d, RecvState::DequeueLast))) => {
                let op: usize = self.messages.begin_dequeue();
                self.flights.set(id, Some(Flight::DequeueLast(op, d)));
                self.book = Ghost(Book { queue_ops: b.queue_ops.insert(op as int, i), ..b });
                proof {
                    self.lemma_others(before, i);
                    assert(self@.ops =~= before@.ops);
                }
                None
            },
            Some(Flight::DequeueLast(op, d)) => {
                match self.messages.step(op) {
                    None => {
                        self.flights.set(id, Some(Flight::DequeueLast(op, d)));
                        self.book = Ghost(before.after_queue_step(i, self.messages@));
                        proof {
                            self.lemma_inside_queue(before, i, op as int, now);
                        }
                    },
                    Some(QueueResponse::Dequeued(msg)) => {
                        self.arrive(id, Act::Recv(d, RecvState::last_dequeued(msg)));
                        self.book = Ghost(
                            Book { queue_ops: b.queue_ops.remove(op as int), ..b },
                        );
                        proof {
                            self.lemma_others(before, i);
                            assert(self@.ops =~= before@.ops);
                        }
                    },
                    Some(QueueResponse::Enqueued) => {},
                }
                None
            },
            Some(Flight::At(Act::Recv(d, RecvState::Register))) => {
                let waiter: usize = register(&mut self.registry);
                self.arrive(id, Act::Recv(d, RecvState::registered(waiter)));
                self.book = Ghost(Book { roles: next_roles(before@, b.roles, i), ..b });
                proof {
                    self.lemma_own_step(before, i, now);
                }
                None
            },
            Some(Flight::At(Act::Recv(d, RecvState::Push { waiter }))) => {
                let op: usize = self.waiters.begin_push(waiter);
                self.flights.set(id, Some(Flight::Push(op, d, waiter)));
                self.book = Ghost(Book { stack_ops: b.stack_ops.insert(op as int, i), ..b });
                proof {
                    self.lemma_others(before, i);
                    assert(self@.ops =~= before@.ops);
                }
                None
            },
            Some(Flight::Push(op, d, waiter)) => {
                match self.waiters.step(op) {
                    None => {
                        self.flights.set(id, Some(Flight::Push(op, d, waiter)));
                        self.book = Ghost(
                            Book { roles: before.after_stack_step(i, self.waiters@), ..b },
                        );
                        proof {
                            self.lemma_inside_stack(before, i, op as int, now);
                        }
                    },
                    Some(StackResponse::Pushed) => {
                        self.arrive(id, Act::Recv(d, RecvState::pushed(waiter)));
                        self.book = Ghost(
                            Book { stack_ops: b.stack_ops.remove(op as int), ..b },
                        );
                        proof {
                            self.lemma_others(before, i);
                            assert(self@.ops =~= before@.ops);
                        }
                    },
                    Some(StackResponse::Popped(_)) => {},
                }
                None
            },
            Some(Flight::At(Act::Recv(d, RecvState::Poll { waiter }))) => {
                let op: usize = self.messages.begin_dequeue();
                self.flights.set(id, Some(Flight::Poll(op, d, waiter)));
                self.book = Ghost(Book { queue_ops: b.queue_ops.insert(op as int, i), ..b });
                proof {
                    self.lemma_others(before, i);
                    assert(self@.ops =~= before@.ops);
                }
                None
            },
            Some(Flight::Poll(op, d, waiter)) => {
                match self.messages.step(op) {
                    None => {
                        self.flights.set(id, Some(Flight::Poll(op, d, waiter)));
                        self.book = Ghost(before.after_queue_step(i, self.messages@));
                        proof {
                            self.lemma_inside_queue(before, i, op as int, now);
                        }
                    },
                    Some(QueueResponse::Dequeued(msg)) => {
                        self.arrive(id, Act::Recv(d, RecvState::polled(waiter, msg)));
                        self.book = Ghost(
                            Book { queue_ops: b.queue_ops.remove(op as int), ..b },
                        );
                        proof {
                            self.lemma_others(before, i);
                            assert(self@.ops =~= before@.ops);
                        }
                    },
                    Some(QueueResponse::Enqueued) => {},
                }
                None
            },
            Some(Flight::At(Act::Recv(d, RecvState::PollSenders { waiter }))) => {
                let connected = self.has_senders();
                self.arrive(id, Act::Recv(d, RecvState::senders_polled(waiter, connected)));
                self.book = Ghost(Book { roles: next_roles(before@, b.roles, i), ..b });
                proof {
                    self.lemma_own_step(before, i, now);
                }
                None
            },
            Some(Flight::At(Act::Recv(d, RecvState::PollLast { waiter }))) => {
                let op: usize = self.messages.begin_dequeue();
                self.flights.set(id, Some(Flight::PollLast(op, d, waiter)));
                self.book = Ghost(Book { queue_ops: b.queue_ops.insert(op as int, i), ..b });
                proof {
                    self.lemma_others(before, i);
                    assert(self@.ops =~= before@.ops);
                }
                None
            },
            Some(Flight::PollLast(op, d, waiter)) => {
                match self.messages.step(op) {
                    None => {
                        self.flights.set(id, Some(Flight::PollLast(op, d, waiter)));
                        self.book = Ghost(before.after_queue_step(i, self.messages@));
                        proof {
                            self.lemma_inside_queue(before, i, op as int, now);
                        }
                    },
                    Some(QueueResponse::Dequeued(msg)) => {
                        self.arrive(id, Act::Recv(d, RecvState::last_polled(waiter, msg)));
                        self.book = Ghost(
                            Book { queue_ops: b.queue_ops.remove(op as int), ..b },
                        );
                        proof {
                            self.lemma_others(before, i);
                            assert(self@.ops =~= before@.ops);
                        }
                    },
                    Some(QueueResponse::Enqueued) => {},
                }
                None
            },
            Some(Flight::At(Act::Recv(d, RecvState::LoadState { waiter }))) => {
                proof {
                    lemma_owned(before@, b.roles, i, waiter);
                }
                let state = state_of(&self.registry, waiter);
                if state != WaiterState::Waiting {
                    let_go(&mut self.registry, waiter);
                }
                self.arrive(id, Act::Recv(d, RecvState::state_loaded(waiter, state, d.is_some())));
                self.book = Ghost(Book { roles: next_roles(before@, b.roles, i), ..b });
                proof {
                    self.lemma_own_step(before, i, now);
                }
                None
            },
            Some(Flight::At(Act::Recv(d, RecvState::Clock { waiter }))) => {
                let expired = match d {
                    Some(deadline) => now >= deadline,
                    None => false,
                };
                proof {
                    assert(before@.ops.contains_key(i));
                }
                self.arrive(id, Act::Recv(d, RecvState::clock_read(waiter, expired)));
                self.book = Ghost(Book { roles: next_roles(before@, b.roles, i), ..b });
                proof {
                    self.lemma_own_step(before, i, now);
                }
                None
            },
            Some(Flight::At(Act::Recv(d, RecvState::Park { waiter }))) => {
                proof {
                    lemma_owned(before@, b.roles, i, waiter);
                }
                wake(&mut self.registry, waiter, false);
                self.arrive(id, Act::Recv(d, RecvState::woken(waiter)));
                self.book = Ghost(Book { roles: next_roles(before@, b.roles, i), ..b });
                proof {
                    self.lemma_own_step(before, i, now);
                }
                None
            },
            Some(Flight::At(Act::Recv(d, RecvState::Cancel { waiter, result }))) => {
                proof {
                    lemma_owned(before@, b.roles, i, waiter);
                }
                let state = state_of(&self.registry, waiter);
                tell(&mut self.registry, waiter, WaiterState::Cancelled);
                let_go(&mut self.registry, waiter);
                self.arrive(id, Act::Recv(d, RecvState::cancelled(state, result)));
                self.book = Ghost(Book { roles: next_roles(before@, b.roles, i), ..b });
                proof {
                    self.lemma_own_step(before, i, now);
                }
                None
            },
            Some(Flight::At(Act::Recv(d, RecvState::PassOn { result }))) => {
                let op: usize = self.waiters.begin_pop();
                self.flights.set(id, Some(Flight::PassPop(op, d, result)));
                self.book = Ghost(Book { stack_ops: b.stack_ops.insert(op as int, i), ..b });
                proof {
                    self.lemma_others(before, i);
                    assert(self@.ops =~= before@.ops);
                }
                None
            },
            Some(Flight::PassPop(op, d, result)) => {
                match self.waiters.step(op) {
                    None => {
                        self.flights.set(id, Some(Flight::PassPop(op, d, result)));
                        self.book = Ghost(
                            Book { roles: before.after_stack_step(i, self.waiters@), ..b },
                        );
                        proof {
                            self.lemma_inside_stack(before, i, op as int, now);
                        }
                    },
                    Some(StackResponse::Popped(waiter)) => {
                        self.arrive(id, Act::Recv(d, RecvState::pass_popped(waiter, result)));
                        self.book = Ghost(
                            Book { stack_ops: b.stack_ops.remove(op as int), ..b },
                        );
                        proof {
                            self.lemma_others(before, i);
                            assert(self@.ops =~= before@.ops);
                        }
                    },
                    Some(StackResponse::Pushed) => {},
                }
                None
            },
            Some(Flight::At(Act::Recv(d, RecvState::PassNotify { waiter, result }))) => {
                proof {
                    lemma_held(before@, b.roles, i, waiter);
                }
                let won = is_waiting(&self.registry, waiter);
                if won {
                    tell(&mut self.registry, waiter, WaiterState::Notified);
                } else {
                    let_go(&mut self.registry, waiter);
                }
                self.arrive(id, Act::Recv(d, RecvState::pass_notified(waiter, won, result)));
                self.book = Ghost(Book { roles: next_roles(before@, b.roles, i), ..b });
                proof {
                    self.lemma_own_step(before, i, now);
                }
                None
            },
            Some(Flight::At(Act::Recv(d, RecvState::PassUnpark { waiter, result }))) => {
                proof {
                    lemma_held(before@, b.roles, i, waiter);
                }
                wake(&mut self.registry, waiter, true);
                let_go(&mut self.registry, waiter);
                self.arrive(id, Act::Recv(d, RecvState::pass_unparked(result)));
                self.book = Ghost(Book { roles: next_roles(before@, b.roles, i), ..b });
                proof {
                    self.lemma_own_step(before, i, now);
                }
                None
            },
            Some(Flight::At(Act::Recv(d, RecvState::Done { result }))) => {
                proof {
                    self.lemma_leave(before, i);
                }
                Some(Outcome::Received(result))
            },
            Some(Flight::At(Act::TryRecv(TryRecvState::Dequeue))) => {
                let op: usize = self.messages.begin_dequeue();
                self.flights.set(id, Some(Flight::TryDequeue(op)));
                self.book = Ghost(Book { queue_ops: b.queue_ops.insert(op as int, i), ..b });
                proof {
                    self.lemma_others(before, i);
                    assert(self@.ops =~= before@.ops);
                }
                None
            },
            Some(Flight::TryDequeue(op)) => {
                match self.messages.step(op) {
                    None => {
                        self.flights.set(id, Some(Flight::TryDequeue(op)));
                        self.book = Ghost(before.after_queue_step(i, self.messages@));
                        proof {
                            self.lemma_inside_queue(before, i, op as int, now);
                        }
                    },
                    Some(QueueResponse::Dequeued(msg)) => {
                        self.arrive(id, Act::TryRecv(TryRecvState::dequeued(msg)));
                        self.book = Ghost(
                            Book { queue_ops: b.queue_ops.remove(op as int), ..b },
                        );
                        proof {
                            self.lemma_others(before, i);
                            assert(self@.ops =~= before@.ops);
                        }
                    },
                    Some(QueueResponse::Enqueued) => {},
                }
                None
            },
            Some(Flight::At(Act::TryRecv(TryRecvState::LoadSenders))) => {
                let connected = self.has_senders();
                self.arrive(id, Act::TryRecv(TryRecvState::senders_loaded(connected)));
                self.book = Ghost(Book { roles: next_roles(before@, b.roles, i), ..b });
                proof {
                    self.lemma_own_step(before, i, now);
                }
                None
            },
            Some(Flight::At(Act::TryRecv(TryRecvState::DequeueLast))) => {
                let op: usize = self.messages.begin_dequeue();
                self.flights.set(id, Some(Flight::TryDequeueLast(op)));
                self.book = Ghost(Book { queue_ops: b.queue_ops.insert(op as int, i), ..b });
                proof {
                    self.lemma_others(before, i);
                    assert(self@.ops =~= before@.ops);
                }
                None
            },
            Some(Flight::TryDequeueLast(op)) => {
                match self.messages.step(op) {
                    None => {
                        self.flights.set(id, Some(Flight::TryDequeueLast(op)));
                        self.book = Ghost(before.after_queue_step(i, self.messages@));
                        proof {
                            self.lemma_inside_queue(before, i, op as int, now);
                        }
                    },
                    Some(QueueResponse::Dequeued(msg)) => {
                        self.arrive(id, Act::TryRecv(TryRecvState::last_dequeued(msg)));
                        self.book = Ghost(
                            Book { queue_ops: b.queue_ops.remove(op as int), ..b },
                        );
                        proof {
                            self.lemma_others(before, i);
                            assert(self@.ops =~= before@.ops);
                        }
                    },
                    Some(QueueResponse::Enqueued) => {},
                }
                None
            },
            Some(Flight::At(Act::TryRecv(TryRecvState::Done { result }))) => {
                proof {
                    self.lemma_leave(before, i);
                }
                Some(Outcome::Tried(result))
            },
            None => None,
        }
    }
}

impl<T> Channel<T> {
    /// Creates a channel with one sender and one receiver.
    pub fn new() -> (channel: Self)
        ensures
            channel.wf(),
            channel@ == ChannelView::<T>::fresh(),
            channel@.items == Seq::<T>::empty(),
            channel@.sent == Seq::<T>::empty(),
            channel@.received == Seq::<T>::empty(),
            channel@.senders == 1,
            channel@.receivers == 1,
            channel@.waiters == Seq::<usize>::empty(),
            channel@.registry == Seq::<Option<Waiter>>::empty(),
            channel@.ops == Map::<int, Act<T>>::empty(),
    {
        let ghost book = Book {
            sent: Seq::empty(),
            received: Seq::empty(),
            roles: Roles {
                owner: Map::empty(),
                holder: Map::empty(),
                drain: None,
            },
            queue_ops: Map::empty(),
            stack_ops: Map::empty(),
        };
        let channel = Channel {
            sender_count: 1,
            receiver_count: 1,
            messages: Queue::new(),
            waiters: Stack::new(),
            registry: Vec::new(),
            flights: Vec::new(),
            book: Ghost(book),
        };
        proof {
            assert(channel@.ops =~= Map::<int, Act<T>>::empty());
            assert(channel@.received + channel@.items =~= channel@.sent);
        }
        channel
    }

    /// Returns how many senders are left.
    pub fn sender_count(&self) -> (count: usize)
        ensures
            count == self@.senders,
    {
        self.sender_count
    }

    /// Returns how many receivers are left.
    pub fn receiver_count(&self) -> (count: usize)
        ensures
            count == self@.receivers,
    {
        self.receiver_count
    }

    /// Counts a sender more; returns how many there were.
    pub fn increment_sender(&mut self) -> (count: usize)
        requires
            old(self).wf(),
            0 < old(self)@.senders < usize::MAX,
        ensures
            final(self).wf(),
            count == old(self)@.senders,
            final(self)@ == (ChannelView { senders: old(self)@.senders + 1, ..old(self)@ }),
            old(self)@.moves_to(Move::CloneSender, final(self)@),
    {
        let count: usize = self.sender_count;
        self.sender_count = count + 1;
        proof {
            self.lemma_counted(*old(self));
        }
        count
    }

    /// Counts a receiver more; returns how many there were.
    pub fn increment_receiver(&mut self) -> (count: usize)
        requires
            old(self).wf(),
            0 < old(self)@.receivers < usize::MAX,
        ensures
            final(self).wf(),
            count == old(self)@.receivers,
            final(self)@ == (ChannelView { receivers: old(self)@.receivers + 1, ..old(self)@ }),
            old(self)@.moves_to(Move::CloneReceiver, final(self)@),
    {
        let count: usize = self.receiver_count;
        self.receiver_count = count + 1;
        proof {
            self.lemma_counted(*old(self));
        }
        count
    }

    /// Counts a receiver off; returns how many there were.
    pub fn decrement_receiver(&mut self) -> (count: usize)
        requires
            old(self).wf(),
            old(self)@.receivers > 0,
        ensures
            final(self).wf(),
            count == old(self)@.receivers,
            final(self)@ == (ChannelView {
                receivers: (old(self)@.receivers - 1) as nat,
                ..old(self)@
            }),
            old(self)@.moves_to(Move::CloseReceiver, final(self)@),
    {
        let count: usize = self.receiver_count;
        self.receiver_count = count - 1;
        proof {
            self.lemma_counted(*old(self));
        }
        count
    }

    /// Finds a slot for an operation, or makes one.
    fn slot(&mut self) -> (id: usize)
        requires
            old(self).wf(),
        ensures
            final(self).wf(),
            final(self)@ == old(self)@,
            id < final(self).flights@.len(),
            final(self).flights@[id as int] is None,
            *final(self) == (Channel { flights: final(self).flights, ..*old(self) }),
            forall|j: int|
                old(self).under_way(j) ==> final(self).under_way(j)
                    && #[trigger] final(self).flights@[j] == old(self).flights@[j],
            forall|j: int| #[trigger] final(self).under_way(j) ==> old(self).under_way(j),
    {
        let mut id: usize = 0;
        while id < self.flights.len()
            invariant
                id <= self.flights.len(),
                *self == *old(self),
                self.wf(),
            decreases self.flights.len() - id,
        {
            if self.flights[id].is_none() {
                return id;
            }
            id = id + 1;
        }
        self.flights.push(None);
        proof {
            assert forall|j: int| #[trigger] self.under_way(j) == old(self).under_way(j) by {}
            assert(self@.ops =~= old(self)@.ops);
        }
        id
    }

    /// An operation `id` that starts does not send without a sender, nor report the disconnect.
    proof fn lemma_ends(self, before: Self, id: int)
        requires
            ends_inv(before@),
            self@.items == before@.items,
            self@.ops == before@.ops.insert(id, self@.ops[id]),
            !before@.ops.contains_key(id),
            self@.ops[id] is Send ==> self@.senders > 0,
            self@.senders == 0 && before@.senders > 0 ==> !sending(before@),
            before@.senders == 0 ==> self@.senders == 0,
            !reports_disconnect(self@.ops[id]),
        ensures
            ends_inv(self@),
    {
        if self@.senders == 0 && sending(self@) {
            let i = choose|i: int| #[trigger] self@.ops.contains_key(i) && self@.ops[i] is Send;
            assert(before@.ops.contains_key(i) && before@.ops[i] is Send);
        }
        assert forall|i: int| #[trigger]
            self@.ops.contains_key(i) && reports_disconnect(self@.ops[i]) implies exhausted(
            self@,
        ) by {
            assert(before@.ops.contains_key(i));
        }
    }

    /// Starts an operation at `act`.
    fn begin(&mut self, act: Act<T>) -> (id: usize)
        requires
            old(self).wf(),
            act is Send ==> old(self)@.senders > 0,
            !reports_disconnect(act),
            sound(act),
            !last_look(act),
            waits(act) is None,
            holds(act) is None,
            !drains(act),
        ensures
            final(self).wf(),
            !old(self)@.ops.contains_key(id as int),
            final(self)@ == old(self)@.go(id as int, act),
            final(self).phase(id as int) == 2,
    {
        let id: usize = self.slot();
        let ghost before = *self;
        let ghost i = id as int;
        let ghost r = before.book@.roles;
        self.flights.set(id, Some(Flight::At(act)));
        proof {
            assert(!before@.ops.contains_key(i));
            lemma_begin(before@, r, i, act);
            before.lemma_ops_finite();
            lemma_covered_begin(before@, i, act);
            self.lemma_others(before, i);
            assert(self@.ops =~= before@.ops.insert(i, act));
            self.lemma_ends(before, i);
        }
        id
    }

    /// Starts to send `msg` and returns the operation. It is for one who holds a sender.
    pub fn begin_send(&mut self, msg: T) -> (id: usize)
        requires
            old(self).wf(),
            old(self)@.senders > 0,
        ensures
            final(self).wf(),
            !old(self)@.ops.contains_key(id as int),
            final(self)@ == old(self)@.go(
                id as int,
                Act::Send(SendState::LoadReceivers { msg }),
            ),
            old(self)@.moves_to(Move::BeginSend(id as int, msg), final(self)@),
            final(self)@ == (ChannelView {
                ops: old(self)@.ops.insert(id as int, Act::Send(SendState::LoadReceivers { msg })),
                ..old(self)@
            }),
    {
        self.begin(Act::Send(SendState::start(msg)))
    }

    /// Starts to receive and returns the operation; with a `deadline`, it blocks no longer
    /// than until that time.
    pub fn begin_recv(&mut self, deadline: Option<u64>) -> (id: usize)
        requires
            old(self).wf(),
        ensures
            final(self).wf(),
            !old(self)@.ops.contains_key(id as int),
            final(self)@ == old(self)@.go(
                id as int,
                Act::Recv(deadline, RecvState::Dequeue { told: false }),
            ),
            old(self)@.moves_to(Move::BeginRecv(id as int, deadline), final(self)@),
            final(self)@ == (ChannelView {
                ops: old(self)@.ops.insert(id as int, Act::Recv(deadline, RecvState::Dequeue { told: false })),
                ..old(self)@
            }),
    {
        self.begin(Act::Recv(deadline, RecvState::start()))
    }

    /// Starts to receive at the time `now` and returns the operation; it blocks no longer than
    /// for `timeout`.
    pub fn begin_recv_timeout(&mut self, now: u64, timeout: u64) -> (id: usize)
        requires
            old(self).wf(),
            now + timeout <= u64::MAX,
        ensures
            final(self).wf(),
            !old(self)@.ops.contains_key(id as int),
            final(self)@ == old(self)@.go(
                id as int,
                Act::Recv(Some((now + timeout) as u64), RecvState::Dequeue { told: false }),
            ),
            old(self)@.moves_to(
                Move::BeginRecv(id as int, Some((now + timeout) as u64)),
                final(self)@,
            ),
            final(self)@ == (ChannelView {
                ops: old(self)@.ops.insert(
                    id as int,
                    Act::Recv(Some((now + timeout) as u64), RecvState::Dequeue { told: false }),
                ),
                ..old(self)@
            }),
    {
        self.begin_recv(Some(now + timeout))
    }

    /// Starts to receive without blocking and returns the operation.
    pub fn begin_try_recv(&mut self) -> (id: usize)
        requires
            old(self).wf(),
        ensures
            final(self).wf(),
            !old(self)@.ops.contains_key(id as int),
            final(self)@ == old(self)@.go(id as int, Act::TryRecv(TryRecvState::Dequeue)),
            old(self)@.moves_to(Move::BeginTryRecv(id as int), final(self)@),
            final(self)@ == (ChannelView {
                ops: old(self)@.ops.insert(id as int, Act::TryRecv(TryRecvState::Dequeue)),
                ..old(self)@
            }),
    {
        self.begin(Act::TryRecv(TryRecvState::start()))
    }

    /// Counts a sender off and starts what is left to do for it; returns the operation. The
    /// last sender is not given up while somebody sends with it.
    pub fn begin_close(&mut self) -> (id: usize)
        requires
            old(self).wf(),
            old(self)@.senders > 0,
            old(self)@.senders == 1 ==> !sending(old(self)@),
        ensures
            final(self).wf(),
            !old(self)@.ops.contains_key(id as int),
            final(self)@ == (ChannelView {
                senders: (old(self)@.senders - 1) as nat,
                ..old(self)@
            }).go(id as int, Act::Close(CloseState::spec_decremented(old(self)@.senders))),
            old(self)@.moves_to(Move::BeginClose(id as int), final(self)@),
            final(self)@ == (ChannelView {
                senders: (old(self)@.senders - 1) as nat,
                ops: old(self)@.ops.insert(
                    id as int,
                    if old(self)@.senders == 1 {
                        Act::Close(CloseState::PopWaiter)
                    } else {
                        Act::Close(CloseState::Done)
                    },
                ),
                ..old(self)@
            }),
    {
        let count: usize = self.sender_count;
        if count > 1 {
            self.sender_count = count - 1;
            proof {
                self.lemma_counted(*old(self));
            }
            self.begin(Act::Close(CloseState::decremented(count)))
        } else {
            let id: usize = self.slot();
            let ghost before = *self;
            let ghost i = id as int;
            let ghost r = before.book@.roles;
            self.sender_count = 0;
            self.flights.set(id, Some(Flight::At(Act::Close(CloseState::decremented(count)))));
            self.book = Ghost(Book { roles: Roles { drain: Some(i), ..r }, ..before.book@ });
            proof {
                assert(!before@.ops.contains_key(i));
                lemma_last_sender(before@, r, i);
                self.lemma_others(before, i);
                assert(self@.ops =~= before@.ops.insert(i, Act::Close(CloseState::PopWaiter)));
                self.lemma_ends(before, i);
            }
            id
        }
    }

    /// Condemns the nodes of the queue and of the stack that are unlinked and that no operation
    /// under way uses: they may be reclaimed at any later time, also if an operation comes
    /// across one meanwhile. That may be done between any two accesses.
    pub fn scan(&mut self)
        requires
            old(self).wf(),
        ensures
            final(self).wf(),
            final(self)@ == old(self)@,
            forall|id: int|
                old(self)@.ops.contains_key(id) ==> #[trigger] final(self).phase(id) == old(
                    self,
                ).phase(id) && final(self).accesses(id) == old(self).accesses(id),
            final(self).phases() == old(self).phases(),
            final(self).lag() == old(self).lag(),
            final(self).work_left() == old(self).work_left(),
            forall|a: usize| #[trigger]
                final(self).queue_condemned().contains(a) <==> old(self).queue_condemned().contains(a)
                    || (old(self).queue_retired().contains(a) && !old(self).queue_uses(a)),
            final(self).queue_retired() == old(self).queue_retired(),
            forall|a: usize| final(self).queue_holds(a) == old(self).queue_holds(a),
            forall|a: usize| final(self).queue_uses(a) == old(self).queue_uses(a),
            forall|a: usize| #[trigger]
                final(self).stack_condemned().contains(a) <==> old(self).stack_condemned().contains(a)
                    || (old(self).stack_retired().contains(a) && !old(self).stack_uses(a)),
            final(self).stack_retired() == old(self).stack_retired(),
            forall|a: usize| final(self).stack_holds(a) == old(self).stack_holds(a),
            forall|a: usize| final(self).stack_uses(a) == old(self).stack_uses(a),
    {
        self.messages.scan();
        self.waiters.scan();
        proof {
            assert forall|id: int| #[trigger] self.under_way(id) == old(self).under_way(id) by {}
            assert(self@.ops =~= old(self)@.ops);
            assert forall|id: int| old(self)@.ops.contains_key(id) implies #[trigger] self.phase(id)
                == old(self).phase(id) && self.accesses(id) == old(self).accesses(id) by {
                assert(old(self).under_way(id));
            }
            assert forall|id: int| #[trigger] self.phase_of(id) == old(self).phase_of(id) by {
                assert(self.under_way(id) == old(self).under_way(id));
            }
            self.lemma_same_phases_below(*old(self), self.flights@.len() as int);
        }
    }

    /// Reclaims the nodes of the queue and of the stack that are condemned, and those that are
    /// unlinked and that no operation under way uses. That may be done between any two accesses.
    pub fn collect(&mut self)
        requires
            old(self).wf(),
        ensures
            final(self).wf(),
            final(self)@ == old(self)@,
            forall|id: int|
                old(self)@.ops.contains_key(id) ==> #[trigger] final(self).phase(id) == old(
                    self,
                ).phase(id) && final(self).accesses(id) == old(self).accesses(id),
            final(self).phases() == old(self).phases(),
            final(self).lag() == old(self).lag(),
            final(self).work_left() == old(self).work_left(),
            forall|a: usize| #[trigger]
                final(self).queue_retired().contains(a) <==> old(self).queue_retired().contains(a)
                    && old(self).queue_uses(a) && !old(self).queue_condemned().contains(a),
            forall|a: usize| !#[trigger] final(self).queue_condemned().contains(a),
            forall|a: usize| #[trigger]
                final(self).queue_holds(a) <==> old(self).queue_holds(a) && !(old(
                    self,
                ).queue_condemned().contains(a) || (old(self).queue_retired().contains(a) && !old(
                    self,
                ).queue_uses(a))),
            forall|a: usize| final(self).queue_uses(a) == old(self).queue_uses(a),
            forall|a: usize| #[trigger]
                final(self).stack_retired().contains(a) <==> old(self).stack_retired().contains(a)
                    && old(self).stack_uses(a) && !old(self).stack_condemned().contains(a),
            forall|a: usize| !#[trigger] final(self).stack_condemned().contains(a),
            forall|a: usize| #[trigger]
                final(self).stack_holds(a) <==> old(self).stack_holds(a) && !(old(
                    self,
                ).stack_condemned().contains(a) || (old(self).stack_retired().contains(a) && !old(
                    self,
                ).stack_uses(a))),
            forall|a: usize| final(self).stack_uses(a) == old(self).stack_uses(a),
    {
        self.messages.collect();
        self.waiters.collect();
        proof {
            assert forall|id: int| #[trigger] self.under_way(id) == old(self).under_way(id) by {}
            assert(self@.ops =~= old(self)@.ops);
            assert forall|id: int| old(self)@.ops.contains_key(id) implies #[trigger] self.phase(id)
                == old(self).phase(id) && self.accesses(id) == old(self).accesses(id) by {
                assert(old(self).under_way(id));
            }
            assert forall|id: int| #[trigger] self.phase_of(id) == old(self).phase_of(id) by {
                assert(self.under_way(id) == old(self).under_way(id));
            }
            self.lemma_same_phases_below(*old(self), self.flights@.len() as int);
        }
    }

    /// Whether operation `id` is blocked: it is parked and nobody has woken it.
    pub fn is_blocked(&self, id: usize) -> (blocked: bool)
        requires
            self.wf(),
            self@.ops.contains_key(id as int),
        ensures
            blocked == self@.blocked(id as int),
            blocked == match self@.ops[id as int] {
                Act::Recv(d, RecvState::Park { waiter }) => !(
                self@.registry[waiter as int]->0).token,
                _ => false,
            },
    {
        match &self.flights[id] {
            Some(Flight::At(Act::Recv(_, RecvState::Park { waiter }))) => {
                proof {
                    lemma_owned(self@, self.book@.roles, id as int, *waiter);
                }
                match &self.registry[*waiter] {
                    Some(cell) => !cell.token,
                    None => false,
                }
            },
            _ => false,
        }
    }
}

impl<T> Channel<T> {
    /// Sends `msg`: puts it into the queue and wakes one blocked receiver, if a receiver is
    /// left; hands it back if none is.
    ///
    /// Other operations may be under way at any point of theirs; this one runs to its end.
    #[verifier::loop_isolation(false)]
    pub fn send(&mut self, msg: T) -> (result: Result<(), SendError<T>>)
        requires
            old(self).wf(),
            old(self)@.senders > 0,
        ensures
            final(self).wf(),
            result == (if old(self)@.receivers > 0 {
                Ok(())
            } else {
                Err(SendError(msg))
            }),
            final(self)@ == (if old(self)@.receivers > 0 {
                old(self)@.enqueue(msg).notify_one()
            } else {
                old(self)@
            }),
            final(self)@.items == (if old(self)@.receivers > 0 {
                old(self)@.items.push(msg)
            } else {
                old(self)@.items
            }),
            final(self)@.senders == old(self)@.senders,
            final(self)@.receivers == old(self)@.receivers,
            final(self)@.ops == old(self)@.ops,
            old(self)@.moves_to(Move::Send(msg), final(self)@),
            final(self)@.sent == (if old(self)@.receivers > 0 {
                old(self)@.sent.push(msg)
            } else {
                old(self)@.sent
            }),
            final(self)@.received == old(self)@.received,
            old(self)@.receivers == 0 ==> final(self)@ == old(self)@,
    {
        let id: usize = self.begin_send(msg);
        let ghost i = id as int;
        let ghost target = settle_send(old(self)@, SendState::LoadReceivers { msg });
        let ghost promise = send_result(old(self)@, SendState::LoadReceivers { msg });
        proof {
            assert(self@.without(i) =~= old(self)@);
            old(self)@.enqueue(msg).law_notifying_keeps_messages();
        }
        loop
            invariant
                self.wf(),
                i == id,
                self@.ops.contains_key(i),
                self@.ops[i] matches Act::Send(s) && settle_send(self@.without(i), s) == target
                    && send_result(self@, s) == promise,
            decreases
                    (match self@.ops[i] {
                        Act::Send(s) => send_rank(self@, s),
                        _ => 0,
                    }),
                    self.phase(i),
                    self.accesses(i),
        {
            proof {
                if let Act::Send(s) = self@.ops[i] {
                    if !(s is Done) {
                        lemma_settle_send(self@, i, s, 0);
                    }
                }
            }
            match self.step(id, 0) {
                Some(Outcome::Sent(result)) => {
                    self.collect();
                    return result;
                },
                _ => {},
            }
        }
    }

    /// Counts a sender off; the last one wakes every blocked receiver.
    ///
    /// Other operations may be under way at any point of theirs; this one runs to its end.
    #[verifier::loop_isolation(false)]
    pub fn close_sender(&mut self)
        requires
            old(self).wf(),
            old(self)@.senders > 0,
            old(self)@.senders == 1 ==> !sending(old(self)@),
        ensures
            final(self).wf(),
            final(self)@ == ({
                let v = ChannelView { senders: (old(self)@.senders - 1) as nat, ..old(self)@ };
                if old(self)@.senders == 1 {
                    v.notify_all()
                } else {
                    v
                }
            }),
            final(self)@.items == old(self)@.items,
            final(self)@.senders == old(self)@.senders - 1,
            final(self)@.receivers == old(self)@.receivers,
            final(self)@.ops == old(self)@.ops,
            old(self)@.moves_to(Move::CloseSender, final(self)@),
            final(self)@.sent == old(self)@.sent,
            final(self)@.received == old(self)@.received,
            old(self)@.senders == 1 ==> final(self)@.waiters.len() == 0,
            old(self)@.senders > 1 ==> final(self)@.waiters == old(self)@.waiters && final(self)@.registry == old(self)@.registry,
    {
        let id: usize = self.begin_close();
        let ghost i = id as int;
        let ghost v = ChannelView { senders: (old(self)@.senders - 1) as nat, ..old(self)@ };
        let ghost target = settle_close(v, CloseState::spec_decremented(old(self)@.senders));
        proof {
            assert(self@.without(i) =~= v);
            v.law_notifying_keeps_messages();
        }
        loop
            invariant
                self.wf(),
                i == id,
                self@.ops.contains_key(i),
                self@.ops[i] matches Act::Close(s) && !(s is Decrement) && settle_close(
                    self@.without(i),
                    s,
                ) == target,
            decreases
                    (match self@.ops[i] {
                        Act::Close(s) => close_rank(self@, s),
                        _ => 0,
                    }),
                    self.phase(i),
                    self.accesses(i),
        {
            proof {
                if let Act::Close(s) = self@.ops[i] {
                    if !(s is Done) {
                        lemma_settle_close(self@, i, s, 0);
                    }
                }
            }
            match self.step(id, 0) {
                Some(_) => {
                    self.collect();
                    return ;
                },
                None => {},
            }
        }
    }

    /// Receives without blocking.
    ///
    /// Other operations may be under way at any point of theirs; this one runs to its end.
    #[verifier::loop_isolation(false)]
    pub fn try_recv(&mut self) -> (result: Result<T, TryRecvError>)
        requires
            old(self).wf(),
        ensures
            final(self).wf(),
            final(self)@ == old(self)@.dequeue(),
            result == (if old(self)@.items.len() > 0 {
                Ok(old(self)@.items.first())
            } else if old(self)@.senders > 0 {
                Err(TryRecvError::Empty)
            } else {
                Err(TryRecvError::Disconnected)
            }),
            old(self)@.moves_to(Move::TryRecv, final(self)@),
            final(self)@.items == (if old(self)@.items.len() > 0 {
                old(self)@.items.drop_first()
            } else {
                old(self)@.items
            }),
            final(self)@.received == (if old(self)@.items.len() > 0 {
                old(self)@.received.push(old(self)@.items[0])
            } else {
                old(self)@.received
            }),
            final(self)@.sent == old(self)@.sent,
            final(self)@.senders == old(self)@.senders,
            final(self)@.receivers == old(self)@.receivers,
            final(self)@.ops == old(self)@.ops,
            final(self)@.waiters == old(self)@.waiters,
            final(self)@.registry == old(self)@.registry,
    {
        let id: usize = self.begin_try_recv();
        let ghost i = id as int;
        let ghost v = old(self)@;
        proof {
            assert(self@.without(i) =~= v);
        }
        loop
            invariant
                self.wf(),
                i == id,
                self@.ops.contains_key(i),
                self@.ops[i] matches Act::TryRecv(s) && match s {
                    TryRecvState::Dequeue => self@.without(i) == v,
                    TryRecvState::LoadSenders => self@.without(i) == v && v.items.len() == 0,
                    TryRecvState::DequeueLast => self@.without(i) == v && v.items.len() == 0
                        && v.senders == 0,
                    TryRecvState::Done { result } => {
                        &&& self@.without(i) == v.dequeue()
                        &&& result == (if v.items.len() > 0 {
                            Ok(v.items.first())
                        } else if v.senders > 0 {
                            Err(TryRecvError::Empty)
                        } else {
                            Err(TryRecvError::Disconnected)
                        })
                    },
                },
            decreases
                    (match self@.ops[i] {
                        Act::TryRecv(TryRecvState::Dequeue) => 3nat,
                        Act::TryRecv(TryRecvState::LoadSenders) => 2,
                        Act::TryRecv(TryRecvState::DequeueLast) => 1,
                        _ => 0,
                    }),
                    self.phase(i),
                    self.accesses(i),
        {
            let ghost u = self@;
            match self.step(id, 0) {
                Some(Outcome::Tried(result)) => {
                    self.collect();
                    return result;
                },
                _ => {},
            }
            proof {
                match u.ops[i] {
                    Act::TryRecv(TryRecvState::LoadSenders) => {
                        assert(u.next(i, 0).without(i) =~= u.without(i));
                    },
                    Act::TryRecv(TryRecvState::Done { result }) => {},
                    _ => {
                        assert(u.next(i, 0).without(i) =~= u.without(i).dequeue());
                    },
                }
            }
        }
    }

    /// Receives, blocking until `deadline` at most if there is one. While this operation is
    /// blocked nothing happens but that time passes, which `clock` tells: it goes on to the
    /// deadline if the operation has to wait for it, and not otherwise.
    ///
    /// Other operations may be under way at any point of theirs; this one runs to its end.
    #[verifier::loop_isolation(false)]
    pub fn recv(&mut self, clock: &mut u64, deadline: Option<u64>) -> (result: Result<
        T,
        RecvTimeoutError,
    >)
        requires
            old(self).wf(),
            deadline is None ==> old(self)@.items.len() > 0 || old(self)@.senders == 0,
        ensures
            final(self).wf(),
            result == (if old(self)@.items.len() > 0 {
                Ok(old(self)@.items.first())
            } else if old(self)@.senders == 0 {
                Err(RecvTimeoutError::Disconnected)
            } else {
                Err(RecvTimeoutError::Timeout)
            }),
            final(self)@ == (if old(self)@.items.len() > 0 {
                old(self)@.dequeue()
            } else if old(self)@.senders == 0 {
                old(self)@
            } else {
                old(self)@.abandoned()
            }),
            old(self)@.moves_to(Move::Recv(deadline), final(self)@),
            *final(clock) == (if old(self)@.items.len() == 0 && old(self)@.senders > 0 && *old(
                clock,
            ) < deadline->0 {
                deadline->0
            } else {
                *old(clock)
            }),
            final(self)@.items == (if old(self)@.items.len() > 0 {
                old(self)@.items.drop_first()
            } else {
                old(self)@.items
            }),
            final(self)@.received == (if old(self)@.items.len() > 0 {
                old(self)@.received.push(old(self)@.items[0])
            } else {
                old(self)@.received
            }),
            final(self)@.sent == old(self)@.sent,
            final(self)@.senders == old(self)@.senders,
            final(self)@.receivers == old(self)@.receivers,
            final(self)@.ops == old(self)@.ops,
            old(self)@.items.len() > 0 || old(self)@.senders == 0 ==> final(self)@.waiters == old(
                self,
            )@.waiters && final(self)@.registry == old(self)@.registry,
            old(self)@.items.len() == 0 && old(self)@.senders > 0 ==> {
                let w = final(self)@.waiters.last();
                &&& final(self)@.waiters == old(self)@.waiters.push(w)
                &&& w < old(self)@.registry.len() ==> old(self)@.registry[w as int] is None
                &&& final(self)@.registry[w as int] == Some(
                    Waiter { state: WaiterState::Cancelled, refs: 1, token: false },
                )
                &&& forall|x: int|
                    0 <= x < old(self)@.registry.len() && x != w ==> #[trigger] final(self)@.registry[x] == old(self)@.registry[x]
            },
    {
        let id: usize = self.begin_recv(deadline);
        let ghost i = id as int;
        let ghost v = old(self)@;
        let ghost starved = v.items.len() == 0 && v.senders > 0;
        proof {
            assert(self@.without(i) =~= v);
            assert(self.registry.len() == self.registry@.len());
            lemma_free_number(v.registry, 0);
        }
        loop
            invariant
                self.wf(),
                i == id,
                deadline is None ==> v.items.len() > 0 || v.senders == 0,
                v.registry.len() <= usize::MAX,
                0 <= free_number(v.registry) <= v.registry.len(),
                self@.ops.contains_key(i),
                self@.ops[i] matches Act::Recv(d, s) && d == deadline && recv_path(
                    v,
                    self@.without(i),
                    s,
                ) && (s is Cancel || (s is Done && starved) ==> *clock >= deadline->0),
                *clock == *old(clock) || (starved && *old(clock) < deadline->0 && *clock
                    == deadline->0),
            decreases
                    (match self@.ops[i] {
                        Act::Recv(d, s) => recv_rank(s, deadline is Some && *clock < deadline->0),
                        _ => 0,
                    }),
                    self.phase(i),
                    self.accesses(i),
        {
            let ghost u = self@;
            let ghost early = deadline is Some && *clock < deadline->0;
            proof {
                if let Act::Recv(d, RecvState::Park { waiter }) = u.ops[i] {
                    assert(u.cell(waiter) == u.without(i).cell(waiter));
                    assert(u.blocked(i));
                }
            }
            if self.is_blocked(id) {
                if let Some(until) = deadline {
                    if *clock < until {
                        *clock = until;
                    }
                }
            }
            match self.step(id, *clock) {
                Some(Outcome::Received(result)) => {
                    self.collect();
                    return result;
                },
                _ => {},
            }
            proof {
                if self@ != u {
                    if let Act::Recv(d, s) = u.ops[i] {
                        lemma_recv_path(v, u, i, deadline, s, *clock, early);
                    }
                }
            }
        }
    }
}

impl<T> Channel<T> {
    /// There are finitely many operations under way.
    proof fn lemma_ops_finite(self)
        ensures
            self@.ops.dom().finite(),
    {
        let len = self.flights@.len() as int;
        vstd::set_lib::lemma_int_range(0, len);
        assert(self@.ops.dom().subset_of(vstd::set_lib::set_int_range(0, len)));
        vstd::set_lib::lemma_set_subset_finite(
            vstd::set_lib::set_int_range(0, len),
            self@.ops.dom(),
        );
    }

    /// What the channel being in order says of what can be seen of it.
    pub proof fn lemma_in_order(self)
        requires
            self.wf(),
        ensures
            channel_inv(self@, self.roles()),
            self@.ops.dom().finite(),
            self@.registry.len() <= usize::MAX,
    {
        assert(self.registry.len() == self.registry@.len());
        self.lemma_ops_finite();
    }

    /// In every state, the messages taken so far and those in the queue are the messages put
    /// in so far, in the same order: none is lost, doubled or overtaken.
    pub proof fn law_messages_are_conserved(self)
        requires
            self.wf(),
        ensures
            self@.received + self@.items == self@.sent,
    {
    }

    /// A blocked receive is not forgotten: its waiter is on the stack, or somebody is about
    /// to tell it, or it was told and its thread is woken, or somebody is about to wake it.
    pub proof fn law_blocked_receive_is_known(self, id: int)
        requires
            self.wf(),
            self@.ops.contains_key(id),
            self@.blocked(id),
        ensures
            self@.ops[id] matches Act::Recv(d, RecvState::Park { waiter }) && self@.live(waiter)
                && match self@.cell(waiter).state {
                WaiterState::Waiting => self@.waiters.contains(waiter) || exists|j: int| #[trigger]
                    self@.ops.contains_key(j) && telling(self@.ops[j]) == Some(waiter),
                WaiterState::Notified => exists|j: int| #[trigger]
                    self@.ops.contains_key(j) && waking(self@.ops[j]) == Some(waiter),
                WaiterState::Cancelled => false,
            },
    {
        let r = self.book@.roles;
        if let Act::Recv(d, RecvState::Park { waiter }) = self@.ops[id] {
            lemma_owned(self@, r, id, waiter);
            assert(r.owner.contains_key(waiter) && r.owner[waiter] == id);
            if r.holder.contains_key(waiter) {
                assert(self@.ops.contains_key(r.holder[waiter]));
            }
        }
    }

    /// When no sender is left and the closing of the last one is through, no receive waits
    /// to be told.
    pub proof fn law_disconnect_reaches_every_receive(self)
        requires
            self.wf(),
            self@.senders == 0,
            forall|i: int| #[trigger] self@.ops.contains_key(i) ==> !drains(self@.ops[i]),
        ensures
            forall|i: int, w: usize| #[trigger]
                self@.ops.contains_key(i) && trusts(self@.ops[i]) == Some(w)
                    ==> !#[trigger] self@.waiters.contains(w),
    {
        let r = self.book@.roles;
        assert(r.drain is None);
        assert forall|i: int, w: usize| #[trigger]
            self@.ops.contains_key(i) && trusts(self@.ops[i])
                == Some(w) implies !#[trigger] self@.waiters.contains(w) by {
            assert(waits(self@.ops[i]) == Some(w));
            assert(r.owner.contains_key(w) && r.owner[w] == i);
        }
    }

    /// A send is refused only if no receiver is left when it looks, and it then hands the
    /// message back.
    pub proof fn law_send_is_refused_without_receivers(self, id: int, now: u64, msg: T)
        requires
            self.wf(),
            self@.ops.contains_key(id),
            !done(self@.ops[id]),
            self@.ops[id] is Send,
            self@.next(id, now).ops[id] == Act::Send(
                SendState::Done { result: Err(SendError(msg)) },
            ),
        ensures
            self@.receivers == 0,
            self@.ops[id] == Act::Send(SendState::LoadReceivers { msg }),
    {
    }

    /// A receive that does not block goes on without a message only if the queue is empty, and
    /// reports that it is empty only if a sender is left.
    pub proof fn law_empty_is_reported_while_connected(self, id: int, now: u64)
        requires
            self.wf(),
            self@.ops.contains_key(id),
            self@.ops[id] is TryRecv,
        ensures
            self@.ops[id] == Act::<T>::TryRecv(TryRecvState::Dequeue) && !done(
                self@.next(id, now).ops[id],
            ) ==> self@.items.len() == 0,
            !done(self@.ops[id]) && self@.next(id, now).ops[id] == Act::<T>::TryRecv(
                TryRecvState::Done { result: Err(TryRecvError::Empty) },
            ) ==> self@.senders > 0,
    {
    }

    /// A receive reports the disconnect only if no sender is left and the queue is empty.
    pub proof fn law_disconnect_is_reported_when_drained(self, id: int, now: u64)
        requires
            self.wf(),
            self@.ops.contains_key(id),
            !reports_disconnect(self@.ops[id]),
            reports_disconnect(self@.next(id, now).ops[id]),
        ensures
            self@.senders == 0,
            self@.items.len() == 0,
    {
    }

    /// In every state, a receive that reports the disconnect does so of a channel without senders
    /// and without messages.
    pub proof fn law_disconnect_means_exhausted(self, id: int)
        requires
            self.wf(),
            self@.ops.contains_key(id),
            reports_disconnect(self@.ops[id]),
        ensures
            exhausted(self@),
    {
    }

    /// In every state, no send is under way if no sender is left.
    pub proof fn law_nothing_is_sent_without_senders(self)
        requires
            self.wf(),
        ensures
            self@.senders == 0 ==> !sending(self@),
    {
    }

    /// A receive gives up only at the clock, when its time limit is reached.
    pub proof fn law_timeout_is_reported_in_time(self, id: int, now: u64)
        requires
            self.wf(),
            self@.ops.contains_key(id),
            !reports_timeout(self@.ops[id]),
            reports_timeout(self@.next(id, now).ops[id]),
        ensures
            self@.ops[id] matches Act::Recv(Some(deadline), s) && s is Clock && now >= deadline,
    {
    }

    /// A receive does not wait beyond its time limit: from then on it does not block any more,
    /// and each of its steps brings it closer to its answer, unless it has been told and looks
    /// for the message.
    pub proof fn law_time_limit_ends_the_wait(self, id: int, now: u64)
        requires
            self.wf(),
            self@.ops.contains_key(id),
            self@.ops[id] matches Act::Recv(Some(deadline), s) && recv_verdict(s) is None && now
                >= deadline,
        ensures
            self@.ops[id] matches Act::Recv(d, s) && self@.next(id, now).ops[id] matches Act::Recv(
                d2,
                s2,
            ) && {
                &&& d2 == d
                &&& !(s2 is Park)
                &&& {
                    ||| recv_verdict(s2) is Some
                    ||| recv_rank(s2, false) < recv_rank(s, false)
                    ||| s matches RecvState::LoadState { waiter } && self@.cell(waiter).state
                        is Notified && s2 == (RecvState::<T, usize>::Dequeue { told: true })
                }
            },
    {
        if let Act::Recv(d, RecvState::LoadState { waiter }) = self@.ops[id] {
            lemma_owned(self@, self.book@.roles, id, waiter);
        }
    }

    /// In every state, while a receive waits to be told, somebody is on the way for each message
    /// in the queue.
    pub proof fn law_messages_are_covered(self)
        requires
            self.wf(),
        ensures
            covered(self@),
    {
    }

    /// If a receive waits to be told while there is a message, then there is an operation under
    /// way that tells it or another receive, or that was told and has yet to look.
    pub proof fn law_starving_receive_gets_help(self, id: int)
        requires
            self.wf(),
            self@.senders > 0,
            self@.items.len() > 0,
            starves(self@, id),
        ensures
            exists|j: int| #[trigger] helps(self@, j),
    {
        assert(starving(self@));
        if !exists|j: int| #[trigger] helps(self@, j) {
            assert(helpers(self@) =~= Set::empty());
        }
    }

    /// No receive stays blocked beside a message: when every operation under way is blocked and
    /// there is one, then the queue is empty and a sender is left that may send.
    pub proof fn law_no_receive_is_blocked_beside_a_message(self, id: int)
        requires
            self.wf(),
            self@.ops.contains_key(id),
            forall|i: int| #[trigger] self@.ops.contains_key(i) ==> self@.blocked(i),
        ensures
            self@.items.len() == 0,
            self@.senders > 0,
    {
        let r = self.book@.roles;
        assert forall|i: int| #[trigger] self@.ops.contains_key(i) implies starves(self@, i)
            && !helps(self@, i) && self@.senders > 0 by {
            assert(self@.blocked(i));
            let w = waits(self@.ops[i])->0;
            assert(r.owner.contains_key(w) && r.owner[w] == i);
            if r.holder.contains_key(w) {
                assert(self@.ops.contains_key(r.holder[w]));
                assert(self@.blocked(r.holder[w]));
            }
            if let Some(j) = r.drain {
                assert(self@.blocked(j));
            }
        }
        assert(starves(self@, id));
        if self@.items.len() > 0 {
            self.law_starving_receive_gets_help(id);
        }
    }

    /// The stack of waiters is sound in every state.
    pub proof fn law_stack_is_sound(self)
        requires
            self.wf(),
        ensures
            self@.stack_sound(),
    {
        let r = self.book@.roles;
        assert forall|k: int| 0 <= k < self@.waiters.len() implies self@.live(
            #[trigger] self@.waiters[k],
        ) && (self@.cell(self@.waiters[k]).state is Waiting ==> self@.cell(self@.waiters[k]).refs
            >= 2) by {
            assert(self@.waiters.contains(self@.waiters[k]));
        }
    }

    /// When no operation is under way, each waiter left is one that its receive cancelled
    /// and that the next send or the closing of the last sender takes from the stack.
    pub proof fn law_no_waiter_leaks(self, w: usize)
        requires
            self.wf(),
            self@.live(w),
            self@.ops.is_empty(),
        ensures
            self@.waiters.contains(w),
            !(self@.cell(w).state is Waiting),
    {
        let r = self.book@.roles;
        if r.owner.contains_key(w) {
            assert(self@.ops.contains_key(r.owner[w]));
        }
        if r.holder.contains_key(w) {
            assert(self@.ops.contains_key(r.holder[w]));
        }
    }
}

/// What the waiter with the number `w` has been told.
fn state_of(registry: &Vec<Option<Waiter>>, w: usize) -> (state: WaiterState)
    requires
        w < registry@.len(),
        registry@[w as int] is Some,
    ensures
        state == (registry@[w as int]->0).state,
{
    match &registry[w] {
        Some(waiter) => waiter.state,
        None => WaiterState::Cancelled,
    }
}

/// Whether the waiter with the number `w` is waiting.
fn is_waiting(registry: &Vec<Option<Waiter>>, w: usize) -> (waiting: bool)
    requires
        w < registry@.len(),
        registry@[w as int] is Some,
    ensures
        waiting == ((registry@[w as int]->0).state is Waiting),
{
    state_of(registry, w) == WaiterState::Waiting
}

/// Tells the waiter with the number `w`.
fn tell(registry: &mut Vec<Option<Waiter>>, w: usize, state: WaiterState)
    requires
        w < old(registry)@.len(),
        old(registry)@[w as int] is Some,
    ensures
        final(registry)@ == old(registry)@.update(
            w as int,
            Some(
                Waiter {
                    state,
                    refs: (old(registry)@[w as int]->0).refs,
                    token: (old(registry)@[w as int]->0).token,
                },
            ),
        ),
{
    if let Some(waiter) = &mut registry[w] {
        waiter.state = state;
    }
}

/// Wakes the thread of the waiter with the number `w`, or notes that it noticed.
fn wake(registry: &mut Vec<Option<Waiter>>, w: usize, token: bool)
    requires
        w < old(registry)@.len(),
        old(registry)@[w as int] is Some,
    ensures
        final(registry)@ == old(registry)@.update(
            w as int,
            Some(
                Waiter {
                    state: (old(registry)@[w as int]->0).state,
                    refs: (old(registry)@[w as int]->0).refs,
                    token,
                },
            ),
        ),
{
    if let Some(waiter) = &mut registry[w] {
        waiter.token = token;
    }
}

/// Lets go of the waiter with the number `w`.
fn let_go(registry: &mut Vec<Option<Waiter>>, w: usize)
    requires
        w < old(registry)@.len(),
        old(registry)@[w as int] is Some,
    ensures
        final(registry)@ == old(registry)@.update(
            w as int,
            if (old(registry)@[w as int]->0).refs <= 1 {
                None
            } else {
                Some(
                    Waiter {
                        state: (old(registry)@[w as int]->0).state,
                        refs: ((old(registry)@[w as int]->0).refs - 1) as u8,
                        token: (old(registry)@[w as int]->0).token,
                    },
                )
            },
        ),
{
    let last = match &mut registry[w] {
        Some(waiter) => {
            if waiter.refs <= 1 {
                true
            } else {
                waiter.refs = waiter.refs - 1;
                false
            }
        },
        None => false,
    };
    if last {
        registry.set(w, None);
    }
}

/// Makes a waiter and returns its number.
fn register(registry: &mut Vec<Option<Waiter>>) -> (w: usize)
    ensures
        w == free_number(old(registry)@),
        final(registry)@ == enter(
            old(registry)@,
            w as int,
            Waiter { state: WaiterState::Waiting, refs: 2, token: false },
        ),
{
    let waiter = Waiter { state: WaiterState::Waiting, refs: 2, token: false };
    let mut w: usize = 0;
    while w < registry.len() && registry[w].is_some()
        invariant
            w <= registry@.len(),
            registry@ == old(registry)@,
            first_free(registry@, 0) == first_free(registry@, w as int),
        decreases registry@.len() - w,
    {
        w = w + 1;
    }
    if w < registry.len() {
        registry.set(w, Some(waiter));
    } else {
        registry.push(Some(waiter));
    }
    w
}

/// A waiter that an operation has taken from the stack exists.
proof fn lemma_held<T>(v: ChannelView<T>, r: Roles, i: int, w: usize)
    requires
        channel_inv(v, r),
        v.ops.contains_key(i),
        holds(v.ops[i]) == Some(w),
    ensures
        v.live(w),
{
    assert(r.holder.contains_key(w));
}

/// A waiter that a receive has made and not let go of exists, and is not cancelled.
proof fn lemma_owned<T>(v: ChannelView<T>, r: Roles, i: int, w: usize)
    requires
        channel_inv(v, r),
        v.ops.contains_key(i),
        waits(v.ops[i]) == Some(w),
    ensures
        v.live(w),
        !(v.cell(w).state is Cancelled),
{
    assert(r.owner.contains_key(w));
}

} // verus!
