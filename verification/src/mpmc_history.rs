//! What is true of a channel of [`crate::mpmc`] over any number of calls, whatever their order.
//!
//! Each call of a function of [`crate::mpmc_channel::Channel`] that changes the channel is a
//! [`Move`], as its contract says, or changes nothing that can be seen. The laws here speak of
//! all sequences of moves.
use vstd::prelude::*;

use crate::counting::{count, lemma_count_push, lemma_differ_in_one};
use crate::error::{RecvTimeoutError, SendError, TryRecvError};
use crate::mpmc_channel::Channel;
use crate::mpmc_model::{
    carries, done, exhausted, recv_verdict, reports_disconnect, reports_timeout, sending, Act,
    ChannelView,
};
use crate::mpmc_protocol::{CloseState, RecvState, SendState, TryRecvState};

verus! {

/// One thing that is done to a channel.
pub enum Move<T> {
    /// Operation `.0` starts to send `.1`.
    BeginSend(int, T),
    /// Operation `.0` starts to receive, until the time `.1`.
    BeginRecv(int, Option<u64>),
    /// Operation `.0` starts to receive without blocking.
    BeginTryRecv(int),
    /// A sender is counted off, and operation `.0` does what is left to do for it.
    BeginClose(int),
    /// Operation `.0` makes its next step at the time `.1`.
    Step(int, u64),
    /// Operation `.0` returns.
    End(int),
    /// A message is sent by a call that runs to its end.
    Send(T),
    /// A sender is closed by a call that runs to its end.
    CloseSender,
    /// A call that runs to its end receives, until the time `.0`.
    Recv(Option<u64>),
    /// A call that runs to its end receives without blocking.
    TryRecv,
    /// A sender is cloned.
    CloneSender,
    /// A receiver is cloned.
    CloneReceiver,
    /// A receiver is closed.
    CloseReceiver,
}

impl<T> ChannelView<T> {
    /// Whether `m` can be done to the channel.
    pub open spec fn admits(self, m: Move<T>) -> bool {
        match m {
            Move::BeginSend(id, msg) => !self.ops.contains_key(id) && self.senders > 0,
            Move::BeginRecv(id, deadline) => !self.ops.contains_key(id),
            Move::BeginTryRecv(id) => !self.ops.contains_key(id),
            Move::BeginClose(id) => !self.ops.contains_key(id) && self.senders > 0 && (self.senders
                == 1 ==> !sending(self)),
            Move::Step(id, now) => self.ops.contains_key(id) && !done(self.ops[id]),
            Move::End(id) => self.ops.contains_key(id) && done(self.ops[id]),
            Move::Send(msg) => self.senders > 0,
            Move::CloseSender => self.senders > 0 && (self.senders == 1 ==> !sending(self)),
            Move::Recv(deadline) => deadline is None ==> self.items.len() > 0 || self.senders == 0,
            Move::TryRecv => true,
            Move::CloneSender => self.senders > 0,
            Move::CloneReceiver => self.receivers > 0,
            Move::CloseReceiver => self.receivers > 0,
        }
    }

    /// The channel after `m` was done to it.
    pub open spec fn after(self, m: Move<T>) -> ChannelView<T> {
        let fewer = ChannelView { senders: (self.senders - 1) as nat, ..self };
        match m {
            Move::BeginSend(id, msg) => self.go(id, Act::Send(SendState::LoadReceivers { msg })),
            Move::BeginRecv(id, deadline) => self.go(
                id,
                Act::Recv(deadline, RecvState::Dequeue { told: false }),
            ),
            Move::BeginTryRecv(id) => self.go(id, Act::TryRecv(TryRecvState::Dequeue)),
            Move::BeginClose(id) => fewer.go(
                id,
                Act::Close(CloseState::spec_decremented(self.senders)),
            ),
            Move::Step(id, now) => self.next(id, now),
            Move::End(id) => self.without(id),
            Move::Send(msg) => if self.receivers > 0 {
                self.enqueue(msg).notify_one()
            } else {
                self
            },
            Move::CloseSender => if self.senders == 1 {
                fewer.notify_all()
            } else {
                fewer
            },
            Move::Recv(deadline) => if self.items.len() > 0 {
                self.dequeue()
            } else if self.senders == 0 {
                self
            } else {
                self.abandoned()
            },
            Move::TryRecv => self.dequeue(),
            Move::CloneSender => ChannelView { senders: self.senders + 1, ..self },
            Move::CloneReceiver => ChannelView { receivers: self.receivers + 1, ..self },
            Move::CloseReceiver => ChannelView { receivers: (self.receivers - 1) as nat, ..self },
        }
    }

    /// Whether `m` can be done to the channel and makes it `to`.
    pub open spec fn moves_to(self, m: Move<T>, to: ChannelView<T>) -> bool {
        self.admits(m) && to == self.after(m)
    }
}

/// The channel `start` after `moves`.
pub open spec fn run<T>(start: ChannelView<T>, moves: Seq<Move<T>>) -> ChannelView<T>
    decreases moves.len(),
{
    if moves.len() == 0 {
        start
    } else {
        run(start, moves.drop_last()).after(moves.last())
    }
}

/// Whether `moves` can be done to the channel `start`, one after the other.
pub open spec fn possible<T>(start: ChannelView<T>, moves: Seq<Move<T>>) -> bool
    decreases moves.len(),
{
    moves.len() > 0 ==> possible(start, moves.drop_last()) && run(
        start,
        moves.drop_last(),
    ).admits(moves.last())
}

/// How many of `moves` are of a certain sort.
pub open spec fn tally<T>(moves: Seq<Move<T>>, sort: spec_fn(Move<T>) -> bool) -> nat
    decreases moves.len(),
{
    if moves.len() == 0 {
        0
    } else {
        tally(moves.drop_last(), sort) + if sort(moves.last()) {
            1nat
        } else {
            0
        }
    }
}

/// The moves that make a sender.
pub open spec fn makes_sender<T>() -> spec_fn(Move<T>) -> bool {
    |m: Move<T>| m is CloneSender
}

/// The moves that give a sender up.
pub open spec fn drops_sender<T>() -> spec_fn(Move<T>) -> bool {
    |m: Move<T>| m is BeginClose || m is CloseSender
}

/// The moves that make a receiver.
pub open spec fn makes_receiver<T>() -> spec_fn(Move<T>) -> bool {
    |m: Move<T>| m is CloneReceiver
}

/// The moves that give a receiver up.
pub open spec fn drops_receiver<T>() -> spec_fn(Move<T>) -> bool {
    |m: Move<T>| m is CloseReceiver
}

/// The moves that send.
pub open spec fn sends<T>() -> spec_fn(Move<T>) -> bool {
    |m: Move<T>| m is BeginSend || m is Send
}

/// The moves that receive.
pub open spec fn receives<T>() -> spec_fn(Move<T>) -> bool {
    |m: Move<T>| m is BeginRecv || m is BeginTryRecv || m is Recv || m is TryRecv
}

/// Whether `m` starts a receive `id`.
pub open spec fn begins_receive<T>(m: Move<T>, id: int) -> bool {
    match m {
        Move::BeginRecv(i, deadline) => i == id,
        Move::BeginTryRecv(i) => i == id,
        _ => false,
    }
}

/// Whether an operation is a receive.
pub open spec fn receiving<T>(act: Act<T>) -> bool {
    act is Recv || act is TryRecv
}

/// What a step does to the messages: a receive takes the oldest, a send puts its own in, or
/// they stay as they are.
proof fn lemma_next<T>(v: ChannelView<T>, id: int, now: u64)
    requires
        v.ops.contains_key(id),
        !done(v.ops[id]),
    ensures
        ({
            let v2 = v.next(id, now);
            let a = v.ops[id];
            let a2 = v2.ops[id];
            &&& v2.senders == v.senders
            &&& v2.receivers == v.receivers
            &&& v2.ops == v.ops.insert(id, a2)
            &&& a2 is Send == a is Send
            &&& a2 is Recv == a is Recv
            &&& a2 is TryRecv == a is TryRecv
            &&& {
                ||| {
                    &&& receiving(a)
                    &&& v.items.len() > 0
                    &&& v2.items == v.items.drop_first()
                    &&& v2.sent == v.sent
                    &&& v2.received == v.received.push(v.items.first())
                    &&& carries(a) is None
                    &&& carries(a2) == Some(v.items.first())
                }
                ||| {
                    &&& v2.items == v.items
                    &&& v2.sent == v.sent
                    &&& v2.received == v.received
                    &&& carries(a2) == carries(a)
                    &&& !(a matches Act::Send(SendState::Enqueue { msg }))
                }
                ||| {
                    &&& a matches Act::Send(SendState::Enqueue { msg }) && v2.items
                        == v.items.push(msg) && v2.sent == v.sent.push(msg)
                    &&& a2 == Act::<T>::Send(SendState::PopWaiter)
                    &&& v2.received == v.received
                }
            }
        }),
{
    let v2 = v.next(id, now);
    assert(v2.ops =~= v.ops.insert(id, v2.ops[id]));
}

/// What a call that runs to its end does to the messages and to the operations under way.
proof fn lemma_whole<T>(v: ChannelView<T>, m: Move<T>)
    requires
        v.admits(m),
        m is Send || m is CloseSender || m is Recv || m is TryRecv,
    ensures
        ({
            let v2 = v.after(m);
            &&& v2.ops == v.ops
            &&& v2.receivers == v.receivers
            &&& v2.senders == if m is CloseSender {
                v.senders - 1
            } else {
                v.senders as int
            }
            &&& match m {
                Move::Send(msg) => {
                    &&& v2.received == v.received
                    &&& v.receivers > 0 ==> v2.items == v.items.push(msg) && v2.sent == v.sent.push(
                        msg,
                    )
                    &&& v.receivers == 0 ==> v2.items == v.items && v2.sent == v.sent
                },
                Move::CloseSender => v2.items == v.items && v2.sent == v.sent && v2.received
                    == v.received,
                _ => {
                    &&& v2.sent == v.sent
                    &&& v2.items == v.dequeue().items
                    &&& v2.received == v.dequeue().received
                },
            }
        }),
{
    match m {
        Move::Send(msg) => {
            v.enqueue(msg).law_notifying_keeps_messages();
        },
        Move::CloseSender => {
            ChannelView { senders: (v.senders - 1) as nat, ..v }.law_notifying_keeps_messages();
        },
        _ => {},
    }
}

/// The senders of a channel are those that were made and not given up, in every state: the one
/// that it was created with, and its clones. So it is disconnected when all of them are given
/// up, in whatever order. The same is true of the receivers.
pub proof fn law_handles_are_counted<T>(moves: Seq<Move<T>>)
    requires
        possible(ChannelView::fresh(), moves),
    ensures
        ({
            let v = run(ChannelView::fresh(), moves);
            &&& v.senders == 1 + tally(moves, makes_sender()) - tally(moves, drops_sender())
            &&& v.receivers == 1 + tally(moves, makes_receiver()) - tally(moves, drops_receiver())
        }),
    decreases moves.len(),
{
    if moves.len() > 0 {
        law_handles_are_counted(moves.drop_last());
        let v = run(ChannelView::fresh(), moves.drop_last());
        match moves.last() {
            Move::Step(id, now) => lemma_next(v, id, now),
            Move::Send(_) => lemma_whole(v, moves.last()),
            Move::CloseSender => lemma_whole(v, moves.last()),
            Move::Recv(_) => lemma_whole(v, moves.last()),
            Move::TryRecv => lemma_whole(v, moves.last()),
            _ => {},
        }
    }
}

/// The messages that the steps of operation `id` took from the queue, from move `from` on.
pub open spec fn taken_by<T>(
    start: ChannelView<T>,
    moves: Seq<Move<T>>,
    id: int,
    from: int,
) -> Seq<T>
    decreases moves.len(),
{
    if moves.len() == 0 || moves.len() <= from {
        Seq::empty()
    } else {
        let v = run(start, moves.drop_last());
        let before = taken_by(start, moves.drop_last(), id, from);
        match moves.last() {
            Move::Step(i, now) if i == id => before + v.after(moves.last()).received.skip(
                v.received.len() as int,
            ),
            _ => before,
        }
    }
}

/// The messages that the steps of operation `id` put into the queue, from move `from` on.
pub open spec fn given_by<T>(
    start: ChannelView<T>,
    moves: Seq<Move<T>>,
    id: int,
    from: int,
) -> Seq<T>
    decreases moves.len(),
{
    if moves.len() == 0 || moves.len() <= from {
        Seq::empty()
    } else {
        let v = run(start, moves.drop_last());
        let before = given_by(start, moves.drop_last(), id, from);
        match moves.last() {
            Move::Step(i, now) if i == id => before + v.after(moves.last()).sent.skip(
                v.sent.len() as int,
            ),
            _ => before,
        }
    }
}

/// Nothing or one message.
pub open spec fn at_most_one<T>(msg: Option<T>) -> Seq<T> {
    match msg {
        Some(msg) => seq![msg],
        None => Seq::empty(),
    }
}

/// The move that comes last in `moves` neither starts nor ends operation `id`, which is under
/// way: the operation stays where it is, or makes a step.
proof fn lemma_stays<T>(v: ChannelView<T>, m: Move<T>, id: int)
    requires
        v.admits(m),
        v.ops.contains_key(id),
        m != Move::<T>::End(id),
    ensures
        v.after(m).ops.contains_key(id),
        !(m matches Move::Step(i, now) && i == id) ==> v.after(m).ops[id] == v.ops[id],
{
    match m {
        Move::Step(i, now) => lemma_next(v, i, now),
        Move::Send(_) => lemma_whole(v, m),
        Move::CloseSender => lemma_whole(v, m),
        Move::Recv(_) => lemma_whole(v, m),
        Move::TryRecv => lemma_whole(v, m),
        _ => {},
    }
}

/// A receive takes what it returns: over its whole run, whatever else is done meanwhile, its
/// steps take the message that it returns, once, and take nothing if it returns an error.
pub proof fn law_receive_takes_what_it_returns<T>(
    start: ChannelView<T>,
    moves: Seq<Move<T>>,
    begin: int,
    id: int,
)
    requires
        possible(start, moves),
        0 <= begin < moves.len(),
        begins_receive(moves[begin], id),
        forall|k: int| begin < k < moves.len() ==> #[trigger] moves[k] != Move::<T>::End(id),
    ensures
        ({
            let v = run(start, moves);
            &&& v.ops.contains_key(id)
            &&& receiving(v.ops[id])
            &&& taken_by(start, moves, id, begin) == at_most_one(carries(v.ops[id]))
        }),
    decreases moves.len(),
{
    let fewer = moves.drop_last();
    let v = run(start, fewer);
    let v2 = run(start, moves);
    if begin == moves.len() - 1 {
        assert(taken_by(start, fewer, id, begin) =~= Seq::empty());
        assert(taken_by(start, moves, id, begin) =~= Seq::empty());
    } else {
        assert forall|k: int| begin < k < fewer.len() implies #[trigger] fewer[k] != Move::<T>::End(
            id,
        ) by {
            assert(moves[k] == fewer[k]);
        }
        law_receive_takes_what_it_returns(start, fewer, begin, id);
        assert(moves[moves.len() - 1] == moves.last());
        lemma_stays(v, moves.last(), id);
        if let Move::Step(i, now) = moves.last() {
            if i == id {
                lemma_next(v, id, now);
                if v2.received == v.received {
                    assert(v2.received.skip(v.received.len() as int) =~= Seq::empty());
                    assert(taken_by(start, moves, id, begin) =~= taken_by(start, fewer, id, begin));
                } else {
                    assert(v2.received.skip(v.received.len() as int) =~= seq![v.items.first()]);
                    assert(taken_by(start, moves, id, begin) =~= seq![v.items.first()]);
                }
            }
        }
    }
}

/// The message that a send has put into the queue, if `msg` is the one that it sends.
pub open spec fn gave<T>(act: Act<T>, msg: T) -> Option<T> {
    match act {
        Act::Send(SendState::LoadReceivers { msg }) => None,
        Act::Send(SendState::Enqueue { msg }) => None,
        Act::Send(SendState::Done { result: Err(_) }) => None,
        _ => Some(msg),
    }
}

/// Whether an operation is a send of `msg`, as far as it still shows.
pub open spec fn sends_message<T>(act: Act<T>, msg: T) -> bool {
    match act {
        Act::Send(SendState::LoadReceivers { msg: m }) => m == msg,
        Act::Send(SendState::Enqueue { msg: m }) => m == msg,
        Act::Send(SendState::Done { result: Err(error) }) => error.0 == msg,
        Act::Send(_) => true,
        _ => false,
    }
}

/// A send puts its message into the queue once if it succeeds; if it is refused it puts nothing
/// in and hands the message back. That is so whatever else is done meanwhile.
pub proof fn law_send_gives_its_message_once<T>(
    start: ChannelView<T>,
    moves: Seq<Move<T>>,
    begin: int,
    id: int,
    msg: T,
)
    requires
        possible(start, moves),
        0 <= begin < moves.len(),
        moves[begin] == Move::BeginSend(id, msg),
        forall|k: int| begin < k < moves.len() ==> #[trigger] moves[k] != Move::<T>::End(id),
    ensures
        ({
            let v = run(start, moves);
            &&& v.ops.contains_key(id)
            &&& sends_message(v.ops[id], msg)
            &&& given_by(start, moves, id, begin) == at_most_one(gave(v.ops[id], msg))
        }),
    decreases moves.len(),
{
    let fewer = moves.drop_last();
    let v = run(start, fewer);
    let v2 = run(start, moves);
    if begin == moves.len() - 1 {
        assert(given_by(start, fewer, id, begin) =~= Seq::empty());
        assert(given_by(start, moves, id, begin) =~= Seq::empty());
    } else {
        assert forall|k: int| begin < k < fewer.len() implies #[trigger] fewer[k] != Move::<T>::End(
            id,
        ) by {
            assert(moves[k] == fewer[k]);
        }
        law_send_gives_its_message_once(start, fewer, begin, id, msg);
        assert(moves[moves.len() - 1] == moves.last());
        lemma_stays(v, moves.last(), id);
        if let Move::Step(i, now) = moves.last() {
            if i == id {
                lemma_next(v, id, now);
                if v2.sent == v.sent {
                    assert(v2.sent.skip(v.sent.len() as int) =~= Seq::empty());
                    assert(given_by(start, moves, id, begin) =~= given_by(start, fewer, id, begin));
                } else {
                    assert(v2.sent.skip(v.sent.len() as int) =~= seq![msg]);
                    assert(given_by(start, moves, id, begin) =~= seq![msg]);
                }
            }
        }
    }
}

/// Whether the channel is exhausted and nobody is about to put a message in.
spec fn shut<T>(v: ChannelView<T>) -> bool {
    exhausted(v) && !sending(v)
}

/// Once a channel is exhausted it stays so.
proof fn lemma_shut<T>(v: ChannelView<T>, m: Move<T>)
    requires
        shut(v),
        v.admits(m),
    ensures
        shut(v.after(m)),
        v.after(m).received == v.received,
{
    let v2 = v.after(m);
    match m {
        Move::Step(i, now) => {
            lemma_next(v, i, now);
            assert(!(v.ops[i] is Send));
        },
        Move::Recv(_) => lemma_whole(v, m),
        Move::TryRecv => lemma_whole(v, m),
        _ => {},
    }
    if sending(v2) {
        let i = choose|i: int| #[trigger] v2.ops.contains_key(i) && v2.ops[i] is Send;
        assert(v.ops.contains_key(i) && v.ops[i] is Send);
    }
}

proof fn lemma_stays_shut<T>(start: ChannelView<T>, moves: Seq<Move<T>>)
    requires
        shut(start),
        possible(start, moves),
    ensures
        shut(run(start, moves)),
        run(start, moves).received == start.received,
    decreases moves.len(),
{
    if moves.len() > 0 {
        lemma_stays_shut(start, moves.drop_last());
        lemma_shut(run(start, moves.drop_last()), moves.last());
    }
}

/// Where a receive can stand that started after the channel was exhausted.
spec fn finds_nothing<T>(act: Act<T>) -> bool {
    match act {
        Act::Recv(d, s) => s is Dequeue || s is LoadSenders || s is DequeueLast || s
            == (RecvState::<T, usize>::Done { result: Err(RecvTimeoutError::Disconnected) }),
        Act::TryRecv(s) => s is Dequeue || s is LoadSenders || s is DequeueLast || s
            == (TryRecvState::<T>::Done { result: Err(TryRecvError::Disconnected) }),
        _ => false,
    }
}

proof fn lemma_finds_nothing<T>(
    start: ChannelView<T>,
    moves: Seq<Move<T>>,
    begin: int,
    id: int,
)
    requires
        shut(start),
        possible(start, moves),
        0 <= begin < moves.len(),
        begins_receive(moves[begin], id),
        forall|k: int| begin < k < moves.len() ==> #[trigger] moves[k] != Move::<T>::End(id),
    ensures
        run(start, moves).ops.contains_key(id),
        finds_nothing(run(start, moves).ops[id]),
    decreases moves.len(),
{
    let fewer = moves.drop_last();
    let v = run(start, fewer);
    if begin < moves.len() - 1 {
        assert forall|k: int| begin < k < fewer.len() implies #[trigger] fewer[k] != Move::<T>::End(
            id,
        ) by {
            assert(moves[k] == fewer[k]);
        }
        lemma_finds_nothing(start, fewer, begin, id);
        lemma_stays_shut(start, fewer);
        assert(moves[moves.len() - 1] == moves.last());
        lemma_stays(v, moves.last(), id);
    }
}

impl<T> Channel<T> {
    /// The disconnect is final: once no sender is left and no message is in the queue, as it is
    /// whenever a receive reports the disconnect, no message appears, whatever is done.
    pub proof fn law_disconnect_is_final(self, moves: Seq<Move<T>>)
        requires
            self.wf(),
            exhausted(self@),
            possible(self@, moves),
        ensures
            exhausted(run(self@, moves)),
            run(self@, moves).received == self@.received,
    {
        self.law_nothing_is_sent_without_senders();
        lemma_stays_shut(self@, moves);
    }

    /// Every receive that starts when no sender is left and no message is in the queue, or at
    /// any time afterwards, reports the disconnect when it is through, whatever is done
    /// meanwhile.
    pub proof fn law_later_receive_reports_the_disconnect(
        self,
        moves: Seq<Move<T>>,
        begin: int,
        id: int,
    )
        requires
            self.wf(),
            exhausted(self@),
            possible(self@, moves),
            0 <= begin < moves.len(),
            begins_receive(moves[begin], id),
            forall|k: int| begin < k < moves.len() ==> #[trigger] moves[k] != Move::<T>::End(id),
        ensures
            run(self@, moves).ops.contains_key(id),
            done(run(self@, moves).ops[id]) ==> reports_disconnect(run(self@, moves).ops[id]),
    {
        self.law_nothing_is_sent_without_senders();
        lemma_finds_nothing(self@, moves, begin, id);
    }
}

/// A move of a certain sort counts.
proof fn lemma_tally<T>(moves: Seq<Move<T>>, sort: spec_fn(Move<T>) -> bool, k: int)
    requires
        0 <= k < moves.len(),
        sort(moves[k]),
    ensures
        tally(moves, sort) > 0,
    decreases moves.len(),
{
    if k < moves.len() - 1 {
        lemma_tally(moves.drop_last(), sort, k);
    }
}

/// The messages received and those in the queue are those sent, in the same order.
proof fn lemma_conserved<T>(moves: Seq<Move<T>>)
    requires
        possible(ChannelView::fresh(), moves),
    ensures
        ({
            let v = run(ChannelView::fresh(), moves);
            v.received + v.items == v.sent
        }),
    decreases moves.len(),
{
    let v2 = run(ChannelView::fresh(), moves);
    if moves.len() == 0 {
        assert(v2.received + v2.items =~= v2.sent);
    } else {
        lemma_conserved(moves.drop_last());
        let v = run(ChannelView::fresh(), moves.drop_last());
        match moves.last() {
            Move::Step(id, now) => lemma_next(v, id, now),
            Move::Send(_) => lemma_whole(v, moves.last()),
            Move::CloseSender => lemma_whole(v, moves.last()),
            Move::Recv(_) => lemma_whole(v, moves.last()),
            Move::TryRecv => lemma_whole(v, moves.last()),
            _ => {},
        }
        assert(v2.received + v2.items =~= v2.sent);
    }
}

/// What a single receive has taken.
proof fn lemma_single_receive<T>(moves: Seq<Move<T>>, begin: int, id: int)
    requires
        possible(ChannelView::fresh(), moves),
        tally(moves, receives()) == (if 0 <= begin < moves.len() {
            1nat
        } else {
            0
        }),
        0 <= begin < moves.len() ==> begins_receive(moves[begin], id),
        forall|k: int| begin < k < moves.len() ==> #[trigger] moves[k] != Move::<T>::End(id),
        begin >= 0,
    ensures
        ({
            let v = run(ChannelView::fresh(), moves);
            &&& forall|i: int| #[trigger]
                v.ops.contains_key(i) && receiving(v.ops[i]) ==> i == id && begin < moves.len()
            &&& if begin < moves.len() {
                v.ops.contains_key(id) && v.received == at_most_one(carries(v.ops[id]))
            } else {
                v.received.len() == 0
            }
        }),
    decreases moves.len(),
{
    if moves.len() > 0 {
        let fewer = moves.drop_last();
        let m = moves.last();
        let v = run(ChannelView::fresh(), fewer);
        let v2 = run(ChannelView::fresh(), moves);
        assert(moves[moves.len() - 1] == m);
        assert forall|k: int| begin < k < fewer.len() implies #[trigger] fewer[k] != Move::<T>::End(
            id,
        ) by {
            assert(moves[k] == fewer[k]);
        }
        if begin < fewer.len() {
            lemma_tally(fewer, receives(), begin);
        }
        lemma_single_receive(fewer, begin, id);
        match m {
            Move::Step(i, now) => lemma_next(v, i, now),
            Move::Send(_) => lemma_whole(v, m),
            Move::CloseSender => lemma_whole(v, m),
            _ => {},
        }
        assert forall|i: int| #[trigger]
            v2.ops.contains_key(i) && receiving(v2.ops[i]) implies i == id && begin
            < moves.len() by {
            if v.ops.contains_key(i) {
                assert(receiving(v.ops[i]) || begins_receive(m, i));
            }
        }
        if begin < fewer.len() {
            lemma_stays(v, m, id);
        }
        if v2.received != v.received {
            assert(v2.received =~= at_most_one(carries(v2.ops[id])));
        }
    }
}

/// What a single send has put in.
proof fn lemma_single_send<T>(moves: Seq<Move<T>>, begin: int, id: int, msg: T)
    requires
        possible(ChannelView::fresh(), moves),
        tally(moves, sends()) == (if 0 <= begin < moves.len() {
            1nat
        } else {
            0
        }),
        0 <= begin < moves.len() ==> moves[begin] == Move::BeginSend(id, msg),
        tally(moves, drops_receiver()) == 0,
        begin >= 0,
    ensures
        ({
            let v = run(ChannelView::fresh(), moves);
            &&& v.receivers > 0
            &&& forall|i: int| #[trigger]
                v.ops.contains_key(i) && v.ops[i] is Send ==> i == id && begin < moves.len()
            &&& if begin < moves.len() {
                ||| {
                    &&& v.sent.len() == 0
                    &&& v.ops.contains_key(id)
                    &&& v.ops[id] == Act::<T>::Send(SendState::LoadReceivers { msg }) || v.ops[id]
                        == Act::<T>::Send(SendState::Enqueue { msg })
                }
                ||| v.sent == seq![msg] && !(v.ops.contains_key(id) && gave(v.ops[id], msg) is None)
            } else {
                v.sent.len() == 0
            }
        }),
    decreases moves.len(),
{
    if moves.len() > 0 {
        let fewer = moves.drop_last();
        let m = moves.last();
        let v = run(ChannelView::fresh(), fewer);
        let v2 = run(ChannelView::fresh(), moves);
        assert(moves[moves.len() - 1] == m);
        if begin < fewer.len() {
            lemma_tally(fewer, sends(), begin);
        }
        lemma_single_send(fewer, begin, id, msg);
        match m {
            Move::Step(i, now) => lemma_next(v, i, now),
            Move::CloseSender => lemma_whole(v, m),
            Move::Recv(_) => lemma_whole(v, m),
            Move::TryRecv => lemma_whole(v, m),
            _ => {},
        }
        assert forall|i: int| #[trigger]
            v2.ops.contains_key(i) && v2.ops[i] is Send implies i == id && begin < moves.len() by {
            if v.ops.contains_key(i) {
                assert(v.ops[i] is Send || m == Move::BeginSend(id, msg));
            }
        }
        if v2.sent != v.sent {
            assert(v2.sent =~= seq![msg]);
        }
    }
}

/// A message that is sent while the only receive is under way is received by it or stays: when
/// the send has returned and the receive is through, the receive returns the message and the
/// queue is empty, or it returns an error and the message is in the queue, where the next
/// receive finds it.
pub proof fn law_racing_message_is_received_or_stays<T>(
    moves: Seq<Move<T>>,
    send: int,
    sender: int,
    msg: T,
    recv: int,
    receiver: int,
)
    requires
        possible(ChannelView::fresh(), moves),
        tally(moves, sends()) == 1,
        0 <= send < moves.len(),
        moves[send] == Move::BeginSend(sender, msg),
        tally(moves, receives()) == 1,
        0 <= recv < moves.len(),
        begins_receive(moves[recv], receiver),
        forall|k: int| recv < k < moves.len() ==> #[trigger] moves[k] != Move::<T>::End(receiver),
        tally(moves, drops_receiver()) == 0,
        !sending(run(ChannelView::fresh(), moves)),
        done(run(ChannelView::fresh(), moves).ops[receiver]),
    ensures
        ({
            let v = run(ChannelView::fresh(), moves);
            &&& v.ops.contains_key(receiver)
            &&& match carries(v.ops[receiver]) {
                Some(got) => got == msg && v.items.len() == 0,
                None => v.items == seq![msg],
            }
        }),
{
    let v = run(ChannelView::fresh(), moves);
    lemma_single_receive(moves, recv, receiver);
    lemma_single_send(moves, send, sender, msg);
    lemma_conserved(moves);
    assert(v.sent == seq![msg]);
    match carries(v.ops[receiver]) {
        Some(got) => {
            assert(v.received.len() == 1);
            assert(v.items.len() == 0);
            assert((v.received + v.items)[0] == got);
        },
        None => {
            assert(v.received + v.items =~= v.items);
        },
    }
}

/// The moves of a channel on which messages are sent and received without a time limit, and
/// whose handles are all kept.
pub open spec fn plain<T>(m: Move<T>) -> bool {
    match m {
        Move::BeginRecv(id, deadline) => deadline is None,
        Move::Recv(deadline) => deadline is None,
        Move::BeginTryRecv(id) => false,
        Move::TryRecv => false,
        Move::BeginClose(id) => false,
        Move::CloseSender => false,
        Move::CloseReceiver => false,
        _ => true,
    }
}

/// Where an operation can stand after plain moves.
spec fn plain_act<T>(act: Act<T>) -> bool {
    match act {
        Act::Send(s) => s matches SendState::Done { result } ==> result is Ok,
        Act::Recv(d, s) => d is None && !(s is DequeueLast) && !(s is PollLast) && !(s is Clock) && (
        recv_verdict(s) matches Some(result) ==> result is Ok),
        _ => false,
    }
}

/// The receives under way that have no message yet.
spec fn hungry<T>(v: ChannelView<T>) -> Set<int> {
    Set::new(
        |i: int| v.ops.contains_key(i) && v.ops[i] is Recv && carries(v.ops[i]) is None,
    )
}

/// The sends under way that have not put their message in yet.
spec fn pending<T>(v: ChannelView<T>) -> Set<int> {
    Set::new(
        |i: int|
            v.ops.contains_key(i) && (v.ops[i] matches Act::Send(s) && (s is LoadReceivers || s
                is Enqueue)),
    )
}

/// After plain moves, each receive has taken a message or is still under way, and each send
/// has put its message in or is still under way.
proof fn lemma_plain<T>(moves: Seq<Move<T>>)
    requires
        possible(ChannelView::fresh(), moves),
        forall|k: int| 0 <= k < moves.len() ==> plain(#[trigger] moves[k]),
    ensures
        ({
            let v = run(ChannelView::fresh(), moves);
            &&& v.senders > 0
            &&& v.receivers > 0
            &&& forall|i: int| #[trigger] v.ops.contains_key(i) ==> plain_act(v.ops[i])
            &&& hungry(v).finite()
            &&& v.received.len() + hungry(v).len() == tally(moves, receives())
            &&& pending(v).finite()
            &&& v.sent.len() + pending(v).len() == tally(moves, sends())
        }),
    decreases moves.len(),
{
    let v2 = run(ChannelView::fresh(), moves);
    if moves.len() == 0 {
        assert(hungry(v2) =~= Set::empty());
        assert(pending(v2) =~= Set::empty());
    } else {
        let fewer = moves.drop_last();
        let m = moves.last();
        let v = run(ChannelView::fresh(), fewer);
        assert(plain(moves[moves.len() - 1]));
        assert forall|k: int| 0 <= k < fewer.len() implies plain(#[trigger] fewer[k]) by {
            assert(plain(moves[k]));
        }
        lemma_plain(fewer);
        let id = match m {
            Move::BeginSend(id, _) => id,
            Move::BeginRecv(id, _) => id,
            Move::Step(id, _) => id,
            Move::End(id) => id,
            _ => 0,
        };
        match m {
            Move::Step(i, now) => {
                lemma_next(v, i, now);
                assert(plain_act(v.ops[i]));
                assert(plain_act(v2.ops[i]));
            },
            Move::End(i) => {
                assert(plain_act(v.ops[i]));
            },
            Move::Send(_) => lemma_whole(v, m),
            Move::Recv(_) => lemma_whole(v, m),
            _ => {},
        }
        assert forall|i: int| #[trigger] v2.ops.contains_key(i) implies plain_act(v2.ops[i]) by {
            if v.ops.contains_key(i) {
                assert(plain_act(v.ops[i]));
            }
        }
        lemma_differ_in_one(hungry(v), hungry(v2), id);
        lemma_differ_in_one(pending(v), pending(v2), id);
    }
}

impl<T> Channel<T> {
    /// Every receive is served: when messages are sent and received without a time limit, and
    /// in whatever order the operations went on until none of them could, then as many messages
    /// have been received as there were sends or receives, whichever are fewer. With at least
    /// as many sends as receives no receive is left waiting; else those that wait are as many
    /// as there were receives more than sends.
    pub proof fn law_every_receive_is_served(self, moves: Seq<Move<T>>)
        requires
            self.wf(),
            possible(ChannelView::fresh(), moves),
            self@ == run(ChannelView::fresh(), moves),
            forall|k: int| 0 <= k < moves.len() ==> plain(#[trigger] moves[k]),
            forall|i: int| #[trigger] self@.ops.contains_key(i) ==> self@.blocked(i),
        ensures
            tally(moves, receives()) <= tally(moves, sends()) ==> self@.ops.dom() == Set::<
                int,
            >::empty() && self@.received.len() == tally(moves, receives()),
            tally(moves, receives()) >= tally(moves, sends()) ==> self@.items.len() == 0
                && self@.received == self@.sent && self@.received.len() == tally(moves, sends())
                && self@.ops.dom().len() == tally(moves, receives()) - tally(moves, sends()),
    {
        let v = self@;
        lemma_plain(moves);
        lemma_conserved(moves);
        assert(pending(v) =~= Set::empty()) by {
            assert forall|i: int| !pending(v).contains(i) by {
                if v.ops.contains_key(i) {
                    assert(v.blocked(i));
                }
            }
        }
        assert(hungry(v) =~= v.ops.dom()) by {
            assert forall|i: int| v.ops.contains_key(i) implies hungry(v).contains(i) by {
                assert(v.blocked(i));
            }
        }
        assert(v.received.len() + v.items.len() == v.sent.len());
        if v.ops.dom() =~= Set::<int>::empty() {
            assert(v.ops.dom().len() == 0);
        } else {
            let id = choose|i: int| v.ops.dom().contains(i);
            assert(v.ops.contains_key(id));
            self.law_no_receive_is_blocked_beside_a_message(id);
            assert(v.ops.dom().len() > 0) by {
                assert(v.ops.dom().remove(id).len() == v.ops.dom().len() - 1);
            }
        }
        if v.items.len() == 0 {
            assert(v.received + v.items =~= v.received);
        }
    }
}

/// The messages that receives have returned, in the order in which they returned.
pub open spec fn returned<T>(moves: Seq<Move<T>>) -> Seq<T>
    decreases moves.len(),
{
    if moves.len() == 0 {
        Seq::empty()
    } else {
        let v = run(ChannelView::fresh(), moves.drop_last());
        let before = returned(moves.drop_last());
        match moves.last() {
            Move::End(id) => match carries(v.ops[id]) {
                Some(msg) => before.push(msg),
                None => before,
            },
            Move::Recv(_) => before + at_most_one(v.front()),
            Move::TryRecv => before + at_most_one(v.front()),
            _ => before,
        }
    }
}

/// How many sends have returned after they put their message in.
pub open spec fn accepted<T>(moves: Seq<Move<T>>) -> nat
    decreases moves.len(),
{
    if moves.len() == 0 {
        0
    } else {
        let v = run(ChannelView::fresh(), moves.drop_last());
        accepted(moves.drop_last()) + match moves.last() {
            Move::End(id) => if v.ops[id] is Send && has_given(v.ops[id]) {
                1nat
            } else {
                0
            },
            Move::Send(msg) => if v.receivers > 0 {
                1
            } else {
                0
            },
            _ => 0,
        }
    }
}

/// Whether an operation is a send that has put its message in.
pub open spec fn has_given<T>(act: Act<T>) -> bool {
    match act {
        Act::Send(SendState::LoadReceivers { msg }) => false,
        Act::Send(SendState::Enqueue { msg }) => false,
        Act::Send(SendState::Done { result }) => result is Ok,
        Act::Send(_) => true,
        _ => false,
    }
}

/// The receives under way that carry a message.
pub open spec fn carriers<T>(v: ChannelView<T>) -> Set<int> {
    Set::new(|i: int| v.ops.contains_key(i) && carries(v.ops[i]) is Some)
}

/// The receives under way that carry the message `msg`.
pub open spec fn carriers_of<T>(v: ChannelView<T>, msg: T) -> Set<int> {
    Set::new(|i: int| v.ops.contains_key(i) && carries(v.ops[i]) == Some(msg))
}

/// The sends under way that have put their message in.
pub open spec fn givers<T>(v: ChannelView<T>) -> Set<int> {
    Set::new(|i: int| v.ops.contains_key(i) && has_given(v.ops[i]))
}

/// The operation that a move is about.
spec fn op_of<T>(m: Move<T>) -> int {
    match m {
        Move::BeginSend(id, msg) => id,
        Move::BeginRecv(id, deadline) => id,
        Move::BeginTryRecv(id) => id,
        Move::BeginClose(id) => id,
        Move::Step(id, now) => id,
        Move::End(id) => id,
        _ => 0,
    }
}

/// Nothing but operation `op_of(m)` goes elsewhere by the move `m`.
proof fn lemma_one_moves<T>(v: ChannelView<T>, m: Move<T>)
    requires
        v.admits(m),
    ensures
        forall|i: int|
            i != op_of(m) || m is Send || m is CloseSender || m is Recv || m is TryRecv || m
                is CloneSender || m is CloneReceiver || m is CloseReceiver ==> (
            #[trigger] v.after(m).ops.contains_key(i) == v.ops.contains_key(i)) && (
            v.ops.contains_key(i) ==> v.after(m).ops[i] == v.ops[i]),
{
    match m {
        Move::Step(id, now) => lemma_next(v, id, now),
        Move::Send(_) => lemma_whole(v, m),
        Move::CloseSender => lemma_whole(v, m),
        Move::Recv(_) => lemma_whole(v, m),
        Move::TryRecv => lemma_whole(v, m),
        _ => {},
    }
}

/// Every message that was taken from the queue was returned by a receive or is carried by one
/// under way, and every message that was put in is that of a send that returned with success
/// or of one under way: in every state, whatever is done, with time limits and without, and
/// while handles are made and given up.
pub proof fn law_messages_are_accounted_for<T>(moves: Seq<Move<T>>)
    requires
        possible(ChannelView::fresh(), moves),
    ensures
        ({
            let v = run(ChannelView::fresh(), moves);
            &&& carriers(v).finite()
            &&& v.received.len() == returned(moves).len() + carriers(v).len()
            &&& givers(v).finite()
            &&& v.sent.len() == accepted(moves) + givers(v).len()
        }),
    decreases moves.len(),
{
    let v2 = run(ChannelView::fresh(), moves);
    if moves.len() == 0 {
        assert(carriers(v2) =~= Set::empty());
        assert(givers(v2) =~= Set::empty());
    } else {
        let m = moves.last();
        let v = run(ChannelView::fresh(), moves.drop_last());
        law_messages_are_accounted_for(moves.drop_last());
        lemma_one_moves(v, m);
        lemma_differ_in_one(carriers(v), carriers(v2), op_of(m));
        lemma_differ_in_one(givers(v), givers(v2), op_of(m));
        match m {
            Move::Step(id, now) => lemma_next(v, id, now),
            Move::Send(_) => lemma_whole(v, m),
            Move::CloseSender => lemma_whole(v, m),
            Move::Recv(_) => lemma_whole(v, m),
            Move::TryRecv => lemma_whole(v, m),
            _ => {},
        }
    }
}

/// Each message is returned or carried as often as it was taken from the queue, in every state
/// and whatever is done.
pub proof fn law_messages_are_returned_as_taken<T>(moves: Seq<Move<T>>, msg: T)
    requires
        possible(ChannelView::fresh(), moves),
    ensures
        ({
            let v = run(ChannelView::fresh(), moves);
            &&& carriers_of(v, msg).finite()
            &&& count(v.received, msg) == count(returned(moves), msg) + carriers_of(v, msg).len()
        }),
    decreases moves.len(),
{
    let v2 = run(ChannelView::fresh(), moves);
    if moves.len() == 0 {
        assert(carriers_of(v2, msg) =~= Set::empty());
    } else {
        let m = moves.last();
        let before = returned(moves.drop_last());
        let v = run(ChannelView::fresh(), moves.drop_last());
        law_messages_are_returned_as_taken(moves.drop_last(), msg);
        lemma_one_moves(v, m);
        lemma_differ_in_one(carriers_of(v, msg), carriers_of(v2, msg), op_of(m));
        match m {
            Move::Step(id, now) => {
                lemma_next(v, id, now);
                if v.items.len() > 0 {
                    lemma_count_push(v.received, v.items.first(), msg);
                }
            },
            Move::End(id) => {
                if let Some(x) = carries(v.ops[id]) {
                    lemma_count_push(before, x, msg);
                }
            },
            Move::Send(_) => lemma_whole(v, m),
            Move::CloseSender => lemma_whole(v, m),
            Move::Recv(_) => {
                lemma_whole(v, m);
                lemma_returned_front(v, before, msg);
            },
            Move::TryRecv => {
                lemma_whole(v, m);
                lemma_returned_front(v, before, msg);
            },
            _ => {},
        }
    }
}

/// A call that runs to its end returns what it takes.
proof fn lemma_returned_front<T>(v: ChannelView<T>, before: Seq<T>, msg: T)
    ensures
        count(v.dequeue().received, msg) + count(before, msg) == count(v.received, msg) + count(
            before + at_most_one(v.front()),
            msg,
        ),
{
    if v.items.len() > 0 {
        lemma_count_push(v.received, v.items.first(), msg);
        lemma_count_push(before, v.items.first(), msg);
        assert(before + at_most_one(v.front()) =~= before.push(v.items.first()));
    } else {
        assert(before + at_most_one(v.front()) =~= before);
    }
}

/// When all calls have returned and the queue is drained, as after a disconnect was reported,
/// the receives have returned the messages sent: as many as there were sends that succeeded,
/// and each as often as it was sent.
pub proof fn law_all_messages_are_received_at_the_end<T>(moves: Seq<Move<T>>)
    requires
        possible(ChannelView::fresh(), moves),
        run(ChannelView::fresh(), moves).ops == Map::<int, Act<T>>::empty(),
        run(ChannelView::fresh(), moves).items.len() == 0,
    ensures
        returned(moves).len() == accepted(moves),
        returned(moves).to_multiset() == run(ChannelView::fresh(), moves).sent.to_multiset(),
{
    let v = run(ChannelView::fresh(), moves);
    law_messages_are_accounted_for(moves);
    lemma_conserved(moves);
    assert(v.received + v.items =~= v.received);
    assert(carriers(v) =~= Set::empty());
    assert(givers(v) =~= Set::empty());
    assert forall|msg: T|
        #![trigger returned(moves).to_multiset().count(msg)]
        returned(moves).to_multiset().count(msg) == v.sent.to_multiset().count(msg) by {
        law_messages_are_returned_as_taken(moves, msg);
        assert(carriers_of(v, msg) =~= Set::empty());
    }
    assert(returned(moves).to_multiset() =~= v.sent.to_multiset());
}

/// Whether `m` is a step of operation `id` at the time `limit` or later.
pub open spec fn late<T>(m: Move<T>, id: int, limit: u64) -> bool {
    m matches Move::Step(i, now) && i == id && now >= limit
}

/// A receive reports that its time limit was reached only if it had one and made a step when it
/// was reached, whatever else is done meanwhile.
pub proof fn law_timeout_means_the_time_was_up<T>(
    start: ChannelView<T>,
    moves: Seq<Move<T>>,
    begin: int,
    id: int,
    d: Option<u64>,
)
    requires
        possible(start, moves),
        0 <= begin < moves.len(),
        moves[begin] == Move::<T>::BeginRecv(id, d),
        forall|k: int| begin < k < moves.len() ==> #[trigger] moves[k] != Move::<T>::End(id),
    ensures
        run(start, moves).ops.contains_key(id),
        run(start, moves).ops[id] matches Act::Recv(limit, s) && limit == d && (s is Clock
            ==> d is Some),
        reports_timeout(run(start, moves).ops[id]) ==> d is Some && exists|k: int|
            begin < k < moves.len() && late(#[trigger] moves[k], id, d->0),
    decreases moves.len(),
{
    let fewer = moves.drop_last();
    let m = moves.last();
    let v = run(start, fewer);
    let v2 = run(start, moves);
    assert(moves[moves.len() - 1] == m);
    if begin < moves.len() - 1 {
        assert forall|k: int| begin < k < fewer.len() implies #[trigger] fewer[k] != Move::<T>::End(
            id,
        ) by {
            assert(moves[k] == fewer[k]);
        }
        assert(fewer[begin] == moves[begin]);
        law_timeout_means_the_time_was_up(start, fewer, begin, id, d);
        lemma_stays(v, m, id);
        if reports_timeout(v2.ops[id]) {
            if reports_timeout(v.ops[id]) {
                let k = choose|k: int|
                    begin < k < fewer.len() && late(#[trigger] fewer[k], id, d->0);
                assert(late(moves[k], id, d->0));
            } else {
                assert(late(moves[moves.len() - 1], id, d->0));
            }
        }
    }
}

/// Whether move `k` is a step of operation `id`.
pub open spec fn steps_at<T>(moves: Seq<Move<T>>, k: int, id: int) -> bool {
    0 <= k < moves.len() && (moves[k] matches Move::Step(i, now) && i == id)
}

/// Whether operation `id` has not woken since move `k`.
pub open spec fn awake_since<T>(
    start: ChannelView<T>,
    moves: Seq<Move<T>>,
    k: int,
    id: int,
) -> bool {
    forall|l: int|
        k < l && #[trigger] steps_at(moves, l, id) ==> !(run(
            start,
            moves.take(l),
        ).ops[id] matches Act::Recv(_, RecvState::Park { .. }))
}

/// The moves before the last one are the same with and without it.
proof fn lemma_earlier<T>(moves: Seq<Move<T>>, k: int, id: int)
    requires
        moves.len() > 0,
        steps_at(moves.drop_last(), k, id),
    ensures
        steps_at(moves, k, id),
        moves.take(k) == moves.drop_last().take(k),
{
    assert(moves.take(k) =~= moves.drop_last().take(k));
}

/// An operation that had not woken since move `k` still has not after a move that is no waking
/// of it.
proof fn lemma_still_awake<T>(start: ChannelView<T>, moves: Seq<Move<T>>, k: int, id: int)
    requires
        moves.len() > 0,
        awake_since(start, moves.drop_last(), k, id),
        steps_at(moves, moves.len() - 1, id) ==> !(run(
            start,
            moves.drop_last(),
        ).ops[id] matches Act::Recv(_, RecvState::Park { .. })),
    ensures
        awake_since(start, moves, k, id),
{
    assert forall|l: int| k < l && #[trigger] steps_at(moves, l, id) implies !(run(
        start,
        moves.take(l),
    ).ops[id] matches Act::Recv(_, RecvState::Park { .. })) by {
        if l < moves.len() - 1 {
            assert(steps_at(moves.drop_last(), l, id));
            assert(moves.take(l) =~= moves.drop_last().take(l));
        } else {
            assert(moves.take(l) =~= moves.drop_last());
        }
    }
}

/// What a receive has seen before it stands where it stands.
proof fn lemma_course_of_receive<T>(
    start: ChannelView<T>,
    moves: Seq<Move<T>>,
    begin: int,
    id: int,
    d: Option<u64>,
)
    requires
        possible(start, moves),
        0 <= begin < moves.len(),
        moves[begin] == Move::<T>::BeginRecv(id, d),
        forall|k: int| begin < k < moves.len() ==> #[trigger] moves[k] != Move::<T>::End(id),
    ensures
        run(start, moves).ops.contains_key(id),
        run(start, moves).ops[id] is Recv,
        run(start, moves).ops[id]->Recv_0 == d,
        ({
            let s = run(start, moves).ops[id]->Recv_1;
            &&& s is DequeueLast || s is PollLast ==> run(start, moves).senders == 0
            &&& recv_verdict(s) matches Some(Ok(msg)) ==> exists|k: int|
                begin < k && #[trigger] steps_at(moves, k, id) && run(
                    start,
                    moves.take(k),
                ).items.len() > 0 && run(start, moves.take(k)).items[0] == msg
            &&& recv_verdict(s) == Some(Err::<T, RecvTimeoutError>(RecvTimeoutError::Disconnected))
                ==> exists|k: int|
                begin < k && #[trigger] steps_at(moves, k, id) && run(
                    start,
                    moves.take(k),
                ).items.len() == 0 && run(start, moves.take(k)).senders == 0
            &&& s is PollSenders || s is LoadState || s is Clock || recv_verdict(s) == Some(
                Err::<T, RecvTimeoutError>(RecvTimeoutError::Timeout),
            ) ==> exists|k: int|
                begin < k && #[trigger] steps_at(moves, k, id) && run(
                    start,
                    moves.take(k),
                ).items.len() == 0 && awake_since(start, moves, k, id)
            &&& s is LoadState || s is Clock || recv_verdict(s) == Some(
                Err::<T, RecvTimeoutError>(RecvTimeoutError::Timeout),
            ) ==> exists|k: int|
                begin < k && #[trigger] steps_at(moves, k, id) && run(
                    start,
                    moves.take(k),
                ).senders > 0 && awake_since(start, moves, k, id)
        }),
    decreases moves.len(),
{
    let fewer = moves.drop_last();
    let m = moves.last();
    let v = run(start, fewer);
    let v2 = run(start, moves);
    let last = moves.len() - 1;
    assert(moves[last] == m);
    assert(moves.take(last) =~= fewer);
    if begin < last {
        assert forall|k: int| begin < k < fewer.len() implies #[trigger] fewer[k] != Move::<T>::End(
            id,
        ) by {
            assert(moves[k] == fewer[k]);
        }
        assert(fewer[begin] == moves[begin]);
        lemma_course_of_receive(start, fewer, begin, id, d);
        lemma_stays(v, m, id);
        let s = v.ops[id]->Recv_1;
        let mine = steps_at(moves, last, id);
        if mine {
            lemma_next(v, id, m->Step_1);
        } else {
            assert(v2.ops[id] == v.ops[id]);
            match m {
                Move::Step(i, now) => lemma_next(v, i, now),
                Move::Send(_) => lemma_whole(v, m),
                Move::CloseSender => lemma_whole(v, m),
                Move::Recv(_) => lemma_whole(v, m),
                Move::TryRecv => lemma_whole(v, m),
                _ => {},
            }
        }
        let s2 = v2.ops[id]->Recv_1;
        if let Some(Ok(msg)) = recv_verdict(s2) {
            if recv_verdict(s) == recv_verdict(s2) {
                let k = choose|k: int|
                    begin < k && #[trigger] steps_at(fewer, k, id) && run(
                        start,
                        fewer.take(k),
                    ).items.len() > 0 && run(start, fewer.take(k)).items[0] == msg;
                lemma_earlier(moves, k, id);
            } else {
                assert(steps_at(moves, last, id));
            }
        }
        if recv_verdict(s2) == Some(Err::<T, RecvTimeoutError>(RecvTimeoutError::Disconnected)) {
            if recv_verdict(s) == recv_verdict(s2) {
                let k = choose|k: int|
                    begin < k && #[trigger] steps_at(fewer, k, id) && run(
                        start,
                        fewer.take(k),
                    ).items.len() == 0 && run(start, fewer.take(k)).senders == 0;
                lemma_earlier(moves, k, id);
            } else {
                assert(steps_at(moves, last, id));
            }
        }
        let gives_up = recv_verdict(s2) == Some(
            Err::<T, RecvTimeoutError>(RecvTimeoutError::Timeout),
        );
        if s2 is PollSenders || s2 is LoadState || s2 is Clock || gives_up {
            if mine && s is Poll {
                assert(awake_since(start, moves, last, id));
                assert(steps_at(moves, last, id));
            } else {
                let k = choose|k: int|
                    begin < k && #[trigger] steps_at(fewer, k, id) && run(
                        start,
                        fewer.take(k),
                    ).items.len() == 0 && awake_since(start, fewer, k, id);
                lemma_earlier(moves, k, id);
                lemma_still_awake(start, moves, k, id);
            }
        }
        if s2 is LoadState || s2 is Clock || gives_up {
            if mine && s is PollSenders {
                assert(awake_since(start, moves, last, id));
                assert(steps_at(moves, last, id));
            } else {
                let k = choose|k: int|
                    begin < k && #[trigger] steps_at(fewer, k, id) && run(
                        start,
                        fewer.take(k),
                    ).senders > 0 && awake_since(start, fewer, k, id);
                lemma_earlier(moves, k, id);
                lemma_still_awake(start, moves, k, id);
            }
        }
    }
}

/// What a receive answers, over its whole run and whatever else is done meanwhile. A message is
/// one that was the oldest when the receive took it, and the only one that it took. Timeout means
/// that it had a time limit that was reached, and took nothing. Disconnected means that it found
/// the channel without a message and without a sender, and took nothing.
pub proof fn law_receive_answers<T>(
    start: ChannelView<T>,
    moves: Seq<Move<T>>,
    begin: int,
    id: int,
    d: Option<u64>,
    result: Result<T, RecvTimeoutError>,
)
    requires
        possible(start, moves),
        0 <= begin < moves.len(),
        moves[begin] == Move::<T>::BeginRecv(id, d),
        forall|k: int| begin < k < moves.len() ==> #[trigger] moves[k] != Move::<T>::End(id),
        run(start, moves).ops[id] == Act::Recv(d, RecvState::Done { result }),
    ensures
        result matches Ok(msg) ==> taken_by(start, moves, id, begin) == seq![msg],
        result is Err ==> taken_by(start, moves, id, begin).len() == 0,
        result matches Ok(msg) ==> exists|k: int|
            begin < k && #[trigger] steps_at(moves, k, id) && run(start, moves.take(k)).items.len()
                > 0 && run(start, moves.take(k)).items[0] == msg,
        result == Err::<T, RecvTimeoutError>(RecvTimeoutError::Disconnected) ==> exists|k: int|
            begin < k && #[trigger] steps_at(moves, k, id) && run(start, moves.take(k)).items.len()
                == 0 && run(start, moves.take(k)).senders == 0,
        result == Err::<T, RecvTimeoutError>(RecvTimeoutError::Timeout) ==> d is Some && exists|
            k: int,
        |
            begin < k < moves.len() && (#[trigger] moves[k] matches Move::Step(i, now) && i == id
                && now >= d->0),
{
    law_receive_takes_what_it_returns(start, moves, begin, id);
    lemma_course_of_receive(start, moves, begin, id, d);
    law_timeout_means_the_time_was_up(start, moves, begin, id, d);
    if result == Err::<T, RecvTimeoutError>(RecvTimeoutError::Timeout) {
        let k = choose|k: int| begin < k < moves.len() && late(#[trigger] moves[k], id, d->0);
        assert(moves[k] matches Move::Step(i, now) && i == id && now >= d->0);
    }
}

/// A receive gives up only on what it saw after it last woke: since then it has looked into the
/// queue and found nothing there, and has seen a sender.
pub proof fn law_receive_looks_before_it_gives_up<T>(
    start: ChannelView<T>,
    moves: Seq<Move<T>>,
    begin: int,
    id: int,
    d: Option<u64>,
)
    requires
        possible(start, moves),
        0 <= begin < moves.len(),
        moves[begin] == Move::<T>::BeginRecv(id, d),
        forall|k: int| begin < k < moves.len() ==> #[trigger] moves[k] != Move::<T>::End(id),
        match run(start, moves).ops[id] {
            Act::Recv(_, RecvState::Clock { waiter }) => true,
            Act::Recv(_, RecvState::Cancel { waiter, result }) => result == Err::<
                T,
                RecvTimeoutError,
            >(RecvTimeoutError::Timeout),
            Act::Recv(_, RecvState::PassOn { result }) => result == Err::<T, RecvTimeoutError>(
                RecvTimeoutError::Timeout,
            ),
            Act::Recv(_, RecvState::PassNotify { waiter, result }) => result == Err::<
                T,
                RecvTimeoutError,
            >(RecvTimeoutError::Timeout),
            Act::Recv(_, RecvState::PassUnpark { waiter, result }) => result == Err::<
                T,
                RecvTimeoutError,
            >(RecvTimeoutError::Timeout),
            Act::Recv(_, RecvState::Done { result }) => result == Err::<T, RecvTimeoutError>(
                RecvTimeoutError::Timeout,
            ),
            _ => false,
        },
    ensures
        exists|k: int|
            begin < k && #[trigger] steps_at(moves, k, id) && run(start, moves.take(k)).items.len()
                == 0 && awake_since(start, moves, k, id),
        exists|k: int|
            begin < k && #[trigger] steps_at(moves, k, id) && run(start, moves.take(k)).senders > 0
                && awake_since(start, moves, k, id),
{
    lemma_course_of_receive(start, moves, begin, id, d);
}

/// What a receive that is not to block has seen before it stands where it stands.
proof fn lemma_course_of_try_receive<T>(
    start: ChannelView<T>,
    moves: Seq<Move<T>>,
    begin: int,
    id: int,
)
    requires
        possible(start, moves),
        0 <= begin < moves.len(),
        moves[begin] == Move::<T>::BeginTryRecv(id),
        forall|k: int| begin < k < moves.len() ==> #[trigger] moves[k] != Move::<T>::End(id),
    ensures
        run(start, moves).ops.contains_key(id),
        run(start, moves).ops[id] is TryRecv,
        ({
            let s = run(start, moves).ops[id]->TryRecv_0;
            &&& s is DequeueLast ==> run(start, moves).senders == 0
            &&& s matches TryRecvState::Done { result: Ok(msg) } ==> exists|k: int|
                begin < k && #[trigger] steps_at(moves, k, id) && run(
                    start,
                    moves.take(k),
                ).items.len() > 0 && run(start, moves.take(k)).items[0] == msg
            &&& s == (TryRecvState::<T>::Done { result: Err(TryRecvError::Disconnected) })
                ==> exists|k: int|
                begin < k && #[trigger] steps_at(moves, k, id) && run(
                    start,
                    moves.take(k),
                ).items.len() == 0 && run(start, moves.take(k)).senders == 0
            &&& s is LoadSenders || s == (TryRecvState::<T>::Done {
                result: Err(TryRecvError::Empty),
            }) ==> exists|k: int|
                begin < k && #[trigger] steps_at(moves, k, id) && run(
                    start,
                    moves.take(k),
                ).items.len() == 0
            &&& s == (TryRecvState::<T>::Done { result: Err(TryRecvError::Empty) }) ==> exists|
                k: int,
            |
                begin < k && #[trigger] steps_at(moves, k, id) && run(
                    start,
                    moves.take(k),
                ).senders > 0
        }),
    decreases moves.len(),
{
    let fewer = moves.drop_last();
    let m = moves.last();
    let v = run(start, fewer);
    let v2 = run(start, moves);
    let last = moves.len() - 1;
    assert(moves[last] == m);
    assert(moves.take(last) =~= fewer);
    if begin < last {
        assert forall|k: int| begin < k < fewer.len() implies #[trigger] fewer[k] != Move::<T>::End(
            id,
        ) by {
            assert(moves[k] == fewer[k]);
        }
        assert(fewer[begin] == moves[begin]);
        lemma_course_of_try_receive(start, fewer, begin, id);
        lemma_stays(v, m, id);
        if steps_at(moves, last, id) {
            lemma_next(v, id, m->Step_1);
        } else {
            match m {
                Move::Step(i, now) => lemma_next(v, i, now),
                Move::Send(_) => lemma_whole(v, m),
                Move::CloseSender => lemma_whole(v, m),
                Move::Recv(_) => lemma_whole(v, m),
                Move::TryRecv => lemma_whole(v, m),
                _ => {},
            }
        }
        assert forall|k: int| #[trigger] steps_at(fewer, k, id) implies steps_at(moves, k, id)
            && moves.take(k) == fewer.take(k) by {
            lemma_earlier(moves, k, id);
        }
    }
}

/// What a receive that is not to block answers, over its whole run and whatever else is done
/// meanwhile. A message is one that was the oldest when the receive took it, and the only one
/// that it took. Empty means that it found no message and saw a sender, Disconnected that it
/// found the channel without a message and without a sender; then it took nothing.
pub proof fn law_try_receive_answers<T>(
    start: ChannelView<T>,
    moves: Seq<Move<T>>,
    begin: int,
    id: int,
    result: Result<T, TryRecvError>,
)
    requires
        possible(start, moves),
        0 <= begin < moves.len(),
        moves[begin] == Move::<T>::BeginTryRecv(id),
        forall|k: int| begin < k < moves.len() ==> #[trigger] moves[k] != Move::<T>::End(id),
        run(start, moves).ops[id] == Act::<T>::TryRecv(TryRecvState::Done { result }),
    ensures
        result matches Ok(msg) ==> taken_by(start, moves, id, begin) == seq![msg],
        result is Err ==> taken_by(start, moves, id, begin).len() == 0,
        result matches Ok(msg) ==> exists|k: int|
            begin < k && #[trigger] steps_at(moves, k, id) && run(start, moves.take(k)).items.len()
                > 0 && run(start, moves.take(k)).items[0] == msg,
        result == Err::<T, TryRecvError>(TryRecvError::Disconnected) ==> exists|k: int|
            begin < k && #[trigger] steps_at(moves, k, id) && run(start, moves.take(k)).items.len()
                == 0 && run(start, moves.take(k)).senders == 0,
        result == Err::<T, TryRecvError>(TryRecvError::Empty) ==> exists|k: int|
            begin < k && #[trigger] steps_at(moves, k, id) && run(start, moves.take(k)).items.len()
                == 0,
        result == Err::<T, TryRecvError>(TryRecvError::Empty) ==> exists|k: int|
            begin < k && #[trigger] steps_at(moves, k, id) && run(start, moves.take(k)).senders > 0,
{
    law_receive_takes_what_it_returns(start, moves, begin, id);
    lemma_course_of_try_receive(start, moves, begin, id);
}

/// What a send has seen before it stands where it stands.
proof fn lemma_course_of_send<T>(
    start: ChannelView<T>,
    moves: Seq<Move<T>>,
    begin: int,
    id: int,
    msg: T,
)
    requires
        possible(start, moves),
        0 <= begin < moves.len(),
        moves[begin] == Move::BeginSend(id, msg),
        forall|k: int| begin < k < moves.len() ==> #[trigger] moves[k] != Move::<T>::End(id),
    ensures
        run(start, moves).ops.contains_key(id),
        run(start, moves).ops[id] is Send,
        ({
            let s = run(start, moves).ops[id]->Send_0;
            &&& s is LoadReceivers || s matches SendState::Done { result: Err(_) } || exists|k: int|
                begin < k && #[trigger] steps_at(moves, k, id) && run(
                    start,
                    moves.take(k),
                ).receivers > 0
            &&& s matches SendState::Done { result: Err(_) } ==> exists|k: int|
                begin < k && #[trigger] steps_at(moves, k, id) && run(
                    start,
                    moves.take(k),
                ).receivers == 0
        }),
    decreases moves.len(),
{
    let fewer = moves.drop_last();
    let m = moves.last();
    let v = run(start, fewer);
    let v2 = run(start, moves);
    let last = moves.len() - 1;
    assert(moves[last] == m);
    assert(moves.take(last) =~= fewer);
    if begin < last {
        assert forall|k: int| begin < k < fewer.len() implies #[trigger] fewer[k] != Move::<T>::End(
            id,
        ) by {
            assert(moves[k] == fewer[k]);
        }
        assert(fewer[begin] == moves[begin]);
        lemma_course_of_send(start, fewer, begin, id, msg);
        lemma_stays(v, m, id);
        if steps_at(moves, last, id) {
            lemma_next(v, id, m->Step_1);
        }
        assert forall|k: int| #[trigger] steps_at(fewer, k, id) implies steps_at(moves, k, id)
            && moves.take(k) == fewer.take(k) by {
            lemma_earlier(moves, k, id);
        }
    }
}

/// What a send answers, over its whole run and whatever else is done meanwhile. If it succeeds
/// it saw a receiver and put its message into the queue, once. If it is refused it saw that no
/// receiver was left, put nothing in, and hands its own message back.
pub proof fn law_send_answers<T>(
    start: ChannelView<T>,
    moves: Seq<Move<T>>,
    begin: int,
    id: int,
    msg: T,
    result: Result<(), SendError<T>>,
)
    requires
        possible(start, moves),
        0 <= begin < moves.len(),
        moves[begin] == Move::BeginSend(id, msg),
        forall|k: int| begin < k < moves.len() ==> #[trigger] moves[k] != Move::<T>::End(id),
        run(start, moves).ops[id] == Act::Send(SendState::Done { result }),
    ensures
        result is Ok ==> given_by(start, moves, id, begin) == seq![msg],
        result is Ok ==> exists|k: int|
            begin < k && #[trigger] steps_at(moves, k, id) && run(start, moves.take(k)).receivers
                > 0,
        result is Err ==> result == Err::<(), SendError<T>>(SendError(msg)),
        result is Err ==> given_by(start, moves, id, begin).len() == 0,
        result is Err ==> exists|k: int|
            begin < k && #[trigger] steps_at(moves, k, id) && run(start, moves.take(k)).receivers
                == 0,
{
    law_send_gives_its_message_once(start, moves, begin, id, msg);
    lemma_course_of_send(start, moves, begin, id, msg);
}

} // verus!
