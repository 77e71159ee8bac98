//! What is true of a channel of [`crate::oneshot`] over any number of calls, whatever their
//! order.
//!
//! Each call of a function of [`crate::oneshot_channel::Channel`] that changes the channel is a
//! [`Move`], as its contract says. The laws here speak of all sequences of moves.
use vstd::prelude::*;

use crate::error::{RecvTimeoutError, SendError, TryRecvError};
use crate::oneshot_channel::{ChannelView, Fate, Received, ReceiverAct, SenderAct};
use crate::oneshot_protocol::{CloseState, RecvState, SendState, TryRecvState};

verus! {

/// One thing that is done to a channel.
pub enum Move<T> {
    /// The sender starts to send `.0`.
    BeginSend(T),
    /// The sender starts to close.
    BeginCloseSender,
    /// The receiver starts to receive, until the time `.0`.
    BeginRecv(Option<u64>),
    /// The receiver starts to receive without blocking.
    BeginTryRecv,
    /// The receiver starts to close.
    BeginCloseReceiver,
    /// The sender makes its next step.
    StepSender,
    /// The receiver makes its next step at the time `.0`.
    StepReceiver(u64),
    /// The sender returns.
    EndSender,
    /// The receiver returns.
    EndReceiver,
    /// The value `.0` is sent by a call that runs to its end.
    Send(T),
    /// The sender is closed by a call that runs to its end.
    CloseSender,
    /// A call that runs to its end receives, until the time `.0`.
    Recv(Option<u64>),
    /// A call that runs to its end receives without blocking.
    TryRecv,
    /// The receiver is closed by a call that runs to its end.
    CloseReceiver,
}

impl<T> ChannelView<T> {
    /// Whether `m` can be done to the channel.
    pub open spec fn admits(self, m: Move<T>) -> bool {
        match m {
            Move::BeginSend(msg) => self.sender is Idle,
            Move::BeginCloseSender => self.sender is Idle,
            Move::BeginRecv(deadline) => self.receiver is Idle,
            Move::BeginTryRecv => self.receiver is Idle,
            Move::BeginCloseReceiver => self.receiver is Idle,
            Move::StepSender => (self.sender is Send || self.sender is Close)
                && !self.sender_through(),
            Move::StepReceiver(now) => !(self.receiver is Idle) && !self.receiver_through(),
            Move::EndSender => (self.sender is Send || self.sender is Close)
                && self.sender_through(),
            Move::EndReceiver => self.receiver is Close && self.receiver_through(),
            Move::Send(msg) => self.sender is Idle,
            Move::CloseSender => self.sender is Idle,
            Move::Recv(deadline) => self.receiver is Idle && (deadline is None
                ==> self.flags.sender_closed),
            Move::TryRecv => self.receiver is Idle,
            Move::CloseReceiver => self.receiver is Idle,
        }
    }

    /// The channel after `m` was done to it.
    pub open spec fn after(self, m: Move<T>) -> ChannelView<T> {
        match m {
            Move::BeginSend(msg) => ChannelView {
                sender: SenderAct::Send(SendState::Write { msg }),
                ..self
            },
            Move::BeginCloseSender => ChannelView {
                sender: SenderAct::Close(CloseState::Publish),
                ..self
            },
            Move::BeginRecv(deadline) => ChannelView {
                receiver: ReceiverAct::Recv(deadline, RecvState::StoreThread),
                ..self
            },
            Move::BeginTryRecv => ChannelView {
                receiver: ReceiverAct::TryRecv(TryRecvState::Load),
                ..self
            },
            Move::BeginCloseReceiver => ChannelView {
                receiver: ReceiverAct::Close(Received::Nothing, CloseState::Publish),
                ..self
            },
            Move::StepSender => self.next_sender(),
            Move::StepReceiver(now) => self.next_receiver(now),
            Move::EndSender => ChannelView { sender: SenderAct::Gone, ..self },
            Move::EndReceiver => ChannelView { receiver: ReceiverAct::Gone, ..self },
            Move::Send(msg) => self.after_send(msg),
            Move::CloseSender => self.after_close_sender(),
            Move::Recv(deadline) => self.after_recv(),
            Move::TryRecv => self.after_try_recv(),
            Move::CloseReceiver => self.after_close_receiver(),
        }
    }

    /// Whether `m` can be done to the channel and makes it `to`.
    pub open spec fn moves_to(self, m: Move<T>, to: ChannelView<T>) -> bool {
        self.admits(m) && to == self.after(m)
    }
}

/// The channel `start` after `moves`.
pub open spec fn run<T>(start: ChannelView<T>, moves: Seq<Move<T>>) -> ChannelView<T>
    decreases moves.len(),
{
    if moves.len() == 0 {
        start
    } else {
        run(start, moves.drop_last()).after(moves.last())
    }
}

/// Whether `moves` can be done to the channel `start`, one after the other.
pub open spec fn possible<T>(start: ChannelView<T>, moves: Seq<Move<T>>) -> bool
    decreases moves.len(),
{
    moves.len() > 0 ==> possible(start, moves.drop_last()) && run(
        start,
        moves.drop_last(),
    ).admits(moves.last())
}

/// What a receive has decided to return.
pub open spec fn verdict<T>(act: ReceiverAct<T>) -> Option<Result<T, RecvTimeoutError>> {
    match act {
        ReceiverAct::Recv(d, RecvState::Done { result }) => Some(result),
        ReceiverAct::Close(Received::Waited(result), s) => Some(result),
        _ => None,
    }
}

/// Whether `m` is a step of the receiver at the time `limit` or later.
pub open spec fn late<T>(m: Move<T>, limit: u64) -> bool {
    m matches Move::StepReceiver(now) && now >= limit
}

/// A receive reports that its time limit was reached only if it had one and made a step when it
/// was reached, whatever else is done meanwhile.
pub proof fn law_timeout_means_the_time_was_up<T>(
    start: ChannelView<T>,
    moves: Seq<Move<T>>,
    begin: int,
    d: Option<u64>,
)
    requires
        possible(start, moves),
        0 <= begin < moves.len(),
        moves[begin] == Move::<T>::BeginRecv(d),
    ensures
        !(run(start, moves).receiver is Idle),
        run(start, moves).receiver matches ReceiverAct::Recv(limit, s) ==> limit == d && (s is Clock
            ==> d is Some),
        verdict(run(start, moves).receiver) == Some(
            Err::<T, RecvTimeoutError>(RecvTimeoutError::Timeout),
        ) ==> d is Some && exists|k: int|
            begin < k < moves.len() && late(#[trigger] moves[k], d->0),
    decreases moves.len(),
{
    let fewer = moves.drop_last();
    let m = moves.last();
    let v = run(start, fewer);
    let v2 = run(start, moves);
    let timeout = Some(Err::<T, RecvTimeoutError>(RecvTimeoutError::Timeout));
    assert(moves[moves.len() - 1] == m);
    if begin < moves.len() - 1 {
        assert(fewer[begin] == moves[begin]);
        law_timeout_means_the_time_was_up(start, fewer, begin, d);
        if verdict(v2.receiver) == timeout {
            if verdict(v.receiver) == timeout {
                let k = choose|k: int| begin < k < fewer.len() && late(#[trigger] fewer[k], d->0);
                assert(late(moves[k], d->0));
            } else {
                assert(late(moves[moves.len() - 1], d->0));
            }
        }
    }
}

/// A channel is in order in every state, whatever was done to it.
pub proof fn law_every_state_is_in_order<T>(moves: Seq<Move<T>>)
    requires
        possible(ChannelView::fresh(), moves),
    ensures
        run(ChannelView::fresh(), moves).inv(),
    decreases moves.len(),
{
    if moves.len() == 0 {
        ChannelView::<T>::law_new_channel_is_unused();
    } else {
        law_every_state_is_in_order(moves.drop_last());
        let v = run(ChannelView::fresh(), moves.drop_last());
        v.lemma_sender_step();
        if let Move::StepReceiver(now) = moves.last() {
            v.lemma_receiver_step(now);
        }
    }
}

/// Whether `m` starts or does a send of `msg`.
pub open spec fn sends<T>(m: Move<T>, msg: T) -> bool {
    m == Move::BeginSend(msg) || m == Move::Send(msg)
}

/// Whether `m` uses the sender up without sending.
pub open spec fn closes_sender<T>(m: Move<T>) -> bool {
    m is BeginCloseSender || m is CloseSender
}

/// Whether `m` uses the receiver up.
pub open spec fn uses_receiver<T>(m: Move<T>) -> bool {
    m is BeginRecv || m is BeginTryRecv || m is BeginCloseReceiver || m is Recv || m is TryRecv
        || m is CloseReceiver
}

/// What was done to the sender so far shows in the channel.
proof fn lemma_sender_story<T>(moves: Seq<Move<T>>)
    requires
        possible(ChannelView::fresh(), moves),
    ensures
        ({
            let v = run(ChannelView::fresh(), moves);
            &&& v.written matches Some(msg) ==> exists|k: int|
                0 <= k < moves.len() && sends(#[trigger] moves[k], msg)
            &&& v.sender matches SenderAct::Send(SendState::Write { msg }) ==> exists|k: int|
                0 <= k < moves.len() && sends(#[trigger] moves[k], msg)
            &&& v.sender is Idle ==> forall|k: int|
                0 <= k < moves.len() ==> !(#[trigger] moves[k] is BeginSend || moves[k] is Send
                    || closes_sender(moves[k]))
            &&& v.sender is Close || (v.flags.sender_closed && !v.flags.sent) ==> {
                &&& exists|k: int| 0 <= k < moves.len() && closes_sender(#[trigger] moves[k])
                &&& forall|k: int|
                    0 <= k < moves.len() ==> !(#[trigger] moves[k] is BeginSend || moves[k] is Send)
            }
            &&& v.flags.receiver_closed || !(v.receiver is Idle) ==> exists|k: int|
                0 <= k < moves.len() && uses_receiver(#[trigger] moves[k])
        }),
    decreases moves.len(),
{
    if moves.len() == 0 {
        ChannelView::<T>::law_new_channel_is_unused();
    } else {
        let fewer = moves.drop_last();
        let m = moves.last();
        lemma_sender_story(fewer);
        law_every_state_is_in_order(fewer);
        law_every_state_is_in_order(moves);
        let v = run(ChannelView::fresh(), fewer);
        let v2 = run(ChannelView::fresh(), moves);
        assert(moves[moves.len() - 1] == m);
        assert forall|k: int| 0 <= k < fewer.len() implies #[trigger] fewer[k] == moves[k] by {}
        if let Some(msg) = v2.written {
            if v.written == v2.written {
                let k = choose|k: int| 0 <= k < fewer.len() && sends(#[trigger] fewer[k], msg);
                assert(sends(moves[k], msg));
            } else if m is StepSender {
                let k = choose|k: int| 0 <= k < fewer.len() && sends(#[trigger] fewer[k], msg);
                assert(sends(moves[k], msg));
            }
        }
        if let SenderAct::Send(SendState::Write { msg }) = v2.sender {
            if v.sender == v2.sender {
                let k = choose|k: int| 0 <= k < fewer.len() && sends(#[trigger] fewer[k], msg);
                assert(sends(moves[k], msg));
            }
        }
        if v2.sender is Close || (v2.flags.sender_closed && !v2.flags.sent) {
            if !(v.sender is Idle) {
                assert(v.sender is Close || (v.flags.sender_closed && !v.flags.sent));
                let k = choose|k: int| 0 <= k < fewer.len() && closes_sender(#[trigger] fewer[k]);
                assert(closes_sender(moves[k]));
                assert forall|k: int| 0 <= k < moves.len() implies !(#[trigger] moves[k]
                    is BeginSend || moves[k] is Send) by {
                    if k < fewer.len() {
                        assert(fewer[k] == moves[k]);
                    }
                }
            } else {
                assert(closes_sender(moves[moves.len() - 1]));
                assert forall|k: int| 0 <= k < moves.len() implies !(#[trigger] moves[k]
                    is BeginSend || moves[k] is Send) by {
                    if k < fewer.len() {
                        assert(fewer[k] == moves[k]);
                    }
                }
            }
        }
        if v2.sender is Idle {
            assert forall|k: int| 0 <= k < moves.len() implies !(#[trigger] moves[k] is BeginSend
                || moves[k] is Send || closes_sender(moves[k])) by {
                if k < fewer.len() {
                    assert(fewer[k] == moves[k]);
                }
            }
        }
        if v2.flags.receiver_closed || !(v2.receiver is Idle) {
            if v.flags.receiver_closed || !(v.receiver is Idle) {
                let k = choose|k: int| 0 <= k < fewer.len() && uses_receiver(#[trigger] fewer[k]);
                assert(uses_receiver(moves[k]));
            } else {
                assert(uses_receiver(moves[moves.len() - 1]));
            }
        }
    }
}

/// What a receive answers, over its whole run and whatever else is done meanwhile: a value is one
/// that the sender was called to send, and the disconnect means that the sender was called to
/// close and never to send.
pub proof fn law_receive_answers<T>(moves: Seq<Move<T>>, received: Received<T>)
    requires
        possible(ChannelView::fresh(), moves),
        run(ChannelView::fresh(), moves).receiver == ReceiverAct::Close(received, CloseState::Done),
    ensures
        match received {
            Received::Waited(Ok(msg)) => exists|k: int|
                0 <= k < moves.len() && (#[trigger] moves[k] == Move::BeginSend(msg) || moves[k]
                    == Move::Send(msg)),
            Received::Tried(Ok(msg)) => exists|k: int|
                0 <= k < moves.len() && (#[trigger] moves[k] == Move::BeginSend(msg) || moves[k]
                    == Move::Send(msg)),
            Received::Waited(Err(RecvTimeoutError::Disconnected)) => {
                &&& exists|k: int|
                    0 <= k < moves.len() && (#[trigger] moves[k] is BeginCloseSender || moves[k]
                        is CloseSender)
                &&& forall|k: int|
                    0 <= k < moves.len() ==> !(#[trigger] moves[k] is BeginSend || moves[k] is Send)
            },
            Received::Tried(Err(TryRecvError::Disconnected)) => {
                &&& exists|k: int|
                    0 <= k < moves.len() && (#[trigger] moves[k] is BeginCloseSender || moves[k]
                        is CloseSender)
                &&& forall|k: int|
                    0 <= k < moves.len() ==> !(#[trigger] moves[k] is BeginSend || moves[k] is Send)
            },
            _ => true,
        },
{
    law_every_state_is_in_order(moves);
    lemma_sender_story(moves);
    let v = run(ChannelView::fresh(), moves);
    if let Received::Waited(Ok(msg)) = received {
        v.law_received_value_was_sent(msg);
        let k = choose|k: int| 0 <= k < moves.len() && sends(#[trigger] moves[k], msg);
        assert(moves[k] == Move::BeginSend(msg) || moves[k] == Move::Send(msg));
    }
    if let Received::Tried(Ok(msg)) = received {
        v.law_received_value_was_sent(msg);
        let k = choose|k: int| 0 <= k < moves.len() && sends(#[trigger] moves[k], msg);
        assert(moves[k] == Move::BeginSend(msg) || moves[k] == Move::Send(msg));
    }
    if received == Received::Waited(Err::<T, RecvTimeoutError>(RecvTimeoutError::Disconnected))
        || received == Received::Tried(Err::<T, TryRecvError>(TryRecvError::Disconnected)) {
        v.law_disconnect_means_nothing_was_sent();
        let k = choose|k: int| 0 <= k < moves.len() && closes_sender(#[trigger] moves[k]);
        assert(moves[k] is BeginCloseSender || moves[k] is CloseSender);
    }
}

/// What a send answers, over its whole run and whatever else is done meanwhile: if it is refused
/// it hands back a value that the sender was called to send, the receiver was used up before and
/// did not get it; if it succeeds the value is in the channel until the receiver takes or drops
/// it.
pub proof fn law_send_answers<T>(moves: Seq<Move<T>>, result: Result<(), SendError<T>>)
    requires
        possible(ChannelView::fresh(), moves),
        run(ChannelView::fresh(), moves).sender == SenderAct::Send(SendState::Done { result }),
    ensures
        result matches Err(SendError(msg)) ==> exists|k: int|
            0 <= k < moves.len() && (#[trigger] moves[k] == Move::BeginSend(msg) || moves[k]
                == Move::Send(msg)),
        result is Err ==> exists|k: int|
            0 <= k < moves.len() && uses_receiver(#[trigger] moves[k]),
        result is Err ==> run(ChannelView::fresh(), moves).data is None && run(
            ChannelView::fresh(),
            moves,
        ).fate == Some(Fate::Returned),
        result is Ok ==> run(ChannelView::fresh(), moves).written is Some && run(
            ChannelView::fresh(),
            moves,
        ).fate != Some(Fate::Returned),
        result is Ok && run(ChannelView::fresh(), moves).fate is None ==> run(
            ChannelView::fresh(),
            moves,
        ).data == run(ChannelView::fresh(), moves).written,
{
    law_every_state_is_in_order(moves);
    lemma_sender_story(moves);
    let v = run(ChannelView::fresh(), moves);
    if let Err(SendError(msg)) = result {
        v.law_refused_value_is_handed_back(msg);
        let k = choose|k: int| 0 <= k < moves.len() && sends(#[trigger] moves[k], msg);
        assert(moves[k] == Move::BeginSend(msg) || moves[k] == Move::Send(msg));
    }
}

/// Whether the receiver has not woken since move `k`.
pub open spec fn awake_since<T>(start: ChannelView<T>, moves: Seq<Move<T>>, k: int) -> bool {
    forall|l: int|
        k < l < moves.len() && (#[trigger] moves[l] is StepReceiver) ==> !(run(
            start,
            moves.take(l),
        ).receiver matches ReceiverAct::Recv(_, RecvState::Park))
}

/// A receive gives up only on what it saw after it last woke: since then it has looked at the
/// flags, and the sender had neither sent nor closed.
pub proof fn law_receive_looks_before_it_gives_up<T>(
    start: ChannelView<T>,
    moves: Seq<Move<T>>,
    begin: int,
    d: Option<u64>,
)
    requires
        possible(start, moves),
        0 <= begin < moves.len(),
        moves[begin] == Move::<T>::BeginRecv(d),
        match run(start, moves).receiver {
            ReceiverAct::Recv(_, RecvState::Clock) => true,
            ReceiverAct::Recv(_, RecvState::Done { result }) => result == Err::<
                T,
                RecvTimeoutError,
            >(RecvTimeoutError::Timeout),
            ReceiverAct::Close(received, _) => received == Received::Waited(
                Err::<T, RecvTimeoutError>(RecvTimeoutError::Timeout),
            ),
            _ => false,
        },
    ensures
        exists|k: int|
            begin < k < moves.len() && (#[trigger] moves[k] is StepReceiver) && !run(
                start,
                moves.take(k),
            ).flags.sent && !run(start, moves.take(k)).flags.sender_closed && awake_since(
                start,
                moves,
                k,
            ),
    decreases moves.len(),
{
    let fewer = moves.drop_last();
    let m = moves.last();
    let v = run(start, fewer);
    let last = moves.len() - 1;
    assert(moves[last] == m);
    assert(moves.take(last) =~= fewer);
    assert(begin < last);
    assert(fewer[begin] == moves[begin]);
    law_timeout_means_the_time_was_up(start, fewer, begin, d);
    if m is StepReceiver && (v.receiver matches ReceiverAct::Recv(_, s) && (s is SetWaiting || s
        is Load)) {
        assert(awake_since(start, moves, last));
        assert(moves[last] is StepReceiver);
    } else {
        law_receive_looks_before_it_gives_up(start, fewer, begin, d);
        let k = choose|k: int|
            begin < k < fewer.len() && (#[trigger] fewer[k] is StepReceiver) && !run(
                start,
                fewer.take(k),
            ).flags.sent && !run(start, fewer.take(k)).flags.sender_closed && awake_since(
                start,
                fewer,
                k,
            );
        assert(moves[k] == fewer[k]);
        assert(moves.take(k) =~= fewer.take(k));
        assert forall|l: int| k < l < moves.len() && (#[trigger] moves[l] is StepReceiver) implies !(
        run(start, moves.take(l)).receiver matches ReceiverAct::Recv(_, RecvState::Park)) by {
            if l < last {
                assert(fewer[l] == moves[l]);
                assert(moves.take(l) =~= fewer.take(l));
            }
        }
    }
}

} // verus!
