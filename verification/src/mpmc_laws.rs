//! What each step of an operation on a channel of [`crate::mpmc`] means for its caller.
use vstd::prelude::*;

use crate::error::{RecvTimeoutError, SendError, TryRecvError};
use crate::mpmc_model::{lemma_free_number, Act, ChannelView, Waiter};
use crate::mpmc_protocol::{CloseState, RecvState, SendState, TryRecvState, WaiterState};

verus! {

impl<T> ChannelView<T> {
    /// A new channel holds nothing, has one sender and one receiver, and nobody uses it.
    pub proof fn law_new_channel_is_unused()
        ensures
            ChannelView::<T>::fresh().items.len() == 0,
            ChannelView::<T>::fresh().sent.len() == 0,
            ChannelView::<T>::fresh().received.len() == 0,
            ChannelView::<T>::fresh().senders == 1,
            ChannelView::<T>::fresh().receivers == 1,
            ChannelView::<T>::fresh().waiters.len() == 0,
            ChannelView::<T>::fresh().registry.len() == 0,
            forall|id: int| !ChannelView::<T>::fresh().ops.contains_key(id),
    {
    }

    /// A receive that looks into the queue and finds messages takes the oldest one, once, and
    /// has it to return, whatever the time is and whoever is left.
    pub proof fn law_look_takes_the_oldest_message(self, id: int, now: u64)
        requires
            self.items.len() > 0,
            match self.ops[id] {
                Act::Recv(d, s) => s is Dequeue || s is DequeueLast || s is Poll || s is PollLast,
                Act::TryRecv(s) => s is Dequeue || s is DequeueLast,
                _ => false,
            },
        ensures
            seq![self.items[0]] + self.next(id, now).items == self.items,
            self.next(id, now).received == self.received + seq![self.items[0]],
            self.next(id, now).sent == self.sent,
            match (self.ops[id], self.next(id, now).ops[id]) {
                (Act::Recv(d, s), Act::Recv(d2, RecvState::Done { result })) => d2 == d && (s
                    is Dequeue || s is DequeueLast) && result == Ok::<T, RecvTimeoutError>(
                    self.items[0],
                ),
                (Act::Recv(d, s), Act::Recv(d2, RecvState::Cancel { waiter, result })) => d2 == d
                    && (s == (RecvState::<T, usize>::Poll { waiter }) || s == (RecvState::<
                    T,
                    usize,
                >::PollLast { waiter })) && result == Ok::<T, RecvTimeoutError>(self.items[0]),
                (Act::TryRecv(s), Act::TryRecv(TryRecvState::Done { result })) => result == Ok::<
                    T,
                    TryRecvError,
                >(self.items[0]),
                _ => false,
            },
    {
        assert(seq![self.items[0]] + self.next(id, now).items =~= self.items);
        assert(self.next(id, now).received =~= self.received + seq![self.items[0]]);
    }

    /// A receive that looks into an empty queue gets nothing. It goes on to see whether a sender
    /// is left, or reports the disconnect if it has seen that none is.
    pub proof fn law_look_into_an_empty_queue(self, id: int, now: u64)
        requires
            self.items.len() == 0,
        ensures
            match self.ops[id] {
                Act::Recv(d, s) => s is Dequeue || s is DequeueLast || s is Poll || s is PollLast,
                Act::TryRecv(s) => s is Dequeue || s is DequeueLast,
                _ => false,
            } ==> {
                &&& self.next(id, now).items.len() == 0
                &&& self.next(id, now).received == self.received
                &&& self.next(id, now).sent == self.sent
            },
            self.ops[id] matches Act::Recv(d, RecvState::Dequeue { told }) ==> self.next(
                id,
                now,
            ).ops[id] == Act::<T>::Recv(d, RecvState::LoadSenders),
            self.ops[id] matches Act::Recv(d, RecvState::Poll { waiter }) ==> self.next(
                id,
                now,
            ).ops[id] == Act::<T>::Recv(d, RecvState::PollSenders { waiter }),
            self.ops[id] matches Act::Recv(d, RecvState::DequeueLast) ==> self.next(
                id,
                now,
            ).ops[id] == Act::<T>::Recv(
                d,
                RecvState::Done { result: Err(RecvTimeoutError::Disconnected) },
            ),
            self.ops[id] matches Act::Recv(d, RecvState::PollLast { waiter }) ==> self.next(
                id,
                now,
            ).ops[id] == Act::<T>::Recv(
                d,
                RecvState::Cancel { waiter, result: Err(RecvTimeoutError::Disconnected) },
            ),
            self.ops[id] == Act::<T>::TryRecv(TryRecvState::Dequeue) ==> self.next(id, now).ops[id]
                == Act::<T>::TryRecv(TryRecvState::LoadSenders),
            self.ops[id] == Act::<T>::TryRecv(TryRecvState::DequeueLast) ==> self.next(
                id,
                now,
            ).ops[id] == Act::<T>::TryRecv(
                TryRecvState::Done { result: Err(TryRecvError::Disconnected) },
            ),
    {
    }

    /// A receive that found nothing looks once more if no sender is left. If one is left it
    /// prepares to block, or reports that the queue is empty if it is not to block.
    pub proof fn law_look_at_the_senders(self, id: int, now: u64)
        ensures
            self.ops[id] matches Act::Recv(d, RecvState::LoadSenders) ==> self.next(id, now).ops[id]
                == (if self.senders == 0 {
                Act::<T>::Recv(d, RecvState::DequeueLast)
            } else {
                Act::<T>::Recv(d, RecvState::Register)
            }),
            self.ops[id] matches Act::Recv(d, RecvState::PollSenders { waiter }) ==> self.next(
                id,
                now,
            ).ops[id] == (if self.senders == 0 {
                Act::<T>::Recv(d, RecvState::PollLast { waiter })
            } else {
                Act::<T>::Recv(d, RecvState::LoadState { waiter })
            }),
            self.ops[id] == Act::<T>::TryRecv(TryRecvState::LoadSenders) ==> self.next(
                id,
                now,
            ).ops[id] == (if self.senders == 0 {
                Act::<T>::TryRecv(TryRecvState::DequeueLast)
            } else {
                Act::<T>::TryRecv(TryRecvState::Done { result: Err(TryRecvError::Empty) })
            }),
    {
    }

    /// A receive that wakes looks into the queue, whatever the time is; and one that finds that
    /// it was told starts over and looks.
    pub proof fn law_woken_receive_looks_first(self, id: int, now: u64)
        ensures
            self.ops[id] matches Act::Recv(d, RecvState::Park { waiter }) ==> self.next(
                id,
                now,
            ).ops[id] == Act::<T>::Recv(d, RecvState::Poll { waiter }),
            self.ops[id] matches Act::Recv(d, RecvState::Push { waiter }) ==> self.next(
                id,
                now,
            ).ops[id] == Act::<T>::Recv(d, RecvState::Poll { waiter }),
            self.ops[id] matches Act::Recv(d, RecvState::Park { waiter }) ==> waiter
                < self.registry.len() ==> self.next(id, now).registry == self.registry.update(
                waiter as int,
                Some(
                    Waiter {
                        state: (self.registry[waiter as int]->0).state,
                        refs: (self.registry[waiter as int]->0).refs,
                        token: false,
                    },
                ),
            ),
            self.ops[id] matches Act::Recv(d, RecvState::LoadState { waiter }) ==> (
            self.registry[waiter as int]->0).state is Notified ==> self.next(id, now).ops[id]
                == Act::<T>::Recv(d, RecvState::Dequeue { told: true }),
    {
    }

    /// A receive that was not told blocks. One with a time limit first reads the clock, and gives
    /// up exactly if the limit is reached.
    pub proof fn law_time_limit_decides(self, id: int, now: u64)
        ensures
            self.ops[id] matches Act::Recv(d, RecvState::LoadState { waiter }) ==> (
            self.registry[waiter as int]->0).state is Waiting ==> self.next(id, now).ops[id] == (
            if d is Some {
                Act::<T>::Recv(d, RecvState::Clock { waiter })
            } else {
                Act::<T>::Recv(d, RecvState::Park { waiter })
            }),
            self.ops[id] matches Act::Recv(Some(deadline), RecvState::Clock { waiter }) ==> now
                < deadline ==> self.next(id, now).ops[id] == Act::<T>::Recv(
                Some(deadline),
                RecvState::Park { waiter },
            ),
            self.ops[id] matches Act::Recv(Some(deadline), RecvState::Clock { waiter }) ==> now
                >= deadline ==> self.next(id, now).ops[id] == Act::<T>::Recv(
                Some(deadline),
                RecvState::Cancel { waiter, result: Err(RecvTimeoutError::Timeout) },
            ),
    {
    }

    /// What a receive has decided to return it returns, whatever it does before.
    pub proof fn law_decision_is_kept(self, id: int, now: u64)
        ensures
            match self.ops[id] {
                Act::Recv(d, RecvState::Cancel { waiter, result }) => match self.next(
                    id,
                    now,
                ).ops[id] {
                    Act::Recv(d2, RecvState::PassOn { result: kept }) => d2 == d && kept == result,
                    Act::Recv(d2, RecvState::Done { result: kept }) => d2 == d && kept == result,
                    _ => false,
                },
                Act::Recv(d, RecvState::PassOn { result }) => match self.next(id, now).ops[id] {
                    Act::Recv(d2, RecvState::PassNotify { waiter, result: kept }) => d2 == d && kept
                        == result,
                    Act::Recv(d2, RecvState::Done { result: kept }) => d2 == d && kept == result,
                    _ => false,
                },
                Act::Recv(d, RecvState::PassNotify { waiter, result }) => match self.next(
                    id,
                    now,
                ).ops[id] {
                    Act::Recv(d2, RecvState::PassUnpark { waiter: w, result: kept }) => d2 == d && w
                        == waiter && kept == result,
                    Act::Recv(d2, RecvState::PassOn { result: kept }) => d2 == d && kept == result,
                    _ => false,
                },
                Act::Recv(d, RecvState::PassUnpark { waiter, result }) => self.next(id, now).ops[id]
                    == Act::<T>::Recv(d, RecvState::Done { result }),
                _ => true,
            },
    {
    }

    /// A send is refused exactly if no receiver is left when it looks. It then hands its message
    /// back and leaves the channel as it was; else it puts its message in at the end, once, and
    /// succeeds.
    pub proof fn law_send_is_taken_or_refused(self, id: int, now: u64)
        ensures
            self.ops[id] matches Act::Send(SendState::LoadReceivers { msg }) ==> {
                &&& self.next(id, now).items == self.items
                &&& self.next(id, now).sent == self.sent
                &&& self.next(id, now).ops[id] == (if self.receivers == 0 {
                    Act::Send(SendState::Done { result: Err(SendError(msg)) })
                } else {
                    Act::Send(SendState::Enqueue { msg })
                })
            },
            self.ops[id] matches Act::Send(SendState::Enqueue { msg }) ==> {
                &&& self.next(id, now).items == self.items + seq![msg]
                &&& self.next(id, now).sent == self.sent + seq![msg]
                &&& self.next(id, now).received == self.received
                &&& self.next(id, now).ops[id] == Act::<T>::Send(SendState::PopWaiter)
            },
            self.ops[id] matches Act::Send(s) && (s is PopWaiter || s is Notify || s is Unpark) ==> {
                &&& self.next(id, now).items == self.items
                &&& self.next(id, now).sent == self.sent
                &&& self.next(id, now).ops[id] matches Act::Send(s2) && (s2 is PopWaiter || s2
                    is Notify || s2 is Unpark || s2 == (SendState::<T, usize>::Done {
                    result: Ok(()),
                }))
            },
    {
        if let Act::Send(SendState::Enqueue { msg }) = self.ops[id] {
            assert(self.next(id, now).items =~= self.items + seq![msg]);
            assert(self.next(id, now).sent =~= self.sent + seq![msg]);
        }
    }

    /// An operation that tells a receiver takes the waiter that was pushed last; a waiter that
    /// waits is told and its thread is woken, and no other waiter is touched.
    pub proof fn law_telling_a_receiver(self, id: int, now: u64, w: usize)
        requires
            0 <= w < self.registry.len(),
            self.registry[w as int] is Some,
        ensures
            match self.ops[id] {
                Act::Send(s) => s is PopWaiter,
                Act::Close(s) => s is PopWaiter,
                Act::Recv(d, s) => s is PassOn,
                _ => false,
            } ==> {
                &&& self.next(id, now).registry == self.registry
                &&& self.waiters.len() == 0 ==> self.next(id, now).waiters.len() == 0
                &&& self.waiters.len() > 0 ==> {
                    &&& self.next(id, now).waiters + seq![self.waiters[self.waiters.len() - 1]]
                        == self.waiters
                    &&& match self.next(id, now).ops[id] {
                        Act::Send(SendState::Notify { waiter }) => waiter
                            == self.waiters[self.waiters.len() - 1],
                        Act::Close(CloseState::Notify { waiter }) => waiter
                            == self.waiters[self.waiters.len() - 1],
                        Act::Recv(d, RecvState::PassNotify { waiter, result }) => waiter
                            == self.waiters[self.waiters.len() - 1],
                        _ => false,
                    }
                }
            },
            match self.ops[id] {
                Act::Send(SendState::Notify { waiter }) => waiter == w,
                Act::Close(CloseState::Notify { waiter }) => waiter == w,
                Act::Recv(d, RecvState::PassNotify { waiter, result }) => waiter == w,
                _ => false,
            } && (self.registry[w as int]->0).state is Waiting ==> {
                &&& (self.next(id, now).registry[w as int]->0).state is Notified
                &&& self.next(id, now).registry[w as int] is Some
                &&& match self.next(id, now).ops[id] {
                    Act::Send(SendState::Unpark { waiter }) => waiter == w,
                    Act::Close(CloseState::Unpark { waiter }) => waiter == w,
                    Act::Recv(d, RecvState::PassUnpark { waiter, result }) => waiter == w,
                    _ => false,
                }
            },
            match self.ops[id] {
                Act::Send(SendState::Unpark { waiter }) => waiter == w,
                Act::Close(CloseState::Unpark { waiter }) => waiter == w,
                Act::Recv(d, RecvState::PassUnpark { waiter, result }) => waiter == w,
                _ => false,
            } && (self.registry[w as int]->0).refs > 1 ==> self.next(id, now).registry[w as int]
                == Some(
                Waiter {
                    state: (self.registry[w as int]->0).state,
                    refs: ((self.registry[w as int]->0).refs - 1) as u8,
                    token: true,
                },
            ),
            match self.ops[id] {
                Act::Send(SendState::Notify { waiter }) => waiter != w && waiter < self.registry.len(),
                Act::Send(SendState::Unpark { waiter }) => waiter != w && waiter < self.registry.len(),
                Act::Close(CloseState::Notify { waiter }) => waiter != w && waiter < self.registry.len(),
                Act::Close(CloseState::Unpark { waiter }) => waiter != w && waiter < self.registry.len(),
                Act::Recv(d, RecvState::PassNotify { waiter, result }) => waiter != w && waiter < self.registry.len(),
                Act::Recv(d, RecvState::PassUnpark { waiter, result }) => waiter != w && waiter < self.registry.len(),
                _ => false,
            } ==> self.next(id, now).registry[w as int] == self.registry[w as int],
    {
        if self.waiters.len() > 0 {
            assert(self.waiters.drop_last() + seq![self.waiters[self.waiters.len() - 1]]
                =~= self.waiters);
        }
    }

    /// A receive that leaves cancels its waiter, and passes on what it had been told exactly if
    /// it had been told.
    pub proof fn law_leaving_receive_cancels_its_waiter(self, id: int, now: u64, w: usize)
        requires
            0 <= w < self.registry.len(),
            self.registry[w as int] is Some,
            self.ops[id] matches Act::Recv(d, RecvState::Cancel { waiter, result }) && waiter == w,
        ensures
            self.next(id, now).registry[w as int] matches Some(cell) ==> cell.state is Cancelled,
            (self.registry[w as int]->0).state is Notified <==> (self.next(
                id,
                now,
            ).ops[id] matches Act::Recv(d, s) && s is PassOn),
            self.next(id, now).waiters == self.waiters,
            self.next(id, now).items == self.items,
    {
    }

    /// A step concerns one operation and changes no handle.
    pub proof fn law_step_concerns_one_operation(self, id: int, now: u64, other: int)
        requires
            self.ops.contains_key(id),
            other != id,
        ensures
            self.next(id, now).senders == self.senders,
            self.next(id, now).receivers == self.receivers,
            self.next(id, now).ops.contains_key(id),
            self.next(id, now).ops.contains_key(other) == self.ops.contains_key(other),
            self.next(id, now).ops[other] == self.ops[other],
    {
    }

    /// The messages change only when a receive takes the oldest one, which it then has to return,
    /// or when a send puts its own in at the end.
    pub proof fn law_step_moves_one_message(self, id: int, now: u64)
        requires
            self.ops.contains_key(id),
        ensures
            self.next(id, now).received != self.received ==> self.items.len() > 0,
            self.next(id, now).received != self.received ==> self.next(id, now).received
                == self.received + seq![self.items[0]],
            self.next(id, now).received != self.received ==> self.items == seq![self.items[0]]
                + self.next(id, now).items,
            self.next(id, now).received != self.received ==> self.next(id, now).sent == self.sent,
            self.next(id, now).received != self.received ==> match self.next(id, now).ops[id] {
                Act::Recv(_, RecvState::Done { result }) => result == Ok::<T, RecvTimeoutError>(
                    self.items[0],
                ),
                Act::Recv(_, RecvState::Cancel { waiter, result }) => result == Ok::<
                    T,
                    RecvTimeoutError,
                >(self.items[0]),
                Act::TryRecv(TryRecvState::Done { result }) => result == Ok::<T, TryRecvError>(
                    self.items[0],
                ),
                _ => false,
            },
            self.next(id, now).sent != self.sent ==> match self.ops[id] {
                Act::Send(SendState::Enqueue { msg }) => self.next(id, now).sent == self.sent + seq![
                    msg,
                ] && self.next(id, now).items == self.items + seq![msg] && self.next(
                    id,
                    now,
                ).received == self.received,
                _ => false,
            },
            self.next(id, now).received == self.received && self.next(id, now).sent == self.sent
                ==> self.next(id, now).items == self.items,
    {
        let v2 = self.next(id, now);
        assert(self.received.len() + 1 != self.received.len());
        if self.items.len() > 0 {
            assert(seq![self.items[0]] + self.items.drop_first() =~= self.items);
            assert(self.received.push(self.items[0]) =~= self.received + seq![self.items[0]]);
            assert(self.received.push(self.items[0]).len() != self.received.len());
        }
        if let Act::Send(SendState::Enqueue { msg }) = self.ops[id] {
            assert(v2.items =~= self.items + seq![msg]);
            assert(v2.sent =~= self.sent + seq![msg]);
            assert(v2.sent.len() != self.sent.len());
        }
    }

    /// A receive gives up only at the clock and only when its time limit is reached, and reports
    /// the disconnect only when it finds the queue empty at its last look. What it decided on
    /// before it leaves it does not decide on again.
    pub proof fn law_receive_decides_on_what_it_sees(self, id: int, now: u64)
        requires
            self.ops.contains_key(id),
        ensures
            match (self.ops[id], self.next(id, now).ops[id]) {
                (Act::Recv(d, s), Act::Recv(_, RecvState::Cancel { waiter, result })) => match result {
                    Ok(msg) => (s is Poll || s is PollLast) && self.items.len() > 0 && msg
                        == self.items[0],
                    Err(RecvTimeoutError::Timeout) => s is Clock && (d is Some ==> now >= d->0),
                    Err(RecvTimeoutError::Disconnected) => s is PollLast && self.items.len() == 0,
                },
                _ => true,
            },
            match (self.ops[id], self.next(id, now).ops[id]) {
                (Act::Recv(d, s), Act::Recv(_, RecvState::Done { result })) => match result {
                    Ok(msg) => s is Done || s is Cancel || s is PassOn || s is PassUnpark || (
                    self.items.len() > 0 && msg == self.items[0]),
                    Err(RecvTimeoutError::Timeout) => s is Done || s is Cancel || s is PassOn || s
                        is PassUnpark,
                    Err(RecvTimeoutError::Disconnected) => s is Done || s is Cancel || s is PassOn
                        || s is PassUnpark || (s is DequeueLast && self.items.len() == 0),
                },
                _ => true,
            },
    {
    }

    /// A receive that is not to block reports an empty queue only when it sees a sender, and the
    /// disconnect only when it finds the queue empty at its last look.
    pub proof fn law_try_receive_decides_on_what_it_sees(self, id: int, now: u64)
        requires
            self.ops.contains_key(id),
        ensures
            match (self.ops[id], self.next(id, now).ops[id]) {
                (Act::TryRecv(s), Act::TryRecv(TryRecvState::Done { result })) => match result {
                    Ok(msg) => s is Done || (self.items.len() > 0 && msg == self.items[0]),
                    Err(TryRecvError::Empty) => s is Done || (s is LoadSenders && self.senders > 0),
                    Err(TryRecvError::Disconnected) => s is Done || (s is DequeueLast
                        && self.items.len() == 0),
                },
                _ => true,
            },
    {
    }

    /// If no receiver waits, a send leaves no waiter on the stack and tells nobody.
    pub proof fn law_notifying_nobody(self, w: usize)
        requires
            self.stack_sound(),
            forall|k: int|
                0 <= k < self.waiters.len() ==> !((self.registry[#[trigger] self.waiters[k] as int]->0).state is Waiting),
            0 <= w < self.registry.len(),
        ensures
            self.notify_one().waiters.len() == 0,
            !self.waiters.contains(w) ==> self.notify_one().registry[w as int]
                == self.registry[w as int],
        decreases self.waiters.len(),
    {
        if self.waiters.len() > 0 {
            let last = self.waiters.len() - 1;
            let x = self.waiters.last();
            assert(self.waiters[last] == x);
            assert(self.live(self.waiters[last]));
            let v = self.pop().let_go(x);
            assert forall|k: int| 0 <= k < v.waiters.len() implies v.live(#[trigger] v.waiters[k])
                && !((v.registry[v.waiters[k] as int]->0).state is Waiting) by {
                assert(self.live(self.waiters[k]));
                assert(self.waiters[k] != self.waiters[last]);
            }
            assert(v.stack_sound());
            v.law_notifying_nobody(w);
            if !self.waiters.contains(w) {
                assert(w != x);
                if v.waiters.contains(w) {
                    let k = choose|k: int| 0 <= k < v.waiters.len() && v.waiters[k] == w;
                    assert(self.waiters[k] == w);
                }
            }
        }
    }

    /// A send tells one receiver: it goes on down the stack past those that do not wait any more
    /// until it has told and woken one, or the stack is empty; then it returns.
    pub proof fn law_send_tells_one_receiver(self, id: int, now: u64)
        ensures
            self.ops[id] == Act::<T>::Send(SendState::PopWaiter) ==> self.waiters.len() == 0
                ==> self.next(id, now).ops[id] == Act::<T>::Send(
                SendState::Done { result: Ok(()) },
            ),
            self.ops[id] matches Act::Send(SendState::Notify { waiter }) ==> !((
            self.registry[waiter as int]->0).state is Waiting) ==> self.next(id, now).ops[id]
                == Act::<T>::Send(SendState::PopWaiter),
            self.ops[id] matches Act::Send(SendState::Unpark { waiter }) ==> self.next(
                id,
                now,
            ).ops[id] == Act::<T>::Send(SendState::Done { result: Ok(()) }),
    {
    }

    /// The closing of the last sender tells everybody: it returns only when the stack is empty.
    pub proof fn law_close_tells_everybody(self, id: int, now: u64)
        ensures
            self.ops[id] == Act::<T>::Close(CloseState::PopWaiter) ==> (self.waiters.len() == 0
                <==> self.next(id, now).ops[id] == Act::<T>::Close(CloseState::Done)),
            self.ops[id] matches Act::Close(CloseState::Notify { waiter }) ==> !((
            self.registry[waiter as int]->0).state is Waiting) ==> self.next(id, now).ops[id]
                == Act::<T>::Close(CloseState::PopWaiter),
            self.ops[id] matches Act::Close(CloseState::Unpark { waiter }) ==> self.next(
                id,
                now,
            ).ops[id] == Act::<T>::Close(CloseState::PopWaiter),
            self.ops[id] is Close ==> self.next(id, now).items == self.items && self.next(
                id,
                now,
            ).sent == self.sent && self.next(id, now).received == self.received,
    {
    }

    /// A receive that leaves and had been told tells one receiver in its place, as a send does.
    pub proof fn law_leaving_receive_tells_another(self, id: int, now: u64)
        ensures
            self.ops[id] matches Act::Recv(d, RecvState::PassOn { result }) ==> self.waiters.len()
                == 0 ==> self.next(id, now).ops[id] == Act::Recv(d, RecvState::Done { result }),
            self.ops[id] matches Act::Recv(d, RecvState::PassNotify { waiter, result }) ==> !((
            self.registry[waiter as int]->0).state is Waiting) ==> self.next(id, now).ops[id]
                == Act::Recv(d, RecvState::PassOn { result }),
            self.ops[id] matches Act::Recv(d, RecvState::PassNotify { waiter, result }) ==> (
            self.registry[waiter as int]->0).state is Waiting ==> self.next(id, now).ops[id]
                == Act::Recv(d, RecvState::PassUnpark { waiter, result }),
    {
    }

    /// A receive that prepares to block makes a waiter of its own, which waits and is neither told
    /// nor woken, under a number that nobody has, and pushes it onto the stack.
    pub proof fn law_receive_makes_a_waiter(self, id: int, now: u64, w: usize)
        requires
            self.ops[id] matches Act::Recv(d, RecvState::Register),
            self.registry.len() < usize::MAX,
        ensures
            match self.next(id, now).ops[id] {
                Act::Recv(d, RecvState::Push { waiter }) => {
                    &&& self.ops[id] == Act::<T>::Recv(d, RecvState::Register)
                    &&& waiter < self.registry.len() ==> self.registry[waiter as int] is None
                    &&& waiter < self.next(id, now).registry.len()
                    &&& self.next(id, now).registry[waiter as int] == Some(
                        Waiter { state: WaiterState::Waiting, refs: 2, token: false },
                    )
                    &&& w < self.registry.len() && w != waiter ==> self.next(
                        id,
                        now,
                    ).registry[w as int] == self.registry[w as int]
                },
                _ => false,
            },
            self.next(id, now).waiters == self.waiters,
            self.next(id, now).items == self.items,
    {
        lemma_free_number(self.registry, 0);
    }

    /// The waiter that a receive made is on top of the stack when it has been pushed.
    pub proof fn law_receive_pushes_its_waiter(self, id: int, now: u64)
        ensures
            self.ops[id] matches Act::Recv(d, RecvState::Push { waiter }) ==> self.next(
                id,
                now,
            ).waiters == self.waiters + seq![waiter] && self.next(id, now).registry
                == self.registry,
    {
        if let Act::Recv(d, RecvState::Push { waiter }) = self.ops[id] {
            assert(self.waiters.push(waiter) =~= self.waiters + seq![waiter]);
        }
    }

    /// An operation is blocked exactly if it is a receive that parks and nobody has woken its
    /// thread.
    pub proof fn law_only_a_parked_receive_is_blocked(self, id: int)
        ensures
            self.blocked(id) <==> match self.ops[id] {
                Act::Recv(d, RecvState::Park { waiter }) => !(
                self.registry[waiter as int]->0).token,
                _ => false,
            },
    {
    }
}

} // verus!
