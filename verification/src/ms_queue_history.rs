//! What is true of a queue of [`crate::ms_queue`] that several threads work on, over any number
//! of calls.
//!
//! Each call of a function of [`crate::ms_queue::Queue`] that changes the queue is a [`Move`], as
//! its contract says, or changes nothing that can be seen. A thread does one thing at a time; the
//! moves of different threads come in any order.
use vstd::multiset::Multiset;
use vstd::prelude::*;

use crate::ms_queue::QueueView;
use crate::ms_queue_proof::Status;

verus! {

/// One thing that is done to a queue.
pub enum Move<T> {
    /// Operation `.0` starts to enqueue `.1`.
    BeginEnqueue(int, T),
    /// Operation `.0` starts to dequeue.
    BeginDequeue(int),
    /// Operation `.0` takes effect.
    Effect(int),
    /// Operation `.0` returns.
    End(int),
    /// A value is enqueued by a call that runs to its end.
    Enqueue(T),
    /// A value is dequeued by a call that runs to its end.
    Dequeue,
}

impl<T> QueueView<T> {
    /// A queue without values and without operations under way.
    pub open spec fn fresh() -> QueueView<T> {
        QueueView { items: Seq::empty(), ops: Map::empty() }
    }

    /// Whether `m` can be done to the queue.
    pub open spec fn admits(self, m: Move<T>) -> bool {
        match m {
            Move::BeginEnqueue(op, value) => !self.ops.contains_key(op),
            Move::BeginDequeue(op) => !self.ops.contains_key(op),
            Move::Effect(op) => self.waiting(op),
            Move::End(op) => self.ops.contains_key(op) && !self.waiting(op),
            Move::Enqueue(value) => true,
            Move::Dequeue => true,
        }
    }

    /// The queue after `m` was done to it.
    pub open spec fn after(self, m: Move<T>) -> QueueView<T> {
        match m {
            Move::BeginEnqueue(op, value) => QueueView {
                items: self.items,
                ops: self.ops.insert(op, Status::Enqueueing(value)),
            },
            Move::BeginDequeue(op) => QueueView {
                items: self.items,
                ops: self.ops.insert(op, Status::Dequeueing),
            },
            Move::Effect(op) => self.effect(op),
            Move::End(op) => QueueView { items: self.items, ops: self.ops.remove(op) },
            Move::Enqueue(value) => QueueView { items: self.items.push(value), ops: self.ops },
            Move::Dequeue => QueueView {
                items: if self.items.len() > 0 {
                    self.items.drop_first()
                } else {
                    self.items
                },
                ops: self.ops,
            },
        }
    }

    /// Whether `m` can be done to the queue and makes it `to`.
    pub open spec fn moves_to(self, m: Move<T>, to: QueueView<T>) -> bool {
        self.admits(m) && to == self.after(m)
    }
}

/// A move, and the thread that makes it.
pub struct Call<T> {
    /// The thread.
    pub thread: int,
    /// The move.
    pub what: Move<T>,
}

/// A new queue after `calls`.
pub open spec fn run<T>(calls: Seq<Call<T>>) -> QueueView<T>
    decreases calls.len(),
{
    if calls.len() == 0 {
        QueueView::fresh()
    } else {
        run(calls.drop_last()).after(calls.last().what)
    }
}

/// The operation that a thread has under way after `calls`.
pub open spec fn busy<T>(calls: Seq<Call<T>>, thread: int) -> Option<int>
    decreases calls.len(),
{
    if calls.len() == 0 {
        None
    } else if calls.last().thread == thread {
        match calls.last().what {
            Move::BeginEnqueue(op, value) => Some(op),
            Move::BeginDequeue(op) => Some(op),
            Move::End(op) => None,
            _ => busy(calls.drop_last(), thread),
        }
    } else {
        busy(calls.drop_last(), thread)
    }
}

/// Whether `calls` can be done to a new queue, one after the other, and each thread does one
/// thing at a time.
pub open spec fn possible<T>(calls: Seq<Call<T>>) -> bool
    decreases calls.len(),
{
    calls.len() > 0 ==> {
        let before = calls.drop_last();
        &&& possible(before)
        &&& run(before).admits(calls.last().what)
        &&& busy(before, calls.last().thread) == match calls.last().what {
            Move::Effect(op) => Some(op),
            Move::End(op) => Some(op),
            _ => None,
        }
    }
}

/// The values that a thread has set out to enqueue, in this order.
pub open spec fn asked<T>(calls: Seq<Call<T>>, thread: int) -> Seq<T>
    decreases calls.len(),
{
    if calls.len() == 0 {
        Seq::empty()
    } else {
        let before = asked(calls.drop_last(), thread);
        if calls.last().thread == thread {
            match calls.last().what {
                Move::BeginEnqueue(op, value) => before.push(value),
                Move::Enqueue(value) => before.push(value),
                _ => before,
            }
        } else {
            before
        }
    }
}

/// The values that were enqueued, each with its thread, in the order in which that took effect.
pub open spec fn linked<T>(calls: Seq<Call<T>>) -> Seq<(int, T)>
    decreases calls.len(),
{
    if calls.len() == 0 {
        Seq::empty()
    } else {
        let before = linked(calls.drop_last());
        match calls.last().what {
            Move::Effect(op) => match run(calls.drop_last()).ops[op] {
                Status::Enqueueing(value) => before.push((calls.last().thread, value)),
                _ => before,
            },
            Move::Enqueue(value) => before.push((calls.last().thread, value)),
            _ => before,
        }
    }
}

/// The values that were dequeued, in the order in which that took effect.
pub open spec fn taken<T>(calls: Seq<Call<T>>) -> Seq<T>
    decreases calls.len(),
{
    if calls.len() == 0 {
        Seq::empty()
    } else {
        let before = taken(calls.drop_last());
        let v = run(calls.drop_last());
        if run(calls).items.len() < v.items.len() {
            before.push(v.items.first())
        } else {
            before
        }
    }
}

/// The values without their threads.
pub open spec fn values<T>(order: Seq<(int, T)>) -> Seq<T> {
    order.map_values(|entry: (int, T)| entry.1)
}

/// The values of one thread, in their order.
pub open spec fn of_thread<T>(order: Seq<(int, T)>, thread: int) -> Seq<T>
    decreases order.len(),
{
    if order.len() == 0 {
        Seq::empty()
    } else {
        let before = of_thread(order.drop_last(), thread);
        if order.last().0 == thread {
            before.push(order.last().1)
        } else {
            before
        }
    }
}

/// All values that the threads below `threads` have set out to enqueue.
pub open spec fn asked_by_all<T>(calls: Seq<Call<T>>, threads: nat) -> Multiset<T>
    decreases threads,
{
    if threads == 0 {
        Multiset::empty()
    } else {
        asked_by_all(calls, (threads - 1) as nat).add(asked(calls, threads - 1).to_multiset())
    }
}

/// What a thread that has an enqueue under way has yet to put in.
pub open spec fn owed<T>(calls: Seq<Call<T>>, thread: int) -> Seq<T> {
    match busy(calls, thread) {
        Some(op) => match run(calls).ops[op] {
            Status::Enqueueing(value) => seq![value],
            _ => Seq::empty(),
        },
        None => Seq::empty(),
    }
}

/// Each operation under way belongs to one thread.
proof fn lemma_busy<T>(calls: Seq<Call<T>>, a: int, b: int)
    requires
        possible(calls),
    ensures
        busy(calls, a) matches Some(op) ==> run(calls).ops.contains_key(op),
        busy(calls, a) is Some && busy(calls, a) == busy(calls, b) ==> a == b,
    decreases calls.len(),
{
    if calls.len() > 0 {
        let fewer = calls.drop_last();
        lemma_busy(fewer, a, b);
        lemma_busy(fewer, b, a);
        lemma_busy(fewer, a, calls.last().thread);
        lemma_busy(fewer, b, calls.last().thread);
    }
}

/// The values of a thread were put in in the order in which it set out to, but for the one
/// that it is about to put in.
proof fn lemma_in_order<T>(calls: Seq<Call<T>>, thread: int)
    requires
        possible(calls),
    ensures
        of_thread(linked(calls), thread) + owed(calls, thread) == asked(calls, thread),
    decreases calls.len(),
{
    if calls.len() == 0 {
        assert(of_thread(linked(calls), thread) + owed(calls, thread) =~= asked(calls, thread));
    } else {
        let fewer = calls.drop_last();
        let call = calls.last();
        let v = run(fewer);
        lemma_in_order(fewer, thread);
        lemma_busy(fewer, thread, call.thread);
        match call.what {
            Move::Effect(op) => {
                if let Status::Enqueueing(value) = v.ops[op] {
                    assert(linked(calls).drop_last() =~= linked(fewer));
                }
            },
            Move::Enqueue(value) => {
                assert(linked(calls).drop_last() =~= linked(fewer));
            },
            _ => {},
        }
        assert(of_thread(linked(calls), thread) + owed(calls, thread) =~= asked(calls, thread));
    }
}

/// The values dequeued and those in the queue are those enqueued, in the same order.
proof fn lemma_conserved<T>(calls: Seq<Call<T>>)
    requires
        possible(calls),
    ensures
        taken(calls) + run(calls).items == values(linked(calls)),
    decreases calls.len(),
{
    if calls.len() > 0 {
        let fewer = calls.drop_last();
        let v = run(fewer);
        let v2 = run(calls);
        lemma_conserved(fewer);
        if linked(calls) != linked(fewer) {
            assert(values(linked(calls)) =~= values(linked(fewer)).push(linked(calls).last().1));
            assert(v2.items == v.items.push(linked(calls).last().1));
            assert(taken(calls) + v2.items =~= (taken(fewer) + v.items).push(
                linked(calls).last().1,
            ));
        } else if v2.items.len() < v.items.len() {
            assert(taken(calls) + v2.items =~= taken(fewer) + v.items);
        } else {
            assert(v2.items == v.items);
        }
    } else {
        assert(taken(calls) + run(calls).items =~= values(linked(calls)));
    }
}

/// The values of all threads together.
spec fn of_threads<T>(order: Seq<(int, T)>, threads: nat) -> Multiset<T>
    decreases threads,
{
    if threads == 0 {
        Multiset::empty()
    } else {
        of_threads(order, (threads - 1) as nat).add(of_thread(order, threads - 1).to_multiset())
    }
}

/// One value more of one thread.
proof fn lemma_one_more<T>(order: Seq<(int, T)>, entry: (int, T), threads: nat)
    ensures
        of_threads(order.push(entry), threads) == (if 0 <= entry.0 < threads {
            of_threads(order, threads).insert(entry.1)
        } else {
            of_threads(order, threads)
        }),
    decreases threads,
{
    broadcast use vstd::seq_lib::group_to_multiset_ensures;

    if threads > 0 {
        lemma_one_more(order, entry, (threads - 1) as nat);
        assert(order.push(entry).drop_last() =~= order);
    }
    assert(of_threads(order.push(entry), threads) =~= (if 0 <= entry.0 < threads {
        of_threads(order, threads).insert(entry.1)
    } else {
        of_threads(order, threads)
    }));
}

/// Each value belongs to a thread.
proof fn lemma_all_values<T>(order: Seq<(int, T)>, threads: nat)
    requires
        forall|k: int| 0 <= k < order.len() ==> 0 <= (#[trigger] order[k]).0 < threads,
    ensures
        values(order).to_multiset() == of_threads(order, threads),
    decreases order.len(),
{
    broadcast use vstd::seq_lib::group_to_multiset_ensures;

    if order.len() == 0 {
        lemma_nothing_of_threads::<T>(order, threads);
        assert(values(order) =~= Seq::empty());
        assert(values(order).to_multiset().len() == 0);
        assert(values(order).to_multiset() =~= Multiset::empty());
    } else {
        let fewer = order.drop_last();
        assert forall|k: int| 0 <= k < fewer.len() implies 0 <= (#[trigger] fewer[k]).0
            < threads by {
            assert(fewer[k] == order[k]);
        }
        lemma_all_values(fewer, threads);
        lemma_one_more(fewer, order.last(), threads);
        assert(fewer.push(order.last()) =~= order);
        assert(values(order) =~= values(fewer).push(order.last().1));
        assert(order[order.len() - 1] == order.last());
    }
}

/// Of nothing, no thread has anything.
proof fn lemma_nothing_of_threads<T>(order: Seq<(int, T)>, threads: nat)
    requires
        order.len() == 0,
    ensures
        of_threads(order, threads) == Multiset::<T>::empty(),
    decreases threads,
{
    broadcast use vstd::seq_lib::group_to_multiset_ensures;

    if threads > 0 {
        lemma_nothing_of_threads(order, (threads - 1) as nat);
        assert(of_thread(order, threads - 1).to_multiset().len() == 0);
        assert(of_thread(order, threads - 1).to_multiset() =~= Multiset::empty());
        assert(of_threads(order, threads) =~= Multiset::empty());
    }
}

/// The threads of the values that were enqueued.
proof fn lemma_threads<T>(calls: Seq<Call<T>>, threads: nat, k: int)
    requires
        forall|c: int| 0 <= c < calls.len() ==> 0 <= (#[trigger] calls[c]).thread < threads,
        0 <= k < linked(calls).len(),
    ensures
        0 <= linked(calls)[k].0 < threads,
    decreases calls.len(),
{
    if calls.len() > 0 {
        let fewer = calls.drop_last();
        assert forall|c: int| 0 <= c < fewer.len() implies 0 <= (#[trigger] fewer[c]).thread
            < threads by {
            assert(fewer[c] == calls[c]);
        }
        assert(calls[calls.len() - 1] == calls.last());
        if k < linked(fewer).len() {
            lemma_threads(fewer, threads, k);
        }
    }
}

/// If each thread has its values in the queue in order, all of them are there.
proof fn lemma_sums<T>(calls: Seq<Call<T>>, threads: nat)
    requires
        forall|t: int| of_thread(linked(calls), t) == #[trigger] asked(calls, t),
    ensures
        of_threads(linked(calls), threads) == asked_by_all(calls, threads),
    decreases threads,
{
    if threads > 0 {
        lemma_sums(calls, (threads - 1) as nat);
        assert(of_thread(linked(calls), threads - 1) == asked(calls, threads - 1));
    }
}

/// In every state, the values of each thread have entered the queue in the order in which the
/// thread enqueued them, but for one that it is about to put in, and the values dequeued so far,
/// followed by those in the queue, are an interleaving of what the threads have put in.
pub proof fn law_each_thread_keeps_its_order<T>(calls: Seq<Call<T>>, thread: int)
    requires
        possible(calls),
    ensures
        taken(calls) + run(calls).items == values(linked(calls)),
        of_thread(linked(calls), thread) + owed(calls, thread) == asked(calls, thread),
{
    lemma_conserved(calls);
    lemma_in_order(calls, thread);
}

/// When all calls have returned and the queue is drained, what was dequeued is an interleaving
/// of what the threads enqueued: the values of each thread are there in the order in which it
/// enqueued them, and all values together are those of all threads, none lost and none twice.
pub proof fn law_drained_values_are_an_interleaving<T>(calls: Seq<Call<T>>, threads: nat)
    requires
        possible(calls),
        forall|c: int| 0 <= c < calls.len() ==> 0 <= (#[trigger] calls[c]).thread < threads,
        run(calls).ops == Map::<int, Status<T>>::empty(),
        run(calls).items.len() == 0,
    ensures
        taken(calls) == values(linked(calls)),
        forall|t: int| of_thread(linked(calls), t) == #[trigger] asked(calls, t),
        taken(calls).to_multiset() == asked_by_all(calls, threads),
{
    lemma_conserved(calls);
    assert(taken(calls) + run(calls).items =~= taken(calls));
    assert forall|t: int| of_thread(linked(calls), t) == #[trigger] asked(calls, t) by {
        lemma_in_order(calls, t);
        lemma_busy(calls, t, t);
        assert(of_thread(linked(calls), t) + owed(calls, t) =~= of_thread(linked(calls), t));
    }
    assert forall|k: int| 0 <= k < linked(calls).len() implies 0 <= (#[trigger] linked(calls)[k]).0
        < threads by {
        lemma_threads(calls, threads, k);
    }
    lemma_all_values(linked(calls), threads);
    lemma_sums(calls, threads);
}

} // verus!
