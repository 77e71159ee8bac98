//! Why a message in the queue of [`crate::mpmc`] does not wait while a receiver is blocked.
//!
//! A send that has put its message into the queue goes on to tell a receiver that waits. A
//! receiver that was told takes a message, or finds that there is none, or has no need of one
//! any more: then it tells another receiver in its place. So, while a receiver waits, somebody
//! is on the way for each message in the queue, and every step keeps it so.
use vstd::prelude::*;

use crate::counting::lemma_differ_in_one;
use crate::mpmc_model::{
    channel_inv, done, drains, lemma_free_number, lemma_step, telling, trusts, waits, Act,
    ChannelView, Roles,
};
use crate::mpmc_protocol::{RecvState, SendState};

verus! {

/// Whether an operation looks for a waiter to tell: a send that has put its message into the
/// queue, or a receive that was told and leaves.
pub open spec fn seeks<T>(act: Act<T>) -> bool {
    match act {
        Act::Send(SendState::PopWaiter) => true,
        Act::Send(SendState::Notify { waiter }) => true,
        Act::Recv(d, RecvState::PassOn { result }) => true,
        Act::Recv(d, RecvState::PassNotify { waiter, result }) => true,
        _ => false,
    }
}

/// Whether an operation is a receive that has been told and has not looked for a message
/// since it noticed, nor told another receive in its place.
pub open spec fn told<T>(v: ChannelView<T>, act: Act<T>) -> bool {
    match waits(act) {
        Some(w) => v.cell(w).state is Notified,
        None => act matches Act::Recv(d, RecvState::Dequeue { told }) && told,
    }
}

/// Whether operation `i` is on the way for a message in the queue.
pub open spec fn helps<T>(v: ChannelView<T>, i: int) -> bool {
    v.ops.contains_key(i) && (seeks(v.ops[i]) || told(v, v.ops[i]))
}

/// The operations that are on the way for a message in the queue.
pub open spec fn helpers<T>(v: ChannelView<T>) -> Set<int> {
    Set::new(|i: int| helps(v, i))
}

/// The waiter of a receive that has looked for a message since it pushed the waiter, has
/// found none, and has not looked again since.
pub open spec fn checked<T>(act: Act<T>) -> Option<usize> {
    match act {
        Act::Recv(d, RecvState::PollSenders { waiter }) => Some(waiter),
        _ => trusts(act),
    }
}

/// Whether operation `i` is a receive that found no message and waits to be told.
pub open spec fn starves<T>(v: ChannelView<T>, i: int) -> bool {
    v.ops.contains_key(i) && (checked(v.ops[i]) matches Some(w) && v.waiters.contains(w)
        && v.cell(w).state is Waiting)
}

/// Whether a receive waits to be told.
pub open spec fn starving<T>(v: ChannelView<T>) -> bool {
    exists|i: int| starves(v, i)
}

/// While a receive waits to be told, somebody is on the way for each message in the queue.
pub open spec fn covered<T>(v: ChannelView<T>) -> bool {
    v.senders > 0 && starving(v) ==> v.items.len() <= helpers(v).len()
}

/// There are finitely many helpers.
proof fn lemma_helpers_finite<T>(v: ChannelView<T>)
    requires
        v.ops.dom().finite(),
    ensures
        helpers(v).finite(),
{
    vstd::set_lib::lemma_set_subset_finite(v.ops.dom(), helpers(v));
}

/// The helpers after a step that changes only whether operation `id` is one.
proof fn lemma_one_helper<T>(v: ChannelView<T>, v2: ChannelView<T>, id: int)
    requires
        v.ops.dom().finite(),
        forall|i: int| i != id ==> helps(v2, i) == helps(v, i),
    ensures
        helpers(v2).finite(),
        helpers(v2).len() == helpers(v).len() + (if helps(v2, id) {
            1int
        } else {
            0
        }) - (if helps(v, id) {
            1int
        } else {
            0
        }),
{
    lemma_helpers_finite(v);
    lemma_differ_in_one(helpers(v), helpers(v2), id);
}

/// What else operation `i` reads does not change in a step of operation `id`, unless that
/// step tells it.
proof fn lemma_others_help<T>(v: ChannelView<T>, r: Roles, id: int, now: u64, i: int)
    requires
        channel_inv(v, r),
        v.ops.contains_key(id),
        !done(v.ops[id]),
        v.registry.len() <= usize::MAX,
        i != id,
    ensures
        ({
            let v2 = v.next(id, now);
            ||| helps(v2, i) == helps(v, i)
            ||| waits(v.ops[i]) is Some && telling(v.ops[id]) == waits(v.ops[i])
                && v.ops.contains_key(i)
        }),
        starves(v.next(id, now), i) ==> starves(v, i),
{
    let v2 = v.next(id, now);
    lemma_free_number(v.registry, 0);
    assert(v2.ops.contains_key(i) == v.ops.contains_key(i));
    if v.ops.contains_key(i) {
        assert(v2.ops[i] == v.ops[i]);
        if let Some(w) = waits(v.ops[i]) {
            assert(r.owner.contains_key(w) && r.owner[w] == i);
            assert(v.live(w));
            if waits(v.ops[id]) is Some {
                assert(waits(v.ops[id]) != Some(w));
            }
            if telling(v.ops[id]) != Some(w) {
                assert(v2.cell(w).state == v.cell(w).state);
            }
            if starves(v2, i) {
                lemma_stack_shrinks(v, id, now, w);
            }
        }
    }
}

/// Only the push of a waiter adds to the stack.
proof fn lemma_stack_shrinks<T>(v: ChannelView<T>, id: int, now: u64, w: usize)
    requires
        v.next(id, now).waiters.contains(w),
        waits(v.ops[id]) != Some(w),
    ensures
        v.waiters.contains(w),
{
    let v2 = v.next(id, now);
    let k = choose|k: int| 0 <= k < v2.waiters.len() && v2.waiters[k] == w;
    assert(v2.waiters[k] == w);
    assert(v.waiters[k] == w);
}

/// Every step of an operation keeps the messages in the queue covered.
pub proof fn lemma_covered_step<T>(v: ChannelView<T>, r: Roles, id: int, now: u64)
    requires
        channel_inv(v, r),
        v.ops.contains_key(id),
        v.ops.dom().finite(),
        !done(v.ops[id]),
        v.registry.len() <= usize::MAX,
        covered(v),
    ensures
        covered(v.next(id, now)),
{
    let v2 = v.next(id, now);
    lemma_step(v, r, id, now);
    assert forall|i: int| i != id implies (starves(v2, i) ==> starves(v, i)) && (helps(v2, i)
        == helps(v, i) || (waits(v.ops[i]) is Some && telling(v.ops[id]) == waits(v.ops[i])
        && v.ops.contains_key(i))) by {
        lemma_others_help(v, r, id, now, i);
    }
    if v2.senders > 0 && starving(v2) && v2.items.len() > 0 {
        let j = choose|i: int| starves(v2, i);
        assert(starves(v2, j));
        if j == id {
            assert(starves(v, j));
        }
        assert(starving(v));
        assert(v.items.len() <= helpers(v).len());
        if telling(v.ops[id]) is Some {
            lemma_tell_covered(v, r, id, now);
        } else {
            lemma_one_helper(v, v2, id);
            if v.waiters.len() == 0 {
                assert(!v.waiters.contains(checked(v.ops[j])->0));
            }
            if drains(v.ops[id]) {
                assert(r.drain == Some(id));
            }
            if let Some(w) = waits(v.ops[id]) {
                assert(r.owner.contains_key(w) && r.owner[w] == id);
                assert(v.live(w));
            }
        }
    }
}

/// Telling a receive that waits makes it a helper in place of the one that tells it.
proof fn lemma_tell_covered<T>(v: ChannelView<T>, r: Roles, id: int, now: u64)
    requires
        channel_inv(v, r),
        v.ops.contains_key(id),
        v.ops.dom().finite(),
        v.registry.len() <= usize::MAX,
        telling(v.ops[id]) is Some,
        v.senders > 0,
        v.items.len() <= helpers(v).len(),
    ensures
        v.next(id, now).items.len() <= helpers(v.next(id, now)).len(),
{
    let v2 = v.next(id, now);
    let w = telling(v.ops[id])->0;
    assert(r.holder.contains_key(w));
    assert(v.live(w));
    if let Act::Close(s) = v.ops[id] {
        assert(drains(v.ops[id]));
        assert(r.drain == Some(id));
    }
    if v.cell(w).state is Waiting {
        assert(r.owner.contains_key(w));
        let i = r.owner[w];
        assert(v.ops.contains_key(i) && waits(v.ops[i]) == Some(w));
        assert forall|k: int| k != id && k != i implies helps(v2, k) == helps(v, k) by {
            lemma_others_help(v, r, id, now, k);
            if v.ops.contains_key(k) && waits(v.ops[k]) == Some(w) {
                assert(r.owner[w] == k);
            }
        }
        lemma_helpers_finite(v);
        assert(helps(v, id) && !helps(v, i));
        assert(helps(v2, i) && !helps(v2, id));
        assert(helpers(v2) =~= helpers(v).remove(id).insert(i));
    } else {
        assert forall|k: int| k != id implies helps(v2, k) == helps(v, k) by {
            lemma_others_help(v, r, id, now, k);
        }
        lemma_one_helper(v, v2, id);
    }
}

/// An operation that starts keeps the messages in the queue covered.
pub proof fn lemma_covered_begin<T>(v: ChannelView<T>, id: int, act: Act<T>)
    requires
        v.ops.dom().finite(),
        covered(v),
        waits(act) is None,
        !v.ops.contains_key(id),
    ensures
        covered(v.go(id, act)),
{
    let v2 = v.go(id, act);
    if v2.senders > 0 && starving(v2) {
        let i = choose|i: int| starves(v2, i);
        assert(starves(v, i));
        assert forall|i: int| i != id implies helps(v2, i) == helps(v, i) by {}
        lemma_one_helper(v, v2, id);
    }
}

/// An operation that is through and leaves keeps the messages in the queue covered.
pub proof fn lemma_covered_finish<T>(v: ChannelView<T>, id: int)
    requires
        v.ops.dom().finite(),
        covered(v),
        v.ops.contains_key(id),
        done(v.ops[id]),
    ensures
        covered(v.without(id)),
{
    let v2 = v.without(id);
    if v2.senders > 0 && starving(v2) {
        let i = choose|i: int| starves(v2, i);
        assert(starves(v, i));
        assert forall|i: int| i != id implies helps(v2, i) == helps(v, i) by {}
        lemma_one_helper(v, v2, id);
    }
}

/// Counting senders and receivers keeps the messages in the queue covered.
pub proof fn lemma_covered_counts<T>(v: ChannelView<T>, senders: nat, receivers: nat)
    requires
        covered(v),
        senders > 0 ==> v.senders > 0,
    ensures
        covered(ChannelView { senders, receivers, ..v }),
{
    let v2 = ChannelView { senders, receivers, ..v };
    if senders > 0 && starving(v2) {
        let i = choose|i: int| starves(v2, i);
        assert(starves(v, i));
        assert forall|i: int| helps(v2, i) == helps(v, i) by {}
        assert(helpers(v2) =~= helpers(v));
    }
}

} // verus!
