//! Why the operations on a channel of [`crate::mpmc`] come to rest.
//!
//! Each operation under way has a rank, and every step of an operation that is not blocked
//! lowers the sum of the ranks. A receive that is told ranks higher than before, but the
//! operation that tells it then has less to do; and a receive has the rank of one that tells
//! another, until it has done so or has no need to.
use vstd::prelude::*;

use crate::counting::lemma_differ_in_one;
use crate::mpmc_channel::Channel;
use crate::mpmc_model::{
    channel_inv, done, drains, lemma_free_number, lemma_step, next_roles, telling, waits, Act,
    ChannelView, Roles,
};
use crate::mpmc_protocol::{CloseState, RecvState, SendState, TryRecvState};

verus! {

/// What a waiter on the stack weighs; `open` if a sender is left. Without one, it is told by
/// the closing of the last sender, which then goes on.
pub open spec fn stack_weight(open: bool) -> nat {
    if open {
        2
    } else {
        10
    }
}

/// How far a receive without a waiter is from its end or from being blocked when it looks at
/// the senders.
pub open spec fn look_weight(open: bool) -> nat {
    if open {
        10
    } else {
        2
    }
}

/// What an operation weighs that looks for a waiter to tell.
pub open spec fn seek_weight(open: bool) -> nat {
    look_weight(open) + 5
}

/// How far a receive is from its end or from being blocked; `told` if it has been told.
pub open spec fn recv_distance<T>(s: RecvState<T, usize>, told: bool, open: bool) -> nat {
    let look = look_weight(open);
    match s {
        RecvState::Dequeue { told } => look + 1,
        RecvState::LoadSenders => look,
        RecvState::DequeueLast => 1,
        RecvState::Register => stack_weight(open) + 7,
        RecvState::Push { waiter } => stack_weight(open) + 6,
        RecvState::Poll { waiter } => if told {
            look + 4
        } else {
            5
        },
        RecvState::PollSenders { waiter } => if told {
            look + 3
        } else {
            4
        },
        RecvState::PollLast { waiter } => 3,
        RecvState::LoadState { waiter } => if told {
            look + 2
        } else {
            3
        },
        RecvState::Clock { waiter } => if told {
            look + 6
        } else {
            2
        },
        RecvState::Park { waiter } => if told {
            look + 5
        } else {
            1
        },
        RecvState::Cancel { waiter, result } => 1,
        _ => 0,
    }
}

/// The rank of an operation.
pub open spec fn rank<T>(v: ChannelView<T>, act: Act<T>) -> nat {
    let open = v.senders > 0;
    let seek = seek_weight(open);
    match act {
        Act::Send(s) => match s {
            SendState::LoadReceivers { msg } => seek + 2,
            SendState::Enqueue { msg } => seek + 1,
            SendState::PopWaiter => seek,
            SendState::Notify { waiter } => seek + 1,
            SendState::Unpark { waiter } => 1,
            SendState::Done { result } => 0,
        },
        Act::Close(s) => match s {
            CloseState::PopWaiter => 1,
            CloseState::Notify { waiter } => seek + 2,
            CloseState::Unpark { waiter } => 2,
            _ => 0,
        },
        Act::Recv(d, s) => match s {
            RecvState::PassOn { result } => seek,
            RecvState::PassNotify { waiter, result } => seek + 1,
            RecvState::PassUnpark { waiter, result } => 1,
            RecvState::Done { result } => 0,
            _ => seek + recv_distance(
                s,
                waits(act) matches Some(w) && v.cell(w).state is Notified,
                open,
            ),
        },
        Act::TryRecv(s) => match s {
            TryRecvState::Dequeue => 3,
            TryRecvState::LoadSenders => 2,
            TryRecvState::DequeueLast => 1,
            TryRecvState::Done { result } => 0,
        },
    }
}

/// The members of a set whose rank is at least `k`.
pub open spec fn at_least(ids: Set<int>, ranks: spec_fn(int) -> nat, k: nat) -> Set<int> {
    ids.filter(|i: int| ranks(i) >= k)
}

/// The sum of ranks up to `top`: for each number from 1 to `top`, how many ranks reach it.
pub open spec fn total(ids: Set<int>, ranks: spec_fn(int) -> nat, top: nat) -> nat
    decreases top,
{
    if top == 0 {
        0
    } else {
        total(ids, ranks, (top - 1) as nat) + at_least(ids, ranks, top).len()
    }
}

/// How far the operations on a channel are from rest, at most: the sum of their ranks, none of
/// which is above 40, and the weight of the stack.
pub open spec fn unrest<T>(v: ChannelView<T>) -> nat {
    total(v.ops.dom(), |i: int| rank(v, v.ops[i]), 40) + stack_weight(v.senders > 0)
        * v.waiters.len()
}

/// One rank changes.
proof fn lemma_total(
    ids: Set<int>,
    before: spec_fn(int) -> nat,
    after: spec_fn(int) -> nat,
    id: int,
    top: nat,
)
    requires
        ids.finite(),
        ids.contains(id),
        forall|i: int| i != id && #[trigger] ids.contains(i) ==> before(i) == after(i),
    ensures
        total(ids, after, top) + (if before(id) <= top {
            before(id)
        } else {
            top
        }) == total(ids, before, top) + (if after(id) <= top {
            after(id)
        } else {
            top
        }),
    decreases top,
{
    if top > 0 {
        lemma_total(ids, before, after, id, (top - 1) as nat);
        let a = at_least(ids, before, top);
        let b = at_least(ids, after, top);
        vstd::set_lib::lemma_set_subset_finite(ids, a);
        assert forall|i: int| i != id implies a.contains(i) == b.contains(i) by {
            if ids.contains(i) {
                assert(before(i) == after(i));
            }
        }
        lemma_differ_in_one(a, b, id);
    }
}

/// The same ranks have the same sum.
proof fn lemma_same_total(
    ids: Set<int>,
    before: spec_fn(int) -> nat,
    after: spec_fn(int) -> nat,
    top: nat,
)
    requires
        forall|i: int| #[trigger] ids.contains(i) ==> before(i) == after(i),
    ensures
        total(ids, after, top) == total(ids, before, top),
    decreases top,
{
    if top > 0 {
        lemma_same_total(ids, before, after, (top - 1) as nat);
        assert(at_least(ids, after, top) =~= at_least(ids, before, top));
    }
}

/// A step of operation `id` changes no rank but its own and that of the receive that it tells.
proof fn lemma_other_ranks<T>(v: ChannelView<T>, r: Roles, id: int, now: u64, i: int)
    requires
        channel_inv(v, r),
        v.ops.contains_key(id),
        !done(v.ops[id]),
        v.registry.len() <= usize::MAX,
        i != id,
        v.ops.contains_key(i),
        waits(v.ops[i]) is None || waits(v.ops[i]) != telling(v.ops[id]),
    ensures
        v.next(id, now).ops[i] == v.ops[i],
        rank(v.next(id, now), v.ops[i]) == rank(v, v.ops[i]),
{
    let v2 = v.next(id, now);
    lemma_free_number(v.registry, 0);
    if let Some(w) = waits(v.ops[i]) {
        assert(r.owner.contains_key(w) && r.owner[w] == i);
        assert(v.live(w));
        if waits(v.ops[id]) is Some {
            assert(waits(v.ops[id]) != Some(w));
        }
        assert(v2.cell(w).state == v.cell(w).state);
    }
}

/// A step of an operation that is not blocked, by itself.
proof fn lemma_own_rank<T>(v: ChannelView<T>, r: Roles, id: int, now: u64)
    requires
        channel_inv(v, r),
        v.ops.contains_key(id),
        !done(v.ops[id]),
        !v.blocked(id),
        v.registry.len() <= usize::MAX,
    ensures
        ({
            let v2 = v.next(id, now);
            let s = stack_weight(v.senders > 0);
            &&& v2.senders == v.senders
            &&& v2.ops.dom() == v.ops.dom()
            &&& rank(v, v.ops[id]) <= 40
            &&& rank(v2, v2.ops[id]) <= 40
            &&& if telling(v.ops[id]) matches Some(w) && v.cell(w).state is Waiting {
                &&& v2.waiters == v.waiters
                &&& rank(v2, v2.ops[id]) + look_weight(v.senders > 0) + 4 < rank(v, v.ops[id])
            } else {
                rank(v2, v2.ops[id]) + s * v2.waiters.len() < rank(v, v.ops[id]) + s
                    * v.waiters.len()
            }
        }),
{
    let v2 = v.next(id, now);
    lemma_free_number(v.registry, 0);
    assert(v2.ops.dom() =~= v.ops.dom());
    if let Some(w) = waits(v.ops[id]) {
        assert(r.owner.contains_key(w) && r.owner[w] == id);
        assert(v.live(w));
    }
    if drains(v.ops[id]) {
        assert(r.drain == Some(id));
    }
}

/// Every step of an operation that is not blocked brings the operations closer to rest.
pub proof fn lemma_closer_to_rest<T>(v: ChannelView<T>, r: Roles, id: int, now: u64)
    requires
        channel_inv(v, r),
        v.ops.dom().finite(),
        v.ops.contains_key(id),
        !done(v.ops[id]),
        !v.blocked(id),
        v.registry.len() <= usize::MAX,
    ensures
        unrest(v.next(id, now)) < unrest(v),
{
    let v2 = v.next(id, now);
    let ids = v.ops.dom();
    let before = |i: int| rank(v, v.ops[i]);
    let after = |i: int| rank(v2, v2.ops[i]);
    lemma_own_rank(v, r, id, now);
    let told: Option<int> = match telling(v.ops[id]) {
        Some(w) => if v.cell(w).state is Waiting {
            Some(r.owner[w])
        } else {
            None
        },
        None => None,
    };
    if let Some(w) = telling(v.ops[id]) {
        assert(r.holder.contains_key(w));
        assert(v.live(w));
    }
    assert forall|i: int| i != id && told != Some(i) && #[trigger] ids.contains(i) implies before(i)
        == after(i) by {
        assert(v.ops.contains_key(i));
        if waits(v.ops[i]) is Some && waits(v.ops[i]) == telling(v.ops[id]) {
            let w = waits(v.ops[i])->0;
            assert(r.owner[w] == i);
            assert(!(v.cell(w).state is Waiting));
            lemma_told_before(v, r, id, now, i);
        } else {
            lemma_other_ranks(v, r, id, now, i);
        }
    }
    match told {
        Some(j) => {
            let w = telling(v.ops[id])->0;
            assert(r.owner.contains_key(w));
            assert(v.ops.contains_key(j) && waits(v.ops[j]) == Some(w));
            let between = |i: int| if i == id {
                after(i)
            } else {
                before(i)
            };
            lemma_total(ids, before, between, id, 40);
            lemma_total(ids, between, after, j, 40);
            lemma_told_rank(v, r, id, now, j);
        },
        None => {
            lemma_total(ids, before, after, id, 40);
        },
    }
}

/// A receive that had been told before keeps its rank when an operation finds it told.
proof fn lemma_told_before<T>(v: ChannelView<T>, r: Roles, id: int, now: u64, i: int)
    requires
        channel_inv(v, r),
        v.ops.contains_key(id),
        v.ops.contains_key(i),
        i != id,
        telling(v.ops[id]) matches Some(w) && waits(v.ops[i]) == Some(w) && !(v.cell(w).state
            is Waiting),
    ensures
        v.next(id, now).ops[i] == v.ops[i],
        rank(v.next(id, now), v.ops[i]) == rank(v, v.ops[i]),
{
    let w = telling(v.ops[id])->0;
    assert(r.holder.contains_key(w));
    assert(r.owner.contains_key(w));
    assert(v.live(w));
    assert(v.next(id, now).cell(w).state == v.cell(w).state);
}

/// A receive that is told rises by what the operation that tells it has less to do.
proof fn lemma_told_rank<T>(v: ChannelView<T>, r: Roles, id: int, now: u64, i: int)
    requires
        channel_inv(v, r),
        v.ops.contains_key(id),
        v.ops.contains_key(i),
        i != id,
        telling(v.ops[id]) matches Some(w) && waits(v.ops[i]) == Some(w) && v.cell(w).state
            is Waiting,
    ensures
        v.next(id, now).ops[i] == v.ops[i],
        rank(v, v.ops[i]) <= 40,
        rank(v.next(id, now), v.ops[i]) <= 40,
        rank(v.next(id, now), v.ops[i]) <= rank(v, v.ops[i]) + look_weight(v.senders > 0) + 4,
{
    let w = telling(v.ops[id])->0;
    assert(r.holder.contains_key(w));
    assert(r.owner.contains_key(w));
    assert(v.live(w));
}

/// An operation that is through weighs nothing.
proof fn lemma_total_without(ids: Set<int>, ranks: spec_fn(int) -> nat, id: int, top: nat)
    requires
        ranks(id) == 0,
    ensures
        total(ids.remove(id), ranks, top) == total(ids, ranks, top),
    decreases top,
{
    if top > 0 {
        lemma_total_without(ids, ranks, id, (top - 1) as nat);
        assert(at_least(ids.remove(id), ranks, top) =~= at_least(ids, ranks, top));
    }
}

/// An operation that is through and leaves does not bring the others farther from rest.
pub proof fn lemma_leaving_keeps_rest<T>(v: ChannelView<T>, id: int)
    requires
        v.ops.contains_key(id),
        done(v.ops[id]),
    ensures
        unrest(v.without(id)) == unrest(v),
{
    let v2 = v.without(id);
    let before = |i: int| rank(v, v.ops[i]);
    let after = |i: int| rank(v2, v2.ops[i]);
    lemma_total_without(v.ops.dom(), before, id, 40);
    assert(v2.ops.dom() =~= v.ops.dom().remove(id));
    lemma_same_total(v2.ops.dom(), before, after, 40);
}

/// Whether `steps`, each by an operation and at a time, can be made one after the other, no
/// operation that makes one is blocked, and the waiters can be numbered.
pub open spec fn active<T>(v: ChannelView<T>, steps: Seq<(int, u64)>) -> bool
    decreases steps.len(),
{
    steps.len() > 0 ==> {
        let (id, now) = steps[0];
        &&& v.ops.contains_key(id)
        &&& !done(v.ops[id])
        &&& !v.blocked(id)
        &&& v.registry.len() <= usize::MAX
        &&& active(v.next(id, now), steps.drop_first())
    }
}

/// No more steps can be made than the operations are from rest.
proof fn lemma_rest<T>(v: ChannelView<T>, r: Roles, steps: Seq<(int, u64)>)
    requires
        channel_inv(v, r),
        v.ops.dom().finite(),
        active(v, steps),
    ensures
        steps.len() <= unrest(v),
    decreases steps.len(),
{
    if steps.len() > 0 {
        let (id, now) = steps[0];
        lemma_step(v, r, id, now);
        lemma_closer_to_rest(v, r, id, now);
        assert(v.next(id, now).ops.dom() =~= v.ops.dom());
        lemma_rest(v.next(id, now), next_roles(v, r, id), steps.drop_first());
    }
}

impl<T> Channel<T> {
    /// Every step of an operation that is not blocked brings the operations under way closer to
    /// rest.
    pub proof fn law_step_brings_rest_closer(self, id: int, now: u64)
        requires
            self.wf(),
            self@.ops.contains_key(id),
            !done(self@.ops[id]),
            !self@.blocked(id),
        ensures
            unrest(self@.next(id, now)) < unrest(self@),
    {
        self.lemma_in_order();
        lemma_closer_to_rest(self@, self.roles(), id, now);
    }

    /// The operations under way come to rest: in whatever order those that are not blocked make
    /// their steps, after finitely many each of them is through or blocked. Between two steps
    /// there are finitely many accesses, as [`Channel::closer_to_rest`] says.
    pub proof fn law_operations_come_to_rest(self, steps: Seq<(int, u64)>)
        requires
            self.wf(),
            active(self@, steps),
        ensures
            steps.len() <= unrest(self@),
    {
        self.lemma_in_order();
        lemma_rest(self@, self.roles(), steps);
    }
}

} // verus!
