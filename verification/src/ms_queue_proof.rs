//! Why the accesses of [`crate::ms_queue`] make up a queue: the history of the linked
//! nodes, the invariant of the memory, and its preservation by every access.
use vstd::prelude::*;

use crate::memory::{Instr, Loc, MemoryView, Node};
use crate::ms_queue::{DequeueState, EnqueueState, Op};

verus! {

/// The history of a queue. Positions count the nodes in the order in which they
/// were linked, from 0 for the first sentinel.
pub struct Trace<T> {
    /// The address of the node at each position.
    pub order: Seq<usize>,
    /// The value that was linked at each position; the first sentinel has none.
    pub values: Seq<Option<T>>,
    /// The position that the head link has reached.
    pub head: int,
    /// The position that the tail link has reached.
    pub tail: int,
    /// The position of each node that was linked and is not reclaimed.
    pub pos: Map<usize, int>,
    /// The operation that won the value at a position and has not moved it out.
    pub claims: Map<int, int>,
    /// The operation that unlinked a node and has not retired it.
    pub owed: Map<usize, int>,
    /// The operation that owns a node that is not linked yet.
    pub fresh: Map<usize, int>,
}

impl<T> Trace<T> {
    /// The link of the node at position `p`.
    pub open spec fn succ(self, p: int) -> usize {
        if p + 1 < self.order.len() {
            self.order[p + 1]
        } else {
            0
        }
    }

    /// Whether the value at position `p` is still in its node.
    pub open spec fn holds_value(self, p: int) -> bool {
        p > self.head || self.claims.contains_key(p)
    }

    /// The values in the queue, the oldest first.
    pub open spec fn items(self) -> Seq<T> {
        Seq::new(
            (self.order.len() - 1 - self.head) as nat,
            |k: int| self.values[self.head + 1 + k]->0,
        )
    }
}

/// The memory is a list from the head link to the last node, with the tail link
/// somewhere on it; nodes before the head link are retired or about to be.
pub open spec fn list_inv<T>(m: MemoryView<T>, t: Trace<T>) -> bool {
    &&& 0 <= t.head <= t.tail < t.order.len()
    &&& t.values.len() == t.order.len()
    &&& forall|p: int| 0 <= p < t.order.len() ==> #[trigger] t.order[p] != 0
    &&& forall|p: int| 1 <= p < t.order.len() ==> (#[trigger] t.values[p]) is Some
    &&& m.head == t.order[t.head]
    &&& m.tail == t.order[t.tail]
    &&& forall|p: int|
        t.head <= p < t.order.len() ==> t.pos.contains_key(#[trigger] t.order[p])
            && t.pos[t.order[p]] == p
    &&& forall|a: usize| #[trigger]
        t.pos.contains_key(a) ==> {
            &&& m.nodes.contains_key(a)
            &&& 0 <= t.pos[a] < t.order.len()
            &&& t.order[t.pos[a]] == a
            &&& m.nodes[a].next == t.succ(t.pos[a])
            &&& m.nodes[a].data == if t.holds_value(t.pos[a]) {
                t.values[t.pos[a]]
            } else {
                None
            }
        }
}

/// Each node is linked, or waits to be linked, or is unlinked and not reclaimed; what is
/// unlinked is either retired or owed by the operation that unlinked it.
pub open spec fn ledger_inv<T>(m: MemoryView<T>, t: Trace<T>) -> bool {
    &&& forall|a: usize| #[trigger]
        m.nodes.contains_key(a) ==> t.pos.contains_key(a) || t.fresh.contains_key(a)
    &&& forall|a: usize| #[trigger]
        t.fresh.contains_key(a) ==> m.nodes.contains_key(a) && !t.pos.contains_key(a)
    &&& forall|a: usize| #[trigger]
        m.retired.contains(a) ==> t.pos.contains_key(a) && t.pos[a] < t.head
            && !t.owed.contains_key(a)
    &&& forall|a: usize| #[trigger] m.condemned.contains(a) ==> m.retired.contains(a)
    &&& forall|a: usize| #[trigger]
        t.owed.contains_key(a) ==> t.pos.contains_key(a) && t.pos[a] < t.head
    &&& forall|a: usize| #[trigger]
        t.pos.contains_key(a) && t.pos[a] < t.head ==> m.retired.contains(a) || t.owed.contains_key(
            a,
        )
    &&& forall|p: int| #[trigger] t.claims.contains_key(p) ==> 1 <= p <= t.head
}

/// Operation `i` owns the node `a`, which is not linked yet.
pub open spec fn owns<T>(m: MemoryView<T>, t: Trace<T>, i: int, a: usize) -> bool {
    &&& t.fresh.contains_key(a)
    &&& t.fresh[a] == i
    &&& m.nodes.contains_key(a)
    &&& m.nodes[a].next == 0
    &&& m.nodes[a].data is Some
}

/// Operation `i` protects the node `a`, which was linked and is not reclaimed: it published
/// the address before anybody looked whether the node can be reclaimed.
pub open spec fn keeps<T>(m: MemoryView<T>, t: Trace<T>, i: int, a: usize) -> bool {
    m.guards_addr(i, a) && t.pos.contains_key(a) && !m.condemned.contains(a)
}

/// What an enqueue knows in each state.
pub open spec fn enqueue_inv<T>(m: MemoryView<T>, t: Trace<T>, i: int, s: EnqueueState) -> bool {
    &&& s.unlinked_node() matches Some(a) ==> owns(m, t, i, a)
    &&& match s {
        EnqueueState::ProtectTail { node } => m.guards[i] == Seq::<usize>::empty(),
        EnqueueState::LoadNext { node, tail } => keeps(m, t, i, tail) && t.pos[tail] <= t.tail,
        EnqueueState::HelpTail { node, tail, next } => {
            &&& keeps(m, t, i, tail)
            &&& t.pos[tail] <= t.tail
            &&& next != 0
            &&& next == t.succ(t.pos[tail])
        },
        EnqueueState::Link { node, tail } => keeps(m, t, i, tail) && t.pos[tail] <= t.tail,
        EnqueueState::SwingTail { node, tail } => {
            &&& keeps(m, t, i, tail)
            &&& node != 0
            &&& node == t.succ(t.pos[tail])
        },
        _ => true,
    }
}

/// What a dequeue knows in each state.
pub open spec fn dequeue_inv<T>(
    m: MemoryView<T>,
    t: Trace<T>,
    i: int,
    s: DequeueState<T>,
) -> bool {
    match s {
        DequeueState::ProtectHead => m.guards[i] == Seq::<usize>::empty(),
        DequeueState::LoadTail { head } => keeps(m, t, i, head) && t.pos[head] <= t.head,
        DequeueState::ProtectNext { head } => {
            &&& keeps(m, t, i, head)
            &&& t.pos[head] <= t.head
            &&& t.pos[head] < t.tail
        },
        DequeueState::AdvanceHead { head, next } => {
            &&& keeps(m, t, i, head)
            &&& t.pos[head] <= t.head
            &&& t.pos[head] < t.tail
            &&& next == t.succ(t.pos[head])
            &&& m.guards_addr(i, next)
        },
        DequeueState::RetireHead { head, next } => {
            &&& keeps(m, t, i, head)
            &&& keeps(m, t, i, next)
            &&& t.owed.contains_key(head) && t.owed[head] == i
            &&& t.claims.contains_key(t.pos[next]) && t.claims[t.pos[next]] == i
        },
        DequeueState::Take { next } => {
            &&& keeps(m, t, i, next)
            &&& t.claims.contains_key(t.pos[next]) && t.claims[t.pos[next]] == i
        },
        DequeueState::LoadNext { head } => keeps(m, t, i, head) && t.pos[head] <= t.head,
        DequeueState::HelpTail { head, next } => {
            &&& keeps(m, t, i, head)
            &&& t.pos[head] <= t.head
            &&& next != 0
            &&& next == t.succ(t.pos[head])
        },
        _ => true,
    }
}

/// What the operation in slot `i` knows.
pub open spec fn op_inv<T>(m: MemoryView<T>, t: Trace<T>, i: int, op: Option<Op<T>>) -> bool {
    match op {
        Some(Op::Enqueue(s)) => enqueue_inv(m, t, i, s),
        Some(Op::Dequeue(s)) => dequeue_inv(m, t, i, s),
        None => m.guards[i] == Seq::<usize>::empty(),
    }
}

/// Whether `op` is an enqueue whose new node is `a`.
pub open spec fn op_owns<T>(op: Option<Op<T>>, a: usize) -> bool {
    op matches Some(Op::Enqueue(s)) && s.unlinked_node() == Some(a)
}

/// Whether `op` is a dequeue that has unlinked `a` and not retired it.
pub open spec fn op_owes<T>(op: Option<Op<T>>, a: usize) -> bool {
    op matches Some(Op::Dequeue(DequeueState::RetireHead { head, next })) && head == a
}

/// Whether `op` is a dequeue that has won the value at position `p` and not moved it out.
pub open spec fn op_claims<T>(t: Trace<T>, op: Option<Op<T>>, p: int) -> bool {
    op matches Some(Op::Dequeue(s)) && s.claimed_node() matches Some(a) && t.pos.contains_key(a)
        && t.pos[a] == p
}

/// Every entry of the history that names an operation names one that is under way.
pub open spec fn ops_inv<T>(t: Trace<T>, ops: Seq<Option<Op<T>>>) -> bool {
    &&& forall|a: usize| #[trigger]
        t.fresh.contains_key(a) ==> 0 <= t.fresh[a] < ops.len() && op_owns(ops[t.fresh[a]], a)
    &&& forall|a: usize| #[trigger]
        t.owed.contains_key(a) ==> 0 <= t.owed[a] < ops.len() && op_owes(ops[t.owed[a]], a)
    &&& forall|p: int| #[trigger]
        t.claims.contains_key(p) ==> 0 <= t.claims[p] < ops.len() && op_claims(
            t,
            ops[t.claims[p]],
            p,
        )
}

/// The whole invariant of a queue.
pub open spec fn queue_inv<T>(m: MemoryView<T>, t: Trace<T>, ops: Seq<Option<Op<T>>>) -> bool {
    &&& list_inv(m, t)
    &&& ledger_inv(m, t)
    &&& ops_inv(t, ops)
    &&& m.guards.len() == ops.len()
    &&& forall|i: int| 0 <= i < ops.len() ==> op_inv(m, t, i, #[trigger] ops[i])
}

/// What an access of operation `i` leaves alone: what the other operations have
/// protected, own, owe and claim; and the history only grows.
pub open spec fn evolves<T>(
    m: MemoryView<T>,
    t: Trace<T>,
    m2: MemoryView<T>,
    t2: Trace<T>,
    i: int,
) -> bool {
    &&& m2.guards.len() == m.guards.len()
    &&& forall|j: int| 0 <= j < m.guards.len() && j != i ==> #[trigger] m2.guards[j] == m.guards[j]
    &&& t.order.len() <= t2.order.len()
    &&& t.values.len() == t.order.len()
    &&& forall|p: int|
        0 <= p < t.order.len() ==> #[trigger] t2.order[p] == t.order[p] && t2.values[p]
            == t.values[p]
    &&& t.head <= t2.head
    &&& t.tail <= t2.tail
    &&& forall|j: int, a: usize|
        j != i && #[trigger] m.guards_addr(j, a) && t.pos.contains_key(a)
            && !m.condemned.contains(a) ==> t2.pos.contains_key(a) && t2.pos[a] == t.pos[a]
            && !m2.condemned.contains(a)
    &&& forall|a: usize| #[trigger]
        t.fresh.contains_key(a) && t.fresh[a] != i ==> t2.fresh.contains_key(a) && t2.fresh[a]
            == t.fresh[a] && m2.nodes.contains_key(a) && m2.nodes[a] == m.nodes[a]
    &&& forall|a: usize| #[trigger]
        t.owed.contains_key(a) && t.owed[a] != i ==> t2.owed.contains_key(a) && t2.owed[a]
            == t.owed[a]
    &&& forall|p: int| #[trigger]
        t.claims.contains_key(p) && t.claims[p] != i ==> t2.claims.contains_key(p) && t2.claims[p]
            == t.claims[p]
}

/// What an operation knows survives the accesses of the others.
pub proof fn lemma_stable<T>(
    m: MemoryView<T>,
    t: Trace<T>,
    m2: MemoryView<T>,
    t2: Trace<T>,
    i: int,
    j: int,
    op: Option<Op<T>>,
)
    requires
        list_inv(m, t),
        list_inv(m2, t2),
        evolves(m, t, m2, t2, i),
        0 <= j < m.guards.len(),
        j != i,
        op_inv(m, t, j, op),
    ensures
        op_inv(m2, t2, j, op),
{
    assert(m2.guards[j] == m.guards[j]);
    assert forall|a: usize| m.guards_addr(j, a) implies m2.guards_addr(j, a) by {}
    assert forall|a: usize| keeps(m, t, j, a) implies keeps(m2, t2, j, a) && t2.pos[a] == t.pos[a]
        && (t.succ(t.pos[a]) != 0 ==> t2.succ(t2.pos[a]) == t.succ(t.pos[a])) by {
        assert(m.guards_addr(j, a));
        if t.pos[a] + 1 < t.order.len() {
            assert(t2.order[t.pos[a] + 1] == t.order[t.pos[a] + 1]);
        }
    }
    match op {
        Some(Op::Enqueue(s)) => {
            if let Some(a) = s.unlinked_node() {
                assert(owns(m2, t2, j, a));
            }
        },
        Some(Op::Dequeue(s)) => {
            match s {
                DequeueState::AdvanceHead { head, next } => {
                    assert(t.order[t.pos[head] + 1] != 0);
                },
                _ => {},
            }
        },
        None => {},
    }
}

/// Publishing and taking back addresses changes nothing but what `i` has published.
proof fn lemma_guards_only<T>(m: MemoryView<T>, t: Trace<T>, m2: MemoryView<T>, i: int)
    requires
        list_inv(m, t),
        ledger_inv(m, t),
        0 <= i < m.guards.len(),
        m2 == (MemoryView { guards: m.guards.update(i, m2.guards[i]), ..m }),
    ensures
        list_inv(m2, t),
        ledger_inv(m2, t),
        evolves(m, t, m2, t, i),
{
    assert forall|j: int, a: usize| j != i implies m2.guards_addr(j, a) == #[trigger] m.guards_addr(
        j,
        a,
    ) by {}
}

/// The history after the tail link was advanced by one.
pub open spec fn tail_advanced<T>(t: Trace<T>) -> Trace<T> {
    Trace { tail: t.tail + 1, ..t }
}

proof fn lemma_advance_tail<T>(m: MemoryView<T>, t: Trace<T>, i: int, new: usize)
    requires
        list_inv(m, t),
        ledger_inv(m, t),
        0 <= i < m.guards.len(),
        new != 0,
        new == t.succ(t.tail),
    ensures
        list_inv(m.write(Loc::Tail, new), tail_advanced(t)),
        ledger_inv(m.write(Loc::Tail, new), tail_advanced(t)),
        evolves(m, t, m.write(Loc::Tail, new), tail_advanced(t), i),
        tail_advanced(t).items() == t.items(),
{
    let t2 = tail_advanced(t);
    assert(t2.items() =~= t.items());
    assert forall|p: int| t2.succ(p) == t.succ(p) by {}
    assert forall|p: int| t2.holds_value(p) == t.holds_value(p) by {}
}

/// The history after `node` with `value` was linked behind the last node.
pub open spec fn linked<T>(t: Trace<T>, node: usize, value: Option<T>) -> Trace<T> {
    Trace {
        order: t.order.push(node),
        values: t.values.push(value),
        pos: t.pos.insert(node, t.order.len() as int),
        fresh: t.fresh.remove(node),
        ..t
    }
}

proof fn lemma_link<T>(m: MemoryView<T>, t: Trace<T>, i: int, node: usize, tail: usize)
    requires
        list_inv(m, t),
        ledger_inv(m, t),
        0 <= i < m.guards.len(),
        owns(m, t, i, node),
        node != 0,
        t.pos.contains_key(tail),
        m.nodes[tail].next == 0,
    ensures
        t.pos[tail] == t.order.len() - 1,
        list_inv(m.write(Loc::Next(tail), node), linked(t, node, m.nodes[node].data)),
        ledger_inv(m.write(Loc::Next(tail), node), linked(t, node, m.nodes[node].data)),
        evolves(
            m,
            t,
            m.write(Loc::Next(tail), node),
            linked(t, node, m.nodes[node].data),
            i,
        ),
        linked(t, node, m.nodes[node].data).items() == t.items().push(m.nodes[node].data->0),
{
    let m2 = m.write(Loc::Next(tail), node);
    let t2 = linked(t, node, m.nodes[node].data);
    let n = t.order.len() as int;
    assert(t.pos[tail] == n - 1) by {
        if t.pos[tail] < n - 1 {
            assert(t.order[t.pos[tail] + 1] != 0);
        }
    }
    assert(t2.items() =~= t.items().push(m.nodes[node].data->0));
    assert forall|p: int| 0 <= p < n - 1 implies #[trigger] t2.succ(p) == t.succ(p) by {}
    assert(t2.succ(n - 1) == node);
    assert forall|a: usize| #[trigger] t.pos.contains_key(a) && a != tail implies t.pos[a] != n
        - 1 by {
        assert(t.order[t.pos[a]] == a);
    }
    assert forall|p: int| t.head <= p < t2.order.len() implies t2.pos.contains_key(
        #[trigger] t2.order[p],
    ) && t2.pos[t2.order[p]] == p by {
        if p < n {
            assert(t.pos.contains_key(t.order[p]));
        }
    }
}

/// The history after operation `i` advanced the head link past `head`.
pub open spec fn head_advanced<T>(t: Trace<T>, i: int, head: usize) -> Trace<T> {
    Trace {
        head: t.head + 1,
        claims: t.claims.insert(t.head + 1, i),
        owed: t.owed.insert(head, i),
        ..t
    }
}

proof fn lemma_advance_head<T>(m: MemoryView<T>, t: Trace<T>, i: int, head: usize, next: usize)
    requires
        list_inv(m, t),
        ledger_inv(m, t),
        0 <= i < m.guards.len(),
        t.pos.contains_key(head),
        m.head == head,
        t.pos[head] < t.tail,
        next == t.succ(t.pos[head]),
    ensures
        t.pos[head] == t.head,
        t.pos.contains_key(next),
        t.pos[next] == t.head + 1,
        list_inv(m.write(Loc::Head, next), head_advanced(t, i, head)),
        ledger_inv(m.write(Loc::Head, next), head_advanced(t, i, head)),
        evolves(m, t, m.write(Loc::Head, next), head_advanced(t, i, head), i),
        t.items().len() > 0,
        t.items().first() == t.values[t.head + 1]->0,
        head_advanced(t, i, head).items() == t.items().drop_first(),
{
    let m2 = m.write(Loc::Head, next);
    let t2 = head_advanced(t, i, head);
    assert(t.order[t.head] == head);
    assert(t.pos[head] == t.head);
    assert(t.order[t.head + 1] == next);
    assert(t2.items() =~= t.items().drop_first());
    assert forall|p: int| t2.succ(p) == t.succ(p) by {}
    assert forall|p: int| 0 <= p implies t2.holds_value(p) == t.holds_value(p) by {}
    assert forall|a: usize| #[trigger] t.pos.contains_key(a) && t.pos[a] == t.head implies a
        == head by {
        assert(t.order[t.pos[a]] == a);
    }
}

/// The history after the unlinked node `head` was retired.
pub open spec fn head_retired<T>(t: Trace<T>, head: usize) -> Trace<T> {
    Trace { owed: t.owed.remove(head), ..t }
}

proof fn lemma_retire_head<T>(m: MemoryView<T>, t: Trace<T>, i: int, head: usize)
    requires
        list_inv(m, t),
        ledger_inv(m, t),
        0 <= i < m.guards.len(),
        t.owed.contains_key(head),
        t.owed[head] == i,
    ensures
        list_inv(m.retire(head), head_retired(t, head)),
        ledger_inv(m.retire(head), head_retired(t, head)),
        evolves(m, t, m.retire(head), head_retired(t, head), i),
        head_retired(t, head).items() == t.items(),
{
    let t2 = head_retired(t, head);
    assert(t2.items() =~= t.items());
    assert forall|p: int| t2.succ(p) == t.succ(p) by {}
    assert forall|p: int| t2.holds_value(p) == t.holds_value(p) by {}
}

/// The history after the node at `a` was reclaimed.
pub open spec fn reclaimed<T>(t: Trace<T>, a: usize) -> Trace<T> {
    Trace { pos: t.pos.remove(a), ..t }
}

/// A node that is retired and that nobody has published can be condemned at any time: no
/// operation under way relies on it.
pub proof fn lemma_condemn<T>(m: MemoryView<T>, t: Trace<T>, ops: Seq<Option<Op<T>>>, a: usize)
    requires
        queue_inv(m, t, ops),
        m.condemnable(a),
    ensures
        queue_inv(m.condemn(a), t, ops),
        forall|j: int|
            0 <= j < ops.len() && (#[trigger] ops[j]) is Some ==> status(
                m.condemn(a),
                t,
                ops[j]->0,
            ) == status(m, t, ops[j]->0),
{
    let m2 = m.condemn(a);
    assert forall|j: int, b: usize| #[trigger] m.guards_addr(j, b) implies b != a by {
        if b == a {
            assert(m.guarded(a));
        }
    }
    assert(evolves(m, t, m2, t, -1));
    assert forall|j: int| 0 <= j < ops.len() implies op_inv(m2, t, j, #[trigger] ops[j]) by {
        assert(op_inv(m, t, j, ops[j]));
        lemma_stable(m, t, m2, t, -1, j, ops[j]);
    }
}

/// A node that is condemned can be reclaimed at any time: it holds no value, and no operation
/// under way relies on it.
pub proof fn lemma_reclaim<T>(m: MemoryView<T>, t: Trace<T>, ops: Seq<Option<Op<T>>>, a: usize)
    requires
        queue_inv(m, t, ops),
        m.condemned.contains(a),
    ensures
        m.nodes.contains_key(a),
        m.nodes[a].data is None,
        queue_inv(m.reclaim(a), reclaimed(t, a), ops),
        reclaimed(t, a).items() == t.items(),
        forall|j: int|
            0 <= j < ops.len() && (#[trigger] ops[j]) is Some ==> status(
                m.reclaim(a),
                reclaimed(t, a),
                ops[j]->0,
            ) == status(m, t, ops[j]->0) && rank(reclaimed(t, a), ops[j]->0) == rank(t, ops[j]->0),
        work(reclaimed(t, a), ops) == work(t, ops),
{
    let m2 = m.reclaim(a);
    let t2 = reclaimed(t, a);
    assert(t.pos.contains_key(a) && t.pos[a] < t.head);
    let p = t.pos[a];
    if t.claims.contains_key(p) {
        let j = t.claims[p];
        assert(op_claims(t, ops[j], p));
        assert(op_inv(m, t, j, ops[j]));
        match ops[j] {
            Some(Op::Dequeue(s)) => {
                let b = s.claimed_node()->0;
                assert(keeps(m, t, j, b));
                assert(t.order[t.pos[b]] == b);
                assert(t.order[t.pos[a]] == a);
            },
            _ => {},
        }
    }
    assert(t2.items() =~= t.items());
    assert forall|p: int| t2.succ(p) == t.succ(p) by {}
    assert forall|p: int| t2.holds_value(p) == t.holds_value(p) by {}
    assert forall|p: int| t.head <= p < t.order.len() implies t2.pos.contains_key(
        #[trigger] t2.order[p],
    ) && t2.pos[t2.order[p]] == p by {
        assert(t.pos.contains_key(t.order[p]));
    }
    assert forall|j: int, b: usize|
        #[trigger] m.guards_addr(j, b) && t.pos.contains_key(b) && !m.condemned.contains(
        b,
    ) implies t2.pos.contains_key(b) && t2.pos[b] == t.pos[b] by {}
    assert(evolves(m, t, m2, t2, -1));
    assert forall|j: int| 0 <= j < ops.len() implies op_inv(m2, t2, j, #[trigger] ops[j]) by {
        assert(op_inv(m, t, j, ops[j]));
        lemma_stable(m, t, m2, t2, -1, j, ops[j]);
    }
    assert forall|q: int| #[trigger] t2.claims.contains_key(q) implies 0 <= t2.claims[q]
        < ops.len() && op_claims(t2, ops[t2.claims[q]], q) by {
        let j = t.claims[q];
        assert(op_claims(t, ops[j], q));
        assert(op_inv(m, t, j, ops[j]));
        match ops[j] {
            Some(Op::Dequeue(s)) => {
                assert(m.guards_addr(j, s.claimed_node()->0));
            },
            _ => {},
        }
    }
    assert forall|j: int| 0 <= j < ops.len() && (#[trigger] ops[j]) is Some implies status(
        m2,
        t2,
        ops[j]->0,
    ) == status(m, t, ops[j]->0) && rank(t2, ops[j]->0) == rank(t, ops[j]->0) by {
        assert(op_inv(m, t, j, ops[j]));
        assert forall|b: usize| keeps(m, t, j, b) implies t2.pos[b] == t.pos[b] by {
            assert(m.guards_addr(j, b));
        }
        match ops[j]->0 {
            Op::Enqueue(s) => {
                if let Some(b) = s.unlinked_node() {
                    assert(owns(m, t, j, b));
                }
            },
            Op::Dequeue(s) => {
                if let Some(b) = s.claimed_node() {
                    assert(keeps(m, t, j, b));
                }
            },
        }
    }
    lemma_same_work(t, t2, ops);
}

/// The history after the value was moved out of the node at `next`.
pub open spec fn value_taken<T>(t: Trace<T>, next: usize) -> Trace<T> {
    Trace { claims: t.claims.remove(t.pos[next]), ..t }
}

proof fn lemma_take<T>(m: MemoryView<T>, t: Trace<T>, i: int, next: usize)
    requires
        list_inv(m, t),
        ledger_inv(m, t),
        0 <= i < m.guards.len(),
        t.pos.contains_key(next),
        t.claims.contains_key(t.pos[next]),
        t.claims[t.pos[next]] == i,
    ensures
        m.nodes[next].data == t.values[t.pos[next]],
        m.nodes[next].data is Some,
        list_inv(m.after(i, Instr::Take(next)), value_taken(t, next)),
        ledger_inv(m.after(i, Instr::Take(next)), value_taken(t, next)),
        evolves(m, t, m.after(i, Instr::Take(next)), value_taken(t, next), i),
        value_taken(t, next).items() == t.items(),
{
    let m2 = m.after(i, Instr::Take(next));
    let t2 = value_taken(t, next);
    assert(t2.items() =~= t.items());
    assert forall|p: int| t2.succ(p) == t.succ(p) by {}
    assert forall|a: usize| #[trigger] t.pos.contains_key(a) && a != next implies t.pos[a]
        != t.pos[next] by {
        assert(t.order[t.pos[a]] == a);
        assert(t.order[t.pos[next]] == next);
    }
}

/// How far an operation has come, as its caller can tell.
#[verifier::ext_equal]
pub enum Status<T> {
    /// An enqueue of this value has not taken effect.
    Enqueueing(T),
    /// A dequeue has not taken effect.
    Dequeueing,
    /// An enqueue has taken effect.
    Enqueued,
    /// A dequeue has taken effect and will return this.
    Dequeued(Option<T>),
}

/// The status of an enqueue.
pub open spec fn enqueue_status<T>(m: MemoryView<T>, s: EnqueueState) -> Status<T> {
    match s.unlinked_node() {
        Some(a) => Status::Enqueueing(m.nodes[a].data->0),
        None => Status::Enqueued,
    }
}

/// The status of a dequeue.
pub open spec fn dequeue_status<T>(t: Trace<T>, s: DequeueState<T>) -> Status<T> {
    match s {
        DequeueState::RetireHead { head, next } => Status::Dequeued(t.values[t.pos[next]]),
        DequeueState::Take { next } => Status::Dequeued(t.values[t.pos[next]]),
        DequeueState::Finish { value } => Status::Dequeued(value),
        _ => Status::Dequeueing,
    }
}

/// The status of an operation.
pub open spec fn status<T>(m: MemoryView<T>, t: Trace<T>, op: Op<T>) -> Status<T> {
    match op {
        Op::Enqueue(s) => enqueue_status(m, s),
        Op::Dequeue(s) => dequeue_status(t, s),
    }
}

/// How many accesses an enqueue that starts now makes if nobody interferes.
pub open spec fn enqueue_fuel<T>(t: Trace<T>) -> int {
    4 * (t.order.len() - 1 - t.tail) + 5
}

/// How many accesses are left to an enqueue if nobody interferes, at most.
pub open spec fn enqueue_rank<T>(t: Trace<T>, s: EnqueueState) -> int {
    let last = t.order.len() - 1;
    match s {
        EnqueueState::ProtectTail { node } => enqueue_fuel(t),
        EnqueueState::LoadNext { node, tail } => if t.pos[tail] == last {
            4
        } else if t.pos[tail] == t.tail {
            enqueue_fuel(t) - 1
        } else {
            enqueue_fuel(t) + 3
        },
        EnqueueState::HelpTail { node, tail, next } => if t.pos[tail] == t.tail {
            enqueue_fuel(t) - 2
        } else {
            enqueue_fuel(t) + 2
        },
        EnqueueState::Link { node, tail } => if t.pos[tail] == last {
            3
        } else {
            enqueue_fuel(t) + 2
        },
        EnqueueState::SwingTail { node, tail } => 2,
        EnqueueState::Retry { node } => enqueue_fuel(t) + 1,
        EnqueueState::Finish => 1,
    }
}

/// How many accesses a dequeue that starts now makes if nobody interferes.
pub open spec fn dequeue_fuel<T>(t: Trace<T>) -> int {
    if t.head < t.tail {
        7
    } else if t.head == t.order.len() - 1 {
        4
    } else {
        12
    }
}

/// How many accesses are left to a dequeue if nobody interferes, at most.
pub open spec fn dequeue_rank<T>(t: Trace<T>, s: DequeueState<T>) -> int {
    let last = t.order.len() - 1;
    match s {
        DequeueState::ProtectHead => dequeue_fuel(t),
        DequeueState::LoadTail { head } => if t.pos[head] == t.head {
            dequeue_fuel(t) - 1
        } else {
            dequeue_fuel(t) + 4
        },
        DequeueState::ProtectNext { head } => if t.pos[head] == t.head {
            5
        } else {
            dequeue_fuel(t) + 3
        },
        DequeueState::AdvanceHead { head, next } => if t.pos[head] == t.head {
            4
        } else {
            dequeue_fuel(t) + 2
        },
        DequeueState::RetireHead { head, next } => 3,
        DequeueState::Take { next } => 2,
        DequeueState::LoadNext { head } => if t.pos[head] == last {
            2
        } else if t.pos[head] == t.tail {
            10
        } else {
            dequeue_fuel(t) + 3
        },
        DequeueState::HelpTail { head, next } => if t.pos[head] == t.tail {
            9
        } else {
            dequeue_fuel(t) + 2
        },
        DequeueState::Retry => dequeue_fuel(t) + 1,
        DequeueState::Finish { value } => 1,
    }
}

/// How many accesses are left to an operation if nobody interferes, at most.
pub open spec fn rank<T>(t: Trace<T>, op: Op<T>) -> int {
    match op {
        Op::Enqueue(s) => enqueue_rank(t, s),
        Op::Dequeue(s) => dequeue_rank(t, s),
    }
}

/// Whether the links are where they were and no node was linked since.
pub open spec fn same_links<T>(t: Trace<T>, t2: Trace<T>) -> bool {
    t.order.len() == t2.order.len() && t.head == t2.head && t.tail == t2.tail
}

/// An access of operation `i` that keeps its own part of the invariant keeps all of it,
/// and leaves the other operations where they were.
pub proof fn lemma_frame<T>(
    m: MemoryView<T>,
    t: Trace<T>,
    ops: Seq<Option<Op<T>>>,
    m2: MemoryView<T>,
    t2: Trace<T>,
    i: int,
    op: Option<Op<T>>,
)
    requires
        queue_inv(m, t, ops),
        0 <= i < ops.len(),
        list_inv(m2, t2),
        ledger_inv(m2, t2),
        evolves(m, t, m2, t2, i),
        op_inv(m2, t2, i, op),
        ops_inv(t2, ops.update(i, op)),
    ensures
        queue_inv(m2, t2, ops.update(i, op)),
        forall|j: int|
            0 <= j < ops.len() && j != i && (#[trigger] ops[j]) is Some ==> status(
                m2,
                t2,
                ops[j]->0,
            ) == status(m, t, ops[j]->0) && (same_links(t, t2) ==> rank(t2, ops[j]->0) == rank(
                t,
                ops[j]->0,
            )),
{
    let ops2 = ops.update(i, op);
    assert forall|j: int| 0 <= j < ops2.len() implies op_inv(m2, t2, j, #[trigger] ops2[j]) by {
        if j != i {
            assert(op_inv(m, t, j, ops[j]));
            lemma_stable(m, t, m2, t2, i, j, ops[j]);
        }
    }
    assert forall|j: int| 0 <= j < ops.len() && j != i && (#[trigger] ops[j]) is Some implies status(
        m2,
        t2,
        ops[j]->0,
    ) == status(m, t, ops[j]->0) && (same_links(t, t2) ==> rank(t2, ops[j]->0) == rank(
        t,
        ops[j]->0,
    )) by {
        assert(op_inv(m, t, j, ops[j]));
        assert forall|a: usize| keeps(m, t, j, a) implies t2.pos[a] == t.pos[a] by {
            assert(m.guards_addr(j, a));
        }
        match ops[j]->0 {
            Op::Enqueue(s) => {
                if let Some(a) = s.unlinked_node() {
                    assert(owns(m, t, j, a));
                }
            },
            Op::Dequeue(s) => {
                if let Some(a) = s.claimed_node() {
                    assert(keeps(m, t, j, a));
                    assert(t2.values[t.pos[a]] == t.values[t.pos[a]]);
                }
            },
        }
    }
}

/// The history after the next access of an enqueue.
pub open spec fn enqueue_trace<T>(m: MemoryView<T>, t: Trace<T>, s: EnqueueState) -> Trace<T> {
    match s {
        EnqueueState::HelpTail { node, tail, next } if m.tail == tail => tail_advanced(t),
        EnqueueState::SwingTail { node, tail } if m.tail == tail => tail_advanced(t),
        EnqueueState::Link { node, tail } if m.nodes[tail].next == 0 => linked(
            t,
            node,
            m.nodes[node].data,
        ),
        _ => t,
    }
}

/// The next access of an enqueue is safe, keeps the invariant, takes effect when it
/// links the node, and brings the operation closer to its end.
pub proof fn lemma_enqueue_step<T>(
    m: MemoryView<T>,
    t: Trace<T>,
    ops: Seq<Option<Op<T>>>,
    i: int,
    s: EnqueueState,
)
    requires
        queue_inv(m, t, ops),
        0 <= i < ops.len(),
        ops[i] == Some(Op::<T>::Enqueue(s)),
        !(s is Finish),
        !m.nodes.contains_key(0),
    ensures
        m.allows(s.next_instr()),
        ({
            let m2 = m.after(i, s.next_instr());
            let t2 = enqueue_trace(m, t, s);
            let s2 = s.after(m.word(s.next_instr()));
            &&& queue_inv(m2, t2, ops.update(i, Some(Op::Enqueue(s2))))
            &&& evolves(m, t, m2, t2, i)
            &&& 0 < enqueue_rank(t2, s2) < enqueue_rank(t, s)
            &&& if s.unlinked_node() is Some && s2.unlinked_node() is None {
                t2.items() == t.items().push(m.nodes[s.unlinked_node()->0].data->0)
            } else {
                t2.items() == t.items() && enqueue_status(m2, s2) == enqueue_status(m, s)
            }
        }),
{
    let instr = s.next_instr();
    let m2 = m.after(i, instr);
    let t2 = enqueue_trace(m, t, s);
    let s2 = s.after(m.word(instr));
    let op2 = Some(Op::<T>::Enqueue(s2));
    let ops2 = ops.update(i, op2);
    assert(op_inv(m, t, i, ops[i]));
    match s {
        EnqueueState::ProtectTail { node } => {
            let tail = t.order[t.tail];
            assert(t.pos.contains_key(tail));
            assert(m2.guards[i].last() == tail);
            assert(m2.guards_addr(i, tail));
            lemma_guards_only(m, t, m2, i);
        },
        EnqueueState::LoadNext { node, tail } => {
            assert(m2.guards =~= m.guards.update(i, m.guards[i]));
            lemma_guards_only(m, t, m2, i);
            if t.pos[tail] < t.order.len() - 1 {
                assert(t.order[t.pos[tail] + 1] != 0);
            }
        },
        EnqueueState::HelpTail { node, tail, next } => {
            if m.tail == tail {
                assert(t.pos[t.order[t.tail]] == t.tail);
                lemma_advance_tail(m, t, i, next);
            } else {
                assert(m2.guards =~= m.guards.update(i, m.guards[i]));
                lemma_guards_only(m, t, m2, i);
                assert(t.order[t.pos[tail]] == tail);
            }
        },
        EnqueueState::Link { node, tail } => {
            if m.nodes[tail].next == 0 {
                lemma_link(m, t, i, node, tail);
                assert(m.guards_addr(i, tail));
                assert(t2.succ(t2.pos[tail]) == node);
            } else {
                assert(m2.guards =~= m.guards.update(i, m.guards[i]));
                lemma_guards_only(m, t, m2, i);
            }
        },
        EnqueueState::SwingTail { node, tail } => {
            if m.tail == tail {
                assert(t.pos[t.order[t.tail]] == t.tail);
                lemma_advance_tail(m, t, i, node);
            } else {
                assert(m2.guards =~= m.guards.update(i, m.guards[i]));
                lemma_guards_only(m, t, m2, i);
            }
        },
        _ => {
            lemma_guards_only(m, t, m2, i);
        },
    }
    assert(ops_inv(t2, ops2)) by {
        assert forall|a: usize| #[trigger] t2.fresh.contains_key(a) implies 0 <= t2.fresh[a]
            < ops2.len() && op_owns(ops2[t2.fresh[a]], a) by {
            assert(t.fresh.contains_key(a));
            assert(op_owns(ops[t.fresh[a]], a));
        }
        assert forall|a: usize| #[trigger] t2.owed.contains_key(a) implies 0 <= t2.owed[a]
            < ops2.len() && op_owes(ops2[t2.owed[a]], a) by {
            assert(op_owes(ops[t.owed[a]], a));
        }
        assert forall|p: int| #[trigger] t2.claims.contains_key(p) implies 0 <= t2.claims[p]
            < ops2.len() && op_claims(t2, ops2[t2.claims[p]], p) by {
            assert(op_claims(t, ops[t.claims[p]], p));
        }
    }
    lemma_frame(m, t, ops, m2, t2, i, op2);
}

/// The history after the next access of a dequeue.
pub open spec fn dequeue_trace<T>(
    m: MemoryView<T>,
    t: Trace<T>,
    i: int,
    s: DequeueState<T>,
) -> Trace<T> {
    match s {
        DequeueState::HelpTail { head, next } if m.tail == head => tail_advanced(t),
        DequeueState::AdvanceHead { head, next } if m.head == head => head_advanced(t, i, head),
        DequeueState::RetireHead { head, next } => head_retired(t, head),
        DequeueState::Take { next } => value_taken(t, next),
        _ => t,
    }
}

/// The state of a dequeue after its next access.
pub open spec fn dequeue_next<T>(m: MemoryView<T>, s: DequeueState<T>) -> DequeueState<T> {
    match s {
        DequeueState::Take { next } => DequeueState::Finish { value: m.nodes[next].data },
        _ => s.after(m.word(s.next_instr())),
    }
}

/// What a dequeue claims and owes after its next access, the history knows of.
proof fn lemma_dequeue_ops<T>(
    m: MemoryView<T>,
    t: Trace<T>,
    ops: Seq<Option<Op<T>>>,
    i: int,
    s: DequeueState<T>,
)
    requires
        queue_inv(m, t, ops),
        0 <= i < ops.len(),
        ops[i] == Some(Op::<T>::Dequeue(s)),
        list_inv(m.after(i, s.next_instr()), dequeue_trace(m, t, i, s)),
        evolves(m, t, m.after(i, s.next_instr()), dequeue_trace(m, t, i, s), i),
        dequeue_inv(
            m.after(i, s.next_instr()),
            dequeue_trace(m, t, i, s),
            i,
            dequeue_next(m, s),
        ),
        s matches DequeueState::AdvanceHead { head, next } ==> m.head == head
            ==> t.pos.contains_key(next) && t.pos[next] == t.head + 1,
    ensures
        ops_inv(dequeue_trace(m, t, i, s), ops.update(i, Some(Op::Dequeue(dequeue_next(m, s))))),
{
    let t2 = dequeue_trace(m, t, i, s);
    let s2 = dequeue_next(m, s);
    let ops2 = ops.update(i, Some(Op::Dequeue(s2)));
    assert(op_inv(m, t, i, ops[i]));
    assert forall|a: usize| #[trigger] t2.fresh.contains_key(a) implies 0 <= t2.fresh[a]
        < ops2.len() && op_owns(ops2[t2.fresh[a]], a) by {
        assert(op_owns(ops[t.fresh[a]], a));
    }
    assert forall|a: usize| #[trigger] t2.owed.contains_key(a) implies 0 <= t2.owed[a]
        < ops2.len() && op_owes(ops2[t2.owed[a]], a) by {
        if t.owed.contains_key(a) {
            assert(op_owes(ops[t.owed[a]], a));
        }
    }
    assert forall|p: int| #[trigger] t2.claims.contains_key(p) implies 0 <= t2.claims[p]
        < ops2.len() && op_claims(t2, ops2[t2.claims[p]], p) by {
        if t.claims.contains_key(p) {
            let j = t.claims[p];
            assert(op_claims(t, ops[j], p));
            assert(op_inv(m, t, j, ops[j]));
            match ops[j] {
                Some(Op::Dequeue(sj)) => {
                    let b = sj.claimed_node()->0;
                    assert(m.guards_addr(j, b));
                    if j == i {
                        match s {
                            DequeueState::Take { next } => {
                                assert(t.order[t.pos[b]] == b);
                            },
                            _ => {},
                        }
                    }
                },
                _ => {},
            }
        }
    }
}

/// The next access of a dequeue is safe, keeps the invariant, takes effect when it
/// advances the head link or finds the queue empty, and brings the operation closer to its end.
pub proof fn lemma_dequeue_step<T>(
    m: MemoryView<T>,
    t: Trace<T>,
    ops: Seq<Option<Op<T>>>,
    i: int,
    s: DequeueState<T>,
)
    requires
        queue_inv(m, t, ops),
        0 <= i < ops.len(),
        ops[i] == Some(Op::<T>::Dequeue(s)),
        !(s is Finish),
    ensures
        m.allows(s.next_instr()),
        ({
            let m2 = m.after(i, s.next_instr());
            let t2 = dequeue_trace(m, t, i, s);
            let s2 = dequeue_next(m, s);
            &&& queue_inv(m2, t2, ops.update(i, Some(Op::Dequeue(s2))))
            &&& evolves(m, t, m2, t2, i)
            &&& 0 < dequeue_rank(t2, s2) < dequeue_rank(t, s)
            &&& if dequeue_status(t, s) is Dequeueing && dequeue_status(t2, s2) is Dequeued {
                if t.items().len() > 0 {
                    &&& t2.items() == t.items().drop_first()
                    &&& dequeue_status(t2, s2) == Status::Dequeued(Some(t.items().first()))
                } else {
                    &&& t2.items() == t.items()
                    &&& dequeue_status(t2, s2) == Status::<T>::Dequeued(None)
                }
            } else {
                t2.items() == t.items() && dequeue_status(t2, s2) == dequeue_status(t, s)
            }
        }),
{
    let instr = s.next_instr();
    let m2 = m.after(i, instr);
    let t2 = dequeue_trace(m, t, i, s);
    let s2 = dequeue_next(m, s);
    let op2 = Some(Op::Dequeue(s2));
    let ops2 = ops.update(i, op2);
    assert(op_inv(m, t, i, ops[i]));
    match s {
        DequeueState::ProtectHead => {
            let head = t.order[t.head];
            assert(t.pos.contains_key(head));
            assert(m2.guards[i].last() == head);
            assert(m2.guards_addr(i, head));
            lemma_guards_only(m, t, m2, i);
        },
        DequeueState::LoadTail { head } => {
            assert(m2.guards =~= m.guards.update(i, m.guards[i]));
            lemma_guards_only(m, t, m2, i);
            assert(t.order[t.pos[head]] == head);
            assert(t.pos[t.order[t.tail]] == t.tail);
        },
        DequeueState::ProtectNext { head } => {
            let next = t.succ(t.pos[head]);
            assert(t.order[t.pos[head] + 1] != 0);
            let k = choose|k: int| 0 <= k < m.guards[i].len() && m.guards[i][k] == head;
            assert(m2.guards[i][k] == head);
            assert(m2.guards[i].last() == next);
            assert(m2.guards_addr(i, head));
            assert(m2.guards_addr(i, next));
            lemma_guards_only(m, t, m2, i);
        },
        DequeueState::AdvanceHead { head, next } => {
            if m.head == head {
                lemma_advance_head(m, t, i, head, next);
            } else {
                assert(m2.guards =~= m.guards.update(i, m.guards[i]));
                lemma_guards_only(m, t, m2, i);
                assert(t.order[t.pos[head]] == head);
            }
        },
        DequeueState::RetireHead { head, next } => {
            lemma_retire_head(m, t, i, head);
        },
        DequeueState::Take { next } => {
            lemma_take(m, t, i, next);
        },
        DequeueState::LoadNext { head } => {
            assert(m2.guards =~= m.guards.update(i, m.guards[i]));
            lemma_guards_only(m, t, m2, i);
            if t.pos[head] < t.order.len() - 1 {
                assert(t.order[t.pos[head] + 1] != 0);
            }
        },
        DequeueState::HelpTail { head, next } => {
            if m.tail == head {
                assert(t.pos[t.order[t.tail]] == t.tail);
                lemma_advance_tail(m, t, i, next);
            } else {
                assert(m2.guards =~= m.guards.update(i, m.guards[i]));
                lemma_guards_only(m, t, m2, i);
                assert(t.order[t.pos[head]] == head);
            }
        },
        _ => {
            lemma_guards_only(m, t, m2, i);
        },
    }
    lemma_dequeue_ops(m, t, ops, i, s);
    lemma_frame(m, t, ops, m2, t2, i, op2);
}

/// An operation that is through releases what it has protected and leaves.
pub proof fn lemma_finish<T>(m: MemoryView<T>, t: Trace<T>, ops: Seq<Option<Op<T>>>, i: int)
    requires
        queue_inv(m, t, ops),
        0 <= i < ops.len(),
        ops[i] matches Some(Op::Enqueue(EnqueueState::Finish)) || ops[i] matches Some(
            Op::Dequeue(DequeueState::Finish { value }),
        ),
    ensures
        queue_inv(m.release(i), t, ops.update(i, None)),
        evolves(m, t, m.release(i), t, i),
{
    let m2 = m.release(i);
    let ops2 = ops.update(i, None);
    lemma_guards_only(m, t, m2, i);
    assert(ops_inv(t, ops2)) by {
        assert forall|a: usize| #[trigger] t.fresh.contains_key(a) implies 0 <= t.fresh[a]
            < ops2.len() && op_owns(ops2[t.fresh[a]], a) by {
            assert(op_owns(ops[t.fresh[a]], a));
        }
        assert forall|a: usize| #[trigger] t.owed.contains_key(a) implies 0 <= t.owed[a]
            < ops2.len() && op_owes(ops2[t.owed[a]], a) by {
            assert(op_owes(ops[t.owed[a]], a));
        }
        assert forall|p: int| #[trigger] t.claims.contains_key(p) implies 0 <= t.claims[p]
            < ops2.len() && op_claims(t, ops2[t.claims[p]], p) by {
            assert(op_claims(t, ops[t.claims[p]], p));
        }
    }
    lemma_frame(m, t, ops, m2, t, i, None);
}

/// The history after operation `i` allocated `node`.
pub open spec fn node_added<T>(t: Trace<T>, node: usize, i: int) -> Trace<T> {
    Trace { fresh: t.fresh.insert(node, i), ..t }
}

/// An enqueue starts with a node of its own.
pub proof fn lemma_begin_enqueue<T>(
    m: MemoryView<T>,
    t: Trace<T>,
    ops: Seq<Option<Op<T>>>,
    i: int,
    node: usize,
    value: T,
)
    requires
        queue_inv(m, t, ops),
        0 <= i < ops.len(),
        ops[i] is None,
        node != 0,
        !m.nodes.contains_key(node),
    ensures
        ({
            let m2 = MemoryView {
                nodes: m.nodes.insert(node, Node { data: Some(value), next: 0 }),
                ..m
            };
            let t2 = node_added(t, node, i);
            let op2 = Some(Op::<T>::Enqueue(EnqueueState::ProtectTail { node }));
            &&& queue_inv(m2, t2, ops.update(i, op2))
            &&& evolves(m, t, m2, t2, i)
            &&& t2.items() == t.items()
        }),
{
    let m2 = MemoryView { nodes: m.nodes.insert(node, Node { data: Some(value), next: 0 }), ..m };
    let t2 = node_added(t, node, i);
    let op2 = Some(Op::<T>::Enqueue(EnqueueState::ProtectTail { node }));
    let ops2 = ops.update(i, op2);
    assert(t2.items() =~= t.items());
    assert(op_inv(m, t, i, ops[i]));
    assert forall|p: int| t2.succ(p) == t.succ(p) by {}
    assert forall|p: int| t2.holds_value(p) == t.holds_value(p) by {}
    assert(ops_inv(t2, ops2)) by {
        assert forall|a: usize| #[trigger] t2.fresh.contains_key(a) implies 0 <= t2.fresh[a]
            < ops2.len() && op_owns(ops2[t2.fresh[a]], a) by {
            if a != node {
                assert(op_owns(ops[t.fresh[a]], a));
            }
        }
        assert forall|a: usize| #[trigger] t2.owed.contains_key(a) implies 0 <= t2.owed[a]
            < ops2.len() && op_owes(ops2[t2.owed[a]], a) by {
            assert(op_owes(ops[t.owed[a]], a));
        }
        assert forall|p: int| #[trigger] t2.claims.contains_key(p) implies 0 <= t2.claims[p]
            < ops2.len() && op_claims(t2, ops2[t2.claims[p]], p) by {
            assert(op_claims(t, ops[t.claims[p]], p));
        }
    }
    lemma_frame(m, t, ops, m2, t2, i, op2);
}

/// A dequeue starts with nothing.
pub proof fn lemma_begin_dequeue<T>(m: MemoryView<T>, t: Trace<T>, ops: Seq<Option<Op<T>>>, i: int)
    requires
        queue_inv(m, t, ops),
        0 <= i < ops.len(),
        ops[i] is None,
    ensures
        queue_inv(m, t, ops.update(i, Some(Op::Dequeue(DequeueState::ProtectHead)))),
        evolves(m, t, m, t, i),
{
    let op2 = Some(Op::Dequeue(DequeueState::<T>::ProtectHead));
    let ops2 = ops.update(i, op2);
    assert(op_inv(m, t, i, ops[i]));
    assert(ops_inv(t, ops2)) by {
        assert forall|a: usize| #[trigger] t.fresh.contains_key(a) implies 0 <= t.fresh[a]
            < ops2.len() && op_owns(ops2[t.fresh[a]], a) by {
            assert(op_owns(ops[t.fresh[a]], a));
        }
        assert forall|a: usize| #[trigger] t.owed.contains_key(a) implies 0 <= t.owed[a]
            < ops2.len() && op_owes(ops2[t.owed[a]], a) by {
            assert(op_owes(ops[t.owed[a]], a));
        }
        assert forall|p: int| #[trigger] t.claims.contains_key(p) implies 0 <= t.claims[p]
            < ops2.len() && op_claims(t, ops2[t.claims[p]], p) by {
            assert(op_claims(t, ops[t.claims[p]], p));
        }
    }
    lemma_frame(m, t, ops, m, t, i, op2);
}

/// A new slot for operations changes nothing.
pub proof fn lemma_add_slot<T>(m: MemoryView<T>, t: Trace<T>, ops: Seq<Option<Op<T>>>)
    requires
        queue_inv(m, t, ops),
    ensures
        queue_inv(
            MemoryView { guards: m.guards.push(Seq::empty()), ..m },
            t,
            ops.push(None),
        ),
{
    let m2 = MemoryView { guards: m.guards.push(Seq::empty()), ..m };
    let ops2 = ops.push(None);
    assert forall|i: int| 0 <= i < ops2.len() implies op_inv(m2, t, i, #[trigger] ops2[i]) by {
        if i < ops.len() {
            assert(op_inv(m, t, i, ops[i]));
            assert forall|a: usize| m.guards_addr(i, a) implies m2.guards_addr(i, a) by {}
        }
    }
}

/// The accesses that are left to all operations under way, if nobody interferes with any.
pub open spec fn work<T>(t: Trace<T>, ops: Seq<Option<Op<T>>>) -> int
    decreases ops.len(),
{
    if ops.len() == 0 {
        0
    } else {
        work(t, ops.drop_last()) + match ops.last() {
            Some(op) => rank(t, op),
            None => 0,
        }
    }
}

/// What one operation gains the sum gains, if the others stay where they were.
proof fn lemma_work<T>(
    t: Trace<T>,
    t2: Trace<T>,
    ops: Seq<Option<Op<T>>>,
    i: int,
    op: Option<Op<T>>,
)
    requires
        0 <= i < ops.len(),
        forall|j: int|
            0 <= j < ops.len() && j != i && (#[trigger] ops[j]) is Some ==> rank(t2, ops[j]->0)
                == rank(t, ops[j]->0),
    ensures
        work(t2, ops.update(i, op)) - work(t, ops) == (match op {
            Some(o) => rank(t2, o),
            None => 0,
        }) - (match ops[i] {
            Some(o) => rank(t, o),
            None => 0,
        }),
    decreases ops.len(),
{
    let ops2 = ops.update(i, op);
    let rest = ops.drop_last();
    assert forall|j: int|
        0 <= j < rest.len() && j != i && (#[trigger] rest[j]) is Some implies rank(t2, rest[j]->0)
        == rank(t, rest[j]->0) by {
        assert(rest[j] == ops[j]);
    }
    if i == ops.len() - 1 {
        assert(ops2.drop_last() =~= rest);
        lemma_same_work(t, t2, rest);
    } else {
        assert(ops2.drop_last() =~= rest.update(i, op));
        lemma_work(t, t2, rest, i, op);
        assert(ops2.last() == ops[ops.len() - 1]);
    }
}

proof fn lemma_same_work<T>(t: Trace<T>, t2: Trace<T>, ops: Seq<Option<Op<T>>>)
    requires
        forall|j: int|
            0 <= j < ops.len() && (#[trigger] ops[j]) is Some ==> rank(t2, ops[j]->0) == rank(
                t,
                ops[j]->0,
            ),
    ensures
        work(t2, ops) == work(t, ops),
    decreases ops.len(),
{
    if ops.len() > 0 {
        let rest = ops.drop_last();
        assert forall|j: int| 0 <= j < rest.len() && (#[trigger] rest[j]) is Some implies rank(
            t2,
            rest[j]->0,
        ) == rank(t, rest[j]->0) by {
            assert(rest[j] == ops[j]);
        }
        lemma_same_work(t, t2, rest);
        assert(ops.last() == ops[ops.len() - 1]);
    }
}

/// An access that moves no link leaves less work.
pub proof fn lemma_progress<T>(
    m: MemoryView<T>,
    t: Trace<T>,
    ops: Seq<Option<Op<T>>>,
    m2: MemoryView<T>,
    t2: Trace<T>,
    i: int,
    op: Option<Op<T>>,
)
    requires
        queue_inv(m, t, ops),
        queue_inv(m2, t2, ops.update(i, op)),
        evolves(m, t, m2, t2, i),
        0 <= i < ops.len(),
        ops[i] is Some,
        match op {
            Some(o) => rank(t2, o) < rank(t, ops[i]->0),
            None => 0 < rank(t, ops[i]->0),
        },
    ensures
        same_links(t, t2) ==> work(t2, ops.update(i, op)) < work(t, ops),
{
    assert(op_inv(m2, t2, i, ops.update(i, op)[i]));
    lemma_frame(m, t, ops, m2, t2, i, op);
    if same_links(t, t2) {
        lemma_work(t, t2, ops, i, op);
    }
}

/// No operation counts for less than nothing.
pub proof fn lemma_work_nonneg<T>(m: MemoryView<T>, t: Trace<T>, ops: Seq<Option<Op<T>>>)
    requires
        list_inv(m, t),
    ensures
        work(t, ops) >= 0,
    decreases ops.len(),
{
    if ops.len() > 0 {
        lemma_work_nonneg(m, t, ops.drop_last());
    }
}

} // verus!
