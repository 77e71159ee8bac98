//! Why the accesses of [`crate::treiber_stack`] make up a stack: the list of the linked
//! nodes, the invariant of the memory, and its preservation by every access.
use vstd::prelude::*;

use crate::memory::{Instr, Loc, MemoryView, Node};
use crate::treiber_stack::{Op, PopState, PushState};

verus! {

/// The history of a stack.
pub struct Trace {
    /// The addresses of the linked nodes, from the bottom to the top.
    pub list: Seq<usize>,
    /// The nodes that were linked and are not reclaimed.
    pub known: Set<usize>,
    /// The operation that unlinked a node and has not retired it.
    pub claims: Map<usize, int>,
    /// The operation that owns a node that is not linked yet.
    pub fresh: Map<usize, int>,
    /// How often the head link was moved.
    pub moves: int,
}

impl Trace {
    /// The link of the node at index `k` of the list.
    pub open spec fn below(self, k: int) -> usize {
        if k > 0 {
            self.list[k - 1]
        } else {
            0
        }
    }

    /// The head link.
    pub open spec fn top(self) -> usize {
        self.below(self.list.len() as int)
    }
}

/// The values in the stack, from the bottom to the top.
pub open spec fn items<T>(m: MemoryView<T>, t: Trace) -> Seq<T> {
    Seq::new(t.list.len(), |k: int| m.nodes[t.list[k]].data->0)
}

/// The memory is a list from the head link downward.
pub open spec fn list_inv<T>(m: MemoryView<T>, t: Trace) -> bool {
    &&& t.list.no_duplicates()
    &&& m.head == t.top()
    &&& forall|k: int|
        0 <= k < t.list.len() ==> {
            let a = #[trigger] t.list[k];
            &&& a != 0
            &&& t.known.contains(a)
            &&& m.nodes.contains_key(a)
            &&& m.nodes[a].next == t.below(k)
            &&& m.nodes[a].data is Some
        }
}

/// Each node is linked, or waits to be linked, or is unlinked and not reclaimed; what is
/// unlinked is either retired, and then holds no value, or claimed by the operation that
/// unlinked it.
pub open spec fn ledger_inv<T>(m: MemoryView<T>, t: Trace) -> bool {
    &&& forall|a: usize| #[trigger]
        m.nodes.contains_key(a) ==> t.known.contains(a) || t.fresh.contains_key(a)
    &&& forall|a: usize| #[trigger]
        t.known.contains(a) ==> m.nodes.contains_key(a) && (t.list.contains(a)
            || m.retired.contains(a) || t.claims.contains_key(a))
    &&& forall|a: usize| #[trigger]
        t.fresh.contains_key(a) ==> m.nodes.contains_key(a) && !t.known.contains(a)
    &&& forall|a: usize| #[trigger]
        m.retired.contains(a) ==> t.known.contains(a) && !t.list.contains(a)
            && !t.claims.contains_key(a) && m.nodes[a].data is None
    &&& forall|a: usize| #[trigger] m.condemned.contains(a) ==> m.retired.contains(a)
    &&& forall|a: usize| #[trigger]
        t.claims.contains_key(a) ==> t.known.contains(a) && !t.list.contains(a)
}

/// Operation `i` owns the node `a`, which is not linked yet.
pub open spec fn owns<T>(m: MemoryView<T>, t: Trace, i: int, a: usize) -> bool {
    &&& a != 0
    &&& t.fresh.contains_key(a)
    &&& t.fresh[a] == i
    &&& m.nodes.contains_key(a)
    &&& m.nodes[a].data is Some
}

/// Operation `i` has unlinked the node `a`.
pub open spec fn claimed<T>(m: MemoryView<T>, t: Trace, i: int, a: usize) -> bool {
    &&& t.claims.contains_key(a)
    &&& t.claims[a] == i
    &&& m.nodes.contains_key(a)
}

/// Operation `i` protects the node `a`, which was linked and is not reclaimed: it published
/// the address before anybody looked whether the node can be reclaimed.
pub open spec fn keeps<T>(m: MemoryView<T>, t: Trace, i: int, a: usize) -> bool {
    m.guards_addr(i, a) && t.known.contains(a) && !m.condemned.contains(a)
}

/// What a push knows in each state.
pub open spec fn push_inv<T>(m: MemoryView<T>, t: Trace, i: int, s: PushState) -> bool {
    &&& s.unlinked_node() matches Some(a) ==> owns(m, t, i, a)
    &&& s matches PushState::Swap { node, head } ==> m.nodes[node].next == head
}

/// What a pop knows in each state.
pub open spec fn pop_inv<T>(m: MemoryView<T>, t: Trace, i: int, s: PopState<T>) -> bool {
    match s {
        PopState::ProtectHead => m.guards[i] == Seq::<usize>::empty(),
        PopState::LoadNext { head } => keeps(m, t, i, head),
        PopState::Swap { head, next } => {
            &&& keeps(m, t, i, head)
            &&& forall|k: int|
                0 <= k < t.list.len() && #[trigger] t.list[k] == head ==> next == t.below(k)
        },
        PopState::Take { head } => claimed(m, t, i, head) && m.nodes[head].data is Some,
        PopState::Retire { head, value } => claimed(m, t, i, head) && m.nodes[head].data is None,
        _ => true,
    }
}

/// What the operation in slot `i` knows.
pub open spec fn op_inv<T>(m: MemoryView<T>, t: Trace, i: int, op: Option<Op<T>>) -> bool {
    match op {
        Some(Op::Push(s)) => m.guards[i] == Seq::<usize>::empty() && push_inv(m, t, i, s),
        Some(Op::Pop(s)) => pop_inv(m, t, i, s),
        None => m.guards[i] == Seq::<usize>::empty(),
    }
}

/// Whether `op` is a push whose new node is `a`.
pub open spec fn op_owns<T>(op: Option<Op<T>>, a: usize) -> bool {
    op matches Some(Op::Push(s)) && s.unlinked_node() == Some(a)
}

/// Whether `op` is a pop that has unlinked `a` and not retired it.
pub open spec fn op_claims<T>(op: Option<Op<T>>, a: usize) -> bool {
    op matches Some(Op::Pop(s)) && s.claimed_node() == Some(a)
}

/// Every entry of the history that names an operation names one that is under way.
pub open spec fn ops_inv<T>(t: Trace, ops: Seq<Option<Op<T>>>) -> bool {
    &&& forall|a: usize| #[trigger]
        t.fresh.contains_key(a) ==> 0 <= t.fresh[a] < ops.len() && op_owns(ops[t.fresh[a]], a)
    &&& forall|a: usize| #[trigger]
        t.claims.contains_key(a) ==> 0 <= t.claims[a] < ops.len() && op_claims(ops[t.claims[a]], a)
}

/// The whole invariant of a stack.
pub open spec fn stack_inv<T>(m: MemoryView<T>, t: Trace, ops: Seq<Option<Op<T>>>) -> bool {
    &&& list_inv(m, t)
    &&& ledger_inv(m, t)
    &&& ops_inv(t, ops)
    &&& m.guards.len() == ops.len()
    &&& forall|i: int| 0 <= i < ops.len() ==> op_inv(m, t, i, #[trigger] ops[i])
}

/// What an access of operation `i` leaves alone: what the other operations have protected,
/// own and claim, and the list up to where it was cut or extended.
pub open spec fn evolves<T>(
    m: MemoryView<T>,
    t: Trace,
    m2: MemoryView<T>,
    t2: Trace,
    i: int,
) -> bool {
    &&& m2.guards.len() == m.guards.len()
    &&& forall|j: int| 0 <= j < m.guards.len() && j != i ==> #[trigger] m2.guards[j] == m.guards[j]
    &&& forall|k: int|
        0 <= k < t2.list.len() ==> if k < t.list.len() {
            #[trigger] t2.list[k] == t.list[k]
        } else {
            !t.known.contains(t2.list[k])
        }
    &&& t.moves <= t2.moves
    &&& t.moves == t2.moves ==> t.list == t2.list
    &&& forall|j: int, a: usize|
        j != i && #[trigger] m.guards_addr(j, a) && t.known.contains(a) && !m.condemned.contains(a)
            ==> t2.known.contains(a) && !m2.condemned.contains(a)
    &&& forall|a: usize| #[trigger]
        t.fresh.contains_key(a) && t.fresh[a] != i ==> t2.fresh.contains_key(a) && t2.fresh[a]
            == t.fresh[a] && m2.nodes.contains_key(a) && m2.nodes[a] == m.nodes[a]
    &&& forall|a: usize| #[trigger]
        t.claims.contains_key(a) && t.claims[a] != i ==> t2.claims.contains_key(a) && t2.claims[a]
            == t.claims[a] && m2.nodes.contains_key(a) && m2.nodes[a] == m.nodes[a]
}

/// What an operation knows survives the accesses of the others.
proof fn lemma_stable<T>(
    m: MemoryView<T>,
    t: Trace,
    m2: MemoryView<T>,
    t2: Trace,
    i: int,
    j: int,
    op: Option<Op<T>>,
)
    requires
        evolves(m, t, m2, t2, i),
        0 <= j < m.guards.len(),
        j != i,
        op_inv(m, t, j, op),
    ensures
        op_inv(m2, t2, j, op),
{
    assert(m2.guards[j] == m.guards[j]);
    assert forall|a: usize| m.guards_addr(j, a) implies m2.guards_addr(j, a) by {}
    match op {
        Some(Op::Push(s)) => {
            if let Some(a) = s.unlinked_node() {
                assert(owns(m, t, j, a));
            }
        },
        Some(Op::Pop(s)) => {
            match s {
                PopState::LoadNext { head } => {
                    assert(m.guards_addr(j, head));
                },
                PopState::Swap { head, next } => {
                    assert(m.guards_addr(j, head));
                    assert forall|k: int|
                        0 <= k < t2.list.len() && #[trigger] t2.list[k] == head implies next
                        == t2.below(k) by {
                        assert(t.list[k] == head);
                        if k > 0 {
                            assert(t2.list[k - 1] == t.list[k - 1]);
                        }
                    }
                },
                _ => {},
            }
        },
        None => {},
    }
}

/// How far an operation has come, as its caller can tell.
#[verifier::ext_equal]
pub enum Status<T> {
    /// A push of this value has not taken effect.
    Pushing(T),
    /// A pop has not taken effect.
    Popping,
    /// A push has taken effect.
    Pushed,
    /// A pop has taken effect and will return this.
    Popped(Option<T>),
}

/// The status of an operation.
pub open spec fn status<T>(m: MemoryView<T>, op: Op<T>) -> Status<T> {
    match op {
        Op::Push(s) => match s.unlinked_node() {
            Some(a) => Status::Pushing(m.nodes[a].data->0),
            None => Status::Pushed,
        },
        Op::Pop(s) => match s {
            PopState::Take { head } => Status::Popped(m.nodes[head].data),
            PopState::Retire { head, value } => Status::Popped(value),
            PopState::Finish { value } => Status::Popped(value),
            _ => Status::Popping,
        },
    }
}

/// How many accesses a pop that starts now makes if nobody interferes.
pub open spec fn pop_fuel(t: Trace) -> int {
    if t.list.len() > 0 {
        6
    } else {
        2
    }
}

/// How many accesses are left to an operation if nobody interferes, at most.
pub open spec fn rank<T>(t: Trace, op: Op<T>) -> int {
    match op {
        Op::Push(s) => match s {
            PushState::LoadHead { node } => 4,
            PushState::SetNext { node, head } => if head == t.top() {
                3
            } else {
                6
            },
            PushState::Swap { node, head } => if head == t.top() {
                2
            } else {
                5
            },
            PushState::Finish => 1,
        },
        Op::Pop(s) => match s {
            PopState::ProtectHead => pop_fuel(t),
            PopState::LoadNext { head } => if head == t.top() {
                5
            } else {
                pop_fuel(t) + 3
            },
            PopState::Swap { head, next } => if head == t.top() {
                4
            } else {
                pop_fuel(t) + 2
            },
            PopState::Take { head } => 3,
            PopState::Retire { head, value } => 2,
            PopState::Retry => pop_fuel(t) + 1,
            PopState::Finish { value } => 1,
        },
    }
}

/// An access of operation `i` that keeps its own part of the invariant keeps all of it,
/// and leaves the other operations where they were.
pub proof fn lemma_frame<T>(
    m: MemoryView<T>,
    t: Trace,
    ops: Seq<Option<Op<T>>>,
    m2: MemoryView<T>,
    t2: Trace,
    i: int,
    op: Option<Op<T>>,
)
    requires
        stack_inv(m, t, ops),
        0 <= i < ops.len(),
        list_inv(m2, t2),
        ledger_inv(m2, t2),
        evolves(m, t, m2, t2, i),
        op_inv(m2, t2, i, op),
        ops_inv(t2, ops.update(i, op)),
    ensures
        stack_inv(m2, t2, ops.update(i, op)),
        forall|j: int|
            0 <= j < ops.len() && j != i && (#[trigger] ops[j]) is Some ==> status(m2, ops[j]->0)
                == status(m, ops[j]->0) && (t2.moves == t.moves ==> rank(t2, ops[j]->0) == rank(
                t,
                ops[j]->0,
            )),
{
    let ops2 = ops.update(i, op);
    assert forall|j: int| 0 <= j < ops2.len() implies op_inv(m2, t2, j, #[trigger] ops2[j]) by {
        if j != i {
            assert(op_inv(m, t, j, ops[j]));
            lemma_stable(m, t, m2, t2, i, j, ops[j]);
        }
    }
    assert forall|j: int| 0 <= j < ops.len() && j != i && (#[trigger] ops[j]) is Some implies status(
        m2,
        ops[j]->0,
    ) == status(m, ops[j]->0) && (t2.moves == t.moves ==> rank(t2, ops[j]->0) == rank(
        t,
        ops[j]->0,
    )) by {
        assert(op_inv(m, t, j, ops[j]));
        match ops[j]->0 {
            Op::Push(s) => {
                if let Some(a) = s.unlinked_node() {
                    assert(owns(m, t, j, a));
                }
            },
            Op::Pop(s) => {
                if let PopState::Take { head } = s {
                    assert(claimed(m, t, j, head));
                }
            },
        }
    }
}

/// Accesses that touch neither a linked nor an unlinked node nor a root link.
proof fn lemma_local<T>(m: MemoryView<T>, t: Trace, m2: MemoryView<T>, i: int)
    requires
        list_inv(m, t),
        ledger_inv(m, t),
        0 <= i < m.guards.len(),
        m2 == (MemoryView { guards: m.guards.update(i, m2.guards[i]), ..m }),
    ensures
        list_inv(m2, t),
        ledger_inv(m2, t),
        evolves(m, t, m2, t, i),
        items(m2, t) == items(m, t),
{
}

proof fn lemma_set_next<T>(m: MemoryView<T>, t: Trace, i: int, node: usize, head: usize)
    requires
        list_inv(m, t),
        ledger_inv(m, t),
        0 <= i < m.guards.len(),
        owns(m, t, i, node),
    ensures
        list_inv(m.write(Loc::Next(node), head), t),
        ledger_inv(m.write(Loc::Next(node), head), t),
        evolves(m, t, m.write(Loc::Next(node), head), t, i),
        items(m.write(Loc::Next(node), head), t) == items(m, t),
{
    let m2 = m.write(Loc::Next(node), head);
    assert forall|a: usize| a != node && m.nodes.contains_key(a) implies m2.nodes[a]
        == m.nodes[a] by {}
    assert(items(m2, t) =~= items(m, t)) by {
        assert forall|k: int| 0 <= k < t.list.len() implies t.list[k] != node by {
            assert(t.known.contains(t.list[k]));
        }
    }
}

/// The history after `node` was linked on top.
pub open spec fn pushed(t: Trace, node: usize) -> Trace {
    Trace {
        list: t.list.push(node),
        known: t.known.insert(node),
        fresh: t.fresh.remove(node),
        moves: t.moves + 1,
        ..t
    }
}

proof fn lemma_push<T>(m: MemoryView<T>, t: Trace, i: int, node: usize)
    requires
        list_inv(m, t),
        ledger_inv(m, t),
        0 <= i < m.guards.len(),
        owns(m, t, i, node),
        m.nodes[node].next == m.head,
    ensures
        list_inv(m.write(Loc::Head, node), pushed(t, node)),
        ledger_inv(m.write(Loc::Head, node), pushed(t, node)),
        evolves(m, t, m.write(Loc::Head, node), pushed(t, node), i),
        items(m.write(Loc::Head, node), pushed(t, node)) == items(m, t).push(
            m.nodes[node].data->0,
        ),
{
    let m2 = m.write(Loc::Head, node);
    let t2 = pushed(t, node);
    let n = t.list.len() as int;
    assert(!t.list.contains(node)) by {
        if t.list.contains(node) {
            let k = choose|k: int| 0 <= k < n && t.list[k] == node;
            assert(t.known.contains(t.list[k]));
        }
    }
    assert forall|a: usize| #[trigger] t2.list.contains(a) == (t.list.contains(a) || a == node) by {
        if t.list.contains(a) {
            let k = choose|k: int| 0 <= k < n && t.list[k] == a;
            assert(t2.list[k] == a);
        }
        assert(t2.list[n] == node);
    }
    assert(items(m2, t2) =~= items(m, t).push(m.nodes[node].data->0));
    assert forall|k: int| 0 <= k < n implies #[trigger] t2.list[k] == t.list[k] && t2.below(k)
        == t.below(k) by {}
    assert forall|k: int| 0 <= k < t2.list.len() implies {
        let a = #[trigger] t2.list[k];
        &&& a != 0
        &&& t2.known.contains(a)
        &&& m2.nodes.contains_key(a)
        &&& m2.nodes[a].next == t2.below(k)
        &&& m2.nodes[a].data is Some
    } by {
        if k < n {
            assert(t2.list[k] == t.list[k]);
        }
    }
}

/// The history after operation `i` unlinked the top node `head`.
pub open spec fn popped(t: Trace, i: int, head: usize) -> Trace {
    Trace {
        list: t.list.drop_last(),
        claims: t.claims.insert(head, i),
        moves: t.moves + 1,
        ..t
    }
}

#[verifier::rlimit(20)]
proof fn lemma_pop<T>(m: MemoryView<T>, t: Trace, i: int, head: usize, next: usize)
    requires
        list_inv(m, t),
        ledger_inv(m, t),
        0 <= i < m.guards.len(),
        head != 0,
        m.head == head,
        forall|k: int| 0 <= k < t.list.len() && #[trigger] t.list[k] == head ==> next == t.below(k),
    ensures
        t.list.len() > 0,
        list_inv(m.write(Loc::Head, next), popped(t, i, head)),
        ledger_inv(m.write(Loc::Head, next), popped(t, i, head)),
        evolves(m, t, m.write(Loc::Head, next), popped(t, i, head), i),
        items(m, t).len() > 0,
        items(m.write(Loc::Head, next), popped(t, i, head)) == items(m, t).drop_last(),
        m.nodes.contains_key(head),
        m.nodes[head].data == Some(items(m, t).last()),
{
    let m2 = m.write(Loc::Head, next);
    let t2 = popped(t, i, head);
    let n = t.list.len() as int;
    assert(t.list[n - 1] == head);
    assert(items(m2, t2) =~= items(m, t).drop_last());
    assert forall|a: usize| #[trigger] t2.list.contains(a) == (t.list.contains(a) && a != head) by {
        if t.list.contains(a) && a != head {
            let k = choose|k: int| 0 <= k < n && t.list[k] == a;
            assert(t2.list[k] == a);
        }
        if t2.list.contains(a) {
            let k = choose|k: int| 0 <= k < n - 1 && t2.list[k] == a;
            assert(t.list[k] == a);
        }
    }
    assert forall|k: int| 0 <= k < n - 1 implies #[trigger] t2.list[k] == t.list[k] && t2.below(k)
        == t.below(k) by {}
}

proof fn lemma_take<T>(m: MemoryView<T>, t: Trace, i: int, head: usize)
    requires
        list_inv(m, t),
        ledger_inv(m, t),
        0 <= i < m.guards.len(),
        claimed(m, t, i, head),
    ensures
        list_inv(m.after(i, Instr::Take(head)), t),
        ledger_inv(m.after(i, Instr::Take(head)), t),
        evolves(m, t, m.after(i, Instr::Take(head)), t, i),
        items(m.after(i, Instr::Take(head)), t) == items(m, t),
{
    let m2 = m.after(i, Instr::Take(head));
    assert forall|k: int| 0 <= k < t.list.len() implies #[trigger] t.list[k] != head by {
        assert(t.list.contains(t.list[k]));
    }
    assert(items(m2, t) =~= items(m, t));
}

/// The history after the unlinked node `head` was retired.
pub open spec fn retired(t: Trace, head: usize) -> Trace {
    Trace { claims: t.claims.remove(head), ..t }
}

proof fn lemma_retire<T>(m: MemoryView<T>, t: Trace, i: int, head: usize)
    requires
        list_inv(m, t),
        ledger_inv(m, t),
        0 <= i < m.guards.len(),
        claimed(m, t, i, head),
        m.nodes[head].data is None,
    ensures
        !m.retired.contains(head),
        list_inv(m.retire(head), retired(t, head)),
        ledger_inv(m.retire(head), retired(t, head)),
        evolves(m, t, m.retire(head), retired(t, head), i),
        items(m.retire(head), retired(t, head)) == items(m, t),
{
    let m2 = m.retire(head);
    let t2 = retired(t, head);
    assert(items(m2, t2) =~= items(m, t));
    assert forall|k: int| t2.below(k) == t.below(k) by {}
}

/// The history after the node at `a` was reclaimed.
pub open spec fn reclaimed(t: Trace, a: usize) -> Trace {
    Trace { known: t.known.remove(a), ..t }
}

/// A node that is retired and that nobody has published can be condemned at any time: no
/// operation under way relies on it.
pub proof fn lemma_condemn<T>(m: MemoryView<T>, t: Trace, ops: Seq<Option<Op<T>>>, a: usize)
    requires
        stack_inv(m, t, ops),
        m.condemnable(a),
    ensures
        stack_inv(m.condemn(a), t, ops),
        items(m.condemn(a), t) == items(m, t),
        forall|j: int|
            0 <= j < ops.len() && (#[trigger] ops[j]) is Some ==> status(m.condemn(a), ops[j]->0)
                == status(m, ops[j]->0),
{
    let m2 = m.condemn(a);
    assert forall|j: int, b: usize| #[trigger] m.guards_addr(j, b) implies b != a by {
        if b == a {
            assert(m.guarded(a));
        }
    }
    assert(evolves(m, t, m2, t, -1));
    assert forall|j: int| 0 <= j < ops.len() implies op_inv(m2, t, j, #[trigger] ops[j]) by {
        assert(op_inv(m, t, j, ops[j]));
        lemma_stable(m, t, m2, t, -1, j, ops[j]);
    }
    assert(items(m2, t) =~= items(m, t));
}

/// A node that is condemned can be reclaimed at any time: it holds no value, and no operation
/// under way relies on it.
pub proof fn lemma_reclaim<T>(m: MemoryView<T>, t: Trace, ops: Seq<Option<Op<T>>>, a: usize)
    requires
        stack_inv(m, t, ops),
        m.condemned.contains(a),
    ensures
        m.nodes.contains_key(a),
        m.nodes[a].data is None,
        stack_inv(m.reclaim(a), reclaimed(t, a), ops),
        items(m.reclaim(a), reclaimed(t, a)) == items(m, t),
        forall|j: int|
            0 <= j < ops.len() && (#[trigger] ops[j]) is Some ==> status(m.reclaim(a), ops[j]->0)
                == status(m, ops[j]->0) && rank(reclaimed(t, a), ops[j]->0) == rank(t, ops[j]->0),
        work(reclaimed(t, a), ops) == work(t, ops),
{
    let m2 = m.reclaim(a);
    let t2 = reclaimed(t, a);
    assert(t.known.contains(a) && !t.list.contains(a));
    assert forall|k: int| t2.below(k) == t.below(k) by {}
    assert forall|k: int| 0 <= k < t.list.len() implies #[trigger] t.list[k] != a by {
        assert(t.list.contains(t.list[k]));
    }
    assert(items(m2, t2) =~= items(m, t));
    assert forall|j: int, b: usize|
        #[trigger] m.guards_addr(j, b) && t.known.contains(b) && !m.condemned.contains(
        b,
    ) implies t2.known.contains(b) by {}
    assert(evolves(m, t, m2, t2, -1));
    assert forall|j: int| 0 <= j < ops.len() implies op_inv(m2, t2, j, #[trigger] ops[j]) by {
        assert(op_inv(m, t, j, ops[j]));
        lemma_stable(m, t, m2, t2, -1, j, ops[j]);
    }
    assert forall|j: int| 0 <= j < ops.len() && (#[trigger] ops[j]) is Some implies status(
        m2,
        ops[j]->0,
    ) == status(m, ops[j]->0) && rank(t2, ops[j]->0) == rank(t, ops[j]->0) by {
        assert(op_inv(m, t, j, ops[j]));
        match ops[j]->0 {
            Op::Push(s) => {
                if let Some(b) = s.unlinked_node() {
                    assert(owns(m, t, j, b));
                }
            },
            Op::Pop(s) => {
                if let PopState::Take { head } = s {
                    assert(claimed(m, t, j, head));
                }
            },
        }
    }
    lemma_same_work(t, t2, ops);
}

/// The history after the next access of a push.
pub open spec fn push_trace<T>(m: MemoryView<T>, t: Trace, s: PushState) -> Trace {
    match s {
        PushState::Swap { node, head } if m.head == head => pushed(t, node),
        _ => t,
    }
}

/// The next access of a push is safe, keeps the invariant, takes effect when it moves
/// the head link, and brings the operation closer to its end.
pub proof fn lemma_push_step<T>(
    m: MemoryView<T>,
    t: Trace,
    ops: Seq<Option<Op<T>>>,
    i: int,
    s: PushState,
)
    requires
        stack_inv(m, t, ops),
        0 <= i < ops.len(),
        ops[i] == Some(Op::<T>::Push(s)),
        !(s is Finish),
    ensures
        m.allows(s.next_instr()),
        ({
            let m2 = m.after(i, s.next_instr());
            let t2 = push_trace(m, t, s);
            let s2 = s.after(m.word(s.next_instr()));
            let op2 = Op::<T>::Push(s2);
            &&& stack_inv(m2, t2, ops.update(i, Some(op2)))
            &&& evolves(m, t, m2, t2, i)
            &&& 0 < rank(t2, op2) < rank(t, ops[i]->0)
            &&& if s2 is Finish {
                items(m2, t2) == items(m, t).push(m.nodes[s.unlinked_node()->0].data->0)
            } else {
                items(m2, t2) == items(m, t) && status(m2, op2) == status(m, ops[i]->0)
            }
        }),
{
    let instr = s.next_instr();
    let m2 = m.after(i, instr);
    let t2 = push_trace(m, t, s);
    let s2 = s.after(m.word(instr));
    let op2 = Some(Op::<T>::Push(s2));
    let ops2 = ops.update(i, op2);
    assert(op_inv(m, t, i, ops[i]));
    match s {
        PushState::SetNext { node, head } => {
            lemma_set_next(m, t, i, node, head);
        },
        PushState::Swap { node, head } if m.head == head => {
            lemma_push(m, t, i, node);
        },
        _ => {
            assert(m2.guards =~= m.guards.update(i, m.guards[i]));
            lemma_local(m, t, m2, i);
        },
    }
    assert(ops_inv(t2, ops2)) by {
        assert forall|a: usize| #[trigger] t2.fresh.contains_key(a) implies 0 <= t2.fresh[a]
            < ops2.len() && op_owns(ops2[t2.fresh[a]], a) by {
            assert(t.fresh.contains_key(a));
            assert(op_owns(ops[t.fresh[a]], a));
        }
        assert forall|a: usize| #[trigger] t2.claims.contains_key(a) implies 0 <= t2.claims[a]
            < ops2.len() && op_claims(ops2[t2.claims[a]], a) by {
            assert(op_claims(ops[t.claims[a]], a));
        }
    }
    lemma_frame(m, t, ops, m2, t2, i, op2);
}

/// The history after the next access of a pop.
pub open spec fn pop_trace<T>(m: MemoryView<T>, t: Trace, i: int, s: PopState<T>) -> Trace {
    match s {
        PopState::Swap { head, next } if m.head == head => popped(t, i, head),
        PopState::Retire { head, value } => retired(t, head),
        _ => t,
    }
}

/// The state of a pop after its next access.
pub open spec fn pop_next<T>(m: MemoryView<T>, s: PopState<T>) -> PopState<T> {
    match s {
        PopState::Take { head } => PopState::Retire { head, value: m.nodes[head].data },
        _ => s.after(m.word(s.next_instr())),
    }
}

/// The next access of a pop is safe, keeps the invariant, takes effect when it moves the
/// head link or finds it null, and brings the operation closer to its end.
pub proof fn lemma_pop_step<T>(
    m: MemoryView<T>,
    t: Trace,
    ops: Seq<Option<Op<T>>>,
    i: int,
    s: PopState<T>,
)
    requires
        stack_inv(m, t, ops),
        0 <= i < ops.len(),
        ops[i] == Some(Op::<T>::Pop(s)),
        !(s is Finish),
        !m.nodes.contains_key(0),
    ensures
        m.allows(s.next_instr()),
        ({
            let m2 = m.after(i, s.next_instr());
            let t2 = pop_trace(m, t, i, s);
            let s2 = pop_next(m, s);
            let op2 = Op::Pop(s2);
            &&& stack_inv(m2, t2, ops.update(i, Some(op2)))
            &&& evolves(m, t, m2, t2, i)
            &&& 0 < rank(t2, op2) < rank(t, ops[i]->0)
            &&& if status(m, ops[i]->0) is Popping && status(m2, op2) is Popped {
                if items(m, t).len() > 0 {
                    &&& items(m2, t2) == items(m, t).drop_last()
                    &&& status(m2, op2) == Status::Popped(Some(items(m, t).last()))
                } else {
                    &&& items(m2, t2) == items(m, t)
                    &&& status(m2, op2) == Status::<T>::Popped(None)
                }
            } else {
                items(m2, t2) == items(m, t) && status(m2, op2) == status(m, ops[i]->0)
            }
        }),
{
    let instr = s.next_instr();
    let m2 = m.after(i, instr);
    let t2 = pop_trace(m, t, i, s);
    let s2 = pop_next(m, s);
    let op2 = Some(Op::Pop(s2));
    let ops2 = ops.update(i, op2);
    assert(op_inv(m, t, i, ops[i]));
    match s {
        PopState::ProtectHead => {
            if m.head == 0 {
                assert(m2.guards =~= m.guards.update(i, m.guards[i]));
                assert(t.list.len() == 0);
            } else {
                assert(m2.guards[i].last() == m.head);
                assert(m2.guards_addr(i, m.head));
                assert(t.list[t.list.len() - 1] == m.head);
            }
            lemma_local(m, t, m2, i);
        },
        PopState::LoadNext { head } => {
            assert(m2.guards =~= m.guards.update(i, m.guards[i]));
            lemma_local(m, t, m2, i);
        },
        PopState::Swap { head, next } => {
            if m.head == head {
                assert(m.nodes.contains_key(head));
                lemma_pop(m, t, i, head, next);
            } else {
                assert(m2.guards =~= m.guards.update(i, m.guards[i]));
                lemma_local(m, t, m2, i);
            }
        },
        PopState::Take { head } => {
            lemma_take(m, t, i, head);
        },
        PopState::Retire { head, value } => {
            lemma_retire(m, t, i, head);
        },
        _ => {
            lemma_local(m, t, m2, i);
        },
    }
    assert(ops_inv(t2, ops2)) by {
        assert forall|a: usize| #[trigger] t2.fresh.contains_key(a) implies 0 <= t2.fresh[a]
            < ops2.len() && op_owns(ops2[t2.fresh[a]], a) by {
            assert(op_owns(ops[t.fresh[a]], a));
        }
        assert forall|a: usize| #[trigger] t2.claims.contains_key(a) implies 0 <= t2.claims[a]
            < ops2.len() && op_claims(ops2[t2.claims[a]], a) by {
            if t.claims.contains_key(a) {
                assert(op_claims(ops[t.claims[a]], a));
            }
        }
    }
    lemma_frame(m, t, ops, m2, t2, i, op2);
}

/// What an operation that claims and owns nothing has in the history.
proof fn lemma_idle<T>(
    m: MemoryView<T>,
    t: Trace,
    ops: Seq<Option<Op<T>>>,
    i: int,
    op: Option<Op<T>>,
)
    requires
        stack_inv(m, t, ops),
        0 <= i < ops.len(),
        forall|a: usize| !op_owns(ops[i], a) && !op_claims(ops[i], a),
    ensures
        ops_inv(t, ops.update(i, op)),
{
    let ops2 = ops.update(i, op);
    assert forall|a: usize| #[trigger] t.fresh.contains_key(a) implies 0 <= t.fresh[a] < ops2.len()
        && op_owns(ops2[t.fresh[a]], a) by {
        assert(op_owns(ops[t.fresh[a]], a));
    }
    assert forall|a: usize| #[trigger] t.claims.contains_key(a) implies 0 <= t.claims[a]
        < ops2.len() && op_claims(ops2[t.claims[a]], a) by {
        assert(op_claims(ops[t.claims[a]], a));
    }
}

/// An operation that is through releases what it has protected and leaves.
pub proof fn lemma_finish<T>(m: MemoryView<T>, t: Trace, ops: Seq<Option<Op<T>>>, i: int)
    requires
        stack_inv(m, t, ops),
        0 <= i < ops.len(),
        ops[i] matches Some(Op::Push(PushState::Finish)) || ops[i] matches Some(
            Op::Pop(PopState::Finish { value }),
        ),
    ensures
        stack_inv(m.release(i), t, ops.update(i, None)),
        evolves(m, t, m.release(i), t, i),
        items(m.release(i), t) == items(m, t),
{
    let m2 = m.release(i);
    lemma_local(m, t, m2, i);
    lemma_idle(m, t, ops, i, None);
    lemma_frame(m, t, ops, m2, t, i, None);
}

/// The history after operation `i` allocated `node`.
pub open spec fn node_added(t: Trace, node: usize, i: int) -> Trace {
    Trace { fresh: t.fresh.insert(node, i), ..t }
}

/// A push starts with a node of its own.
pub proof fn lemma_begin_push<T>(
    m: MemoryView<T>,
    t: Trace,
    ops: Seq<Option<Op<T>>>,
    i: int,
    node: usize,
    value: T,
)
    requires
        stack_inv(m, t, ops),
        0 <= i < ops.len(),
        ops[i] is None,
        node != 0,
        !m.nodes.contains_key(node),
    ensures
        ({
            let m2 = MemoryView {
                nodes: m.nodes.insert(node, Node { data: Some(value), next: 0 }),
                ..m
            };
            let t2 = node_added(t, node, i);
            let op2 = Some(Op::<T>::Push(PushState::LoadHead { node }));
            &&& stack_inv(m2, t2, ops.update(i, op2))
            &&& evolves(m, t, m2, t2, i)
            &&& items(m2, t2) == items(m, t)
        }),
{
    let m2 = MemoryView { nodes: m.nodes.insert(node, Node { data: Some(value), next: 0 }), ..m };
    let t2 = node_added(t, node, i);
    let op2 = Some(Op::<T>::Push(PushState::LoadHead { node }));
    let ops2 = ops.update(i, op2);
    assert(op_inv(m, t, i, ops[i]));
    assert(items(m2, t2) =~= items(m, t));
    assert forall|k: int| t2.below(k) == t.below(k) by {}
    lemma_idle(m, t, ops, i, op2);
    assert(ops_inv(t2, ops2)) by {
        assert forall|a: usize| #[trigger] t2.fresh.contains_key(a) implies 0 <= t2.fresh[a]
            < ops2.len() && op_owns(ops2[t2.fresh[a]], a) by {
            if a != node {
                assert(t.fresh.contains_key(a));
            }
        }
    }
    lemma_frame(m, t, ops, m2, t2, i, op2);
}

/// A pop starts with nothing.
pub proof fn lemma_begin_pop<T>(m: MemoryView<T>, t: Trace, ops: Seq<Option<Op<T>>>, i: int)
    requires
        stack_inv(m, t, ops),
        0 <= i < ops.len(),
        ops[i] is None,
    ensures
        stack_inv(m, t, ops.update(i, Some(Op::Pop(PopState::ProtectHead)))),
        evolves(m, t, m, t, i),
{
    let op2 = Some(Op::Pop(PopState::<T>::ProtectHead));
    assert(op_inv(m, t, i, ops[i]));
    lemma_idle(m, t, ops, i, op2);
    lemma_frame(m, t, ops, m, t, i, op2);
}

/// A new slot for operations changes nothing.
pub proof fn lemma_add_slot<T>(m: MemoryView<T>, t: Trace, ops: Seq<Option<Op<T>>>)
    requires
        stack_inv(m, t, ops),
    ensures
        stack_inv(MemoryView { guards: m.guards.push(Seq::empty()), ..m }, t, ops.push(None)),
{
    let m2 = MemoryView { guards: m.guards.push(Seq::empty()), ..m };
    let ops2 = ops.push(None);
    assert forall|i: int| 0 <= i < ops2.len() implies op_inv(m2, t, i, #[trigger] ops2[i]) by {
        if i < ops.len() {
            assert(op_inv(m, t, i, ops[i]));
            assert forall|a: usize| m.guards_addr(i, a) implies m2.guards_addr(i, a) by {}
        }
    }
}

/// The accesses that are left to all operations under way, if nobody interferes with any.
pub open spec fn work<T>(t: Trace, ops: Seq<Option<Op<T>>>) -> int
    decreases ops.len(),
{
    if ops.len() == 0 {
        0
    } else {
        work(t, ops.drop_last()) + match ops.last() {
            Some(op) => rank(t, op),
            None => 0,
        }
    }
}

/// What one operation gains the sum gains, if the others stay where they were.
proof fn lemma_work<T>(t: Trace, t2: Trace, ops: Seq<Option<Op<T>>>, i: int, op: Option<Op<T>>)
    requires
        0 <= i < ops.len(),
        forall|j: int|
            0 <= j < ops.len() && j != i && (#[trigger] ops[j]) is Some ==> rank(t2, ops[j]->0)
                == rank(t, ops[j]->0),
    ensures
        work(t2, ops.update(i, op)) - work(t, ops) == (match op {
            Some(o) => rank(t2, o),
            None => 0,
        }) - (match ops[i] {
            Some(o) => rank(t, o),
            None => 0,
        }),
    decreases ops.len(),
{
    let ops2 = ops.update(i, op);
    let rest = ops.drop_last();
    assert forall|j: int|
        0 <= j < rest.len() && j != i && (#[trigger] rest[j]) is Some implies rank(t2, rest[j]->0)
        == rank(t, rest[j]->0) by {
        assert(rest[j] == ops[j]);
    }
    if i == ops.len() - 1 {
        assert(ops2.drop_last() =~= rest);
        lemma_same_work(t, t2, rest);
    } else {
        assert(ops2.drop_last() =~= rest.update(i, op));
        lemma_work(t, t2, rest, i, op);
        assert(ops2.last() == ops[ops.len() - 1]);
    }
}

proof fn lemma_same_work<T>(t: Trace, t2: Trace, ops: Seq<Option<Op<T>>>)
    requires
        forall|j: int|
            0 <= j < ops.len() && (#[trigger] ops[j]) is Some ==> rank(t2, ops[j]->0) == rank(
                t,
                ops[j]->0,
            ),
    ensures
        work(t2, ops) == work(t, ops),
    decreases ops.len(),
{
    if ops.len() > 0 {
        let rest = ops.drop_last();
        assert forall|j: int| 0 <= j < rest.len() && (#[trigger] rest[j]) is Some implies rank(
            t2,
            rest[j]->0,
        ) == rank(t, rest[j]->0) by {
            assert(rest[j] == ops[j]);
        }
        lemma_same_work(t, t2, rest);
        assert(ops.last() == ops[ops.len() - 1]);
    }
}

/// An access that does not move the head link leaves less work.
pub proof fn lemma_progress<T>(
    m: MemoryView<T>,
    t: Trace,
    ops: Seq<Option<Op<T>>>,
    m2: MemoryView<T>,
    t2: Trace,
    i: int,
    op: Option<Op<T>>,
)
    requires
        stack_inv(m, t, ops),
        stack_inv(m2, t2, ops.update(i, op)),
        evolves(m, t, m2, t2, i),
        0 <= i < ops.len(),
        ops[i] is Some,
        match op {
            Some(o) => rank(t2, o) < rank(t, ops[i]->0),
            None => 0 < rank(t, ops[i]->0),
        },
    ensures
        t2.moves == t.moves ==> work(t2, ops.update(i, op)) < work(t, ops),
{
    assert(op_inv(m2, t2, i, ops.update(i, op)[i]));
    lemma_frame(m, t, ops, m2, t2, i, op);
    if t2.moves == t.moves {
        lemma_work(t, t2, ops, i, op);
    }
}

/// No operation counts for less than nothing.
pub proof fn lemma_work_nonneg<T>(t: Trace, ops: Seq<Option<Op<T>>>)
    ensures
        work(t, ops) >= 0,
    decreases ops.len(),
{
    if ops.len() > 0 {
        lemma_work_nonneg(t, ops.drop_last());
    }
}

} // verus!
