//! A lock-free Treiber stack.
//!
//! This is the classic CAS-based LIFO stack algorithm described by:
//! - Treiber, R. K. (1986). *Systems Programming: Coping with Parallelism*.
//!
//! An operation is a state machine: [`PushState`] and [`PopState`] say which access to
//! the shared memory comes next and what follows from the word that it returned. A
//! [`Stack`] holds the memory and the operations that are under way; each
//! [`Stack::step`] makes one access of one of them.
use vstd::prelude::*;

use crate::memory::{publishes, Instr, Loc, Memory, Node};
use crate::treiber_stack_history::Move;
use crate::treiber_stack_proof::{
    evolves, items, lemma_add_slot, lemma_begin_pop, lemma_begin_push, lemma_condemn, lemma_finish, lemma_frame,
    lemma_pop_step, lemma_progress, lemma_push_step, lemma_reclaim, lemma_work_nonneg, node_added,
    pop_next, pop_trace, push_trace, rank, reclaimed, stack_inv, status, work, Status, Trace,
};

verus! {

/// Where a push stands. `node` is the new node, which nobody else can reach until it
/// is linked.
#[derive(Debug)]
pub enum PushState {
    /// Read the head link.
    LoadHead { node: usize },
    /// Link the new node to the node that was on top.
    SetNext { node: usize, head: usize },
    /// Try to move the head link to the new node.
    Swap { node: usize, head: usize },
    /// Return.
    Finish,
}

impl PushState {
    /// The access that comes next.
    pub open spec fn next_instr(self) -> Instr {
        match self {
            PushState::LoadHead { node } => Instr::Load(Loc::Head),
            PushState::SetNext { node, head } => Instr::SetNext { node, next: head },
            PushState::Swap { node, head } => Instr::CompareExchange {
                loc: Loc::Head,
                current: head,
                new: node,
            },
            PushState::Finish => Instr::Release,
        }
    }

    /// The state after that access returned `word`.
    pub open spec fn after(self, word: usize) -> PushState {
        match self {
            PushState::LoadHead { node } => PushState::SetNext { node, head: word },
            PushState::SetNext { node, head } => PushState::Swap { node, head },
            PushState::Swap { node, head } => if word != 0 {
                PushState::Finish
            } else {
                PushState::LoadHead { node }
            },
            PushState::Finish => PushState::Finish,
        }
    }

    /// The node that waits to be linked.
    pub open spec fn unlinked_node(self) -> Option<usize> {
        match self {
            PushState::LoadHead { node } => Some(node),
            PushState::SetNext { node, head } => Some(node),
            PushState::Swap { node, head } => Some(node),
            PushState::Finish => None,
        }
    }

    /// Returns the access that comes next.
    pub fn instr(&self) -> (instr: Instr)
        ensures
            instr == self.next_instr(),
    {
        match self {
            PushState::LoadHead { .. } => Instr::Load(Loc::Head),
            PushState::SetNext { node, head } => Instr::SetNext { node: *node, next: *head },
            PushState::Swap { node, head } => Instr::CompareExchange {
                loc: Loc::Head,
                current: *head,
                new: *node,
            },
            PushState::Finish => Instr::Release,
        }
    }

    /// Returns the state that follows when the access returned `word`.
    pub fn resume(self, word: usize) -> (state: PushState)
        ensures
            state == self.after(word),
    {
        match self {
            PushState::LoadHead { node } => PushState::SetNext { node, head: word },
            PushState::SetNext { node, head } => PushState::Swap { node, head },
            PushState::Swap { node, .. } => {
                if word != 0 {
                    PushState::Finish
                } else {
                    PushState::LoadHead { node }
                }
            },
            PushState::Finish => PushState::Finish,
        }
    }
}

impl PushState {
    /// A push returns only after the head link was moved from the node that it linked its own
    /// to. If that fails it starts over with the same node.
    pub proof fn law_push_links_its_node(self, word: usize)
        ensures
            self matches PushState::LoadHead { node } ==> self.next_instr() == Instr::Load(
                Loc::Head,
            ) && self.after(word) == (PushState::SetNext { node, head: word }),
            self matches PushState::SetNext { node, head } ==> self.next_instr() == (
            Instr::SetNext { node, next: head }) && self.after(word) == (PushState::Swap {
                node,
                head,
            }),
            self matches PushState::Swap { node, head } ==> self.next_instr() == (
            Instr::CompareExchange { loc: Loc::Head, current: head, new: node }),
            self matches PushState::Swap { node, head } ==> word != 0 ==> self.after(word)
                is Finish,
            self matches PushState::Swap { node, head } ==> word == 0 ==> self.after(word) == (
            PushState::LoadHead { node }),
            self.after(word) is Finish ==> self is Finish || (self is Swap && word != 0),
    {
    }
}

/// Where a pop stands.
#[derive(Debug)]
pub enum PopState<T> {
    /// Protect the top node.
    ProtectHead,
    /// Read the link of the protected node.
    LoadNext { head: usize },
    /// Try to move the head link to the node below.
    Swap { head: usize, next: usize },
    /// The node is unlinked: move its value out.
    Take { head: usize },
    /// Retire the node.
    Retire { head: usize, value: Option<T> },
    /// Release the protected node and start over.
    Retry,
    /// Release the protected node and return the value.
    Finish { value: Option<T> },
}

impl<T> PopState<T> {
    /// The access that comes next.
    pub open spec fn next_instr(self) -> Instr {
        match self {
            PopState::ProtectHead => Instr::Protect(Loc::Head),
            PopState::LoadNext { head } => Instr::Load(Loc::Next(head)),
            PopState::Swap { head, next } => Instr::CompareExchange {
                loc: Loc::Head,
                current: head,
                new: next,
            },
            PopState::Take { head } => Instr::Take(head),
            PopState::Retire { head, value } => Instr::Retire(head),
            PopState::Retry => Instr::Release,
            PopState::Finish { value } => Instr::Release,
        }
    }

    /// The state after that access returned `word`; what follows the move of a value
    /// is `Retire` with that value.
    pub open spec fn after(self, word: usize) -> PopState<T> {
        match self {
            PopState::ProtectHead => if word != 0 {
                PopState::LoadNext { head: word }
            } else {
                PopState::Finish { value: None }
            },
            PopState::LoadNext { head } => PopState::Swap { head, next: word },
            PopState::Swap { head, next } => if word != 0 {
                PopState::Take { head }
            } else {
                PopState::Retry
            },
            PopState::Retire { head, value } => PopState::Finish { value },
            PopState::Retry => PopState::ProtectHead,
            _ => self,
        }
    }

    /// The node that this operation has unlinked and not retired.
    pub open spec fn claimed_node(self) -> Option<usize> {
        match self {
            PopState::Take { head } => Some(head),
            PopState::Retire { head, value } => Some(head),
            _ => None,
        }
    }

    /// Returns the access that comes next.
    pub fn instr(&self) -> (instr: Instr)
        ensures
            instr == self.next_instr(),
    {
        match self {
            PopState::ProtectHead => Instr::Protect(Loc::Head),
            PopState::LoadNext { head } => Instr::Load(Loc::Next(*head)),
            PopState::Swap { head, next } => Instr::CompareExchange {
                loc: Loc::Head,
                current: *head,
                new: *next,
            },
            PopState::Take { head } => Instr::Take(*head),
            PopState::Retire { head, .. } => Instr::Retire(*head),
            PopState::Retry => Instr::Release,
            PopState::Finish { .. } => Instr::Release,
        }
    }

    /// Returns the state that follows when the access returned `word`.
    pub fn resume(self, word: usize) -> (state: PopState<T>)
        ensures
            state == self.after(word),
    {
        match self {
            PopState::ProtectHead => {
                if word != 0 {
                    PopState::LoadNext { head: word }
                } else {
                    PopState::Finish { value: None }
                }
            },
            PopState::LoadNext { head } => PopState::Swap { head, next: word },
            PopState::Swap { head, .. } => {
                if word != 0 {
                    PopState::Take { head }
                } else {
                    PopState::Retry
                }
            },
            PopState::Retire { value, .. } => PopState::Finish { value },
            PopState::Retry => PopState::ProtectHead,
            PopState::Take { head } => PopState::Take { head },
            PopState::Finish { value } => PopState::Finish { value },
        }
    }
}

impl<T> PopState<T> {
    /// A pop finds the stack empty only if the head link leads nowhere. It takes the value of the
    /// top node only when it has moved the head link to the node below, and then retires the
    /// node. If that fails it releases what it protected and starts over.
    pub proof fn law_pop_takes_what_it_wins(self, word: usize)
        ensures
            self == PopState::<T>::ProtectHead ==> self.next_instr() == Instr::Protect(Loc::Head),
            self == PopState::<T>::ProtectHead ==> word == 0 ==> self.after(word) == (PopState::<
                T,
            >::Finish { value: None }),
            self == PopState::<T>::ProtectHead ==> word != 0 ==> self.after(word) == (PopState::<
                T,
            >::LoadNext { head: word }),
            self matches PopState::LoadNext { head } ==> self.next_instr() == Instr::Load(
                Loc::Next(head),
            ) && self.after(word) == (PopState::<T>::Swap { head, next: word }),
            self matches PopState::Swap { head, next } ==> self.next_instr() == (
            Instr::CompareExchange { loc: Loc::Head, current: head, new: next }),
            self matches PopState::Swap { head, next } ==> word != 0 ==> self.after(word) == (
            PopState::<T>::Take { head }),
            self matches PopState::Swap { head, next } ==> word == 0 ==> self.after(word)
                == PopState::<T>::Retry,
            self matches PopState::Take { head } ==> self.next_instr() == Instr::Take(head),
            self matches PopState::Retire { head, value } ==> self.next_instr() == Instr::Retire(
                head,
            ) && self.after(word) == (PopState::Finish { value }),
            self == PopState::<T>::Retry ==> self.next_instr() == Instr::Release && self.after(word)
                == PopState::<T>::ProtectHead,
            self is Finish ==> self.next_instr() == Instr::Release && self.after(word) == self,
    {
    }
}

/// An operation under way.
#[derive(Debug)]
pub enum Op<T> {
    /// A push.
    Push(PushState),
    /// A pop.
    Pop(PopState<T>),
}

/// What an operation returns.
#[derive(Debug)]
pub enum Response<T> {
    /// The value is on the stack.
    Pushed,
    /// The value that was on top, or `None` if the stack was empty.
    Popped(Option<T>),
}

impl<T> Response<T> {
    /// The status of the operation that returns this.
    pub open spec fn status(self) -> Status<T> {
        match self {
            Response::Pushed => Status::Pushed,
            Response::Popped(value) => Status::Popped(value),
        }
    }
}

/// What a stack holds, and how far the operations under way have come.
#[verifier::ext_equal]
pub struct StackView<T> {
    /// The values on the stack, from the bottom to the top.
    pub items: Seq<T>,
    /// The operations under way.
    pub ops: Map<int, Status<T>>,
}

impl<T> StackView<T> {
    /// The stack after operation `id` took effect.
    pub open spec fn effect(self, id: int) -> StackView<T> {
        match self.ops[id] {
            Status::Pushing(value) => StackView {
                items: self.items.push(value),
                ops: self.ops.insert(id, Status::Pushed),
            },
            Status::Popping => if self.items.len() > 0 {
                StackView {
                    items: self.items.drop_last(),
                    ops: self.ops.insert(id, Status::Popped(Some(self.items.last()))),
                }
            } else {
                StackView { items: self.items, ops: self.ops.insert(id, Status::Popped(None)) }
            },
            _ => self,
        }
    }

    /// Whether operation `id` is under way and has not taken effect.
    pub open spec fn waiting(self, id: int) -> bool {
        self.ops.contains_key(id) && (self.ops[id] is Pushing || self.ops[id] is Popping)
    }
}

/// A lock-free LIFO stack with the operations under way.
pub struct Stack<T> {
    mem: Memory<T>,
    ops: Vec<Option<Op<T>>>,
    trace: Ghost<Trace>,
}

impl<T> View for Stack<T> {
    type V = StackView<T>;

    closed spec fn view(&self) -> StackView<T> {
        StackView {
            items: items(self.mem@, self.trace@),
            ops: Map::new(
                |id: int| self.under_way(id),
                |id: int| status(self.mem@, self.ops@[id]->0),
            ),
        }
    }
}

impl<T> Stack<T> {
    spec fn under_way(self, id: int) -> bool {
        0 <= id < self.ops@.len() && self.ops@[id] is Some
    }

    /// The memory is a list, and what each operation under way knows of it is true.
    pub closed spec fn wf(self) -> bool {
        self.mem.wf() && stack_inv(self.mem@, self.trace@, self.ops@)
    }

    /// How many accesses are left to operation `id` if nobody interferes, at most.
    pub closed spec fn steps_left(self, id: int) -> int {
        rank(self.trace@, self.ops@[id]->0)
    }

    /// The sum of [`Stack::steps_left`] over the operations under way.
    pub closed spec fn work_left(self) -> int {
        work(self.trace@, self.ops@)
    }

    /// How often the head link was moved so far.
    pub closed spec fn moves(self) -> int {
        self.trace@.moves
    }

    /// The nodes that are unlinked and wait to be reclaimed.
    pub closed spec fn retired(self) -> Set<usize> {
        self.mem@.retired
    }

    /// Those among them that no operation had published when a reclaimer looked.
    pub closed spec fn condemned(self) -> Set<usize> {
        self.mem@.condemned
    }

    /// Whether the node at `addr` is allocated.
    pub closed spec fn allocated(self, addr: usize) -> bool {
        self.mem@.nodes.contains_key(addr)
    }

    /// Whether the node at `addr` holds a value of the stack.
    pub closed spec fn on_list(self, addr: usize) -> bool {
        self.trace@.list.contains(addr)
    }

    /// Whether some operation under way has published the node at `addr`.
    pub closed spec fn protected(self, addr: usize) -> bool {
        self.mem@.guarded(addr)
    }

    /// Creates a new empty stack.
    pub fn new() -> (stack: Self)
        ensures
            stack.wf(),
            stack@.items == Seq::<T>::empty(),
            stack@.ops == Map::<int, Status<T>>::empty(),
            stack@ == StackView::<T>::fresh(),
            stack.moves() == 0,
    {
        let ghost trace = Trace {
            list: Seq::empty(),
            known: Set::empty(),
            claims: Map::empty(),
            fresh: Map::empty(),
            moves: 0,
        };
        let stack = Stack { mem: Memory::new(), ops: Vec::new(), trace: Ghost(trace) };
        proof {
            assert(stack_inv(stack.mem@, stack.trace@, stack.ops@));
            assert(stack@.items =~= Seq::<T>::empty());
            assert(stack@.ops =~= Map::<int, Status<T>>::empty());
        }
        stack
    }

    /// Finds a slot for an operation, or makes one.
    fn slot(&mut self) -> (id: usize)
        requires
            old(self).wf(),
        ensures
            final(self).wf(),
            final(self)@ == old(self)@,
            final(self).moves() == old(self).moves(),
            id < final(self).ops@.len(),
            final(self).ops@[id as int] is None,
            forall|j: int|
                old(self)@.ops.contains_key(j) ==> #[trigger] final(self).steps_left(j) == old(
                    self,
                ).steps_left(j),
    {
        let mut id: usize = 0;
        while id < self.ops.len()
            invariant
                id <= self.ops.len(),
                *self == *old(self),
                self.wf(),
            decreases self.ops.len() - id,
        {
            if self.ops[id].is_none() {
                return id;
            }
            id = id + 1;
        }
        self.mem.add_holder();
        self.ops.push(None);
        proof {
            lemma_add_slot(old(self).mem@, old(self).trace@, old(self).ops@);
            assert(self@.items =~= old(self)@.items);
            assert(self@.ops =~= old(self)@.ops);
        }
        id
    }

    /// Starts to push `value` and returns the operation.
    pub fn begin_push(&mut self, value: T) -> (id: usize)
        requires
            old(self).wf(),
        ensures
            final(self).wf(),
            !old(self)@.ops.contains_key(id as int),
            final(self)@ == (StackView {
                items: old(self)@.items,
                ops: old(self)@.ops.insert(id as int, Status::Pushing(value)),
            }),
            old(self)@.moves_to(Move::BeginPush(id as int, value), final(self)@),
            final(self).moves() == old(self).moves(),
            final(self).steps_left(id as int) > 0,
            forall|j: int|
                old(self)@.ops.contains_key(j) ==> #[trigger] final(self).steps_left(j) == old(
                    self,
                ).steps_left(j),
    {
        let id: usize = self.slot();
        let ghost before = *self;
        let node: usize = self.mem.allocate(Node::new(value));
        proof {
            lemma_begin_push(before.mem@, before.trace@, before.ops@, id as int, node, value);
        }
        self.ops.set(id, Some(Op::Push(PushState::LoadHead { node })));
        self.trace = Ghost(node_added(before.trace@, node, id as int));
        proof {
            self.lemma_others(before, id as int);
            assert(self@.ops =~= before@.ops.insert(id as int, Status::Pushing(value)));
        }
        id
    }

    /// Starts to pop a value and returns the operation.
    pub fn begin_pop(&mut self) -> (id: usize)
        requires
            old(self).wf(),
        ensures
            final(self).wf(),
            !old(self)@.ops.contains_key(id as int),
            final(self)@ == (StackView {
                items: old(self)@.items,
                ops: old(self)@.ops.insert(id as int, Status::Popping),
            }),
            old(self)@.moves_to(Move::BeginPop(id as int), final(self)@),
            final(self).moves() == old(self).moves(),
            final(self).steps_left(id as int) > 0,
            forall|j: int|
                old(self)@.ops.contains_key(j) ==> #[trigger] final(self).steps_left(j) == old(
                    self,
                ).steps_left(j),
    {
        let id: usize = self.slot();
        let ghost before = *self;
        proof {
            lemma_begin_pop(before.mem@, before.trace@, before.ops@, id as int);
        }
        self.ops.set(id, Some(Op::Pop(PopState::ProtectHead)));
        proof {
            self.lemma_others(before, id as int);
            assert(self@.ops =~= before@.ops.insert(id as int, Status::Popping));
        }
        id
    }

    /// An access of operation `id` leaves the others where they were.
    proof fn lemma_others(&self, before: Self, id: int)
        requires
            before.wf(),
            self.wf(),
            0 <= id < before.ops@.len(),
            self.ops@ == before.ops@.update(id, self.ops@[id]),
            evolves(before.mem@, before.trace@, self.mem@, self.trace@, id),
        ensures
            forall|j: int|
                j != id && #[trigger] before@.ops.contains_key(j) ==> self@.ops.contains_key(j)
                    && self@.ops[j] == before@.ops[j] && (self.moves() == before.moves()
                    ==> self.steps_left(j) == before.steps_left(j)),
            forall|j: int|
                j != id && #[trigger] self@.ops.contains_key(j) ==> before@.ops.contains_key(j),
    {
        lemma_frame(
            before.mem@,
            before.trace@,
            before.ops@,
            self.mem@,
            self.trace@,
            id,
            self.ops@[id],
        );
        assert forall|j: int| j != id && #[trigger] before@.ops.contains_key(j) implies {
            &&& self@.ops.contains_key(j)
            &&& self@.ops[j] == before@.ops[j]
            &&& self.moves() == before.moves() ==> self.steps_left(j) == before.steps_left(j)
        } by {
            assert(before.ops@[j] is Some);
            assert(self.ops@[j] == before.ops@[j]);
        }
    }

    /// Looks whether the node at `addr` is retired and no operation under way has published it,
    /// and condemns it then: it may be reclaimed at any later time, also if an operation
    /// publishes the address meanwhile. Returns whether it is so. A reclaimer may look between
    /// any two accesses: nothing of what the operations under way do or return depends on it.
    pub fn condemn(&mut self, addr: usize) -> (found: bool)
        requires
            old(self).wf(),
        ensures
            final(self).wf(),
            final(self)@ == old(self)@,
            found == (old(self).retired().contains(addr) && !old(self).protected(addr)),
            final(self).condemned() == (if found {
                old(self).condemned().insert(addr)
            } else {
                old(self).condemned()
            }),
            final(self).retired() == old(self).retired(),
            forall|a: usize| final(self).allocated(a) == old(self).allocated(a),
            forall|a: usize| final(self).protected(a) == old(self).protected(a),
            final(self).moves() == old(self).moves(),
            final(self).work_left() == old(self).work_left(),
            forall|j: int|
                old(self)@.ops.contains_key(j) ==> #[trigger] final(self).steps_left(j) == old(
                    self,
                ).steps_left(j),
    {
        let found = self.mem.condemn(addr);
        if found {
            proof {
                lemma_condemn(old(self).mem@, old(self).trace@, old(self).ops@, addr);
                assert(self@.ops =~= old(self)@.ops);
            }
        }
        found
    }

    /// Reclaims the node at `addr` if it is condemned; returns whether it did. A reclaimer may
    /// do so between any two accesses: nothing of what the operations under way do or return
    /// depends on it.
    pub fn reclaim(&mut self, addr: usize) -> (freed: bool)
        requires
            old(self).wf(),
        ensures
            final(self).wf(),
            final(self)@ == old(self)@,
            freed == old(self).condemned().contains(addr),
            final(self).retired() == (if freed {
                old(self).retired().remove(addr)
            } else {
                old(self).retired()
            }),
            final(self).condemned() == (if freed {
                old(self).condemned().remove(addr)
            } else {
                old(self).condemned()
            }),
            forall|a: usize| #[trigger]
                final(self).allocated(a) <==> old(self).allocated(a) && !(freed && a == addr),
            forall|a: usize| final(self).protected(a) == old(self).protected(a),
            final(self).moves() == old(self).moves(),
            final(self).work_left() == old(self).work_left(),
            forall|j: int|
                old(self)@.ops.contains_key(j) ==> #[trigger] final(self).steps_left(j) == old(
                    self,
                ).steps_left(j),
    {
        let freed = self.mem.reclaim(addr);
        if freed {
            self.trace = Ghost(reclaimed(old(self).trace@, addr));
            proof {
                lemma_reclaim(old(self).mem@, old(self).trace@, old(self).ops@, addr);
                assert(self@.ops =~= old(self)@.ops);
                assert forall|j: int| old(self)@.ops.contains_key(
                    j,
                ) implies #[trigger] self.steps_left(j) == old(self).steps_left(j) by {
                    assert(old(self).ops@[j] is Some);
                }
            }
        }
        freed
    }

    /// Returns the nodes that wait to be reclaimed.
    pub fn waste(&self) -> (list: Vec<usize>)
        ensures
            forall|a: usize| #[trigger] self.retired().contains(a) <==> list@.contains(a),
    {
        self.mem.retired()
    }

    /// Only retired nodes are condemned.
    pub proof fn lemma_condemned_are_retired(self)
        requires
            self.wf(),
        ensures
            forall|a: usize| #[trigger] self.condemned().contains(a) ==> self.retired().contains(a),
    {
        self.mem.lemma_wf();
    }

    /// Makes the next access of operation `id`; returns its response if it is through.
    ///
    /// An operation takes effect in one access, between its first and its last; it then
    /// returns what a stack returns that does one thing at a time. Nothing else changes
    /// the values on the stack. An access either moves the head link or leaves less to do.
    pub fn step(&mut self, id: usize) -> (response: Option<Response<T>>)
        requires
            old(self).wf(),
            old(self)@.ops.contains_key(id as int),
        ensures
            final(self).wf(),
            match response {
                Some(r) => {
                    &&& old(self)@.ops[id as int] == r.status()
                    &&& match r {
                        Response::Pushed => old(self)@.ops[id as int] == Status::<T>::Pushed,
                        Response::Popped(value) => old(self)@.ops[id as int] == Status::Popped(value),
                    }
                    &&& final(self)@ == (StackView {
                        items: old(self)@.items,
                        ops: old(self)@.ops.remove(id as int),
                    })
                    &&& old(self)@.moves_to(Move::End(id as int), final(self)@)
                    &&& final(self).moves() == old(self).moves()
                },
                None => {
                    &&& final(self)@ == old(self)@ || (old(self)@.waiting(id as int)
                        && final(self)@ == old(self)@.effect(id as int) && old(self)@.moves_to(
                        Move::Effect(id as int),
                        final(self)@,
                    ))
                    &&& final(self)@ == old(self)@ || match old(self)@.ops[id as int] {
                        Status::Pushing(value) => {
                            &&& final(self)@.items == old(self)@.items.push(value)
                            &&& final(self)@.ops == old(self)@.ops.insert(
                                id as int,
                                Status::Pushed,
                            )
                        },
                        Status::Popping => if old(self)@.items.len() > 0 {
                            &&& final(self)@.items == old(self)@.items.drop_last()
                            &&& final(self)@.ops == old(self)@.ops.insert(
                                id as int,
                                Status::Popped(Some(old(self)@.items.last())),
                            )
                        } else {
                            &&& final(self)@.items == old(self)@.items
                            &&& final(self)@.ops == old(self)@.ops.insert(
                                id as int,
                                Status::Popped(None),
                            )
                        },
                        _ => false,
                    }
                    &&& 0 < final(self).steps_left(id as int) < old(self).steps_left(id as int)
                },
            },
            final(self).moves() == old(self).moves() + (if final(self)@.items.len() == old(
                self,
            )@.items.len() {
                0int
            } else {
                1
            }),
            final(self).moves() == old(self).moves() ==> final(self).work_left() < old(
                self,
            ).work_left(),
            final(self).moves() == old(self).moves() ==> forall|j: int|
                j != id && old(self)@.ops.contains_key(j) ==> #[trigger] final(self).steps_left(j)
                    == old(self).steps_left(j),
            old(self).work_left() >= 0,
    {
        let ghost m = self.mem@;
        let ghost t = self.trace@;
        let ghost ops = self.ops@;
        let ghost i = id as int;
        proof {
            self.mem.lemma_wf();
            lemma_work_nonneg(t, ops);
        }
        match self.ops[id].take() {
            Some(Op::Push(PushState::Finish)) => {
                self.mem.release(id);
                proof {
                    lemma_finish(m, t, ops, i);
                    assert(self.ops@ =~= ops.update(i, None));
                    self.lemma_others(*old(self), i);
                    lemma_progress(m, t, ops, self.mem@, t, i, None);
                    assert(self@.ops =~= old(self)@.ops.remove(i));
                }
                Some(Response::Pushed)
            },
            Some(Op::Push(state)) => {
                let instr = state.instr();
                proof {
                    lemma_push_step(m, t, ops, i, state);
                }
                let word = self.mem.execute(id, instr);
                let ghost state2 = state.after(word);
                self.ops.set(id, Some(Op::Push(state.resume(word))));
                self.trace = Ghost(push_trace(m, t, state));
                proof {
                    assert(self.ops@ =~= ops.update(i, Some(Op::Push(state2))));
                    self.lemma_others(*old(self), i);
                    lemma_progress(m, t, ops, self.mem@, self.trace@, i, self.ops@[i]);
                    if state2 is Finish {
                        assert(self@.ops =~= old(self)@.effect(i).ops);
                    } else {
                        assert(self@.ops =~= old(self)@.ops);
                    }
                }
                None
            },
            Some(Op::Pop(PopState::Finish { value })) => {
                self.mem.release(id);
                proof {
                    lemma_finish(m, t, ops, i);
                    assert(self.ops@ =~= ops.update(i, None));
                    self.lemma_others(*old(self), i);
                    lemma_progress(m, t, ops, self.mem@, t, i, None);
                    assert(self@.ops =~= old(self)@.ops.remove(i));
                }
                Some(Response::Popped(value))
            },
            Some(Op::Pop(state)) => {
                proof {
                    lemma_pop_step(m, t, ops, i, state);
                }
                let ghost state2 = pop_next(m, state);
                let next = match state {
                    PopState::Take { head } => {
                        let value = self.mem.take(head);
                        proof {
                            assert(self.mem@ == m.after(i, Instr::Take(head)));
                        }
                        PopState::Retire { head, value }
                    },
                    other => {
                        let word = self.mem.execute(id, other.instr());
                        other.resume(word)
                    },
                };
                self.ops.set(id, Some(Op::Pop(next)));
                self.trace = Ghost(pop_trace(m, t, i, state));
                proof {
                    assert(next == state2);
                    assert(self.ops@ =~= ops.update(i, Some(Op::Pop(state2))));
                    self.lemma_others(*old(self), i);
                    lemma_progress(m, t, ops, self.mem@, self.trace@, i, self.ops@[i]);
                    if old(self)@.ops[i] is Popping && self@.ops[i] is Popped {
                        assert(self@.ops =~= old(self)@.effect(i).ops);
                    } else {
                        assert(self@.ops =~= old(self)@.ops);
                    }
                }
                None
            },
            None => None,
        }
    }

    /// Pushes a value onto the stack. Other operations may be under way at any point of theirs.
    pub fn push(&mut self, value: T)
        requires
            old(self).wf(),
        ensures
            final(self).wf(),
            final(self)@.items == old(self)@.items.push(value),
            final(self)@.ops == old(self)@.ops,
            old(self)@.moves_to(Move::Push(value), final(self)@),
            final(self).moves() == old(self).moves() + 1,
    {
        let id: usize = self.begin_push(value);
        let ghost ops = old(self)@.ops;
        let ghost items = old(self)@.items;
        let ghost i = id as int;
        let ghost start = self@;
        let mut done: bool = false;
        while !done
            invariant
                self.wf(),
                i == id,
                !ops.contains_key(i),
                start == (StackView { items, ops: ops.insert(i, Status::Pushing(value)) }),
                self.moves() == old(self).moves() + (self@.items.len() - items.len()),
                done ==> self@.ops == ops && self@.items == items.push(value),
                !done ==> self.steps_left(i) > 0 && (self@ == start || self@ == start.effect(i)),
            decreases
                    if done {
                        0
                    } else {
                        self.steps_left(i)
                    },
        {
            let response = self.step(id);
            proof {
                assert(start.effect(i).ops.remove(i) =~= ops);
            }
            done = response.is_some();
        }
    }

    /// Pops a value from the stack, or `None` if empty. Other operations may be under way
    /// at any point of theirs.
    pub fn pop(&mut self) -> (value: Option<T>)
        requires
            old(self).wf(),
        ensures
            final(self).wf(),
            final(self)@.ops == old(self)@.ops,
            match value {
                Some(v) => {
                    &&& old(self)@.items.len() > 0
                    &&& v == old(self)@.items.last()
                    &&& final(self)@.items == old(self)@.items.drop_last()
                },
                None => old(self)@.items.len() == 0 && final(self)@.items == old(self)@.items,
            },
            old(self)@.moves_to(Move::Pop, final(self)@),
            final(self).moves() == old(self).moves() + (if value is Some {
                1int
            } else {
                0
            }),
    {
        let id: usize = self.begin_pop();
        let ghost ops = old(self)@.ops;
        let ghost items = old(self)@.items;
        let ghost i = id as int;
        let ghost start = self@;
        let mut value: Option<T> = None;
        let mut done: bool = false;
        while !done
            invariant
                self.wf(),
                i == id,
                !ops.contains_key(i),
                start == (StackView { items, ops: ops.insert(i, Status::Popping) }),
                self.moves() == old(self).moves() + (items.len() - self@.items.len()),
                done ==> self@.ops == ops && self@.items == start.effect(i).items
                    && Status::Popped(value) == start.effect(i).ops[i],
                !done ==> self.steps_left(i) > 0 && (self@ == start || self@ == start.effect(i)),
            decreases
                    if done {
                        0
                    } else {
                        self.steps_left(i)
                    },
        {
            let response = self.step(id);
            proof {
                assert(start.effect(i).ops.remove(i) =~= ops);
            }
            match response {
                Some(Response::Popped(v)) => {
                    value = v;
                    done = true;
                },
                Some(Response::Pushed) => {
                    done = true;
                },
                None => {},
            }
        }
        self.collect();
        value
    }

    /// Takes the stack apart: walks the list from the top down and moves every value out.
    pub fn into_items(self) -> (values: Vec<T>)
        requires
            self.wf(),
        ensures
            values@ == self@.items.reverse(),
    {
        let ghost t = self.trace@;
        let ghost all = self@.items;
        let Stack { mut mem, .. } = self;
        let mut values: Vec<T> = Vec::new();
        let mut node: usize = mem.load(Loc::Head);
        let ghost mut left: int = t.list.len() as int;
        proof {
            assert(values@ =~= all.reverse().take(0));
        }
        while node != 0
            invariant
                mem.wf(),
                all == self@.items,
                t.list.no_duplicates(),
                all.len() == t.list.len(),
                0 <= left <= t.list.len(),
                node == t.below(left),
                values@ == all.reverse().take(t.list.len() - left),
                forall|k: int|
                    0 <= k < t.list.len() ==> #[trigger] t.list[k] != 0 && mem@.nodes.contains_key(
                        t.list[k],
                    ) && mem@.nodes[t.list[k]].next == t.below(k),
                forall|k: int|
                    0 <= k < left ==> mem@.nodes[#[trigger] t.list[k]].data == Some(all[k]),
            decreases left,
        {
            let ghost before = mem@;
            proof {
                assert(t.list[left - 1] == node);
                assert forall|k: int| 0 <= k < t.list.len() && k != left - 1 implies
                    #[trigger] t.list[k] != node by {}
            }
            if let Some(value) = mem.take(node) {
                values.push(value);
            }
            proof {
                assert(mem@ == before.after(0, Instr::Take(node)));
                assert(values@ =~= all.reverse().take(t.list.len() - (left - 1)));
                left = left - 1;
            }
            node = mem.load(Loc::Next(node));
        }
        proof {
            assert(left == 0);
            assert(all.reverse().take(t.list.len() as int) =~= all.reverse());
        }
        values
    }

    /// No work is left that is negative.
    pub proof fn lemma_bounded(self)
        requires
            self.wf(),
        ensures
            self.work_left() >= 0,
    {
        lemma_work_nonneg(self.trace@, self.ops@);
    }

    /// When no operation is under way, no address is published.
    pub proof fn law_nothing_is_published_at_rest(self, addr: usize)
        requires
            self.wf(),
            self@.ops == Map::<int, Status<T>>::empty(),
        ensures
            !self.protected(addr),
    {
        if self.mem@.guarded(addr) {
            let id = choose|id: int| publishes(self.mem@.guards, id, addr);
            assert(!self@.ops.contains_key(id));
            assert(self.ops@[id] is None);
        }
    }

    /// A node that is on the list is allocated, and neither retired nor condemned.
    pub proof fn law_node_on_the_list_is_in_use(self, addr: usize)
        requires
            self.wf(),
            self.on_list(addr),
        ensures
            self.allocated(addr),
            !self.retired().contains(addr),
            !self.condemned().contains(addr),
    {
    }

    /// When no operation is under way, each node is on the list, or is unlinked and can be
    /// reclaimed.
    pub proof fn law_no_node_leaks(self, addr: usize)
        requires
            self.wf(),
            self.allocated(addr),
            self@.ops == Map::<int, Status<T>>::empty(),
        ensures
            self.on_list(addr) || (self.retired().contains(addr) && !self.protected(addr)),
    {
        let t = self.trace@;
        assert forall|i: int| 0 <= i < self.ops@.len() implies self.ops@[i] is None by {
            assert(!self@.ops.contains_key(i));
        }
        if t.fresh.contains_key(addr) {
            assert(self.ops@[t.fresh[addr]] is None);
        } else {
            assert(t.known.contains(addr));
            if t.claims.contains_key(addr) {
                assert(self.ops@[t.claims[addr]] is None);
            }
            if self.mem@.guarded(addr) {
                let id = choose|id: int| publishes(self.mem@.guards, id, addr);
                assert(self.ops@[id] is None);
            }
        }
    }

    /// A value that is pushed is the one that the next pop takes, and leaves what was there
    /// before.
    pub proof fn law_last_in_first_out(view: StackView<T>, push: int, pop: int, value: T)
        requires
            view.ops.contains_key(push),
            view.ops[push] == Status::Pushing(value),
            view.ops.contains_key(pop),
            view.ops[pop] == Status::<T>::Popping,
        ensures
            view.effect(push).effect(pop).ops[pop] == Status::Popped(Some(value)),
            view.effect(push).effect(pop).items == view.items,
            view.effect(push).ops[push] == Status::<T>::Pushed,
            view.effect(push).items.len() == view.items.len() + 1,
            view.items.len() == 0 ==> view.effect(pop).ops[pop] == Status::<T>::Popped(None)
                && view.effect(pop).items.len() == 0,
            view.items.len() > 0 ==> view.effect(pop).ops[pop] == Status::Popped(
                Some(view.items[view.items.len() - 1]),
            ) && view.effect(pop).items + seq![view.items[view.items.len() - 1]] == view.items,
    {
        if view.items.len() > 0 {
            assert(view.effect(pop).items + seq![view.items[view.items.len() - 1]] =~= view.items);
        }
        assert(view.effect(push).effect(pop).items =~= view.items);
    }
}

} // verus!
