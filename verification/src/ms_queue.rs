//! A lock-free MPMC queue based on the Michael-Scott algorithm.
//!
//! This is the classic lock-free linked-list queue described in:
//! - Michael, M. M., & Scott, M. L. (1996). *Simple, Fast, and Practical Non-Blocking
//!   and Blocking Concurrent Queue Algorithms*. <https://doi.org/10.1145/248052.248106>
//!
//! An operation is a state machine: [`EnqueueState`] and [`DequeueState`] say which
//! access to the shared memory comes next and what follows from the word that it
//! returned. A [`Queue`] holds the memory and the operations that are under way; each
//! [`Queue::step`] makes one access of one of them, so that a caller who chooses the
//! steps sees every interleaving of any number of operations.
use vstd::prelude::*;

use crate::memory::{publishes, Instr, Loc, Memory, Node};
use crate::ms_queue_history::Move;
use crate::ms_queue_proof::{
    dequeue_next, dequeue_trace, enqueue_trace, evolves, lemma_add_slot, lemma_begin_dequeue,
    lemma_begin_enqueue, lemma_condemn, lemma_dequeue_step, lemma_enqueue_step, lemma_finish, lemma_frame,
    lemma_progress, lemma_reclaim, lemma_work_nonneg, node_added, queue_inv, rank, reclaimed,
    status, work, Status, Trace,
};

verus! {

/// Where an enqueue stands. `node` is the new node, which nobody else can reach
/// until it is linked.
#[derive(Debug)]
pub enum EnqueueState {
    /// Protect the last node.
    ProtectTail { node: usize },
    /// Read the link of the protected node.
    LoadNext { node: usize, tail: usize },
    /// The tail link is behind: help to advance it.
    HelpTail { node: usize, tail: usize, next: usize },
    /// The tail link is current: try to link the new node.
    Link { node: usize, tail: usize },
    /// The new node is linked: try to advance the tail link to it.
    SwingTail { node: usize, tail: usize },
    /// Release the protected node and start over.
    Retry { node: usize },
    /// Release the protected node and return.
    Finish,
}

impl EnqueueState {
    /// The access that comes next.
    pub open spec fn next_instr(self) -> Instr {
        match self {
            EnqueueState::ProtectTail { node } => Instr::Protect(Loc::Tail),
            EnqueueState::LoadNext { node, tail } => Instr::Load(Loc::Next(tail)),
            EnqueueState::HelpTail { node, tail, next } => Instr::CompareExchange {
                loc: Loc::Tail,
                current: tail,
                new: next,
            },
            EnqueueState::Link { node, tail } => Instr::CompareExchange {
                loc: Loc::Next(tail),
                current: 0,
                new: node,
            },
            EnqueueState::SwingTail { node, tail } => Instr::CompareExchange {
                loc: Loc::Tail,
                current: tail,
                new: node,
            },
            EnqueueState::Retry { node } => Instr::Release,
            EnqueueState::Finish => Instr::Release,
        }
    }

    /// The state after that access returned `word`.
    pub open spec fn after(self, word: usize) -> EnqueueState {
        match self {
            EnqueueState::ProtectTail { node } => EnqueueState::LoadNext { node, tail: word },
            EnqueueState::LoadNext { node, tail } => if word != 0 {
                EnqueueState::HelpTail { node, tail, next: word }
            } else {
                EnqueueState::Link { node, tail }
            },
            EnqueueState::HelpTail { node, tail, next } => EnqueueState::Retry { node },
            EnqueueState::Link { node, tail } => if word != 0 {
                EnqueueState::SwingTail { node, tail }
            } else {
                EnqueueState::Retry { node }
            },
            EnqueueState::SwingTail { node, tail } => EnqueueState::Finish,
            EnqueueState::Retry { node } => EnqueueState::ProtectTail { node },
            EnqueueState::Finish => EnqueueState::Finish,
        }
    }

    /// The node that waits to be linked.
    pub open spec fn unlinked_node(self) -> Option<usize> {
        match self {
            EnqueueState::ProtectTail { node } => Some(node),
            EnqueueState::LoadNext { node, tail } => Some(node),
            EnqueueState::HelpTail { node, tail, next } => Some(node),
            EnqueueState::Link { node, tail } => Some(node),
            EnqueueState::Retry { node } => Some(node),
            _ => None,
        }
    }

    /// Returns the access that comes next.
    pub fn instr(&self) -> (instr: Instr)
        ensures
            instr == self.next_instr(),
    {
        match self {
            EnqueueState::ProtectTail { .. } => Instr::Protect(Loc::Tail),
            EnqueueState::LoadNext { tail, .. } => Instr::Load(Loc::Next(*tail)),
            EnqueueState::HelpTail { tail, next, .. } => Instr::CompareExchange {
                loc: Loc::Tail,
                current: *tail,
                new: *next,
            },
            EnqueueState::Link { node, tail } => Instr::CompareExchange {
                loc: Loc::Next(*tail),
                current: 0,
                new: *node,
            },
            EnqueueState::SwingTail { node, tail } => Instr::CompareExchange {
                loc: Loc::Tail,
                current: *tail,
                new: *node,
            },
            EnqueueState::Retry { .. } => Instr::Release,
            EnqueueState::Finish => Instr::Release,
        }
    }

    /// Returns the state that follows when the access returned `word`.
    pub fn resume(self, word: usize) -> (state: EnqueueState)
        ensures
            state == self.after(word),
    {
        match self {
            EnqueueState::ProtectTail { node } => EnqueueState::LoadNext { node, tail: word },
            EnqueueState::LoadNext { node, tail } => {
                if word != 0 {
                    EnqueueState::HelpTail { node, tail, next: word }
                } else {
                    EnqueueState::Link { node, tail }
                }
            },
            EnqueueState::HelpTail { node, .. } => EnqueueState::Retry { node },
            EnqueueState::Link { node, tail } => {
                if word != 0 {
                    EnqueueState::SwingTail { node, tail }
                } else {
                    EnqueueState::Retry { node }
                }
            },
            EnqueueState::SwingTail { .. } => EnqueueState::Finish,
            EnqueueState::Retry { node } => EnqueueState::ProtectTail { node },
            EnqueueState::Finish => EnqueueState::Finish,
        }
    }
}

impl EnqueueState {
    /// An enqueue returns only after its node was linked behind the last one: the link was empty
    /// and now leads to the node. If that fails, or if the tail link is behind, it releases what
    /// it protected and starts over with the same node.
    pub proof fn law_enqueue_links_its_node(self, word: usize)
        ensures
            self.after(word) is Finish ==> self is SwingTail || self is Finish,
            self.after(word) matches EnqueueState::SwingTail { node, tail } ==> self == (
            EnqueueState::Link { node, tail }) && word != 0 && self.next_instr() == (
            Instr::CompareExchange { loc: Loc::Next(tail), current: 0, new: node }),
            self matches EnqueueState::SwingTail { node, tail } ==> self.next_instr() == (
            Instr::CompareExchange { loc: Loc::Tail, current: tail, new: node })
                && self.after(word) is Finish,
            self matches EnqueueState::Link { node, tail } ==> word == 0 ==> self.after(word) == (
            EnqueueState::Retry { node }),
            self matches EnqueueState::Link { node, tail } ==> word != 0 ==> self.after(word) == (
            EnqueueState::SwingTail { node, tail }),
            self matches EnqueueState::LoadNext { node, tail } ==> self.next_instr()
                == Instr::Load(Loc::Next(tail)),
            self matches EnqueueState::LoadNext { node, tail } ==> word == 0 ==> self.after(word)
                == (EnqueueState::Link { node, tail }),
            self matches EnqueueState::LoadNext { node, tail } ==> word != 0 ==> self.after(word)
                == (EnqueueState::HelpTail { node, tail, next: word }),
            self matches EnqueueState::HelpTail { node, tail, next } ==> self.next_instr() == (
            Instr::CompareExchange { loc: Loc::Tail, current: tail, new: next })
                && self.after(word) == (EnqueueState::Retry { node }),
            self matches EnqueueState::Retry { node } ==> self.next_instr() == Instr::Release
                && self.after(word) == (EnqueueState::ProtectTail { node }),
            self matches EnqueueState::ProtectTail { node } ==> self.next_instr()
                == Instr::Protect(Loc::Tail) && self.after(word) == (EnqueueState::LoadNext {
                node,
                tail: word,
            }),
            self is Finish ==> self.next_instr() == Instr::Release,
    {
    }
}

/// Where a dequeue stands.
#[derive(Debug)]
pub enum DequeueState<T> {
    /// Protect the first node.
    ProtectHead,
    /// Read the tail link.
    LoadTail { head: usize },
    /// The queue is not empty: protect the node after the first.
    ProtectNext { head: usize },
    /// Try to advance the head link.
    AdvanceHead { head: usize, next: usize },
    /// The old first node is unlinked: retire it.
    RetireHead { head: usize, next: usize },
    /// Move the value out of the new first node.
    Take { next: usize },
    /// Head and tail link were equal: read the link of the first node.
    LoadNext { head: usize },
    /// The tail link is behind: help to advance it.
    HelpTail { head: usize, next: usize },
    /// Release the protected nodes and start over.
    Retry,
    /// Release the protected nodes and return the value.
    Finish { value: Option<T> },
}

impl<T> DequeueState<T> {
    /// The access that comes next.
    pub open spec fn next_instr(self) -> Instr {
        match self {
            DequeueState::ProtectHead => Instr::Protect(Loc::Head),
            DequeueState::LoadTail { head } => Instr::Load(Loc::Tail),
            DequeueState::ProtectNext { head } => Instr::Protect(Loc::Next(head)),
            DequeueState::AdvanceHead { head, next } => Instr::CompareExchange {
                loc: Loc::Head,
                current: head,
                new: next,
            },
            DequeueState::RetireHead { head, next } => Instr::Retire(head),
            DequeueState::Take { next } => Instr::Take(next),
            DequeueState::LoadNext { head } => Instr::Load(Loc::Next(head)),
            DequeueState::HelpTail { head, next } => Instr::CompareExchange {
                loc: Loc::Tail,
                current: head,
                new: next,
            },
            DequeueState::Retry => Instr::Release,
            DequeueState::Finish { value } => Instr::Release,
        }
    }

    /// The state after that access returned `word`; what follows the move of a value
    /// is `Finish` with that value.
    pub open spec fn after(self, word: usize) -> DequeueState<T> {
        match self {
            DequeueState::ProtectHead => DequeueState::LoadTail { head: word },
            DequeueState::LoadTail { head } => if word != head {
                DequeueState::ProtectNext { head }
            } else {
                DequeueState::LoadNext { head }
            },
            DequeueState::ProtectNext { head } => DequeueState::AdvanceHead { head, next: word },
            DequeueState::AdvanceHead { head, next } => if word != 0 {
                DequeueState::RetireHead { head, next }
            } else {
                DequeueState::Retry
            },
            DequeueState::RetireHead { head, next } => DequeueState::Take { next },
            DequeueState::LoadNext { head } => if word != 0 {
                DequeueState::HelpTail { head, next: word }
            } else {
                DequeueState::Finish { value: None }
            },
            DequeueState::HelpTail { head, next } => DequeueState::Retry,
            DequeueState::Retry => DequeueState::ProtectHead,
            _ => self,
        }
    }

    /// The node whose value this operation has won and not yet moved out.
    pub open spec fn claimed_node(self) -> Option<usize> {
        match self {
            DequeueState::RetireHead { head, next } => Some(next),
            DequeueState::Take { next } => Some(next),
            _ => None,
        }
    }

    /// Returns the access that comes next.
    pub fn instr(&self) -> (instr: Instr)
        ensures
            instr == self.next_instr(),
    {
        match self {
            DequeueState::ProtectHead => Instr::Protect(Loc::Head),
            DequeueState::LoadTail { .. } => Instr::Load(Loc::Tail),
            DequeueState::ProtectNext { head } => Instr::Protect(Loc::Next(*head)),
            DequeueState::AdvanceHead { head, next } => Instr::CompareExchange {
                loc: Loc::Head,
                current: *head,
                new: *next,
            },
            DequeueState::RetireHead { head, .. } => Instr::Retire(*head),
            DequeueState::Take { next } => Instr::Take(*next),
            DequeueState::LoadNext { head } => Instr::Load(Loc::Next(*head)),
            DequeueState::HelpTail { head, next } => Instr::CompareExchange {
                loc: Loc::Tail,
                current: *head,
                new: *next,
            },
            DequeueState::Retry => Instr::Release,
            DequeueState::Finish { .. } => Instr::Release,
        }
    }

    /// Returns the state that follows when the access returned `word`.
    pub fn resume(self, word: usize) -> (state: DequeueState<T>)
        ensures
            state == self.after(word),
    {
        match self {
            DequeueState::ProtectHead => DequeueState::LoadTail { head: word },
            DequeueState::LoadTail { head } => {
                if word != head {
                    DequeueState::ProtectNext { head }
                } else {
                    DequeueState::LoadNext { head }
                }
            },
            DequeueState::ProtectNext { head } => DequeueState::AdvanceHead { head, next: word },
            DequeueState::AdvanceHead { head, next } => {
                if word != 0 {
                    DequeueState::RetireHead { head, next }
                } else {
                    DequeueState::Retry
                }
            },
            DequeueState::RetireHead { next, .. } => DequeueState::Take { next },
            DequeueState::LoadNext { head } => {
                if word != 0 {
                    DequeueState::HelpTail { head, next: word }
                } else {
                    DequeueState::Finish { value: None }
                }
            },
            DequeueState::HelpTail { .. } => DequeueState::Retry,
            DequeueState::Retry => DequeueState::ProtectHead,
            DequeueState::Take { next } => DequeueState::Take { next },
            DequeueState::Finish { value } => DequeueState::Finish { value },
        }
    }
}

impl<T> DequeueState<T> {
    /// A dequeue finds the queue empty only if head and tail link were equal and the first node
    /// had no successor. It takes the value of the node after the first only when it has moved
    /// the head link there, and retires the old first node. If that fails, or if the tail link is
    /// behind, it releases what it protected and starts over.
    pub proof fn law_dequeue_takes_what_it_wins(self, word: usize)
        ensures
            self == DequeueState::<T>::ProtectHead ==> self.next_instr() == Instr::Protect(
                Loc::Head,
            ) && self.after(word) == (DequeueState::<T>::LoadTail { head: word }),
            self matches DequeueState::LoadTail { head } ==> self.next_instr() == Instr::Load(
                Loc::Tail,
            ),
            self matches DequeueState::LoadTail { head } ==> word == head ==> self.after(word) == (
            DequeueState::<T>::LoadNext { head }),
            self matches DequeueState::LoadTail { head } ==> word != head ==> self.after(word) == (
            DequeueState::<T>::ProtectNext { head }),
            self matches DequeueState::LoadNext { head } ==> self.next_instr() == Instr::Load(
                Loc::Next(head),
            ),
            self matches DequeueState::LoadNext { head } ==> word == 0 ==> self.after(word) == (
            DequeueState::<T>::Finish { value: None }),
            self matches DequeueState::LoadNext { head } ==> word != 0 ==> self.after(word) == (
            DequeueState::<T>::HelpTail { head, next: word }),
            self matches DequeueState::HelpTail { head, next } ==> self.next_instr() == (
            Instr::CompareExchange { loc: Loc::Tail, current: head, new: next })
                && self.after(word) == DequeueState::<T>::Retry,
            self matches DequeueState::ProtectNext { head } ==> self.next_instr()
                == Instr::Protect(Loc::Next(head)) && self.after(word) == (DequeueState::<
                T,
            >::AdvanceHead { head, next: word }),
            self matches DequeueState::AdvanceHead { head, next } ==> self.next_instr() == (
            Instr::CompareExchange { loc: Loc::Head, current: head, new: next }),
            self matches DequeueState::AdvanceHead { head, next } ==> word != 0 ==> self.after(word)
                == (DequeueState::<T>::RetireHead { head, next }),
            self matches DequeueState::AdvanceHead { head, next } ==> word == 0 ==> self.after(word)
                == DequeueState::<T>::Retry,
            self matches DequeueState::RetireHead { head, next } ==> self.next_instr()
                == Instr::Retire(head) && self.after(word) == (DequeueState::<T>::Take { next }),
            self matches DequeueState::Take { next } ==> self.next_instr() == Instr::Take(next),
            self == DequeueState::<T>::Retry ==> self.next_instr() == Instr::Release
                && self.after(word) == DequeueState::<T>::ProtectHead,
            self is Finish ==> self.next_instr() == Instr::Release && self.after(word) == self,
    {
    }
}

/// An operation under way.
#[derive(Debug)]
pub enum Op<T> {
    /// An enqueue.
    Enqueue(EnqueueState),
    /// A dequeue.
    Dequeue(DequeueState<T>),
}

/// What an operation returns.
#[derive(Debug)]
pub enum Response<T> {
    /// The value is in the queue.
    Enqueued,
    /// The oldest value of the queue, or `None` if it was empty.
    Dequeued(Option<T>),
}

impl<T> Response<T> {
    /// The status of the operation that returns this.
    pub open spec fn status(self) -> Status<T> {
        match self {
            Response::Enqueued => Status::Enqueued,
            Response::Dequeued(value) => Status::Dequeued(value),
        }
    }
}

/// What a queue holds, and how far the operations under way have come.
#[verifier::ext_equal]
pub struct QueueView<T> {
    /// The values in the queue, the oldest first.
    pub items: Seq<T>,
    /// The operations under way.
    pub ops: Map<int, Status<T>>,
}

impl<T> QueueView<T> {
    /// The queue after operation `id` took effect.
    pub open spec fn effect(self, id: int) -> QueueView<T> {
        match self.ops[id] {
            Status::Enqueueing(value) => QueueView {
                items: self.items.push(value),
                ops: self.ops.insert(id, Status::Enqueued),
            },
            Status::Dequeueing => if self.items.len() > 0 {
                QueueView {
                    items: self.items.drop_first(),
                    ops: self.ops.insert(id, Status::Dequeued(Some(self.items.first()))),
                }
            } else {
                QueueView { items: self.items, ops: self.ops.insert(id, Status::Dequeued(None)) }
            },
            _ => self,
        }
    }

    /// Whether operation `id` is under way and has not taken effect.
    pub open spec fn waiting(self, id: int) -> bool {
        self.ops.contains_key(id) && (self.ops[id] is Enqueueing || self.ops[id] is Dequeueing)
    }
}

/// A lock-free multi-producer, multi-consumer queue with the operations under way.
///
/// Uses a linked list of nodes with a sentinel (dummy) head node. Both root links are
/// always non-null, and the queue is empty when the head node has no successor.
pub struct Queue<T> {
    mem: Memory<T>,
    ops: Vec<Option<Op<T>>>,
    trace: Ghost<Trace<T>>,
}

impl<T> View for Queue<T> {
    type V = QueueView<T>;

    closed spec fn view(&self) -> QueueView<T> {
        QueueView {
            items: self.trace@.items(),
            ops: Map::new(
                |id: int| self.under_way(id),
                |id: int| status(self.mem@, self.trace@, self.ops@[id]->0),
            ),
        }
    }
}

impl<T> Queue<T> {
    spec fn under_way(self, id: int) -> bool {
        0 <= id < self.ops@.len() && self.ops@[id] is Some
    }

    /// The memory is a list, and what each operation under way knows of it is true.
    pub closed spec fn wf(self) -> bool {
        self.mem.wf() && queue_inv(self.mem@, self.trace@, self.ops@)
    }

    /// How many accesses are left to operation `id` if nobody interferes, at most.
    pub closed spec fn steps_left(self, id: int) -> int {
        rank(self.trace@, self.ops@[id]->0)
    }

    /// The sum of [`Queue::steps_left`] over the operations under way.
    pub closed spec fn work_left(self) -> int {
        work(self.trace@, self.ops@)
    }

    /// How many values were linked so far.
    pub closed spec fn linked(self) -> int {
        self.trace@.order.len() - 1
    }

    /// How many values were unlinked so far.
    pub closed spec fn unlinked(self) -> int {
        self.trace@.head
    }

    /// The values that were linked so far, in this order.
    pub closed spec fn enqueued(self) -> Seq<T> {
        Seq::new((self.trace@.order.len() - 1) as nat, |k: int| self.trace@.values[k + 1]->0)
    }

    /// The values that were unlinked so far, in this order.
    pub closed spec fn dequeued(self) -> Seq<T> {
        Seq::new(self.trace@.head as nat, |k: int| self.trace@.values[k + 1]->0)
    }

    /// How often the tail link was advanced so far.
    pub closed spec fn advanced(self) -> int {
        self.trace@.tail
    }

    /// Whether no link has moved since `before`.
    pub open spec fn same_links(self, before: Self) -> bool {
        &&& self.linked() == before.linked()
        &&& self.unlinked() == before.unlinked()
        &&& self.advanced() == before.advanced()
        &&& self.enqueued() == before.enqueued()
        &&& self.dequeued() == before.dequeued()
    }

    /// The nodes that are unlinked and wait to be reclaimed.
    pub closed spec fn retired(self) -> Set<usize> {
        self.mem@.retired
    }

    /// Those among them that no operation had published when a reclaimer looked.
    pub closed spec fn condemned(self) -> Set<usize> {
        self.mem@.condemned
    }

    /// The head link: the address of the sentinel.
    pub closed spec fn first(self) -> usize {
        self.mem@.head
    }

    /// The tail link: the address of the last node, or of one before it.
    pub closed spec fn last(self) -> usize {
        self.mem@.tail
    }

    /// The link of the node at `addr`.
    pub closed spec fn link(self, addr: usize) -> usize {
        self.mem@.nodes[addr].next
    }

    /// Whether the node at `addr` is allocated.
    pub closed spec fn allocated(self, addr: usize) -> bool {
        self.mem@.nodes.contains_key(addr)
    }

    /// Whether the node at `addr` is the sentinel or holds a value of the queue.
    pub closed spec fn on_list(self, addr: usize) -> bool {
        self.trace@.pos.contains_key(addr) && self.trace@.head <= self.trace@.pos[addr]
    }

    /// Whether some operation under way has published the node at `addr`.
    pub closed spec fn protected(self, addr: usize) -> bool {
        self.mem@.guarded(addr)
    }

    /// Creates a new empty queue.
    pub fn new() -> (queue: Self)
        ensures
            queue.wf(),
            queue@.items == Seq::<T>::empty(),
            queue@.ops == Map::<int, Status<T>>::empty(),
            queue@ == QueueView::<T>::fresh(),
            queue.linked() == 0,
            queue.unlinked() == 0,
            queue.advanced() == 0,
            queue.enqueued() == Seq::<T>::empty(),
            queue.dequeued() == Seq::<T>::empty(),
    {
        let mut mem: Memory<T> = Memory::new();
        let empty: usize = mem.allocate(Node::uninit());
        mem.store(Loc::Head, empty);
        mem.store(Loc::Tail, empty);
        let ghost trace = Trace {
            order: seq![empty],
            values: seq![None::<T>],
            head: 0,
            tail: 0,
            pos: Map::empty().insert(empty, 0int),
            claims: Map::empty(),
            owed: Map::empty(),
            fresh: Map::empty(),
        };
        let queue = Queue { mem, ops: Vec::new(), trace: Ghost(trace) };
        proof {
            assert(queue_inv(queue.mem@, queue.trace@, queue.ops@));
            assert(queue@.items =~= Seq::<T>::empty());
            assert(queue@.ops =~= Map::<int, Status<T>>::empty());
            assert(queue.enqueued() =~= Seq::<T>::empty());
            assert(queue.dequeued() =~= Seq::<T>::empty());
        }
        queue
    }

    /// Finds a slot for an operation, or makes one.
    fn slot(&mut self) -> (id: usize)
        requires
            old(self).wf(),
        ensures
            final(self).wf(),
            final(self)@ == old(self)@,
            final(self).same_links(*old(self)),
            id < final(self).ops@.len(),
            final(self).ops@[id as int] is None,
            forall|j: int|
                old(self)@.ops.contains_key(j) ==> #[trigger] final(self).steps_left(j) == old(
                    self,
                ).steps_left(j),
    {
        let mut id: usize = 0;
        while id < self.ops.len()
            invariant
                id <= self.ops.len(),
                *self == *old(self),
                self.wf(),
            decreases self.ops.len() - id,
        {
            if self.ops[id].is_none() {
                return id;
            }
            id = id + 1;
        }
        self.mem.add_holder();
        self.ops.push(None);
        proof {
            lemma_add_slot(old(self).mem@, old(self).trace@, old(self).ops@);
            assert(self@.ops =~= old(self)@.ops);
        }
        id
    }

    /// Starts to enqueue `data` and returns the operation.
    pub fn begin_enqueue(&mut self, data: T) -> (id: usize)
        requires
            old(self).wf(),
        ensures
            final(self).wf(),
            !old(self)@.ops.contains_key(id as int),
            final(self)@ == (QueueView {
                items: old(self)@.items,
                ops: old(self)@.ops.insert(id as int, Status::Enqueueing(data)),
            }),
            old(self)@.moves_to(Move::BeginEnqueue(id as int, data), final(self)@),
            final(self).same_links(*old(self)),
            final(self).steps_left(id as int) > 0,
            forall|j: int|
                old(self)@.ops.contains_key(j) ==> #[trigger] final(self).steps_left(j) == old(
                    self,
                ).steps_left(j),
    {
        let id: usize = self.slot();
        let ghost before = *self;
        let node: usize = self.mem.allocate(Node::new(data));
        proof {
            lemma_begin_enqueue(before.mem@, before.trace@, before.ops@, id as int, node, data);
        }
        self.ops.set(id, Some(Op::Enqueue(EnqueueState::ProtectTail { node })));
        self.trace = Ghost(node_added(before.trace@, node, id as int));
        proof {
            self.lemma_others(before, id as int);
            assert(self@.ops =~= before@.ops.insert(id as int, Status::Enqueueing(data)));
        }
        id
    }

    /// Starts to dequeue a value and returns the operation.
    pub fn begin_dequeue(&mut self) -> (id: usize)
        requires
            old(self).wf(),
        ensures
            final(self).wf(),
            !old(self)@.ops.contains_key(id as int),
            final(self)@ == (QueueView {
                items: old(self)@.items,
                ops: old(self)@.ops.insert(id as int, Status::Dequeueing),
            }),
            old(self)@.moves_to(Move::BeginDequeue(id as int), final(self)@),
            final(self).same_links(*old(self)),
            final(self).steps_left(id as int) > 0,
            forall|j: int|
                old(self)@.ops.contains_key(j) ==> #[trigger] final(self).steps_left(j) == old(
                    self,
                ).steps_left(j),
    {
        let id: usize = self.slot();
        let ghost before = *self;
        proof {
            lemma_begin_dequeue(before.mem@, before.trace@, before.ops@, id as int);
        }
        self.ops.set(id, Some(Op::Dequeue(DequeueState::ProtectHead)));
        proof {
            self.lemma_others(before, id as int);
            assert(self@.ops =~= before@.ops.insert(id as int, Status::Dequeueing));
        }
        id
    }

    /// An access of operation `id` leaves the others where they were.
    proof fn lemma_others(&self, before: Self, id: int)
        requires
            before.wf(),
            self.wf(),
            0 <= id < before.ops@.len(),
            self.ops@ == before.ops@.update(id, self.ops@[id]),
            evolves(before.mem@, before.trace@, self.mem@, self.trace@, id),
        ensures
            forall|j: int|
                j != id && #[trigger] before@.ops.contains_key(j) ==> self@.ops.contains_key(j)
                    && self@.ops[j] == before@.ops[j] && (self.same_links(before)
                    ==> self.steps_left(j) == before.steps_left(j)),
            forall|j: int|
                j != id && #[trigger] self@.ops.contains_key(j) ==> before@.ops.contains_key(j),
    {
        lemma_frame(
            before.mem@,
            before.trace@,
            before.ops@,
            self.mem@,
            self.trace@,
            id,
            self.ops@[id],
        );
        assert forall|j: int| j != id && #[trigger] before@.ops.contains_key(j) implies {
            &&& self@.ops.contains_key(j)
            &&& self@.ops[j] == before@.ops[j]
            &&& self.same_links(before) ==> self.steps_left(j) == before.steps_left(j)
        } by {
            assert(before.ops@[j] is Some);
            assert(self.ops@[j] == before.ops@[j]);
        }
    }

    /// Looks whether the node at `addr` is retired and no operation under way has published it,
    /// and condemns it then: it may be reclaimed at any later time, also if an operation
    /// publishes the address meanwhile. Returns whether it is so. A reclaimer may look between
    /// any two accesses: nothing of what the operations under way do or return depends on it.
    pub fn condemn(&mut self, addr: usize) -> (found: bool)
        requires
            old(self).wf(),
        ensures
            final(self).wf(),
            final(self)@ == old(self)@,
            found == (old(self).retired().contains(addr) && !old(self).protected(addr)),
            final(self).condemned() == (if found {
                old(self).condemned().insert(addr)
            } else {
                old(self).condemned()
            }),
            final(self).retired() == old(self).retired(),
            forall|a: usize| final(self).allocated(a) == old(self).allocated(a),
            forall|a: usize| final(self).protected(a) == old(self).protected(a),
            final(self).same_links(*old(self)),
            final(self).work_left() == old(self).work_left(),
            forall|j: int|
                old(self)@.ops.contains_key(j) ==> #[trigger] final(self).steps_left(j) == old(
                    self,
                ).steps_left(j),
    {
        let found = self.mem.condemn(addr);
        if found {
            proof {
                lemma_condemn(old(self).mem@, old(self).trace@, old(self).ops@, addr);
                assert(self@.ops =~= old(self)@.ops);
            }
        }
        found
    }

    /// Reclaims the node at `addr` if it is condemned; returns whether it did. A reclaimer may
    /// do so between any two accesses: nothing of what the operations under way do or return
    /// depends on it.
    pub fn reclaim(&mut self, addr: usize) -> (freed: bool)
        requires
            old(self).wf(),
        ensures
            final(self).wf(),
            final(self)@ == old(self)@,
            freed == old(self).condemned().contains(addr),
            final(self).retired() == (if freed {
                old(self).retired().remove(addr)
            } else {
                old(self).retired()
            }),
            final(self).condemned() == (if freed {
                old(self).condemned().remove(addr)
            } else {
                old(self).condemned()
            }),
            forall|a: usize| #[trigger]
                final(self).allocated(a) <==> old(self).allocated(a) && !(freed && a == addr),
            forall|a: usize| final(self).protected(a) == old(self).protected(a),
            final(self).same_links(*old(self)),
            final(self).work_left() == old(self).work_left(),
            forall|j: int|
                old(self)@.ops.contains_key(j) ==> #[trigger] final(self).steps_left(j) == old(
                    self,
                ).steps_left(j),
    {
        let freed = self.mem.reclaim(addr);
        if freed {
            self.trace = Ghost(reclaimed(old(self).trace@, addr));
            proof {
                lemma_reclaim(old(self).mem@, old(self).trace@, old(self).ops@, addr);
                assert(self@.ops =~= old(self)@.ops);
                assert forall|j: int| old(self)@.ops.contains_key(
                    j,
                ) implies #[trigger] self.steps_left(j) == old(self).steps_left(j) by {
                    assert(old(self).ops@[j] is Some);
                }
            }
        }
        freed
    }

    /// Returns the nodes that wait to be reclaimed.
    pub fn waste(&self) -> (list: Vec<usize>)
        ensures
            forall|a: usize| #[trigger] self.retired().contains(a) <==> list@.contains(a),
    {
        self.mem.retired()
    }

    /// Only retired nodes are condemned.
    pub proof fn lemma_condemned_are_retired(self)
        requires
            self.wf(),
        ensures
            forall|a: usize| #[trigger] self.condemned().contains(a) ==> self.retired().contains(a),
    {
        self.mem.lemma_wf();
    }

    /// Makes the next access of operation `id`; returns its response if it is through.
    ///
    /// An operation takes effect in one access, between its first and its last; it then
    /// returns what a queue returns that does one thing at a time. Nothing else changes
    /// the values in the queue. An access either moves a link or leaves less to do.
    pub fn step(&mut self, id: usize) -> (response: Option<Response<T>>)
        requires
            old(self).wf(),
            old(self)@.ops.contains_key(id as int),
        ensures
            final(self).wf(),
            match response {
                Some(r) => {
                    &&& old(self)@.ops[id as int] == r.status()
                    &&& match r {
                        Response::Enqueued => old(self)@.ops[id as int] == Status::<T>::Enqueued,
                        Response::Dequeued(value) => old(self)@.ops[id as int] == Status::Dequeued(value),
                    }
                    &&& final(self)@ == (QueueView {
                        items: old(self)@.items,
                        ops: old(self)@.ops.remove(id as int),
                    })
                    &&& old(self)@.moves_to(Move::End(id as int), final(self)@)
                    &&& final(self).same_links(*old(self))
                },
                None => {
                    &&& final(self)@ == old(self)@ || (old(self)@.waiting(id as int)
                        && final(self)@ == old(self)@.effect(id as int) && old(self)@.moves_to(
                        Move::Effect(id as int),
                        final(self)@,
                    ))
                    &&& final(self)@ == old(self)@ || match old(self)@.ops[id as int] {
                        Status::Enqueueing(value) => {
                            &&& final(self)@.items == old(self)@.items.push(value)
                            &&& final(self)@.ops == old(self)@.ops.insert(
                                id as int,
                                Status::Enqueued,
                            )
                        },
                        Status::Dequeueing => if old(self)@.items.len() > 0 {
                            &&& final(self)@.items == old(self)@.items.drop_first()
                            &&& final(self)@.ops == old(self)@.ops.insert(
                                id as int,
                                Status::Dequeued(Some(old(self)@.items.first())),
                            )
                        } else {
                            &&& final(self)@.items == old(self)@.items
                            &&& final(self)@.ops == old(self)@.ops.insert(
                                id as int,
                                Status::Dequeued(None),
                            )
                        },
                        _ => false,
                    }
                    &&& 0 < final(self).steps_left(id as int) < old(self).steps_left(id as int)
                },
            },
            final(self).linked() == old(self).linked() + (if final(self)@.items.len() > old(
                self,
            )@.items.len() {
                1int
            } else {
                0
            }),
            final(self).unlinked() == old(self).unlinked() + (if final(self)@.items.len() < old(
                self,
            )@.items.len() {
                1int
            } else {
                0
            }),
            final(self).enqueued() == (if final(self)@.items.len() > old(self)@.items.len() {
                old(self).enqueued().push(final(self)@.items.last())
            } else {
                old(self).enqueued()
            }),
            final(self).dequeued() == (if final(self)@.items.len() < old(self)@.items.len() {
                old(self).dequeued().push(old(self)@.items.first())
            } else {
                old(self).dequeued()
            }),
            old(self).advanced() <= final(self).advanced() <= final(self).linked(),
            final(self).same_links(*old(self)) ==> final(self).work_left() < old(self).work_left(),
            final(self).same_links(*old(self)) ==> forall|j: int|
                j != id && old(self)@.ops.contains_key(j) ==> #[trigger] final(self).steps_left(j)
                    == old(self).steps_left(j),
            old(self).work_left() >= 0,
    {
        let ghost m = self.mem@;
        let ghost t = self.trace@;
        let ghost ops = self.ops@;
        let ghost i = id as int;
        proof {
            self.mem.lemma_wf();
            lemma_work_nonneg(m, t, ops);
        }
        match self.ops[id].take() {
            Some(Op::Enqueue(EnqueueState::Finish)) => {
                self.mem.release(id);
                proof {
                    lemma_finish(m, t, ops, i);
                    assert(self.ops@ =~= ops.update(i, None));
                    self.lemma_others(*old(self), i);
                    lemma_progress(m, t, ops, self.mem@, t, i, None);
                    assert(self@.ops =~= old(self)@.ops.remove(i));
                }
                Some(Response::Enqueued)
            },
            Some(Op::Enqueue(state)) => {
                let instr = state.instr();
                proof {
                    lemma_enqueue_step(m, t, ops, i, state);
                }
                let word = self.mem.execute(id, instr);
                let ghost state2 = state.after(word);
                self.ops.set(id, Some(Op::Enqueue(state.resume(word))));
                self.trace = Ghost(enqueue_trace(m, t, state));
                proof {
                    assert(self.ops@ =~= ops.update(i, Some(Op::Enqueue(state2))));
                    self.lemma_others(*old(self), i);
                    lemma_progress(m, t, ops, self.mem@, self.trace@, i, self.ops@[i]);
                    if state.unlinked_node() is Some && state2.unlinked_node() is None {
                        assert(self@.ops =~= old(self)@.effect(i).ops);
                    } else {
                        assert(self@.ops =~= old(self)@.ops);
                    }
                }
                None
            },
            Some(Op::Dequeue(DequeueState::Finish { value })) => {
                self.mem.release(id);
                proof {
                    lemma_finish(m, t, ops, i);
                    assert(self.ops@ =~= ops.update(i, None));
                    self.lemma_others(*old(self), i);
                    lemma_progress(m, t, ops, self.mem@, t, i, None);
                    assert(self@.ops =~= old(self)@.ops.remove(i));
                }
                Some(Response::Dequeued(value))
            },
            Some(Op::Dequeue(state)) => {
                proof {
                    lemma_dequeue_step(m, t, ops, i, state);
                }
                let ghost state2 = dequeue_next(m, state);
                let next = match state {
                    DequeueState::Take { next } => {
                        let value = self.mem.take(next);
                        proof {
                            assert(self.mem@ == m.after(i, Instr::Take(next)));
                        }
                        DequeueState::Finish { value }
                    },
                    other => {
                        let word = self.mem.execute(id, other.instr());
                        other.resume(word)
                    },
                };
                self.ops.set(id, Some(Op::Dequeue(next)));
                self.trace = Ghost(dequeue_trace(m, t, i, state));
                proof {
                    assert(next == state2);
                    assert(self.ops@ =~= ops.update(i, Some(Op::Dequeue(state2))));
                    self.lemma_others(*old(self), i);
                    lemma_progress(m, t, ops, self.mem@, self.trace@, i, self.ops@[i]);
                    if old(self)@.ops[i] is Dequeueing && self@.ops[i] is Dequeued {
                        assert(self@.ops =~= old(self)@.effect(i).ops);
                    } else {
                        assert(self@.ops =~= old(self)@.ops);
                    }
                }
                None
            },
            None => None,
        }
    }

    /// Enqueues a value at the tail of the queue.
    ///
    /// Other operations may be under way at any point of theirs: this one helps to
    /// advance the tail link where it has to.
    pub fn enqueue(&mut self, data: T)
        requires
            old(self).wf(),
        ensures
            final(self).wf(),
            final(self)@.items == old(self)@.items.push(data),
            final(self)@.ops == old(self)@.ops,
            old(self)@.moves_to(Move::Enqueue(data), final(self)@),
            final(self).linked() == old(self).linked() + 1,
            final(self).unlinked() == old(self).unlinked(),
            final(self).enqueued() == old(self).enqueued().push(data),
            final(self).dequeued() == old(self).dequeued(),
    {
        let id: usize = self.begin_enqueue(data);
        let ghost ops = old(self)@.ops;
        let ghost items = old(self)@.items;
        let ghost i = id as int;
        let mut done: bool = false;
        while !done
            invariant
                self.wf(),
                i == id,
                !ops.contains_key(i),
                done ==> self@.ops == ops && self@.items == items.push(data),
                self.unlinked() == old(self).unlinked(),
                self.dequeued() == old(self).dequeued(),
                self.linked() == old(self).linked() + (self@.items.len() - items.len()),
                self.enqueued() == (if self@.items.len() > items.len() {
                    old(self).enqueued().push(data)
                } else {
                    old(self).enqueued()
                }),
                !done ==> {
                    &&& self.steps_left(i) > 0
                    &&& {
                        ||| self@ == (QueueView {
                            items,
                            ops: ops.insert(i, Status::Enqueueing(data)),
                        })
                        ||| self@ == (QueueView {
                            items: items.push(data),
                            ops: ops.insert(i, Status::Enqueued),
                        })
                    }
                },
            decreases
                    if done {
                        0
                    } else {
                        self.steps_left(i)
                    },
        {
            let ghost before = self@;
            let response = self.step(id);
            proof {
                assert(ops.insert(i, Status::Enqueueing(data)).insert(i, Status::Enqueued)
                    =~= ops.insert(i, Status::Enqueued));
                assert(ops.insert(i, Status::Enqueued).remove(i) =~= ops);
            }
            done = response.is_some();
        }
    }

    /// Dequeues a value from the head of the queue.
    ///
    /// Returns `None` if the queue is empty. Other operations may be under way at any
    /// point of theirs: this one helps to advance the tail link where it has to.
    pub fn dequeue(&mut self) -> (value: Option<T>)
        requires
            old(self).wf(),
        ensures
            final(self).wf(),
            final(self)@.ops == old(self)@.ops,
            match value {
                Some(v) => {
                    &&& old(self)@.items.len() > 0
                    &&& v == old(self)@.items.first()
                    &&& final(self)@.items == old(self)@.items.drop_first()
                },
                None => old(self)@.items.len() == 0 && final(self)@.items == old(self)@.items,
            },
            old(self)@.moves_to(Move::Dequeue, final(self)@),
            final(self).linked() == old(self).linked(),
            final(self).unlinked() == old(self).unlinked() + (if value is Some {
                1int
            } else {
                0
            }),
            final(self).enqueued() == old(self).enqueued(),
            final(self).dequeued() == (match value {
                Some(v) => old(self).dequeued().push(v),
                None => old(self).dequeued(),
            }),
    {
        let id: usize = self.begin_dequeue();
        let ghost ops = old(self)@.ops;
        let ghost items = old(self)@.items;
        let ghost i = id as int;
        let ghost start = self@;
        let mut value: Option<T> = None;
        let mut done: bool = false;
        while !done
            invariant
                self.wf(),
                i == id,
                !ops.contains_key(i),
                start == (QueueView { items, ops: ops.insert(i, Status::Dequeueing) }),
                done ==> self@.ops == ops && self@.items == start.effect(i).items
                    && Status::Dequeued(value) == start.effect(i).ops[i],
                !done ==> self.steps_left(i) > 0 && (self@ == start || self@ == start.effect(i)),
                self.linked() == old(self).linked(),
                self.enqueued() == old(self).enqueued(),
                self.unlinked() == old(self).unlinked() + (items.len() - self@.items.len()),
                self.dequeued() == (if self@.items.len() < items.len() {
                    old(self).dequeued().push(items.first())
                } else {
                    old(self).dequeued()
                }),
            decreases
                    if done {
                        0
                    } else {
                        self.steps_left(i)
                    },
        {
            let response = self.step(id);
            proof {
                assert(start.effect(i).ops.remove(i) =~= ops);
            }
            match response {
                Some(Response::Dequeued(v)) => {
                    value = v;
                    done = true;
                },
                Some(Response::Enqueued) => {
                    done = true;
                },
                None => {},
            }
        }
        self.collect();
        value
    }

    /// Takes the queue apart: walks the list from the sentinel on and moves every value out,
    /// the oldest first.
    pub fn into_items(self) -> (items: Vec<T>)
        requires
            self.wf(),
        ensures
            items@ == self@.items,
    {
        let ghost t = self.trace@;
        let Queue { mut mem, .. } = self;
        let mut items: Vec<T> = Vec::new();
        let mut node: usize = mem.load(Loc::Head);
        let ghost mut k: int = t.head;
        proof {
            assert(items@ =~= t.items().take(0));
            assert(t.pos.contains_key(t.order[t.head]));
        }
        loop
            invariant
                mem.wf(),
                0 <= t.head <= k < t.order.len(),
                t.values.len() == t.order.len(),
                forall|q: int| 0 <= q < t.order.len() ==> #[trigger] t.order[q] != 0,
                forall|q: int| 1 <= q < t.order.len() ==> (#[trigger] t.values[q]) is Some,
                forall|q: int| t.head <= q < t.order.len() ==> t.pos[#[trigger] t.order[q]] == q,
                node == t.order[k],
                items@ == t.items().take(k - t.head),
                forall|q: int|
                    t.head <= q < t.order.len() ==> mem@.nodes.contains_key(#[trigger] t.order[q])
                        && mem@.nodes[t.order[q]].next == t.succ(q),
                forall|q: int|
                    k < q < t.order.len() ==> mem@.nodes[#[trigger] t.order[q]].data
                        == t.values[q],
                self@.items == t.items(),
            decreases t.order.len() - k,
        {
            let next: usize = mem.load(Loc::Next(node));
            if next == 0 {
                proof {
                    if k + 1 < t.order.len() {
                        assert(t.order[k + 1] != 0);
                    }
                    assert(t.items().take(k - t.head) =~= t.items());
                }
                return items;
            }
            let ghost before = mem@;
            proof {
                assert(t.order[k + 1] == next);
                assert(t.values[k + 1] is Some);
                assert forall|q: int| t.head <= q < t.order.len() && q != k + 1 implies
                    #[trigger] t.order[q] != next by {
                    assert(t.pos[t.order[q]] == q);
                    assert(t.pos[t.order[k + 1]] == k + 1);
                }
            }
            if let Some(value) = mem.take(next) {
                items.push(value);
            }
            proof {
                assert(mem@ == before.after(0, Instr::Take(next)));
                assert(items@ =~= t.items().take(k + 1 - t.head));
                k = k + 1;
            }
            node = next;
        }
    }

    /// The tail link is not ahead, and no work is left that is negative.
    pub proof fn lemma_bounded(self)
        requires
            self.wf(),
        ensures
            0 <= self.advanced() <= self.linked(),
            self.work_left() >= 0,
    {
        lemma_work_nonneg(self.mem@, self.trace@, self.ops@);
    }

    /// Both root links always lead to a node, and the queue is empty exactly when the sentinel
    /// has no successor; then they lead to the same node.
    pub proof fn law_root_links(self)
        requires
            self.wf(),
        ensures
            self.first() != 0 && self.allocated(self.first()),
            self.last() != 0 && self.allocated(self.last()),
            self@.items.len() == 0 <==> self.link(self.first()) == 0,
            self@.items.len() == 0 ==> self.first() == self.last(),
    {
        let t = self.trace@;
        assert(t.pos.contains_key(t.order[t.head]));
        assert(t.pos.contains_key(t.order[t.tail]));
        if t.head + 1 < t.order.len() {
            assert(t.order[t.head + 1] != 0);
        }
    }

    /// When no operation is under way, no address is published.
    pub proof fn law_nothing_is_published_at_rest(self, addr: usize)
        requires
            self.wf(),
            self@.ops == Map::<int, Status<T>>::empty(),
        ensures
            !self.protected(addr),
    {
        if self.mem@.guarded(addr) {
            let id = choose|id: int| publishes(self.mem@.guards, id, addr);
            assert(!self@.ops.contains_key(id));
            assert(self.ops@[id] is None);
        }
    }

    /// A node that is on the list is allocated, and neither retired nor condemned.
    pub proof fn law_node_on_the_list_is_in_use(self, addr: usize)
        requires
            self.wf(),
            self.on_list(addr),
        ensures
            self.allocated(addr),
            !self.retired().contains(addr),
            !self.condemned().contains(addr),
    {
    }

    /// When no operation is under way, each node is on the list, or is unlinked and can be
    /// reclaimed.
    pub proof fn law_no_node_leaks(self, addr: usize)
        requires
            self.wf(),
            self.allocated(addr),
            self@.ops == Map::<int, Status<T>>::empty(),
        ensures
            self.on_list(addr) || (self.retired().contains(addr) && !self.protected(addr)),
    {
        let t = self.trace@;
        assert forall|i: int| 0 <= i < self.ops@.len() implies self.ops@[i] is None by {
            assert(!self@.ops.contains_key(i));
        }
        if t.fresh.contains_key(addr) {
            assert(self.ops@[t.fresh[addr]] is None);
        } else {
            assert(t.pos.contains_key(addr));
            if t.pos[addr] < t.head {
                if t.owed.contains_key(addr) {
                    assert(self.ops@[t.owed[addr]] is None);
                }
                if self.mem@.guarded(addr) {
                    let id = choose|id: int| publishes(self.mem@.guards, id, addr);
                    assert(self.ops@[id] is None);
                }
            }
        }
    }

    /// The value that has been in the queue for the longest time comes out first: a dequeue
    /// gives the value of an enqueue before it only if the queue was empty then, and in a queue
    /// that was not empty the two do not depend on each other.
    pub proof fn law_oldest_comes_first(view: QueueView<T>, enqueue: int, dequeue: int, value: T)
        requires
            view.ops.contains_key(enqueue),
            view.ops[enqueue] == Status::Enqueueing(value),
            view.ops.contains_key(dequeue),
            view.ops[dequeue] == Status::<T>::Dequeueing,
        ensures
            view.items.len() == 0 ==> {
                &&& view.effect(enqueue).effect(dequeue).ops[dequeue] == Status::Dequeued(
                    Some(value),
                )
                &&& view.effect(enqueue).effect(dequeue).items.len() == 0
                &&& view.effect(dequeue).ops[dequeue] == Status::<T>::Dequeued(None)
                &&& view.effect(dequeue).items.len() == 0
            },
            view.items.len() > 0 ==> {
                &&& view.effect(enqueue).effect(dequeue).ops[dequeue] == Status::Dequeued(
                    Some(view.items[0]),
                )
                &&& view.effect(dequeue).ops[dequeue] == Status::Dequeued(Some(view.items[0]))
                &&& view.effect(enqueue).effect(dequeue).items
                    == view.effect(dequeue).effect(enqueue).items
                &&& seq![view.items[0]] + view.effect(dequeue).items == view.items
            },
            view.effect(enqueue).ops[enqueue] == Status::<T>::Enqueued,
    {
        if view.items.len() > 0 {
            assert(view.effect(enqueue).effect(dequeue).items =~= view.effect(dequeue).effect(
                enqueue,
            ).items);
            assert(seq![view.items[0]] + view.effect(dequeue).items =~= view.items);
        }
    }

    /// In every state, the values dequeued so far and those in the queue are the values
    /// enqueued so far, in the same order.
    pub proof fn law_first_in_first_out(self)
        requires
            self.wf(),
        ensures
            self.dequeued() + self@.items == self.enqueued(),
    {
        assert(self.dequeued() + self@.items =~= self.enqueued());
    }
}

} // verus!
