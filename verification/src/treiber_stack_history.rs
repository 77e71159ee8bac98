//! What is true of a stack of [`crate::treiber_stack`] that several threads work on, over any
//! number of calls.
//!
//! Each call of a function of [`crate::treiber_stack::Stack`] that changes the stack is a
//! [`Move`], as its contract says, or changes nothing that can be seen. The laws here speak of
//! all sequences of moves, whichever threads make them.
use vstd::prelude::*;

use crate::counting::{count, lemma_count_empty, lemma_count_push, lemma_differ_in_one};
use crate::treiber_stack::StackView;
use crate::treiber_stack_proof::Status;

verus! {

/// One thing that is done to a stack.
pub enum Move<T> {
    /// Operation `.0` starts to push `.1`.
    BeginPush(int, T),
    /// Operation `.0` starts to pop.
    BeginPop(int),
    /// Operation `.0` takes effect.
    Effect(int),
    /// Operation `.0` returns.
    End(int),
    /// A value is pushed by a call that runs to its end.
    Push(T),
    /// A value is popped by a call that runs to its end.
    Pop,
}

impl<T> StackView<T> {
    /// A stack without values and without operations under way.
    pub open spec fn fresh() -> StackView<T> {
        StackView { items: Seq::empty(), ops: Map::empty() }
    }

    /// Whether `m` can be done to the stack.
    pub open spec fn admits(self, m: Move<T>) -> bool {
        match m {
            Move::BeginPush(op, value) => !self.ops.contains_key(op),
            Move::BeginPop(op) => !self.ops.contains_key(op),
            Move::Effect(op) => self.waiting(op),
            Move::End(op) => self.ops.contains_key(op) && !self.waiting(op),
            Move::Push(value) => true,
            Move::Pop => true,
        }
    }

    /// The stack after `m` was done to it.
    pub open spec fn after(self, m: Move<T>) -> StackView<T> {
        match m {
            Move::BeginPush(op, value) => StackView {
                items: self.items,
                ops: self.ops.insert(op, Status::Pushing(value)),
            },
            Move::BeginPop(op) => StackView {
                items: self.items,
                ops: self.ops.insert(op, Status::Popping),
            },
            Move::Effect(op) => self.effect(op),
            Move::End(op) => StackView { items: self.items, ops: self.ops.remove(op) },
            Move::Push(value) => StackView { items: self.items.push(value), ops: self.ops },
            Move::Pop => StackView {
                items: if self.items.len() > 0 {
                    self.items.drop_last()
                } else {
                    self.items
                },
                ops: self.ops,
            },
        }
    }

    /// Whether `m` can be done to the stack and makes it `to`.
    pub open spec fn moves_to(self, m: Move<T>, to: StackView<T>) -> bool {
        self.admits(m) && to == self.after(m)
    }
}

/// A new stack after `moves`.
pub open spec fn run<T>(moves: Seq<Move<T>>) -> StackView<T>
    decreases moves.len(),
{
    if moves.len() == 0 {
        StackView::fresh()
    } else {
        run(moves.drop_last()).after(moves.last())
    }
}

/// Whether `moves` can be done to a new stack, one after the other.
pub open spec fn possible<T>(moves: Seq<Move<T>>) -> bool
    decreases moves.len(),
{
    moves.len() > 0 ==> possible(moves.drop_last()) && run(moves.drop_last()).admits(moves.last())
}

/// The values that somebody has set out to push, in this order.
pub open spec fn asked<T>(moves: Seq<Move<T>>) -> Seq<T>
    decreases moves.len(),
{
    if moves.len() == 0 {
        Seq::empty()
    } else {
        let before = asked(moves.drop_last());
        match moves.last() {
            Move::BeginPush(op, value) => before.push(value),
            Move::Push(value) => before.push(value),
            _ => before,
        }
    }
}

/// The values that were popped, in the order in which that took effect.
pub open spec fn popped<T>(moves: Seq<Move<T>>) -> Seq<T>
    decreases moves.len(),
{
    if moves.len() == 0 {
        Seq::empty()
    } else {
        let before = popped(moves.drop_last());
        let v = run(moves.drop_last());
        if run(moves).items.len() < v.items.len() {
            before.push(v.items.last())
        } else {
            before
        }
    }
}

/// The operations that are about to push `value`.
pub open spec fn pushing<T>(v: StackView<T>, value: T) -> Set<int> {
    Set::new(|op: int| v.ops.contains_key(op) && v.ops[op] == Status::Pushing(value))
}

/// The operation that a move is about.
spec fn op_of<T>(m: Move<T>) -> int {
    match m {
        Move::BeginPush(op, value) => op,
        Move::BeginPop(op) => op,
        Move::Effect(op) => op,
        Move::End(op) => op,
        _ => 0,
    }
}

/// In every state, no value is lost and none is doubled, whichever threads push and pop: each
/// value that somebody has set out to push was popped, or is on the stack, or is about to be
/// pushed, as often as it was asked for.
pub proof fn law_no_value_is_lost_or_doubled<T>(moves: Seq<Move<T>>, value: T)
    requires
        possible(moves),
    ensures
        pushing(run(moves), value).finite(),
        count(popped(moves), value) + count(run(moves).items, value) + pushing(
            run(moves),
            value,
        ).len() == count(asked(moves), value),
    decreases moves.len(),
{
    if moves.len() == 0 {
        lemma_count_empty(value);
        assert(pushing(run(moves), value) =~= Set::empty());
    } else {
        let fewer = moves.drop_last();
        let m = moves.last();
        let v = run(fewer);
        let v2 = run(moves);
        law_no_value_is_lost_or_doubled(fewer, value);
        lemma_differ_in_one(pushing(v, value), pushing(v2, value), op_of(m));
        match m {
            Move::BeginPush(op, x) => {
                lemma_count_push(asked(fewer), x, value);
            },
            Move::Push(x) => {
                lemma_count_push(asked(fewer), x, value);
                lemma_count_push(v.items, x, value);
            },
            Move::Effect(op) => {
                if let Status::Pushing(x) = v.ops[op] {
                    lemma_count_push(v.items, x, value);
                }
            },
            _ => {},
        }
        if v2.items.len() < v.items.len() {
            lemma_count_push(popped(fewer), v.items.last(), value);
            lemma_count_push(v2.items, v.items.last(), value);
            assert(v2.items.push(v.items.last()) =~= v.items);
        }
    }
}

/// When all calls have returned, the values popped and those on the stack are together the
/// values pushed, none lost and none twice.
pub proof fn law_popped_and_left_are_pushed<T>(moves: Seq<Move<T>>)
    requires
        possible(moves),
        run(moves).ops == Map::<int, Status<T>>::empty(),
    ensures
        popped(moves).to_multiset().add(run(moves).items.to_multiset())
            == asked(moves).to_multiset(),
{
    assert forall|value: T|
        #![trigger asked(moves).to_multiset().count(value)]
        popped(moves).to_multiset().add(run(moves).items.to_multiset()).count(value) == asked(
            moves,
        ).to_multiset().count(value) by {
        law_no_value_is_lost_or_doubled(moves, value);
        assert(pushing(run(moves), value) =~= Set::empty());
    }
    assert(popped(moves).to_multiset().add(run(moves).items.to_multiset()) =~= asked(
        moves,
    ).to_multiset());
}

} // verus!
