//! Counting in sequences and sets.
use vstd::prelude::*;

verus! {

/// How often `value` occurs in `s`.
pub open spec fn count<T>(s: Seq<T>, value: T) -> nat {
    s.to_multiset().count(value)
}

/// One value more at the end.
pub proof fn lemma_count_push<T>(s: Seq<T>, last: T, value: T)
    ensures
        count(s.push(last), value) == count(s, value) + (if last == value {
            1nat
        } else {
            0
        }),
{
    broadcast use vstd::seq_lib::group_to_multiset_ensures;

}

/// Nothing occurs in an empty sequence.
pub proof fn lemma_count_empty<T>(value: T)
    ensures
        count(Seq::<T>::empty(), value) == 0,
{
    broadcast use vstd::seq_lib::group_to_multiset_ensures;

    let s = Seq::<T>::empty();
    assert(!s.contains(value));
}

/// Two sets that differ at most in `id`.
pub proof fn lemma_differ_in_one(a: Set<int>, b: Set<int>, id: int)
    requires
        a.finite(),
        forall|i: int| i != id ==> a.contains(i) == b.contains(i),
    ensures
        b.finite(),
        b.len() == a.len() + (if b.contains(id) {
            1int
        } else {
            0
        }) - (if a.contains(id) {
            1int
        } else {
            0
        }),
{
    if b.contains(id) {
        assert(b =~= a.insert(id));
    } else {
        assert(b =~= a.remove(id));
    }
}

} // verus!
