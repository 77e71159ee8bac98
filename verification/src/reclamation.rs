//! Reclaiming the nodes of a queue or of a stack that nobody needs any more, all at once.
use vstd::prelude::*;

use crate::ms_queue::Queue;
use crate::treiber_stack::Stack;

verus! {

impl<T> Queue<T> {
    /// Condemns every retired node that no operation under way has published.
    pub fn scan(&mut self)
        requires
            old(self).wf(),
        ensures
            final(self).wf(),
            final(self)@ == old(self)@,
            forall|a: usize| #[trigger]
                final(self).condemned().contains(a) <==> old(self).condemned().contains(a) || (old(
                    self,
                ).retired().contains(a) && !old(self).protected(a)),
            final(self).retired() == old(self).retired(),
            forall|a: usize| final(self).allocated(a) == old(self).allocated(a),
            forall|a: usize| final(self).protected(a) == old(self).protected(a),
            final(self).same_links(*old(self)),
            final(self).work_left() == old(self).work_left(),
            forall|j: int|
                old(self)@.ops.contains_key(j) ==> #[trigger] final(self).steps_left(j) == old(
                    self,
                ).steps_left(j),
    {
        let list = self.waste();
        let mut k: usize = 0;
        while k < list.len()
            invariant
                k <= list@.len(),
                self.wf(),
                self@ == old(self)@,
                self.retired() == old(self).retired(),
                forall|a: usize| self.allocated(a) == old(self).allocated(a),
                forall|a: usize| self.protected(a) == old(self).protected(a),
                forall|a: usize| #[trigger]
                    old(self).retired().contains(a) <==> list@.contains(a),
                forall|a: usize| #[trigger]
                    self.condemned().contains(a) <==> old(self).condemned().contains(a) || (
                    list@.take(k as int).contains(a) && !old(self).protected(a)),
                self.same_links(*old(self)),
                self.work_left() == old(self).work_left(),
                forall|j: int|
                    old(self)@.ops.contains_key(j) ==> #[trigger] self.steps_left(j) == old(
                        self,
                    ).steps_left(j),
            decreases list@.len() - k,
        {
            let ghost before = list@.take(k as int);
            let addr: usize = list[k];
            self.condemn(addr);
            k = k + 1;
            proof {
                assert(list@.take(k as int) =~= before.push(addr));
                assert forall|a: usize| #[trigger] list@.take(k as int).contains(a) == (
                before.contains(a) || a == addr) by {
                    if before.contains(a) {
                        let l = choose|l: int| 0 <= l < before.len() && before[l] == a;
                        assert(before.push(addr)[l] == a);
                    }
                    assert(before.push(addr)[before.len() as int] == addr);
                }
            }
        }
        proof {
            assert(list@.take(list@.len() as int) =~= list@);
        }
    }

    /// Reclaims every retired node that is condemned or that no operation under way has
    /// published.
    pub fn collect(&mut self)
        requires
            old(self).wf(),
        ensures
            final(self).wf(),
            final(self)@ == old(self)@,
            forall|a: usize| #[trigger]
                final(self).retired().contains(a) <==> old(self).retired().contains(a) && old(
                    self,
                ).protected(a) && !old(self).condemned().contains(a),
            forall|a: usize| !#[trigger] final(self).condemned().contains(a),
            forall|a: usize| #[trigger]
                final(self).allocated(a) <==> old(self).allocated(a) && !(old(
                    self,
                ).condemned().contains(a) || (old(self).retired().contains(a) && !old(
                    self,
                ).protected(a))),
            forall|a: usize| final(self).protected(a) == old(self).protected(a),
            final(self).same_links(*old(self)),
            final(self).work_left() == old(self).work_left(),
            forall|j: int|
                old(self)@.ops.contains_key(j) ==> #[trigger] final(self).steps_left(j) == old(
                    self,
                ).steps_left(j),
    {
        self.scan();
        let ghost doomed = self.condemned();
        proof {
            self.lemma_condemned_are_retired();
        }
        let list = self.waste();
        let ghost mut done: Set<usize> = Set::empty();
        let mut k: usize = 0;
        proof {
            assert(self.retired() =~= old(self).retired().difference(done));
            assert(self.condemned() =~= doomed.difference(done));
        }
        while k < list.len()
            invariant
                k <= list@.len(),
                self.wf(),
                self@ == old(self)@,
                forall|a: usize| self.protected(a) == old(self).protected(a),
                done.subset_of(doomed),
                self.retired() == old(self).retired().difference(done),
                self.condemned() == doomed.difference(done),
                forall|a: usize| #[trigger]
                    self.allocated(a) <==> old(self).allocated(a) && !done.contains(a),
                forall|l: int|
                    0 <= l < k && doomed.contains(#[trigger] list@[l]) ==> done.contains(list@[l]),
                self.same_links(*old(self)),
                self.work_left() == old(self).work_left(),
                forall|j: int|
                    old(self)@.ops.contains_key(j) ==> #[trigger] self.steps_left(j) == old(
                        self,
                    ).steps_left(j),
            decreases list@.len() - k,
        {
            let addr: usize = list[k];
            let freed = self.reclaim(addr);
            k = k + 1;
            proof {
                if freed {
                    done = done.insert(addr);
                }
                assert(self.retired() =~= old(self).retired().difference(done));
                assert(self.condemned() =~= doomed.difference(done));
            }
        }
        proof {
            assert forall|a: usize| doomed.contains(a) implies done.contains(a) by {
                assert(list@.contains(a));
                let l = choose|l: int| 0 <= l < list@.len() && list@[l] == a;
                assert(doomed.contains(list@[l]));
            }
            assert(done =~= doomed);
        }
    }
}

impl<T> Stack<T> {
    /// Condemns every retired node that no operation under way has published.
    pub fn scan(&mut self)
        requires
            old(self).wf(),
        ensures
            final(self).wf(),
            final(self)@ == old(self)@,
            forall|a: usize| #[trigger]
                final(self).condemned().contains(a) <==> old(self).condemned().contains(a) || (old(
                    self,
                ).retired().contains(a) && !old(self).protected(a)),
            final(self).retired() == old(self).retired(),
            forall|a: usize| final(self).allocated(a) == old(self).allocated(a),
            forall|a: usize| final(self).protected(a) == old(self).protected(a),
            final(self).moves() == old(self).moves(),
            final(self).work_left() == old(self).work_left(),
            forall|j: int|
                old(self)@.ops.contains_key(j) ==> #[trigger] final(self).steps_left(j) == old(
                    self,
                ).steps_left(j),
    {
        let list = self.waste();
        let mut k: usize = 0;
        while k < list.len()
            invariant
                k <= list@.len(),
                self.wf(),
                self@ == old(self)@,
                self.retired() == old(self).retired(),
                forall|a: usize| self.allocated(a) == old(self).allocated(a),
                forall|a: usize| self.protected(a) == old(self).protected(a),
                forall|a: usize| #[trigger]
                    old(self).retired().contains(a) <==> list@.contains(a),
                forall|a: usize| #[trigger]
                    self.condemned().contains(a) <==> old(self).condemned().contains(a) || (
                    list@.take(k as int).contains(a) && !old(self).protected(a)),
                self.moves() == old(self).moves(),
                self.work_left() == old(self).work_left(),
                forall|j: int|
                    old(self)@.ops.contains_key(j) ==> #[trigger] self.steps_left(j) == old(
                        self,
                    ).steps_left(j),
            decreases list@.len() - k,
        {
            let ghost before = list@.take(k as int);
            let addr: usize = list[k];
            self.condemn(addr);
            k = k + 1;
            proof {
                assert(list@.take(k as int) =~= before.push(addr));
                assert forall|a: usize| #[trigger] list@.take(k as int).contains(a) == (
                before.contains(a) || a == addr) by {
                    if before.contains(a) {
                        let l = choose|l: int| 0 <= l < before.len() && before[l] == a;
                        assert(before.push(addr)[l] == a);
                    }
                    assert(before.push(addr)[before.len() as int] == addr);
                }
            }
        }
        proof {
            assert(list@.take(list@.len() as int) =~= list@);
        }
    }

    /// Reclaims every retired node that is condemned or that no operation under way has
    /// published.
    pub fn collect(&mut self)
        requires
            old(self).wf(),
        ensures
            final(self).wf(),
            final(self)@ == old(self)@,
            forall|a: usize| #[trigger]
                final(self).retired().contains(a) <==> old(self).retired().contains(a) && old(
                    self,
                ).protected(a) && !old(self).condemned().contains(a),
            forall|a: usize| !#[trigger] final(self).condemned().contains(a),
            forall|a: usize| #[trigger]
                final(self).allocated(a) <==> old(self).allocated(a) && !(old(
                    self,
                ).condemned().contains(a) || (old(self).retired().contains(a) && !old(
                    self,
                ).protected(a))),
            forall|a: usize| final(self).protected(a) == old(self).protected(a),
            final(self).moves() == old(self).moves(),
            final(self).work_left() == old(self).work_left(),
            forall|j: int|
                old(self)@.ops.contains_key(j) ==> #[trigger] final(self).steps_left(j) == old(
                    self,
                ).steps_left(j),
    {
        self.scan();
        let ghost doomed = self.condemned();
        proof {
            self.lemma_condemned_are_retired();
        }
        let list = self.waste();
        let ghost mut done: Set<usize> = Set::empty();
        let mut k: usize = 0;
        proof {
            assert(self.retired() =~= old(self).retired().difference(done));
            assert(self.condemned() =~= doomed.difference(done));
        }
        while k < list.len()
            invariant
                k <= list@.len(),
                self.wf(),
                self@ == old(self)@,
                forall|a: usize| self.protected(a) == old(self).protected(a),
                done.subset_of(doomed),
                self.retired() == old(self).retired().difference(done),
                self.condemned() == doomed.difference(done),
                forall|a: usize| #[trigger]
                    self.allocated(a) <==> old(self).allocated(a) && !done.contains(a),
                forall|l: int|
                    0 <= l < k && doomed.contains(#[trigger] list@[l]) ==> done.contains(list@[l]),
                self.moves() == old(self).moves(),
                self.work_left() == old(self).work_left(),
                forall|j: int|
                    old(self)@.ops.contains_key(j) ==> #[trigger] self.steps_left(j) == old(
                        self,
                    ).steps_left(j),
            decreases list@.len() - k,
        {
            let addr: usize = list[k];
            let freed = self.reclaim(addr);
            k = k + 1;
            proof {
                if freed {
                    done = done.insert(addr);
                }
                assert(self.retired() =~= old(self).retired().difference(done));
                assert(self.condemned() =~= doomed.difference(done));
            }
        }
        proof {
            assert forall|a: usize| doomed.contains(a) implies done.contains(a) by {
                assert(list@.contains(a));
                let l = choose|l: int| 0 <= l < list@.len() && list@[l] == a;
                assert(doomed.contains(list@[l]));
            }
            assert(done =~= doomed);
        }
    }
}

} // verus!
