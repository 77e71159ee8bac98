//! The shared memory of a linked structure: its two root links, its nodes, and the
//! addresses that keep a node from being reclaimed while somebody uses it.
//!
//! Every operation here is one indivisible access. A node is named by its address;
//! address 0 is null. A holder publishes the address of a node before it uses it. A node
//! that was unlinked is retired. From then on, and at a time of its own choosing, a reclaimer
//! looks whether anybody has published the address; if nobody has, the node is condemned, and
//! it is reclaimed at some later time even if somebody publishes the address meanwhile.
//! Addresses of reclaimed nodes are used again.
use vstd::prelude::*;

verus! {

/// A node of a linked structure.
#[derive(Debug)]
pub struct Node<T> {
    /// The value, until it is moved out; a sentinel has none.
    pub data: Option<T>,
    /// The address of the next node.
    pub next: usize,
}

impl<T> Node<T> {
    /// Creates a node that holds `data` and is linked to nothing.
    pub fn new(data: T) -> (node: Self)
        ensures
            node == (Node { data: Some(data), next: 0 }),
    {
        Node { data: Some(data), next: 0 }
    }

    /// Creates a sentinel: a node without a value that is linked to nothing.
    pub fn uninit() -> (node: Self)
        ensures
            node == (Node { data: None::<T>, next: 0 }),
    {
        Node { data: None, next: 0 }
    }
}

/// A place that holds an address.
#[derive(Debug, Clone, Copy)]
pub enum Loc {
    /// The link to the first node.
    Head,
    /// The link to the last node.
    Tail,
    /// The link in the node at this address.
    Next(usize),
}

/// One access to the shared memory.
#[derive(Debug, Clone, Copy)]
pub enum Instr {
    /// Read the address at a place and publish it while the place still holds it.
    Protect(Loc),
    /// Read the address at a place.
    Load(Loc),
    /// Write `new` to a place if it holds `current`.
    CompareExchange { loc: Loc, current: usize, new: usize },
    /// Write the link of a node that no other operation can reach.
    SetNext { node: usize, next: usize },
    /// Move the value out of a node.
    Take(usize),
    /// Hand an unlinked node over for reclamation.
    Retire(usize),
    /// Take back all addresses that this operation has published.
    Release,
}

/// The contents of a [`Memory`].
#[verifier::ext_equal]
pub struct MemoryView<T> {
    /// The nodes that are allocated, by address.
    pub nodes: Map<usize, Node<T>>,
    /// The link to the first node.
    pub head: usize,
    /// The link to the last node.
    pub tail: usize,
    /// The addresses that each holder has published.
    pub guards: Seq<Seq<usize>>,
    /// The addresses that wait for reclamation.
    pub retired: Set<usize>,
    /// Those among them that nobody had published when a reclaimer looked.
    pub condemned: Set<usize>,
}

/// Whether `p` is among the addresses that holder `id` has published.
pub open spec fn publishes(guards: Seq<Seq<usize>>, id: int, p: usize) -> bool {
    0 <= id < guards.len() && guards[id].contains(p)
}

impl<T> MemoryView<T> {
    /// Whether `loc` exists.
    pub open spec fn valid(self, loc: Loc) -> bool {
        match loc {
            Loc::Next(a) => self.nodes.contains_key(a),
            _ => true,
        }
    }

    /// The address at `loc`.
    pub open spec fn read(self, loc: Loc) -> usize {
        match loc {
            Loc::Head => self.head,
            Loc::Tail => self.tail,
            Loc::Next(a) => self.nodes[a].next,
        }
    }

    /// The memory after `v` was written to `loc`.
    pub open spec fn write(self, loc: Loc, v: usize) -> MemoryView<T> {
        match loc {
            Loc::Head => MemoryView { head: v, ..self },
            Loc::Tail => MemoryView { tail: v, ..self },
            Loc::Next(a) => MemoryView {
                nodes: self.nodes.insert(a, Node { data: self.nodes[a].data, next: v }),
                ..self
            },
        }
    }

    /// Whether holder `id` has published `p`.
    pub open spec fn guards_addr(self, id: int, p: usize) -> bool {
        publishes(self.guards, id, p)
    }

    /// Whether some holder has published `p`.
    pub open spec fn guarded(self, p: usize) -> bool {
        exists|id: int| publishes(self.guards, id, p)
    }

    /// The memory after holder `id` published `p`; null is not published.
    pub open spec fn publish(self, id: int, p: usize) -> MemoryView<T> {
        if p == 0 {
            self
        } else {
            MemoryView { guards: self.guards.update(id, self.guards[id].push(p)), ..self }
        }
    }

    /// The memory after holder `id` took back what it had published.
    pub open spec fn release(self, id: int) -> MemoryView<T> {
        MemoryView { guards: self.guards.update(id, Seq::empty()), ..self }
    }

    /// The memory after `p` was retired.
    pub open spec fn retire(self, p: usize) -> MemoryView<T> {
        MemoryView { retired: self.retired.insert(p), ..self }
    }

    /// Whether the node at `p` may be condemned: it is retired and nobody has published it.
    pub open spec fn condemnable(self, p: usize) -> bool {
        self.retired.contains(p) && !self.guarded(p)
    }

    /// The memory after the node at `p` was condemned.
    pub open spec fn condemn(self, p: usize) -> MemoryView<T> {
        MemoryView { condemned: self.condemned.insert(p), ..self }
    }

    /// The memory after the node at `p` was reclaimed.
    pub open spec fn reclaim(self, p: usize) -> MemoryView<T> {
        MemoryView {
            nodes: self.nodes.remove(p),
            retired: self.retired.remove(p),
            condemned: self.condemned.remove(p),
            ..self
        }
    }

    /// Whether `instr` touches only nodes that are allocated, and retires none twice.
    pub open spec fn allows(self, instr: Instr) -> bool {
        match instr {
            Instr::Protect(loc) => self.valid(loc),
            Instr::Load(loc) => self.valid(loc),
            Instr::CompareExchange { loc, current, new } => self.valid(loc),
            Instr::SetNext { node, next } => self.nodes.contains_key(node),
            Instr::Take(p) => self.nodes.contains_key(p),
            Instr::Retire(p) => self.nodes.contains_key(p) && !self.retired.contains(p),
            Instr::Release => true,
        }
    }

    /// The memory after holder `id` made the access `instr`.
    pub open spec fn after(self, id: int, instr: Instr) -> MemoryView<T> {
        match instr {
            Instr::Protect(loc) => self.publish(id, self.read(loc)),
            Instr::Load(loc) => self,
            Instr::CompareExchange { loc, current, new } => if self.read(loc) == current {
                self.write(loc, new)
            } else {
                self
            },
            Instr::SetNext { node, next } => self.write(Loc::Next(node), next),
            Instr::Take(p) => MemoryView {
                nodes: self.nodes.insert(p, Node { data: None, next: self.nodes[p].next }),
                ..self
            },
            Instr::Retire(p) => self.retire(p),
            Instr::Release => self.release(id),
        }
    }

    /// The word that the access `instr` returns: the address read, or 1 and 0 for
    /// an exchange that took place and one that did not.
    pub open spec fn word(self, instr: Instr) -> usize {
        match instr {
            Instr::Protect(loc) => self.read(loc),
            Instr::Load(loc) => self.read(loc),
            Instr::CompareExchange { loc, current, new } => if self.read(loc) == current {
                1
            } else {
                0
            },
            _ => 0,
        }
    }
}

/// Where `p` stands in `list`.
fn find(list: &Vec<usize>, p: usize) -> (place: Option<usize>)
    ensures
        match place {
            Some(k) => k < list@.len() && list@[k as int] == p,
            None => !list@.contains(p),
        },
{
    let mut k: usize = 0;
    while k < list.len()
        invariant
            k <= list@.len(),
            forall|l: int| 0 <= l < k ==> list@[l] != p,
        decreases list@.len() - k,
    {
        if list[k] == p {
            return Some(k);
        }
        k = k + 1;
    }
    None
}

/// What a list contains that became longer by one.
proof fn lemma_pushed(s: Seq<usize>, p: usize)
    ensures
        forall|a: usize| #[trigger] s.push(p).contains(a) == (s.contains(a) || a == p),
{
    assert forall|a: usize| #[trigger] s.push(p).contains(a) == (s.contains(a) || a == p) by {
        if s.contains(a) {
            let k = choose|k: int| 0 <= k < s.len() && s[k] == a;
            assert(s.push(p)[k] == a);
        }
        assert(s.push(p)[s.len() as int] == p);
    }
}

/// What a list without duplicates contains when one was removed.
proof fn lemma_removed(s: Seq<usize>, k: int)
    requires
        s.no_duplicates(),
        0 <= k < s.len(),
    ensures
        s.remove(k).no_duplicates(),
        forall|a: usize| #[trigger] s.remove(k).contains(a) == (s.contains(a) && a != s[k]),
{
    let t = s.remove(k);
    assert forall|l: int| 0 <= l < t.len() implies #[trigger] t[l] == (if l < k {
        s[l]
    } else {
        s[l + 1]
    }) by {}
    assert forall|a: usize| #[trigger] t.contains(a) == (s.contains(a) && a != s[k]) by {
        if s.contains(a) && a != s[k] {
            let l = choose|l: int| 0 <= l < s.len() && s[l] == a;
            assert(t[if l < k {
                l
            } else {
                l - 1
            }] == a);
        }
        if t.contains(a) {
            let l = choose|l: int| 0 <= l < t.len() && t[l] == a;
            assert(s[if l < k {
                l
            } else {
                l + 1
            }] == a);
        }
    }
}

/// Shared memory: root links, nodes and published addresses.
#[derive(Debug)]
pub struct Memory<T> {
    nodes: Vec<Option<Node<T>>>,
    free: Vec<usize>,
    head: usize,
    tail: usize,
    guards: Vec<Vec<usize>>,
    retired: Vec<usize>,
    condemned: Vec<usize>,
}

impl<T> View for Memory<T> {
    type V = MemoryView<T>;

    closed spec fn view(&self) -> MemoryView<T> {
        MemoryView {
            nodes: Map::new(|a: usize| self.allocated(a), |a: usize| self.nodes@[a - 1]->0),
            head: self.head,
            tail: self.tail,
            guards: Seq::new(self.guards@.len(), |i: int| self.guards@[i]@),
            retired: self.retired@.to_set(),
            condemned: self.condemned@.to_set(),
        }
    }
}

impl<T> Memory<T> {
    spec fn allocated(self, a: usize) -> bool {
        1 <= a <= self.nodes@.len() && self.nodes@[a - 1] is Some
    }

    /// The memory is consistent: null is not published, only allocated nodes are retired,
    /// each once, only retired ones are condemned, each once, and the addresses on the free
    /// list are not allocated.
    pub closed spec fn wf(self) -> bool {
        &&& forall|i: int|
            0 <= i < self.guards@.len() ==> !(#[trigger] self.guards@[i])@.contains(0)
        &&& self.retired@.no_duplicates()
        &&& forall|k: int|
            0 <= k < self.retired@.len() ==> self.allocated(#[trigger] self.retired@[k])
        &&& self.condemned@.no_duplicates()
        &&& forall|k: int|
            0 <= k < self.condemned@.len() ==> self.retired@.contains(#[trigger] self.condemned@[k])
        &&& self.free@.no_duplicates()
        &&& forall|k: int|
            0 <= k < self.free@.len() ==> {
                let f = #[trigger] self.free@[k];
                1 <= f <= self.nodes@.len() && self.nodes@[f - 1] is None
            }
    }

    /// What consistency means for the contents.
    pub proof fn lemma_wf(&self)
        requires
            self.wf(),
        ensures
            !self@.nodes.contains_key(0),
            !self@.guarded(0),
            forall|a: usize| #[trigger] self@.retired.contains(a) ==> self@.nodes.contains_key(a),
            forall|a: usize| #[trigger] self@.condemned.contains(a) ==> self@.retired.contains(a),
    {
        if self@.guarded(0) {
            let id = choose|id: int| publishes(self@.guards, id, 0);
            assert(self.guards@[id]@.contains(0));
        }
    }

    /// Creates a memory with null root links and no nodes.
    pub fn new() -> (mem: Self)
        ensures
            mem.wf(),
            mem@ == (MemoryView::<T> {
                nodes: Map::empty(),
                head: 0,
                tail: 0,
                guards: Seq::empty(),
                retired: Set::empty(),
                condemned: Set::empty(),
            }),
    {
        let mem = Memory {
            nodes: Vec::new(),
            free: Vec::new(),
            head: 0,
            tail: 0,
            guards: Vec::new(),
            retired: Vec::new(),
            condemned: Vec::new(),
        };
        proof {
            assert(mem@.nodes =~= Map::<usize, Node<T>>::empty());
            assert(mem@.guards =~= Seq::<Seq<usize>>::empty());
            assert(mem@.retired =~= Set::<usize>::empty());
            assert(mem@.condemned =~= Set::<usize>::empty());
        }
        mem
    }

    /// Adds a holder that has published nothing.
    pub fn add_holder(&mut self)
        requires
            old(self).wf(),
        ensures
            final(self).wf(),
            final(self)@ == (MemoryView {
                guards: old(self)@.guards.push(Seq::empty()),
                ..old(self)@
            }),
    {
        self.guards.push(Vec::new());
        proof {
            assert(self@.guards =~~= old(self)@.guards.push(Seq::empty()));
            assert(self@.nodes =~= old(self)@.nodes);
        }
    }

    /// Allocates `node` and returns its address.
    pub fn allocate(&mut self, node: Node<T>) -> (addr: usize)
        requires
            old(self).wf(),
        ensures
            final(self).wf(),
            addr != 0,
            !old(self)@.nodes.contains_key(addr),
            final(self)@ == (MemoryView {
                nodes: old(self)@.nodes.insert(addr, node),
                ..old(self)@
            }),
    {
        let addr: usize = match self.free.pop() {
            Some(addr) => {
                proof {
                    assert(old(self).free@.last() == addr);
                }
                self.nodes.set(addr - 1, Some(node));
                addr
            },
            None => {
                self.nodes.push(Some(node));
                self.nodes.len()
            },
        };
        proof {
            assert(!old(self).allocated(addr));
            assert forall|a: usize| self.allocated(a) == (a == addr || old(self).allocated(a)) by {}
            assert(self@.nodes =~= old(self)@.nodes.insert(addr, node));
            assert(self@.guards =~= old(self)@.guards);
            assert forall|k: int| 0 <= k < self.free@.len() implies {
                let f = #[trigger] self.free@[k];
                1 <= f <= self.nodes@.len() && self.nodes@[f - 1] is None
            } by {
                assert(self.free@[k] == old(self).free@[k]);
            }
        }
        addr
    }

    /// Reads the address at `loc`.
    pub fn load(&self, loc: Loc) -> (p: usize)
        requires
            self.wf(),
            self@.valid(loc),
        ensures
            p == self@.read(loc),
    {
        match loc {
            Loc::Head => self.head,
            Loc::Tail => self.tail,
            Loc::Next(a) => {
                match &self.nodes[a - 1] {
                    Some(node) => node.next,
                    None => 0,
                }
            },
        }
    }

    /// Writes `v` to `loc`.
    pub fn store(&mut self, loc: Loc, v: usize)
        requires
            old(self).wf(),
            old(self)@.valid(loc),
        ensures
            final(self).wf(),
            final(self)@ == old(self)@.write(loc, v),
    {
        match loc {
            Loc::Head => {
                self.head = v;
            },
            Loc::Tail => {
                self.tail = v;
            },
            Loc::Next(a) => {
                if let Some(node) = &mut self.nodes[a - 1] {
                    node.next = v;
                }
            },
        }
        proof {
            assert(self@.guards =~= old(self)@.guards);
            assert(self@.nodes =~= old(self)@.write(loc, v).nodes);
        }
    }

    /// Moves the value out of the node at `p`.
    pub fn take(&mut self, p: usize) -> (value: Option<T>)
        requires
            old(self).wf(),
            old(self)@.nodes.contains_key(p),
        ensures
            final(self).wf(),
            value == old(self)@.nodes[p].data,
            forall|id: int| final(self)@ == #[trigger] old(self)@.after(id, Instr::Take(p)),
    {
        let value = match &mut self.nodes[p - 1] {
            Some(node) => node.data.take(),
            None => None,
        };
        proof {
            assert(self@.guards =~= old(self)@.guards);
            assert(self@.nodes =~= old(self)@.after(0, Instr::Take(p)).nodes);
        }
        value
    }

    /// Publishes `p` for holder `id`; publishes nothing and returns `None` if `p` is null.
    pub fn protect_ptr(&mut self, id: usize, p: usize) -> (published: Option<usize>)
        requires
            old(self).wf(),
            id < old(self)@.guards.len(),
        ensures
            final(self).wf(),
            published == (if p == 0 {
                None
            } else {
                Some(p)
            }),
            final(self)@ == old(self)@.publish(id as int, p),
    {
        if p == 0 {
            return None;
        }
        self.guards[id].push(p);
        proof {
            assert(self@.guards =~~= old(self)@.publish(id as int, p).guards);
            assert(self@.nodes =~= old(self)@.nodes);
            assert forall|i: int| 0 <= i < self.guards@.len() implies !(
            #[trigger] self.guards@[i])@.contains(0) by {
                assert(!old(self).guards@[i]@.contains(0));
                if self.guards@[i]@.contains(0) {
                    let k = choose|k: int|
                        0 <= k < self.guards@[i]@.len() && self.guards@[i]@[k] == 0;
                    assert(old(self).guards@[i]@[k] == 0);
                }
            }
        }
        Some(p)
    }

    /// Reads the address at `loc` and publishes it for holder `id`.
    pub fn protect(&mut self, id: usize, loc: Loc) -> (p: usize)
        requires
            old(self).wf(),
            id < old(self)@.guards.len(),
            old(self)@.valid(loc),
        ensures
            final(self).wf(),
            p == old(self)@.read(loc),
            final(self)@ == old(self)@.publish(id as int, p),
    {
        let p: usize = self.load(loc);
        match self.protect_ptr(id, p) {
            Some(published) => published,
            None => 0,
        }
    }

    /// Takes back all that holder `id` has published.
    pub fn release(&mut self, id: usize)
        requires
            old(self).wf(),
            id < old(self)@.guards.len(),
        ensures
            final(self).wf(),
            final(self)@ == old(self)@.release(id as int),
    {
        self.guards.set(id, Vec::new());
        proof {
            assert(self@.guards =~~= old(self)@.release(id as int).guards);
            assert(self@.nodes =~= old(self)@.nodes);
        }
    }

    /// Retires the node at `p`.
    pub fn retire(&mut self, p: usize)
        requires
            old(self).wf(),
            old(self)@.nodes.contains_key(p),
            !old(self)@.retired.contains(p),
        ensures
            final(self).wf(),
            final(self)@ == old(self)@.retire(p),
    {
        self.retired.push(p);
        proof {
            let before = old(self).retired@;
            assert(!before.contains(p)) by {
                assert(before.to_set().contains(p) == before.contains(p));
            }
            assert(self.retired@ == before.push(p));
            assert(self@.retired =~= old(self)@.retired.insert(p)) by {
                assert forall|a: usize| before.push(p).contains(a) == (before.contains(a) || a
                    == p) by {
                    if before.contains(a) {
                        let k = choose|k: int| 0 <= k < before.len() && before[k] == a;
                        assert(before.push(p)[k] == a);
                    }
                    assert(before.push(p)[before.len() as int] == p);
                }
            }
            assert(self@.guards =~= old(self)@.guards);
            assert(self@.nodes =~= old(self)@.nodes);
            assert(old(self).allocated(p));
            assert forall|k: int| 0 <= k < self.condemned@.len() implies self.retired@.contains(
                #[trigger] self.condemned@[k],
            ) by {
                let a = old(self).condemned@[k];
                assert(before.contains(a));
                let l = choose|l: int| 0 <= l < before.len() && before[l] == a;
                assert(self.retired@[l] == a);
            }
        }
    }

    /// Whether some holder has published `p`.
    pub fn is_protected(&self, p: usize) -> (protected: bool)
        ensures
            protected == self@.guarded(p),
    {
        let mut i: usize = 0;
        while i < self.guards.len()
            invariant
                i <= self.guards@.len(),
                forall|j: int| 0 <= j < i ==> !(#[trigger] self.guards@[j])@.contains(p),
            decreases self.guards@.len() - i,
        {
            let mut k: usize = 0;
            while k < self.guards[i].len()
                invariant
                    i < self.guards@.len(),
                    k <= self.guards@[i as int]@.len(),
                    forall|l: int| 0 <= l < k ==> self.guards@[i as int]@[l] != p,
                decreases self.guards@[i as int]@.len() - k,
            {
                if self.guards[i][k] == p {
                    proof {
                        assert(self@.guards[i as int][k as int] == p);
                        assert(publishes(self@.guards, i as int, p));
                    }
                    return true;
                }
                k = k + 1;
            }
            i = i + 1;
        }
        proof {
            if self@.guarded(p) {
                let id = choose|id: int| publishes(self@.guards, id, p);
                assert(self.guards@[id]@.contains(p));
            }
        }
        false
    }

    /// Looks whether the node at `p` is retired and nobody has published it, and condemns it
    /// then; returns whether it is so.
    pub fn condemn(&mut self, p: usize) -> (found: bool)
        requires
            old(self).wf(),
        ensures
            final(self).wf(),
            found == old(self)@.condemnable(p),
            final(self)@ == (if found {
                old(self)@.condemn(p)
            } else {
                old(self)@
            }),
    {
        let found = find(&self.retired, p).is_some() && !self.is_protected(p);
        if found && find(&self.condemned, p).is_none() {
            self.condemned.push(p);
            proof {
                let before = old(self).condemned@;
                lemma_pushed(before, p);
                assert(self@.condemned =~= old(self)@.condemned.insert(p));
                assert(self@.guards =~= old(self)@.guards);
                assert(self@.nodes =~= old(self)@.nodes);
                assert forall|k: int| 0 <= k < self.condemned@.len() implies self.retired@.contains(
                    #[trigger] self.condemned@[k],
                ) by {
                    if k < before.len() {
                        assert(old(self).retired@.contains(before[k]));
                    }
                }
            }
        } else {
            proof {
                if found {
                    assert(self@.condemned =~= old(self)@.condemned.insert(p));
                }
            }
        }
        found
    }

    /// Reclaims the node at `p` if it is condemned; returns whether it did. What the node still
    /// holds is dropped.
    pub fn reclaim(&mut self, p: usize) -> (freed: bool)
        requires
            old(self).wf(),
        ensures
            final(self).wf(),
            freed == old(self)@.condemned.contains(p),
            final(self)@ == (if freed {
                old(self)@.reclaim(p)
            } else {
                old(self)@
            }),
    {
        match (find(&self.condemned, p), find(&self.retired, p)) {
            (Some(c), Some(k)) => {
                let ghost before = *self;
                proof {
                    assert(before.allocated(before.retired@[k as int]));
                    lemma_removed(before.retired@, k as int);
                    lemma_removed(before.condemned@, c as int);
                }
                self.condemned.remove(c);
                self.retired.remove(k);
                self.nodes.set(p - 1, None);
                self.free.push(p);
                proof {
                    assert(self.retired@ == before.retired@.remove(k as int));
                    assert(self.condemned@ == before.condemned@.remove(c as int));
                    assert(self@.retired =~= before@.retired.remove(p));
                    assert(self@.condemned =~= before@.condemned.remove(p));
                    assert(self@.guards =~= before@.guards);
                    assert(self@.nodes =~= before@.nodes.remove(p));
                    assert(!before.free@.contains(p)) by {
                        if before.free@.contains(p) {
                            let l = choose|l: int|
                                0 <= l < before.free@.len() && before.free@[l] == p;
                            assert(before.free@[l] == p);
                        }
                    }
                    assert forall|l: int| 0 <= l < self.free@.len() implies {
                        let f = #[trigger] self.free@[l];
                        1 <= f <= self.nodes@.len() && self.nodes@[f - 1] is None
                    } by {
                        if l < before.free@.len() {
                            assert(self.free@[l] == before.free@[l]);
                        }
                    }
                    assert forall|l: int| 0 <= l < self.retired@.len() implies self.allocated(
                        #[trigger] self.retired@[l],
                    ) by {
                        let a = self.retired@[l];
                        assert(self.retired@.contains(a));
                        let o = choose|o: int|
                            0 <= o < before.retired@.len() && before.retired@[o] == a;
                        assert(before.allocated(before.retired@[o]));
                    }
                    assert forall|l: int|
                        0 <= l < self.condemned@.len() implies self.retired@.contains(
                        #[trigger] self.condemned@[l],
                    ) by {
                        let a = self.condemned@[l];
                        assert(self.condemned@.contains(a));
                        let o = choose|o: int|
                            0 <= o < before.condemned@.len() && before.condemned@[o] == a;
                        assert(before.retired@.contains(before.condemned@[o]));
                    }
                }
                true
            },
            _ => {
                proof {
                    if self.condemned@.contains(p) {
                        let c = choose|c: int|
                            0 <= c < self.condemned@.len() && self.condemned@[c] == p;
                        assert(self.retired@.contains(self.condemned@[c]));
                    }
                }
                false
            },
        }
    }

    /// Returns the addresses that wait for reclamation.
    pub fn retired(&self) -> (list: Vec<usize>)
        ensures
            forall|a: usize| #[trigger] self@.retired.contains(a) <==> list@.contains(a),
    {
        let mut list: Vec<usize> = Vec::new();
        let mut k: usize = 0;
        while k < self.retired.len()
            invariant
                k <= self.retired@.len(),
                list@ == self.retired@.take(k as int),
            decreases self.retired@.len() - k,
        {
            list.push(self.retired[k]);
            k = k + 1;
            proof {
                assert(list@ =~= self.retired@.take(k as int));
            }
        }
        proof {
            assert(list@ =~= self.retired@);
        }
        list
    }

    /// Makes the access `instr` for holder `id`; moving a value out is [`Memory::take`].
    pub fn execute(&mut self, id: usize, instr: Instr) -> (word: usize)
        requires
            old(self).wf(),
            id < old(self)@.guards.len(),
            old(self)@.allows(instr),
            !(instr is Take),
        ensures
            final(self).wf(),
            word == old(self)@.word(instr),
            final(self)@ == old(self)@.after(id as int, instr),
    {
        match instr {
            Instr::Protect(loc) => self.protect(id, loc),
            Instr::Load(loc) => self.load(loc),
            Instr::CompareExchange { loc, current, new } => {
                if self.load(loc) == current {
                    self.store(loc, new);
                    1
                } else {
                    0
                }
            },
            Instr::SetNext { node, next } => {
                self.store(Loc::Next(node), next);
                0
            },
            Instr::Retire(p) => {
                self.retire(p);
                0
            },
            Instr::Release => {
                self.release(id);
                0
            },
            Instr::Take(p) => 0,
        }
    }
}

impl<T> MemoryView<T> {
    /// A read gives back what was written last, and a write changes no other link, no value and
    /// nothing that is published or retired.
    pub proof fn law_read_gives_back_what_was_written(self, loc: Loc, v: usize, other: Loc)
        requires
            loc matches Loc::Next(a) ==> self.nodes.contains_key(a),
            other matches Loc::Next(b) ==> self.nodes.contains_key(b),
        ensures
            self.write(loc, v).read(loc) == v,
            other != loc ==> self.write(loc, v).read(other) == self.read(other),
            forall|a: usize|
                self.nodes.contains_key(a) ==> #[trigger] self.write(loc, v).nodes.contains_key(a)
                    && self.write(loc, v).nodes[a].data == self.nodes[a].data,
            self.write(loc, v).nodes.dom() == self.nodes.dom(),
            self.write(loc, v).guards == self.guards,
            self.write(loc, v).retired == self.retired,
            self.write(loc, v).condemned == self.condemned,
    {
        assert(self.write(loc, v).nodes.dom() =~= self.nodes.dom());
    }

    /// A compare-and-exchange succeeds exactly if the link holds what is expected. It then leaves
    /// the new word there, and else changes nothing.
    pub proof fn law_compare_exchange(self, id: int, loc: Loc, current: usize, new: usize)
        requires
            loc matches Loc::Next(a) ==> self.nodes.contains_key(a),
        ensures
            self.word(Instr::CompareExchange { loc, current, new }) != 0 <==> self.read(loc)
                == current,
            self.read(loc) == current ==> self.after(
                id,
                Instr::CompareExchange { loc, current, new },
            ).read(loc) == new,
            self.read(loc) != current ==> self.after(
                id,
                Instr::CompareExchange { loc, current, new },
            ) == self,
            self.word(Instr::Load(loc)) == self.read(loc),
            self.after(id, Instr::Load(loc)) == self,
            self.word(Instr::Protect(loc)) == self.read(loc),
    {
    }

    /// An address that an operation publishes stays published until it releases it; others
    /// neither publish nor release it for the operation.
    pub proof fn law_published_until_released(self, id: int, other: int, p: usize, q: usize)
        requires
            0 <= id < self.guards.len(),
            0 <= other < self.guards.len(),
        ensures
            p != 0 ==> self.publish(id, p).guards[id].contains(p),
            self.guards[other].contains(q) ==> self.publish(id, p).guards[other].contains(q),
            other != id ==> self.publish(id, p).guards[other] == self.guards[other],
            !self.release(id).guards[id].contains(p),
            other != id ==> self.release(id).guards[other] == self.guards[other],
            self.publish(id, p).guards.len() == self.guards.len(),
            self.release(id).guards.len() == self.guards.len(),
            self.publish(id, p).nodes == self.nodes && self.release(id).nodes == self.nodes,
    {
        if p != 0 {
            let g = self.guards[id].push(p);
            assert(g[g.len() - 1] == p);
        }
        if self.guards[other].contains(q) {
            let k = choose|k: int| 0 <= k < self.guards[other].len() && self.guards[other][k] == q;
            assert(self.publish(id, p).guards[other][k] == q);
        }
    }

    /// A node may be condemned exactly if it is retired and nobody publishes its address.
    pub proof fn law_condemned_only_if_unpublished(self, p: usize)
        ensures
            self.condemnable(p) <==> self.retired.contains(p) && forall|id: int|
                0 <= id < self.guards.len() ==> !(#[trigger] self.guards[id]).contains(p),
    {
        if self.guarded(p) {
            let id = choose|id: int| publishes(self.guards, id, p);
            assert(self.guards[id].contains(p));
        }
        if exists|id: int|
            0 <= id < self.guards.len() && (#[trigger] self.guards[id]).contains(p) {
            let id = choose|id: int|
                0 <= id < self.guards.len() && (#[trigger] self.guards[id]).contains(p);
            assert(publishes(self.guards, id, p));
        }
    }

    /// To take a value empties its node and leaves everything else as it is; to reclaim a node
    /// removes that node and no other.
    pub proof fn law_take_and_reclaim_concern_one_node(self, id: int, p: usize, q: usize)
        requires
            self.nodes.contains_key(p),
        ensures
            self.after(id, Instr::Take(p)).nodes[p] == (Node {
                data: None::<T>,
                next: self.nodes[p].next,
            }),
            q != p ==> self.after(id, Instr::Take(p)).nodes[q] == self.nodes[q],
            !self.reclaim(p).nodes.contains_key(p),
            !self.reclaim(p).retired.contains(p) && !self.reclaim(p).condemned.contains(p),
            q != p && self.nodes.contains_key(q) ==> self.reclaim(p).nodes.contains_key(q)
                && self.reclaim(p).nodes[q] == self.nodes[q],
            self.after(id, Instr::Retire(p)).retired == self.retired.insert(p),
            self.after(id, Instr::Retire(p)).nodes == self.nodes,
    {
    }
}

} // verus!
