use lockout::memory::{Instr, Loc, Memory, Node};

#[test]
fn protect_ptr_returns_none_for_null() {
    let mut memory: Memory<i32> = Memory::new();
    memory.add_holder();
    assert!(memory.protect_ptr(0, 0).is_none());
}

#[test]
fn hazardous_protect_ptr_returns_none_for_null() {
    let mut memory: Memory<i32> = Memory::new();
    memory.add_holder();
    assert!(memory.protect_ptr(0, 0).is_none());
    assert!(!memory.is_protected(0));
}

#[test]
fn a_published_address_is_protected_until_it_is_released() {
    let mut memory: Memory<i32> = Memory::new();
    memory.add_holder();
    memory.add_holder();
    let node = memory.allocate(Node::new(99));
    assert_eq!(memory.protect_ptr(0, node), Some(node));
    assert_eq!(memory.protect_ptr(1, node), Some(node));
    memory.release(0);
    assert!(memory.is_protected(node));
    memory.release(1);
    assert!(!memory.is_protected(node));
}

#[test]
fn a_retired_node_is_reclaimed_when_nobody_uses_it() {
    let mut memory: Memory<i32> = Memory::new();
    memory.add_holder();
    let node = memory.allocate(Node::new(123));
    memory.store(Loc::Head, node);
    assert_eq!(memory.protect(0, Loc::Head), node);
    assert!(!memory.condemn(node));
    assert!(!memory.reclaim(node));
    memory.store(Loc::Head, 0);
    memory.retire(node);
    assert_eq!(memory.retired(), vec![node]);
    assert!(!memory.condemn(node));
    assert!(!memory.reclaim(node));
    assert_eq!(memory.take(node), Some(123));
    memory.release(0);
    assert!(!memory.reclaim(node));
    assert!(memory.condemn(node));
    assert!(memory.condemn(node));
    assert!(memory.reclaim(node));
    assert!(!memory.reclaim(node));
    assert!(memory.retired().is_empty());
    assert_eq!(memory.allocate(Node::new(456)), node);
}

#[test]
fn a_condemned_node_is_reclaimed_though_it_is_published_later() {
    let mut memory: Memory<i32> = Memory::new();
    memory.add_holder();
    let node = memory.allocate(Node::uninit());
    memory.retire(node);
    assert!(memory.condemn(node));
    assert_eq!(memory.protect_ptr(0, node), Some(node));
    assert!(!memory.condemn(node));
    assert!(memory.reclaim(node));
    assert!(memory.is_protected(node));
}

#[test]
fn an_exchange_takes_place_only_if_the_place_holds_what_is_expected() {
    let mut memory: Memory<i32> = Memory::new();
    memory.add_holder();
    let exchange = Instr::CompareExchange { loc: Loc::Tail, current: 1, new: 2 };
    assert_eq!(memory.execute(0, exchange), 0);
    assert_eq!(memory.load(Loc::Tail), 0);
    memory.store(Loc::Tail, 1);
    assert_eq!(memory.execute(0, exchange), 1);
    assert_eq!(memory.load(Loc::Tail), 2);
}

#[test]
fn links_of_nodes_are_read_and_written() {
    let mut memory: Memory<i32> = Memory::new();
    memory.add_holder();
    let a = memory.allocate(Node::uninit());
    let b = memory.allocate(Node::new(1));
    assert_eq!(memory.load(Loc::Next(a)), 0);
    memory.execute(0, Instr::SetNext { node: a, next: b });
    assert_eq!(memory.execute(0, Instr::Load(Loc::Next(a))), b);
    assert_eq!(memory.take(a), None);
    assert_eq!(memory.take(b), Some(1));
    assert_eq!(memory.take(b), None);
}
