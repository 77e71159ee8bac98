//! The hazard pointers that the shared structures are run on keep what the reclamation of
//! [`lockout::memory`] asks of a reclaimer: a retired value stays while a guard protects it.
use lockout::memory::{Loc, Memory, Node};
use lockout_hazard::{AtomicPtr, Domain};
use std::sync::atomic::{AtomicUsize, Ordering};
use std::sync::Arc;

struct Counted(Arc<AtomicUsize>);

impl Drop for Counted {
    fn drop(&mut self) {
        self.0.fetch_add(1, Ordering::Relaxed);
    }
}

#[test]
fn protect_returns_none_for_null() {
    let domain = Domain::new();
    let ptr = AtomicPtr::<i32>::new(std::ptr::null_mut());
    assert!(domain.protect(&ptr).is_none());
}

#[test]
fn protect_and_deref() {
    let domain = Domain::new();
    let ptr = AtomicPtr::from_box(Box::new(42));

    let guard = domain.protect(&ptr).unwrap();
    assert_eq!(*guard, 42);
    guard.clear();

    ptr.swap(std::ptr::null_mut(), Ordering::SeqCst).retire(&domain);
    domain.collect();
}

#[test]
fn guard_clear_releases_slot() {
    let domain = Domain::new();
    let ptr = AtomicPtr::from_box(Box::new(10));

    let guard = domain.protect(&ptr).unwrap();
    guard.clear();

    ptr.swap(std::ptr::null_mut(), Ordering::SeqCst).retire(&domain);
    domain.collect();
}

#[test]
fn guard_drop_releases_slot() {
    let domain = Domain::new();
    let ptr = AtomicPtr::from_box(Box::new(10));

    {
        let _guard = domain.protect(&ptr).unwrap();
    }

    ptr.swap(std::ptr::null_mut(), Ordering::SeqCst).retire(&domain);
    domain.collect();
}

#[test]
fn retire_with_guard() {
    let domain = Domain::new();
    let ptr = AtomicPtr::from_box(Box::new(77));

    let guard = domain.protect(&ptr).unwrap();
    assert_eq!(*guard, 77);

    ptr.swap(std::ptr::null_mut(), Ordering::SeqCst).retire(&domain);
    guard.clear();
    domain.collect();
}

#[test]
fn collect_does_not_reclaim_protected_pointer() {
    let domain = Domain::new();
    let ptr = AtomicPtr::from_box(Box::new(123));

    let guard = domain.protect(&ptr).unwrap();

    let new_val = Box::into_raw(Box::new(456));
    ptr.swap(new_val, Ordering::SeqCst).retire(&domain);
    domain.collect();

    assert_eq!(*guard, 123);
    guard.clear();
    domain.collect();

    ptr.swap(std::ptr::null_mut(), Ordering::SeqCst).retire(&domain);
    domain.collect();
}

#[test]
fn multiple_guards_same_domain() {
    let domain = Domain::new();
    let ptr_a = AtomicPtr::from_box(Box::new(1));
    let ptr_b = AtomicPtr::from_box(Box::new(2));

    let guard_a = domain.protect(&ptr_a).unwrap();
    let guard_b = domain.protect(&ptr_b).unwrap();

    assert_eq!(*guard_a, 1);
    assert_eq!(*guard_b, 2);

    guard_a.clear();
    guard_b.clear();

    ptr_a.swap(std::ptr::null_mut(), Ordering::SeqCst).retire(&domain);
    ptr_b.swap(std::ptr::null_mut(), Ordering::SeqCst).retire(&domain);
    domain.collect();
}

#[test]
fn replaced_from_swap() {
    let domain = Domain::new();
    let ptr = AtomicPtr::from_box(Box::new(42));

    ptr.swap(Box::into_raw(Box::new(99)), Ordering::SeqCst).retire(&domain);
    ptr.swap(std::ptr::null_mut(), Ordering::SeqCst).retire(&domain);

    // A swap on null: there is nothing to retire.
    ptr.swap(std::ptr::null_mut(), Ordering::SeqCst).retire(&domain);

    domain.collect();
}

#[test]
fn both_reclaimers_wait_for_the_reader() {
    let drop_count = Arc::new(AtomicUsize::new(0));
    let domain = Domain::new();
    let ptr = AtomicPtr::from_box(Box::new(Counted(drop_count.clone())));
    let guard = domain.protect(&ptr).unwrap();
    ptr.swap(std::ptr::null_mut(), Ordering::SeqCst).retire(&domain);
    domain.collect();
    assert_eq!(drop_count.load(Ordering::Relaxed), 0);
    guard.clear();
    domain.collect();
    assert_eq!(drop_count.load(Ordering::Relaxed), 1);

    let mut memory: Memory<Counted> = Memory::new();
    memory.add_holder();
    let node = memory.allocate(Node::new(Counted(drop_count.clone())));
    memory.store(Loc::Head, node);
    memory.protect(0, Loc::Head);
    memory.store(Loc::Head, 0);
    memory.retire(node);
    assert!(!memory.condemn(node));
    assert!(!memory.reclaim(node));
    assert_eq!(drop_count.load(Ordering::Relaxed), 1);
    memory.release(0);
    assert!(memory.condemn(node));
    assert!(memory.reclaim(node));
    assert_eq!(drop_count.load(Ordering::Relaxed), 2);
}
