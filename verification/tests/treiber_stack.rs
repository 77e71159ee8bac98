use lockout::memory::{Instr, Loc};
use lockout::treiber_stack::{PopState, PushState, Response, Stack};
use std::sync::atomic::{AtomicUsize, Ordering};
use std::sync::Arc;

/// A small generator of schedules.
struct Schedule(u64);

impl Schedule {
    fn pick(&mut self, n: usize) -> usize {
        self.0 ^= self.0 << 13;
        self.0 ^= self.0 >> 7;
        self.0 ^= self.0 << 17;
        (self.0 % n as u64) as usize
    }
}

struct Counted(Arc<AtomicUsize>);

impl Drop for Counted {
    fn drop(&mut self) {
        self.0.fetch_add(1, Ordering::Relaxed);
    }
}

#[test]
fn pop_empty() {
    let mut s = Stack::<i32>::new();
    assert!(s.pop().is_none());
}

#[test]
fn push_pop_single() {
    let mut s = Stack::new();
    s.push(42);
    assert_eq!(s.pop(), Some(42));
    assert!(s.pop().is_none());
}

#[test]
fn lifo_order() {
    let mut s = Stack::new();
    for i in 0..10 {
        s.push(i);
    }
    for i in (0..10).rev() {
        assert_eq!(s.pop(), Some(i));
    }
    assert!(s.pop().is_none());
}

#[test]
fn treiber_stack_drop_with_remaining_items() {
    let drop_count = Arc::new(AtomicUsize::new(0));
    {
        let mut s = Stack::new();
        for _ in 0..5 {
            s.push(Counted(drop_count.clone()));
        }
        assert_eq!(drop_count.load(Ordering::Relaxed), 0);
        let remaining = s.into_items();
        assert_eq!(remaining.len(), 5);
    }
    assert_eq!(drop_count.load(Ordering::Relaxed), 5);
}

#[test]
fn concurrent_push_pop_count() {
    let mut s: Stack<usize> = Stack::new();
    let producers: usize = 4;
    let consumers: usize = 4;
    let count: usize = 1000;
    let target = producers * count;
    let mut schedule = Schedule(5);

    let mut sent: Vec<usize> = vec![0; producers];
    let mut pushing: Vec<Option<usize>> = vec![None; producers];
    let mut popping: Vec<Option<usize>> = vec![None; consumers];
    let mut popped = 0;

    while popped < target || popping.iter().any(|op| op.is_some()) {
        let turn = schedule.pick(producers + consumers);
        if turn < producers {
            match pushing[turn] {
                None if sent[turn] < count => {
                    pushing[turn] = Some(s.begin_push(turn * count + sent[turn]))
                }
                None => {}
                Some(op) => {
                    if s.step(op).is_some() {
                        pushing[turn] = None;
                        sent[turn] += 1;
                    }
                }
            }
        } else {
            let turn = turn - producers;
            match popping[turn] {
                None if popped < target => popping[turn] = Some(s.begin_pop()),
                None => {}
                Some(op) => match s.step(op) {
                    Some(Response::Popped(value)) => {
                        popping[turn] = None;
                        if value.is_some() {
                            popped += 1;
                        }
                        s.collect();
                    }
                    Some(Response::Pushed) => unreachable!(),
                    None => {}
                },
            }
        }
    }

    assert_eq!(popped, target);
    assert!(s.pop().is_none());
}

#[test]
fn treiber_stack_concurrent_no_duplicates() {
    let mut s: Stack<usize> = Stack::new();
    let producers: usize = 4;
    let count: usize = 500;
    let mut schedule = Schedule(3);

    let mut sent: Vec<usize> = vec![0; producers];
    let mut pushing: Vec<Option<usize>> = vec![None; producers];
    while sent.iter().any(|n| *n < count) {
        let p = schedule.pick(producers);
        match pushing[p] {
            None if sent[p] < count => pushing[p] = Some(s.begin_push(p * count + sent[p])),
            None => {}
            Some(op) => {
                if s.step(op).is_some() {
                    pushing[p] = None;
                    sent[p] += 1;
                }
            }
        }
    }

    let mut values = Vec::new();
    while let Some(v) = s.pop() {
        values.push(v);
    }
    values.sort_unstable();

    let expected: Vec<usize> = (0..producers * count).collect();
    assert_eq!(values, expected);
}

#[test]
fn a_push_that_lost_the_race_starts_over() {
    let mut s = Stack::new();
    let op = s.begin_push(1);
    // Read the head link and write it to the new node.
    assert!(s.step(op).is_none());
    assert!(s.step(op).is_none());
    s.push(2);
    while s.step(op).is_none() {}
    assert_eq!(s.pop(), Some(1));
    assert_eq!(s.pop(), Some(2));
}

#[test]
fn a_reused_address_does_not_fool_a_pop() {
    let mut s = Stack::new();
    s.push(1);
    s.push(2);
    let slow = s.begin_pop();
    // The slow pop protects the top node, which has the address 2, and reads its link.
    assert!(s.step(slow).is_none());
    assert!(s.step(slow).is_none());
    assert_eq!(s.pop(), Some(2));
    assert_eq!(s.pop(), Some(1));
    // The node is retired, but it cannot be reclaimed and used again yet.
    assert!(!s.condemn(2));
    assert!(!s.reclaim(2));
    s.push(3);
    s.push(4);
    let answer = loop {
        if let Some(Response::Popped(value)) = s.step(slow) {
            break value;
        }
    };
    assert_eq!(answer, Some(4));
    assert_eq!(s.pop(), Some(3));
    assert!(s.pop().is_none());
}

#[test]
fn the_stack_is_taken_apart_from_the_top() {
    let mut s = Stack::new();
    s.push(1);
    s.push(2);
    s.push(3);
    assert_eq!(s.into_items(), vec![3, 2, 1]);
}

#[test]
fn push_state_goes_on_by_the_word_read() {
    let state = PushState::LoadHead { node: 5 };
    assert!(matches!(state.instr(), Instr::Load(Loc::Head)));
    assert!(matches!(state.resume(8), PushState::SetNext { node: 5, head: 8 }));
    let state = PushState::Swap { node: 5, head: 8 };
    assert!(matches!(
        state.instr(),
        Instr::CompareExchange { loc: Loc::Head, current: 8, new: 5 }
    ));
    assert!(matches!(state.resume(1), PushState::Finish));
    let state = PushState::Swap { node: 5, head: 8 };
    assert!(matches!(state.resume(0), PushState::LoadHead { node: 5 }));
}

#[test]
fn pop_state_goes_on_by_the_word_read() {
    let state = PopState::<u8>::ProtectHead;
    assert!(matches!(state.instr(), Instr::Protect(Loc::Head)));
    assert!(matches!(state.resume(0), PopState::Finish { value: None }));
    let state = PopState::<u8>::ProtectHead;
    assert!(matches!(state.resume(6), PopState::LoadNext { head: 6 }));
    let state = PopState::<u8>::Swap { head: 6, next: 2 };
    assert!(matches!(state.resume(0), PopState::Retry));
    let state = PopState::<u8>::Swap { head: 6, next: 2 };
    assert!(matches!(state.resume(1), PopState::Take { head: 6 }));
}

#[test]
fn values_popped_and_left_are_those_pushed() {
    let mut s: Stack<usize> = Stack::new();
    let mut schedule = Schedule(17);
    let mut next = 0;
    let mut under_way: Vec<usize> = Vec::new();
    let mut popped: Vec<usize> = Vec::new();
    for turn in 0..4000 {
        if turn % 16 == 0 {
            s.scan();
        }
        if under_way.len() < 4 {
            if schedule.pick(2) == 0 {
                under_way.push(s.begin_push(next));
                next += 1;
            } else {
                under_way.push(s.begin_pop());
            }
        }
        let k = schedule.pick(under_way.len());
        if let Some(response) = s.step(under_way[k]) {
            under_way.remove(k);
            if let Response::Popped(Some(value)) = response {
                popped.push(value);
            }
            s.collect();
        }
    }
    for op in under_way {
        loop {
            match s.step(op) {
                Some(Response::Popped(Some(value))) => {
                    popped.push(value);
                    break;
                }
                Some(_) => break,
                None => {}
            }
        }
    }
    popped.extend(s.into_items());
    popped.sort();
    assert_eq!(popped, (0..next).collect::<Vec<usize>>());
}

#[test]
fn values_are_dropped_once_with_the_stack() {
    let drop_count = Arc::new(AtomicUsize::new(0));
    {
        let mut s = Stack::new();
        for _ in 0..5 {
            s.push(Counted(drop_count.clone()));
        }
        assert_eq!(drop_count.load(Ordering::Relaxed), 0);
    }
    assert_eq!(drop_count.load(Ordering::Relaxed), 5);
}
