use lockout::ms_queue::{DequeueState, EnqueueState, Queue, Response};
use lockout::memory::{Instr, Loc};
use std::sync::atomic::{AtomicUsize, Ordering};
use std::sync::Arc;

/// A small generator of schedules.
struct Schedule(u64);

impl Schedule {
    fn pick(&mut self, n: usize) -> usize {
        self.0 ^= self.0 << 13;
        self.0 ^= self.0 >> 7;
        self.0 ^= self.0 << 17;
        (self.0 % n as u64) as usize
    }
}

struct Counted(Arc<AtomicUsize>);

impl Drop for Counted {
    fn drop(&mut self) {
        self.0.fetch_add(1, Ordering::Relaxed);
    }
}

#[test]
fn dequeue_empty() {
    let mut q = Queue::<i32>::new();
    assert!(q.dequeue().is_none());
}

#[test]
fn enqueue_dequeue_single() {
    let mut q = Queue::new();
    q.enqueue(42);
    assert_eq!(q.dequeue(), Some(42));
    assert!(q.dequeue().is_none());
}

#[test]
fn fifo_order() {
    let mut q = Queue::new();
    for i in 0..10 {
        q.enqueue(i);
    }
    for i in 0..10 {
        assert_eq!(q.dequeue(), Some(i));
    }
    assert!(q.dequeue().is_none());
}

#[test]
fn ms_queue_drop_with_remaining_items() {
    let drop_count = Arc::new(AtomicUsize::new(0));
    {
        let mut q = Queue::new();
        for _ in 0..5 {
            q.enqueue(Counted(drop_count.clone()));
        }
        assert_eq!(drop_count.load(Ordering::Relaxed), 0);
        let remaining = q.into_items();
        assert_eq!(remaining.len(), 5);
    }
    assert_eq!(drop_count.load(Ordering::Relaxed), 5);
}

#[test]
fn concurrent_enqueue_dequeue() {
    let mut q: Queue<usize> = Queue::new();
    let count: usize = 1000;
    let producers: usize = 4;
    let consumers: usize = 4;
    let mut schedule = Schedule(7);

    let mut sent: Vec<usize> = vec![0; producers];
    let mut producing: Vec<Option<usize>> = vec![None; producers];
    let mut consuming: Vec<Option<usize>> = vec![None; consumers];
    let mut total_dequeued = 0;

    while total_dequeued < producers * count {
        let turn = schedule.pick(producers + consumers);
        if turn < producers {
            match producing[turn] {
                None if sent[turn] < count => producing[turn] = Some(q.begin_enqueue(sent[turn])),
                None => {}
                Some(op) => {
                    if let Some(response) = q.step(op) {
                        assert!(matches!(response, Response::Enqueued));
                        producing[turn] = None;
                        sent[turn] += 1;
                    }
                }
            }
        } else {
            let turn = turn - producers;
            match consuming[turn] {
                None => consuming[turn] = Some(q.begin_dequeue()),
                Some(op) => match q.step(op) {
                    Some(Response::Dequeued(value)) => {
                        consuming[turn] = None;
                        if value.is_some() {
                            total_dequeued += 1;
                        }
                        q.collect();
                    }
                    Some(Response::Enqueued) => unreachable!(),
                    None => {}
                },
            }
        }
    }

    assert_eq!(total_dequeued, producers * count);
}

#[test]
fn ms_queue_concurrent_no_duplicates() {
    let mut q: Queue<usize> = Queue::new();
    let count: usize = 500;
    let producers: usize = 4;
    let mut schedule = Schedule(11);

    let mut sent: Vec<usize> = vec![0; producers];
    let mut producing: Vec<Option<usize>> = vec![None; producers];
    while sent.iter().any(|n| *n < count) {
        let p = schedule.pick(producers);
        match producing[p] {
            None if sent[p] < count => producing[p] = Some(q.begin_enqueue(p * count + sent[p])),
            None => {}
            Some(op) => {
                if q.step(op).is_some() {
                    producing[p] = None;
                    sent[p] += 1;
                }
            }
        }
    }

    let mut results = Vec::new();
    while let Some(v) = q.dequeue() {
        results.push(v);
    }

    results.sort();
    let expected: Vec<usize> = (0..producers * count).collect();
    assert_eq!(results, expected);
}

#[test]
fn each_producer_is_served_in_order() {
    let mut q: Queue<(usize, usize)> = Queue::new();
    let mut schedule = Schedule(23);
    let mut sent = [0usize; 3];
    let mut producing: [Option<usize>; 3] = [None; 3];
    while sent.iter().any(|n| *n < 50) {
        let p = schedule.pick(3);
        match producing[p] {
            None if sent[p] < 50 => producing[p] = Some(q.begin_enqueue((p, sent[p]))),
            None => {}
            Some(op) => {
                if q.step(op).is_some() {
                    producing[p] = None;
                    sent[p] += 1;
                }
            }
        }
    }
    let mut seen = [0usize; 3];
    for (p, n) in q.into_items() {
        assert_eq!(n, seen[p]);
        seen[p] += 1;
    }
    assert_eq!(seen, [50, 50, 50]);
}

#[test]
fn dequeue_helps_an_enqueue_that_stopped_half_way() {
    let mut q = Queue::new();
    let op = q.begin_enqueue(5);
    // Protect the tail, read its link, link the node: the tail link is now behind.
    assert!(q.step(op).is_none());
    assert!(q.step(op).is_none());
    assert!(q.step(op).is_none());
    assert_eq!(q.dequeue(), Some(5));
    assert!(q.dequeue().is_none());
    // The enqueue that stopped goes on and is through.
    assert!(q.step(op).is_none());
    assert!(matches!(q.step(op), Some(Response::Enqueued)));
    assert!(q.dequeue().is_none());
}

#[test]
fn enqueue_helps_an_enqueue_that_stopped_half_way() {
    let mut q = Queue::new();
    let op = q.begin_enqueue(1);
    for _ in 0..3 {
        assert!(q.step(op).is_none());
    }
    q.enqueue(2);
    assert_eq!(q.dequeue(), Some(1));
    assert_eq!(q.dequeue(), Some(2));
}

#[test]
fn an_enqueue_without_effect_is_not_seen() {
    let mut q = Queue::new();
    let op = q.begin_enqueue(1);
    assert!(q.step(op).is_none());
    assert!(q.dequeue().is_none());
    q.enqueue(2);
    // The link that the first enqueue is about to write is taken: it starts over.
    while q.step(op).is_none() {}
    assert_eq!(q.dequeue(), Some(2));
    assert_eq!(q.dequeue(), Some(1));
}

#[test]
fn only_one_of_two_dequeues_wins_a_value() {
    let mut q = Queue::new();
    q.enqueue(9);
    let a = q.begin_dequeue();
    let b = q.begin_dequeue();
    let mut answers = Vec::new();
    let mut left = vec![a, b];
    while let Some(op) = left.first().copied() {
        left.rotate_left(1);
        if let Some(Response::Dequeued(value)) = q.step(op) {
            answers.push(value);
            left.retain(|other| *other != op);
        }
    }
    answers.sort();
    assert_eq!(answers, vec![None, Some(9)]);
}

#[test]
fn a_protected_node_is_not_reclaimed() {
    let mut q = Queue::new();
    q.enqueue(1);
    let reader = q.begin_dequeue();
    // The reader protects the sentinel, which has the address 1.
    assert!(q.step(reader).is_none());
    let rival = q.begin_dequeue();
    while q.step(rival).is_none() {}
    assert!(!q.condemn(1));
    assert!(!q.reclaim(1));
    // The reader finds the head link moved, starts over and finds the queue empty.
    let answer = loop {
        if let Some(Response::Dequeued(value)) = q.step(reader) {
            break value;
        }
    };
    assert_eq!(answer, None);
    assert!(q.condemn(1));
    assert!(q.reclaim(1));
    assert!(!q.reclaim(1));
    // The address is used again.
    q.enqueue(3);
    assert_eq!(q.dequeue(), Some(3));
}

#[test]
fn values_move_out_once_when_the_queue_is_taken_apart() {
    let drop_count = Arc::new(AtomicUsize::new(0));
    let mut q = Queue::new();
    for _ in 0..4 {
        q.enqueue(Counted(drop_count.clone()));
    }
    drop(q.dequeue());
    assert_eq!(drop_count.load(Ordering::Relaxed), 1);
    let rest = q.into_items();
    assert_eq!(rest.len(), 3);
    assert_eq!(drop_count.load(Ordering::Relaxed), 1);
    drop(rest);
    assert_eq!(drop_count.load(Ordering::Relaxed), 4);
}

#[test]
fn enqueue_state_goes_on_by_the_word_read() {
    let state = EnqueueState::LoadNext { node: 7, tail: 3 };
    assert!(matches!(state.instr(), Instr::Load(Loc::Next(3))));
    assert!(matches!(
        state.resume(9),
        EnqueueState::HelpTail { node: 7, tail: 3, next: 9 }
    ));
    let state = EnqueueState::LoadNext { node: 7, tail: 3 };
    assert!(matches!(state.resume(0), EnqueueState::Link { node: 7, tail: 3 }));
    let state = EnqueueState::Link { node: 7, tail: 3 };
    assert!(matches!(
        state.instr(),
        Instr::CompareExchange { loc: Loc::Next(3), current: 0, new: 7 }
    ));
    assert!(matches!(state.resume(0), EnqueueState::Retry { node: 7 }));
}

#[test]
fn dequeue_state_goes_on_by_the_word_read() {
    let state = DequeueState::<u8>::LoadTail { head: 4 };
    assert!(matches!(state.instr(), Instr::Load(Loc::Tail)));
    assert!(matches!(state.resume(4), DequeueState::LoadNext { head: 4 }));
    let state = DequeueState::<u8>::LoadTail { head: 4 };
    assert!(matches!(state.resume(5), DequeueState::ProtectNext { head: 4 }));
    let state = DequeueState::<u8>::LoadNext { head: 4 };
    assert!(matches!(state.resume(0), DequeueState::Finish { value: None }));
    let state = DequeueState::<u8>::AdvanceHead { head: 4, next: 6 };
    assert!(matches!(state.resume(1), DequeueState::RetireHead { head: 4, next: 6 }));
}

/// A dequeue that stopped at an unlinked node publishes the next one too late: that one is
/// reclaimed and its address used again, and the dequeue does not touch it.
#[test]
fn a_node_that_is_published_too_late_is_reclaimed() {
    let mut q = Queue::new();
    q.enqueue('a');
    q.enqueue('b');
    let slow = q.begin_dequeue();
    // It protects the sentinel, which has the address 1, and finds that the queue is not empty.
    assert!(q.step(slow).is_none());
    assert!(q.step(slow).is_none());
    for expected in ['a', 'b'] {
        let rival = q.begin_dequeue();
        let answer = loop {
            if let Some(Response::Dequeued(value)) = q.step(rival) {
                break value;
            }
        };
        assert_eq!(answer, Some(expected));
    }
    let mut waste = q.waste();
    waste.sort();
    assert_eq!(waste, vec![1, 2]);
    // Nobody has published the second node when the reclaimer looks.
    q.scan();
    assert!(!q.condemn(1));
    // The slow dequeue publishes it through the link of the sentinel.
    assert!(q.step(slow).is_none());
    assert!(!q.condemn(2));
    assert!(q.reclaim(2));
    assert!(!q.reclaim(1));
    q.enqueue('c');
    let answer = loop {
        if let Some(Response::Dequeued(value)) = q.step(slow) {
            break value;
        }
    };
    assert_eq!(answer, Some('c'));
    q.collect();
    assert!(q.waste().is_empty());
}

#[test]
fn values_are_dropped_once_with_the_queue() {
    let drop_count = Arc::new(AtomicUsize::new(0));
    {
        let mut q = Queue::new();
        for _ in 0..5 {
            q.enqueue(Counted(drop_count.clone()));
        }
        assert_eq!(drop_count.load(Ordering::Relaxed), 0);
    }
    assert_eq!(drop_count.load(Ordering::Relaxed), 5);
}
