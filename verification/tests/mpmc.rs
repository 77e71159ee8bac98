use lockout::error::{RecvError, RecvTimeoutError, SendError, TryRecvError};
use lockout::mpmc::channel;
use lockout::mpmc_channel::{Channel, Outcome};
use lockout::mpmc_protocol::{CloseState, RecvState, SendState, TryRecvState, WaiterState};

const REPEAT: u64 = 200;

/// A small generator of schedules.
struct Schedule(u64);

impl Schedule {
    fn new(seed: u64) -> Self {
        Schedule(seed.wrapping_mul(0x9e37_79b9_7f4a_7c15) | 1)
    }

    fn pick(&mut self, n: usize) -> usize {
        self.0 ^= self.0 << 13;
        self.0 ^= self.0 >> 7;
        self.0 ^= self.0 << 17;
        (self.0 % n as u64) as usize
    }
}

/// Steps operation `id` until it is through or blocked.
fn run<T>(channel: &mut Channel<T>, id: usize, now: u64) -> Option<Outcome<T>> {
    while !channel.is_blocked(id) {
        if let Some(outcome) = channel.step(id, now) {
            return Some(outcome);
        }
    }
    None
}

/// Steps the operations in turns as the schedule says, skipping blocked ones, until each of
/// them is through.
fn run_all<T>(channel: &mut Channel<T>, ids: &[usize], schedule: &mut Schedule) -> Vec<Outcome<T>> {
    let mut left: Vec<usize> = ids.to_vec();
    let mut outcomes = Vec::new();
    while !left.is_empty() {
        assert!(left.iter().any(|id| !channel.is_blocked(*id)), "everybody is blocked");
        let id = left[schedule.pick(left.len())];
        if !channel.is_blocked(id) {
            if let Some(outcome) = channel.step(id, 0) {
                outcomes.push(outcome);
                left.retain(|other| *other != id);
            }
        }
    }
    outcomes
}

fn received<T>(outcomes: Vec<Outcome<T>>) -> Vec<Result<T, RecvTimeoutError>> {
    let mut all = Vec::new();
    for outcome in outcomes {
        match outcome {
            Outcome::Received(result) => all.push(result),
            Outcome::Sent(result) => assert!(result.is_ok()),
            _ => {}
        }
    }
    all
}

#[test]
fn mpmc_send_recv_single() {
    let (tx, rx, mut channel) = channel();
    tx.send(&mut channel, 42).unwrap();
    assert_eq!(rx.recv(&mut channel).unwrap(), 42);
}

#[test]
fn send_fails_without_receivers() {
    let (tx, rx, mut channel) = channel::<i32>();
    rx.close(&mut channel);
    assert!(tx.send(&mut channel, 1).is_err());
}

#[test]
fn a_refused_message_is_handed_back() {
    let (tx, rx, mut channel) = channel();
    rx.close(&mut channel);
    match tx.send(&mut channel, "hello") {
        Err(SendError(msg)) => assert_eq!(msg, "hello"),
        Ok(()) => panic!("nobody is there to receive"),
    }
}

#[test]
fn recv_reports_disconnected_when_empty() {
    let (tx, rx, mut channel) = channel::<i32>();
    tx.close(&mut channel);
    assert!(matches!(rx.recv(&mut channel), Err(RecvError)));
}

#[test]
fn try_recv_empty_and_disconnected() {
    let (tx, rx, mut channel) = channel::<i32>();
    assert!(matches!(rx.try_recv(&mut channel), Err(TryRecvError::Empty)));
    tx.close(&mut channel);
    assert!(matches!(rx.try_recv(&mut channel), Err(TryRecvError::Disconnected)));
}

#[test]
fn recv_timeout_times_out() {
    let (_tx, rx, mut channel) = channel::<i32>();
    let mut clock = 0;
    assert!(matches!(
        rx.recv_timeout(&mut channel, &mut clock, 10),
        Err(RecvTimeoutError::Timeout)
    ));
    assert_eq!(clock, 10);
}

#[test]
fn recv_timeout_receives_before_deadline() {
    let (_tx, _rx, mut channel) = channel();
    let recv = channel.begin_recv_timeout(0, 100);
    assert!(run(&mut channel, recv, 0).is_none());
    let send = channel.begin_send(99);
    assert!(matches!(run(&mut channel, send, 5), Some(Outcome::Sent(Ok(())))));
    match run(&mut channel, recv, 5) {
        Some(Outcome::Received(got)) => assert_eq!(got.unwrap(), 99),
        _ => panic!("the receiver was not woken"),
    }
}

#[test]
fn recv_timeout_reports_disconnect_and_values() {
    let (tx, rx, mut channel) = channel();
    tx.send(&mut channel, 5).unwrap();
    tx.close(&mut channel);
    let mut clock = 1;
    assert_eq!(rx.recv_timeout(&mut channel, &mut clock, 2), Ok(5));
    assert_eq!(
        rx.recv_timeout(&mut channel, &mut clock, 2),
        Err(RecvTimeoutError::Disconnected)
    );
    assert_eq!(clock, 1);
}

#[test]
fn iter_drains_until_disconnect() {
    let (tx, rx, mut channel) = channel();
    tx.send(&mut channel, 1).unwrap();
    tx.send(&mut channel, 2).unwrap();
    tx.close(&mut channel);

    let mut got: Vec<_> = rx.iter().collect(&mut channel);
    got.sort_unstable();
    assert_eq!(got, vec![1, 2]);
}

#[test]
fn try_iter_drains_currently_available() {
    let (tx, rx, mut channel) = channel();
    tx.send(&mut channel, 1).unwrap();
    tx.send(&mut channel, 2).unwrap();

    let mut got: Vec<_> = rx.try_iter().collect(&mut channel);
    got.sort_unstable();
    assert_eq!(got, vec![1, 2]);

    assert!(matches!(rx.try_recv(&mut channel), Err(TryRecvError::Empty)));
}

#[test]
fn iterators_yield_one_at_a_time() {
    let (tx, rx, mut channel) = channel();
    tx.send(&mut channel, 'a').unwrap();
    tx.send(&mut channel, 'b').unwrap();
    let mut now = rx.try_iter();
    assert_eq!(now.next(&mut channel), Some('a'));
    tx.close(&mut channel);
    let mut all = rx.iter();
    assert_eq!(all.next(&mut channel), Some('b'));
    assert_eq!(all.next(&mut channel), None);
    assert_eq!(now.next(&mut channel), None);
}

#[test]
fn messages_come_in_the_order_in_which_they_were_sent() {
    let (tx, rx, mut channel) = channel();
    let tx2 = tx.clone(&mut channel);
    for i in 0..20 {
        if i % 3 == 0 {
            tx2.send(&mut channel, i).unwrap();
        } else {
            tx.send(&mut channel, i).unwrap();
        }
    }
    for i in 0..20 {
        assert_eq!(rx.recv(&mut channel), Ok(i));
    }
}

#[test]
fn concurrent_send_recv_count_matches() {
    count_matches(4, 500, 4, 1);
}

/// Runs producers and consumers side by side and counts what is received.
fn count_matches(producers: usize, per_producer: usize, consumers: usize, seed: u64) {
    let (tx, _rx, mut channel) = channel::<usize>();
    let mut schedule = Schedule::new(seed);
    for _ in 0..producers {
        tx.clone(&mut channel);
    }
    tx.close(&mut channel);

    let mut sent = vec![0; producers];
    let mut sending: Vec<Option<usize>> = vec![None; producers];
    let mut closing: Vec<Option<usize>> = vec![None; producers];
    let mut gone = vec![false; producers];
    let mut receiving: Vec<Option<usize>> = vec![None; consumers];
    let mut through = vec![false; consumers];
    let mut seen = vec![false; producers * per_producer];
    let mut received = 0;
    let mut turns = 0;
    while through.iter().any(|t| !*t) {
        turns += 1;
        if turns % 64 == 0 {
            channel.collect();
        } else if turns % 16 == 0 {
            channel.scan();
        }
        let turn = schedule.pick(producers + consumers);
        if turn < producers {
            if gone[turn] {
                continue;
            }
            if let Some(id) = closing[turn] {
                if channel.step(id, 0).is_some() {
                    gone[turn] = true;
                }
            } else if let Some(id) = sending[turn] {
                if let Some(Outcome::Sent(result)) = channel.step(id, 0) {
                    result.unwrap();
                    sending[turn] = None;
                    sent[turn] += 1;
                }
            } else if sent[turn] < per_producer {
                sending[turn] = Some(channel.begin_send(turn * per_producer + sent[turn]));
            } else {
                closing[turn] = Some(channel.begin_close());
            }
        } else {
            let turn = turn - producers;
            if through[turn] {
                continue;
            }
            match receiving[turn] {
                None => receiving[turn] = Some(channel.begin_recv(None)),
                Some(id) => {
                    if !channel.is_blocked(id) {
                        if let Some(Outcome::Received(result)) = channel.step(id, 0) {
                            receiving[turn] = None;
                            match result {
                                Ok(n) => {
                                    assert!(!seen[n]);
                                    seen[n] = true;
                                    received += 1;
                                }
                                Err(_) => through[turn] = true,
                            }
                        }
                    }
                }
            }
        }
    }
    assert_eq!(received, producers * per_producer);
}

/// A receiver blocks while a sender sends. The message must not be lost.
#[test]
fn blocking_recv_woken_by_send() {
    for seed in 0..REPEAT {
        let (_tx, _rx, mut channel) = channel();
        let mut schedule = Schedule::new(seed);
        let recv = channel.begin_recv(None);
        let send = channel.begin_send(1);
        let got = received(run_all(&mut channel, &[recv, send], &mut schedule));
        assert_eq!(got, vec![Ok(1)]);
    }
}

/// Multiple receivers are blocked; each must receive exactly one value.
#[test]
fn multiple_blocked_receivers_all_woken() {
    for seed in 0..REPEAT {
        let (_tx, _rx, mut channel) = channel::<usize>();
        let mut schedule = Schedule::new(seed);
        let n = 4;

        let mut ids: Vec<usize> = (0..n).map(|_| channel.begin_recv(None)).collect();
        for i in 0..n {
            ids.push(channel.begin_send(i));
        }
        let outcomes = run_all(&mut channel, &ids, &mut schedule);
        let mut got: Vec<usize> = received(outcomes).into_iter().map(|r| r.unwrap()).collect();
        got.sort_unstable();
        assert_eq!(got, (0..n).collect::<Vec<_>>());
    }
}

/// The same with a sender that sends one value after the other.
#[test]
fn one_sender_wakes_all_blocked_receivers() {
    for seed in 0..10 * REPEAT {
        let (_tx, _rx, mut channel) = channel::<usize>();
        let mut schedule = Schedule::new(seed);
        let n = 4;

        let mut left: Vec<usize> = (0..n).map(|_| channel.begin_recv(None)).collect();
        let mut got = Vec::new();
        let mut sent = 0;
        let mut send = Some(channel.begin_send(0));
        while !left.is_empty() || send.is_some() {
            assert!(
                send.is_some() || left.iter().any(|id| !channel.is_blocked(*id)),
                "everybody is blocked"
            );
            let turn = schedule.pick(left.len() + 1);
            if turn == left.len() {
                if let Some(id) = send {
                    if channel.step(id, 0).is_some() {
                        sent += 1;
                        send = if sent < n { Some(channel.begin_send(sent)) } else { None };
                    }
                }
            } else if !channel.is_blocked(left[turn]) {
                if let Some(Outcome::Received(result)) = channel.step(left[turn], 0) {
                    got.push(result.unwrap());
                    left.remove(turn);
                }
            }
        }
        got.sort_unstable();
        assert_eq!(got, (0..n).collect::<Vec<_>>());
    }
}

/// When nobody can go on, no receiver waits while a message is there, whoever gave up meanwhile.
#[test]
fn no_receiver_waits_beside_a_message() {
    for seed in 0..10 * REPEAT {
        let (_tx, rx, mut channel) = channel::<u64>();
        let mut schedule = Schedule::new(seed);
        let mut left: Vec<(usize, Option<u64>)> = Vec::new();
        for i in 0..5 {
            let deadline = if schedule.pick(2) == 0 { None } else { Some(2 + i) };
            left.push((channel.begin_recv(deadline), deadline));
        }
        for i in 0..3 {
            left.push((channel.begin_send(i), None));
        }
        let mut now = 0;
        let mut got = Vec::new();
        loop {
            if schedule.pick(20) == 0 {
                now += 1;
            }
            // A receive that is blocked goes on when its time limit is reached.
            let ready: Vec<usize> = (0..left.len())
                .filter(|k| {
                    let (id, deadline) = left[*k];
                    !channel.is_blocked(id) || deadline.is_some_and(|d| now >= d)
                })
                .collect();
            if ready.is_empty() {
                if now >= 8 || left.is_empty() {
                    break;
                }
                continue;
            }
            let turn = ready[schedule.pick(ready.len())];
            if let Some(outcome) = channel.step(left[turn].0, now) {
                if let Outcome::Received(Ok(msg)) = outcome {
                    got.push(msg);
                }
                left.remove(turn);
            }
        }
        if left.is_empty() {
            while let Ok(msg) = rx.try_recv(&mut channel) {
                got.push(msg);
            }
        }
        assert_eq!(rx.try_recv(&mut channel), Err(TryRecvError::Empty));
        got.sort_unstable();
        assert_eq!(got, vec![0, 1, 2]);
    }
}

/// All blocked receivers must observe the disconnect when the last sender closes.
#[test]
fn blocked_receivers_disconnected_on_sender_drop() {
    for seed in 0..REPEAT {
        let (_tx, _rx, mut channel) = channel::<i32>();
        let mut schedule = Schedule::new(seed);
        let n = 4;

        let mut ids: Vec<usize> = (0..n).map(|_| channel.begin_recv(None)).collect();
        ids.push(channel.begin_close());
        for result in received(run_all(&mut channel, &ids, &mut schedule)) {
            assert!(matches!(result, Err(RecvTimeoutError::Disconnected)));
        }
    }
}

/// A receiver that times out must not prevent subsequent sends and receives from working
/// (a cancelled waiter is left on the stack).
#[test]
fn timed_out_waiter_does_not_block_future_messages() {
    for now in 0..REPEAT {
        let (tx, rx, mut channel) = channel::<i32>();

        // Let the receiver time out, leaving a cancelled waiter on the stack.
        let mut clock = now;
        let _ = rx.recv_timeout(&mut channel, &mut clock, 1);
        assert_eq!(clock, now + 1);

        // The channel must still be usable.
        tx.send(&mut channel, 42).unwrap();
        assert_eq!(rx.recv(&mut channel).unwrap(), 42);
    }
}

#[test]
fn sender_clone_drop_race() {
    for seed in 0..REPEAT {
        let (tx, rx, mut channel) = channel::<i32>();
        let mut schedule = Schedule::new(seed);
        let _tx2 = tx.clone(&mut channel);
        let send = channel.begin_send(1);
        let close = channel.begin_close();
        run_all(&mut channel, &[send, close], &mut schedule);
        assert_eq!(rx.recv(&mut channel).unwrap(), 1);
    }
}

#[test]
fn receiver_clone_drop_race() {
    for seed in 0..REPEAT {
        let (_tx, rx, mut channel) = channel::<i32>();
        let mut schedule = Schedule::new(seed);
        let rx2 = rx.clone(&mut channel);
        let send = channel.begin_send(1);
        let steps = schedule.pick(4);
        for _ in 0..steps {
            assert!(channel.step(send, 0).is_none());
        }
        rx2.close(&mut channel);
        assert!(matches!(run(&mut channel, send, 0), Some(Outcome::Sent(Ok(())))));
        // The first receiver is still there and must receive the message.
        assert_eq!(rx.recv(&mut channel).unwrap(), 1);
    }
}

#[test]
fn send_races_with_last_receiver_drop() {
    for steps in 0..8 {
        let (_tx, rx, mut channel) = channel::<i32>();
        let send = channel.begin_send(1);
        let mut outcome = None;
        for _ in 0..steps {
            if outcome.is_none() {
                outcome = channel.step(send, 0);
            }
        }
        rx.close(&mut channel);
        if outcome.is_none() {
            outcome = run(&mut channel, send, 0);
        }
        // It succeeds if it saw the receiver, and fails if not.
        match outcome {
            Some(Outcome::Sent(result)) => assert_eq!(result.is_err(), steps == 0),
            _ => panic!("a send is never blocked"),
        }
    }
}

#[test]
fn no_messages_lost_high_contention() {
    count_matches(8, 1_000, 8, 2);
}

/// A message sent while a receive with a time limit is under way is received by it or stays
/// in the queue.
#[test]
fn send_races_with_recv_timeout() {
    for seed in 0..REPEAT {
        let (_tx, rx, mut channel) = channel::<i32>();
        let mut schedule = Schedule::new(seed);
        let recv = channel.begin_recv_timeout(0, 5);
        let send = channel.begin_send(1);
        let mut close = None;
        let mut closed = false;
        let mut now = 0;
        let mut result = None;
        while result.is_none() || !closed {
            now += schedule.pick(2) as u64;
            if schedule.pick(2) == 0 {
                if result.is_none() && (now >= 5 || !channel.is_blocked(recv)) {
                    if let Some(Outcome::Received(r)) = channel.step(recv, now) {
                        result = Some(r);
                    }
                }
            } else if let Some(close) = close {
                closed = closed || channel.step(close, now).is_some();
            } else if channel.step(send, now).is_some() {
                // The sender is given up once it has sent the message.
                close = Some(channel.begin_close());
            }
        }
        match result {
            Some(Ok(v)) => {
                assert_eq!(v, 1);
                assert_eq!(rx.try_recv(&mut channel), Err(TryRecvError::Disconnected));
            }
            Some(Err(RecvTimeoutError::Timeout)) => {
                assert_eq!(rx.try_recv(&mut channel), Ok(1));
            }
            _ => panic!("the message was there before the disconnect"),
        }
    }
}

/// A receiver that was about to block when the last sender closed still gets the message that
/// was sent before.
#[test]
fn disconnect_is_reported_only_when_the_queue_is_empty() {
    for steps in 0..40 {
        let (_tx, _rx, mut channel) = channel();
        let recv = channel.begin_recv(None);
        for _ in 0..steps {
            if !channel.is_blocked(recv) {
                assert!(channel.step(recv, 0).is_none());
            }
        }
        let send = channel.begin_send(3);
        assert!(run(&mut channel, send, 0).is_some());
        let close = channel.begin_close();
        assert!(run(&mut channel, close, 0).is_some());
        match run(&mut channel, recv, 0) {
            Some(Outcome::Received(result)) => assert_eq!(result, Ok(3)),
            _ => panic!("the receiver was not woken"),
        }
    }
}

fn step_times<T>(channel: &mut Channel<T>, id: usize, times: usize) {
    for _ in 0..times {
        assert!(channel.step(id, 0).is_none());
    }
}

/// A receiver that finds a message by itself and is told of another one tells a receiver that
/// waits.
#[test]
fn a_notification_is_passed_on_by_a_receiver_that_does_not_need_it() {
    let (tx, rx, mut channel) = channel();
    // Both receivers find no message, see a sender, and have not pushed their waiters.
    let waiting = channel.begin_recv(None);
    let busy = channel.begin_recv(None);
    step_times(&mut channel, waiting, 6);
    step_times(&mut channel, busy, 6);
    // The first send finds no waiter to tell.
    tx.send(&mut channel, 1).unwrap();
    // Both push their waiters; one of them takes the message, the other one blocks.
    step_times(&mut channel, waiting, 6);
    step_times(&mut channel, busy, 6);
    step_times(&mut channel, busy, 8);
    assert!(run(&mut channel, waiting, 0).is_none());
    // The second send tells the one that has its message already.
    tx.send(&mut channel, 2).unwrap();
    match run(&mut channel, busy, 0) {
        Some(Outcome::Received(result)) => assert_eq!(result, Ok(1)),
        _ => panic!("the receiver has a message"),
    }
    assert!(!channel.is_blocked(waiting));
    match run(&mut channel, waiting, 0) {
        Some(Outcome::Received(result)) => assert_eq!(result, Ok(2)),
        _ => panic!("the receiver was not woken"),
    }
    assert_eq!(rx.try_recv(&mut channel), Err(TryRecvError::Empty));
}

/// A receiver that is told at its time limit tells another one when it gives up.
#[test]
fn a_notification_is_passed_on_by_a_receiver_that_gives_up() {
    let mut passed_on = 0;
    for steps in 0..40 {
        let (tx, _rx, mut channel) = channel();
        let waiting = channel.begin_recv(None);
        assert!(run(&mut channel, waiting, 0).is_none());
        // This one stops somewhere on its way, and the send tells it or the other one.
        let timed = channel.begin_recv(Some(5));
        for _ in 0..steps {
            if !channel.is_blocked(timed) {
                assert!(channel.step(timed, 0).is_none());
            }
        }
        tx.send(&mut channel, 7).unwrap();
        let told_other = channel.is_blocked(waiting);
        let first = run(&mut channel, timed, 5);
        match first {
            Some(Outcome::Received(Ok(msg))) => {
                assert_eq!(msg, 7);
                assert!(run(&mut channel, waiting, 5).is_none());
                assert!(channel.is_blocked(waiting));
            }
            Some(Outcome::Received(Err(error))) => {
                assert_eq!(error, RecvTimeoutError::Timeout);
                assert!(!channel.is_blocked(waiting));
                match run(&mut channel, waiting, 5) {
                    Some(Outcome::Received(result)) => assert_eq!(result, Ok(7)),
                    _ => panic!("the receiver was not woken"),
                }
                if told_other {
                    passed_on += 1;
                }
            }
            _ => panic!("the time limit is reached"),
        }
    }
    assert!(passed_on > 0);
}

/// A send tells a receiver that has just taken a message which another one was woken for.
#[test]
fn a_message_taken_by_another_receiver_does_not_leave_one_waiting() {
    let (tx, rx, mut channel) = channel();
    let recv: Vec<usize> = (0..4).map(|_| channel.begin_recv(None)).collect();
    for id in &recv[..3] {
        assert!(run(&mut channel, *id, 0).is_none());
    }
    // The last one has made its waiter and not pushed it yet.
    step_times(&mut channel, recv[3], 6);
    tx.send(&mut channel, 'a').unwrap();
    // It pushes the waiter and takes the message, and has not cancelled the waiter.
    step_times(&mut channel, recv[3], 14);
    // The one that was woken finds nothing and blocks again.
    assert!(!channel.is_blocked(recv[2]));
    assert!(run(&mut channel, recv[2], 0).is_none());
    tx.send(&mut channel, 'b').unwrap();
    tx.send(&mut channel, 'c').unwrap();
    tx.send(&mut channel, 'd').unwrap();
    assert!(channel.is_blocked(recv[0]));
    let mut got = Vec::new();
    for id in [recv[1], recv[2], recv[3], recv[0]] {
        match run(&mut channel, id, 0) {
            Some(Outcome::Received(result)) => got.push(result.unwrap()),
            _ => panic!("the receiver was not woken"),
        }
    }
    got.sort_unstable();
    assert_eq!(got, vec!['a', 'b', 'c', 'd']);
    assert_eq!(rx.try_recv(&mut channel), Err(TryRecvError::Empty));
}

/// After the disconnect was reported, every receive reports it.
#[test]
fn the_disconnect_is_final() {
    let (tx, rx, mut channel) = channel::<u8>();
    let tx2 = tx.clone(&mut channel);
    tx.send(&mut channel, 1).unwrap();
    tx2.close(&mut channel);
    let early = channel.begin_recv(Some(3));
    step_times(&mut channel, early, 1);
    tx.close(&mut channel);
    assert_eq!(rx.recv(&mut channel), Ok(1));
    assert_eq!(rx.try_recv(&mut channel), Err(TryRecvError::Disconnected));
    let rx2 = rx.clone(&mut channel);
    assert_eq!(rx2.try_recv(&mut channel), Err(TryRecvError::Disconnected));
    assert_eq!(rx.recv(&mut channel), Err(RecvError));
    assert_eq!(
        rx2.recv_timeout(&mut channel, &mut 4, 1),
        Err(RecvTimeoutError::Disconnected)
    );
    match run(&mut channel, early, 4) {
        Some(Outcome::Received(result)) => {
            assert_eq!(result, Err(RecvTimeoutError::Disconnected));
        }
        _ => panic!("a receive is not blocked without a sender"),
    }
}

#[test]
fn handles_are_counted() {
    let (tx, rx, mut channel) = channel::<u8>();
    assert_eq!((channel.sender_count(), channel.receiver_count()), (1, 1));
    let tx2 = tx.clone(&mut channel);
    let rx2 = rx.clone(&mut channel);
    assert_eq!((channel.sender_count(), channel.receiver_count()), (2, 2));
    tx.close(&mut channel);
    rx.close(&mut channel);
    assert!(channel.has_senders() && channel.has_receivers());
    tx2.close(&mut channel);
    rx2.close(&mut channel);
    assert!(!channel.has_senders() && !channel.has_receivers());
}

#[test]
fn the_channel_is_connected_while_one_of_the_clones_is_left() {
    for first in 0..2 {
        let (tx, rx, mut channel) = channel::<u8>();
        let tx2 = tx.clone(&mut channel);
        let (one, other) = if first == 0 { (tx, tx2) } else { (tx2, tx) };
        one.close(&mut channel);
        assert_eq!(rx.try_recv(&mut channel), Err(TryRecvError::Empty));
        other.close(&mut channel);
        assert_eq!(rx.try_recv(&mut channel), Err(TryRecvError::Disconnected));
    }
}

#[test]
fn waiter_states_are_numbered() {
    assert_eq!(u8::from(WaiterState::Waiting), 0);
    assert_eq!(u8::from(WaiterState::Notified), 1);
    assert_eq!(u8::from(WaiterState::Cancelled), 2);
    for n in 0..3 {
        assert_eq!(u8::from(WaiterState::from_byte(n)), n);
    }
}

#[test]
fn a_send_tells_the_next_waiter_if_the_first_was_told() {
    assert!(matches!(
        SendState::<u8, u8>::receivers_loaded(7, true),
        SendState::Enqueue { msg: 7 }
    ));
    assert!(matches!(
        SendState::<u8, u8>::receivers_loaded(7, false),
        SendState::Done { result: Err(SendError(7)) }
    ));
    assert!(matches!(
        SendState::<u8, u8>::notified(4, false),
        SendState::PopWaiter
    ));
    assert!(matches!(
        SendState::<u8, u8>::notified(4, true),
        SendState::Unpark { waiter: 4 }
    ));
}

#[test]
fn only_the_last_sender_wakes_everybody() {
    assert!(matches!(CloseState::<u8>::decremented(1), CloseState::PopWaiter));
    assert!(matches!(CloseState::<u8>::decremented(2), CloseState::Done));
    assert!(matches!(CloseState::<u8>::unparked(), CloseState::PopWaiter));
}

#[test]
fn a_receive_looks_once_more_before_it_reports_the_disconnect() {
    assert!(matches!(
        RecvState::<u8, u8>::senders_polled(1, false),
        RecvState::PollLast { waiter: 1 }
    ));
    assert!(matches!(
        RecvState::<u8, u8>::last_polled(1, Some(9)),
        RecvState::Cancel { waiter: 1, result: Ok(9) }
    ));
    assert!(matches!(
        RecvState::<u8, u8>::last_polled(1, None),
        RecvState::Cancel { waiter: 1, result: Err(RecvTimeoutError::Disconnected) }
    ));
    assert!(matches!(
        RecvState::<u8, u8>::state_loaded(1, WaiterState::Notified, false),
        RecvState::Dequeue { told: true }
    ));
    assert!(matches!(
        TryRecvState::<u8>::senders_loaded(true),
        TryRecvState::Done { result: Err(TryRecvError::Empty) }
    ));
    assert!(matches!(
        TryRecvState::<u8>::senders_loaded(false),
        TryRecvState::DequeueLast
    ));
}

#[test]
fn a_receive_that_was_told_and_leaves_tells_another_one() {
    assert!(matches!(
        RecvState::<u8, u8>::cancelled(WaiterState::Waiting, Ok(3)),
        RecvState::Done { result: Ok(3) }
    ));
    assert!(matches!(
        RecvState::<u8, u8>::cancelled(WaiterState::Notified, Ok(3)),
        RecvState::PassOn { result: Ok(3) }
    ));
    assert!(matches!(
        RecvState::<u8, u8>::pass_popped(None, Err(RecvTimeoutError::Timeout)),
        RecvState::Done { result: Err(RecvTimeoutError::Timeout) }
    ));
    assert!(matches!(
        RecvState::<u8, u8>::pass_popped(Some(4), Ok(3)),
        RecvState::PassNotify { waiter: 4, result: Ok(3) }
    ));
    assert!(matches!(
        RecvState::<u8, u8>::pass_notified(4, false, Ok(3)),
        RecvState::PassOn { result: Ok(3) }
    ));
    assert!(matches!(
        RecvState::<u8, u8>::pass_notified(4, true, Ok(3)),
        RecvState::PassUnpark { waiter: 4, result: Ok(3) }
    ));
    assert!(matches!(
        RecvState::<u8, u8>::pass_unparked(Ok(3)),
        RecvState::Done { result: Ok(3) }
    ));
}

/// From its time limit on a receive does not block.
#[test]
fn a_receive_does_not_wait_beyond_its_time_limit() {
    for steps in 0..60 {
        let (_tx, _rx, mut channel) = channel::<u8>();
        let recv = channel.begin_recv(Some(5));
        for _ in 0..steps {
            if !channel.is_blocked(recv) {
                assert!(channel.step(recv, 4).is_none());
            }
        }
        let mut accesses = 0;
        let result = loop {
            if let Some(Outcome::Received(result)) = channel.step(recv, 5) {
                break result;
            }
            assert!(!channel.is_blocked(recv));
            accesses += 1;
            assert!(accesses < 60);
        };
        assert_eq!(result, Err(RecvTimeoutError::Timeout));
    }
}

/// Every message that a send put in is returned by one receive, while senders come and go.
#[test]
fn receives_return_what_sends_put_in() {
    for seed in 0..20 {
        let (tx, rx, mut channel) = channel::<u32>();
        let mut schedule = Schedule::new(seed);
        let mut left: Vec<usize> = Vec::new();
        let mut begun = 0;
        let mut accepted = 0;
        let mut returned: Vec<u32> = Vec::new();
        for _ in 0..3000 {
            if left.len() < 6 {
                match schedule.pick(6) {
                    0 | 1 => {
                        left.push(channel.begin_send(begun));
                        begun += 1;
                    }
                    2 => left.push(channel.begin_try_recv()),
                    3 => left.push(channel.begin_recv(Some(0))),
                    4 => {
                        tx.clone(&mut channel);
                    }
                    _ => {
                        if channel.sender_count() > 1 {
                            left.push(channel.begin_close());
                        }
                    }
                }
            }
            if left.is_empty() {
                continue;
            }
            let k = schedule.pick(left.len());
            match channel.step(left[k], 1) {
                Some(Outcome::Sent(result)) => {
                    result.unwrap();
                    accepted += 1;
                    left.remove(k);
                }
                Some(Outcome::Received(Ok(msg))) | Some(Outcome::Tried(Ok(msg))) => {
                    returned.push(msg);
                    left.remove(k);
                }
                Some(_) => {
                    left.remove(k);
                }
                None => {}
            }
        }
        for id in left {
            match run(&mut channel, id, 1) {
                Some(Outcome::Sent(result)) => {
                    result.unwrap();
                    accepted += 1;
                }
                Some(Outcome::Received(Ok(msg))) | Some(Outcome::Tried(Ok(msg))) => {
                    returned.push(msg);
                }
                Some(_) => {}
                None => panic!("nobody waits here"),
            }
        }
        returned.extend(rx.try_iter().collect(&mut channel));
        returned.sort_unstable();
        assert_eq!(accepted, begun);
        assert_eq!(returned, (0..begun).collect::<Vec<u32>>());
    }
}

/// A call waits until its time limit and no longer, and does not wait if it need not.
#[test]
fn a_call_waits_exactly_until_its_time_limit() {
    let (tx, rx, mut channel) = channel::<u8>();
    let mut clock = 20;
    assert_eq!(
        channel.recv(&mut clock, Some(27)),
        Err(RecvTimeoutError::Timeout)
    );
    assert_eq!(clock, 27);
    // The time limit has passed already.
    assert_eq!(
        channel.recv(&mut clock, Some(5)),
        Err(RecvTimeoutError::Timeout)
    );
    assert_eq!(clock, 27);
    assert_eq!(
        rx.recv_timeout(&mut channel, &mut clock, 0),
        Err(RecvTimeoutError::Timeout)
    );
    assert_eq!(clock, 27);
    tx.send(&mut channel, 1).unwrap();
    assert_eq!(rx.recv_timeout(&mut channel, &mut clock, 9), Ok(1));
    assert_eq!(clock, 27);
    tx.close(&mut channel);
    assert_eq!(
        channel.recv(&mut clock, Some(99)),
        Err(RecvTimeoutError::Disconnected)
    );
    assert_eq!(clock, 27);
}

/// A receive that starts at some time may block for as long as its time limit says.
#[test]
fn a_time_limit_counts_from_the_start() {
    let (_tx, _rx, mut channel) = channel::<u8>();
    let recv = channel.begin_recv_timeout(40, 2);
    assert!(run(&mut channel, recv, 41).is_none());
    assert!(channel.is_blocked(recv));
    // It wakes too early and blocks again.
    assert!(channel.step(recv, 41).is_none());
    assert!(run(&mut channel, recv, 41).is_none());
    assert!(channel.step(recv, 42).is_none());
    match run(&mut channel, recv, 42) {
        Some(Outcome::Received(result)) => assert_eq!(result, Err(RecvTimeoutError::Timeout)),
        _ => panic!("the time limit is reached"),
    }
}
