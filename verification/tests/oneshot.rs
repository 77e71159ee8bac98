use lockout::error::{RecvError, RecvTimeoutError, SendError, TryRecvError};
use lockout::oneshot::channel;
use lockout::oneshot_channel::{Channel, Received, Sent};
use lockout::oneshot_protocol::{
    has, has_any, CloseState, RecvState, SendState, EMPTY, RECEIVED, RECEIVER_CLOSED,
    SENDER_CLOSED, SENT, WAITING,
};
use std::sync::atomic::{AtomicUsize, Ordering};
use std::sync::Arc;

struct Counted(Arc<AtomicUsize>);

impl Drop for Counted {
    fn drop(&mut self) {
        self.0.fetch_add(1, Ordering::Relaxed);
    }
}

/// Runs both sides to their end; `order` says whose turn it is, bit by bit.
fn run<T>(channel: &mut Channel<T>, order: u64, now: u64) -> (Sent<T>, Received<T>) {
    let mut sent = None;
    let mut received = None;
    let mut turn: u32 = 0;
    while sent.is_none() || received.is_none() {
        let sends = order.rotate_right(turn) & 1 == 1;
        turn += 1;
        if (sends || received.is_some()) && sent.is_none() {
            sent = channel.step_sender();
        } else if received.is_none() && !channel.is_blocked() {
            received = channel.step_receiver(now);
        }
    }
    match (sent, received) {
        (Some(sent), Some(received)) => (sent, received),
        _ => unreachable!(),
    }
}

#[test]
fn oneshot_send_recv_single() {
    let (tx, rx, mut channel) = channel();
    tx.send(&mut channel, 42).unwrap();
    assert_eq!(rx.recv(&mut channel).unwrap(), 42);
}

#[test]
fn send_recv_across_threads() {
    for order in 1..4096u64 {
        let (_tx, _rx, mut channel) = channel();
        channel.begin_send(7);
        channel.begin_recv(None);
        let (sent, received) = run(&mut channel, order, 0);
        assert!(matches!(sent, Sent::Sent(Ok(()))));
        assert!(matches!(received, Received::Waited(Ok(7))));
    }
}

#[test]
fn try_recv_empty() {
    let (_tx, rx, mut channel) = channel::<i32>();
    assert!(matches!(rx.try_recv(&mut channel), Err(TryRecvError::Empty)));
}

#[test]
fn try_recv_ready() {
    let (tx, rx, mut channel) = channel();
    tx.send(&mut channel, 99).unwrap();
    assert_eq!(rx.try_recv(&mut channel).unwrap(), 99);
}

#[test]
fn try_recv_disconnected() {
    let (tx, rx, mut channel) = channel::<i32>();
    tx.close(&mut channel);
    assert!(matches!(rx.try_recv(&mut channel), Err(TryRecvError::Disconnected)));
}

#[test]
fn recv_timeout_success() {
    for order in 1..4096u64 {
        let (_tx, _rx, mut channel) = channel();
        channel.begin_send(5);
        channel.begin_recv_timeout(0, 1000);
        let (_, received) = run(&mut channel, order, 0);
        assert!(matches!(received, Received::Waited(Ok(5))));
    }
}

#[test]
fn recv_timeout_expires() {
    let (_tx, rx, mut channel) = channel::<i32>();
    let mut clock = 0;
    assert!(matches!(
        rx.recv_timeout(&mut channel, &mut clock, 10),
        Err(RecvTimeoutError::Timeout),
    ));
    assert_eq!(clock, 10);
}

#[test]
fn recv_timeout_disconnected() {
    let (tx, rx, mut channel) = channel::<i32>();
    tx.close(&mut channel);
    let mut clock = 0;
    assert!(matches!(
        rx.recv_timeout(&mut channel, &mut clock, 1000),
        Err(RecvTimeoutError::Disconnected),
    ));
    assert_eq!(clock, 0);
}

#[test]
fn recv_deadline_success() {
    for order in 1..4096u64 {
        let (_tx, _rx, mut channel) = channel();
        channel.begin_send(3);
        channel.begin_recv(Some(1000));
        let (sent, received) = run(&mut channel, order, 0);
        assert!(matches!(sent, Sent::Sent(Ok(()))));
        assert!(matches!(received, Received::Waited(Ok(3))));
    }
    let (tx, rx, mut channel) = channel();
    tx.send(&mut channel, 3).unwrap();
    let mut clock = 0;
    assert_eq!(rx.recv_deadline(&mut channel, &mut clock, 1000).unwrap(), 3);
    assert_eq!(clock, 0);
}

#[test]
fn recv_deadline_expires() {
    let (_tx, rx, mut channel) = channel::<i32>();
    let mut clock = 0;
    assert!(matches!(
        rx.recv_deadline(&mut channel, &mut clock, 10),
        Err(RecvTimeoutError::Timeout),
    ));
    assert_eq!(clock, 10);
}

#[test]
fn recv_sender_dropped() {
    for order in 1..4096u64 {
        let (_tx, _rx, mut channel) = channel::<i32>();
        channel.begin_close_sender();
        channel.begin_recv(None);
        let (sent, received) = run(&mut channel, order, 0);
        assert!(matches!(sent, Sent::Closed));
        assert!(matches!(
            received,
            Received::Waited(Err(RecvTimeoutError::Disconnected))
        ));
    }
    let (tx, rx, mut channel) = channel::<i32>();
    tx.close(&mut channel);
    assert!(matches!(rx.recv(&mut channel), Err(RecvError)));
}

#[test]
fn send_receiver_dropped() {
    let (tx, rx, mut channel) = channel();
    rx.close(&mut channel);
    assert!(tx.send(&mut channel, 1).is_err());
}

#[test]
fn a_refused_value_is_handed_back() {
    let (tx, rx, mut channel) = channel();
    rx.close(&mut channel);
    assert!(matches!(tx.send(&mut channel, 17), Err(SendError(17))));
}

#[test]
fn drop_with_unsent_value() {
    let drop_count = Arc::new(AtomicUsize::new(0));

    let (tx, rx, mut channel) = channel();
    assert!(tx.send(&mut channel, Counted(drop_count.clone())).is_ok());
    rx.close(&mut channel);

    assert_eq!(drop_count.load(Ordering::Relaxed), 1);
}

#[test]
fn drop_no_leak_on_send_failure() {
    let drop_count = Arc::new(AtomicUsize::new(0));

    let (tx, rx, mut channel) = channel();
    rx.close(&mut channel);
    let _ = tx.send(&mut channel, Counted(drop_count.clone()));

    assert_eq!(drop_count.load(Ordering::Relaxed), 1);
}

/// Whatever the order, the value is received, handed back or dropped, and only once.
#[test]
fn every_value_ends_once() {
    for order in 1..1024u64 {
        let drop_count = Arc::new(AtomicUsize::new(0));
        let (_tx, _rx, mut channel) = channel();
        channel.begin_send(Counted(drop_count.clone()));
        channel.begin_close_receiver();
        let (sent, received) = run(&mut channel, order, 0);
        assert!(matches!(received, Received::Nothing));
        let refused = matches!(sent, Sent::Sent(Err(_)));
        assert_eq!(drop_count.load(Ordering::Relaxed), if refused { 0 } else { 1 });
        drop(sent);
        assert_eq!(drop_count.load(Ordering::Relaxed), 1);
        drop(channel);
        assert_eq!(drop_count.load(Ordering::Relaxed), 1);
    }
}

/// A value sent while a receive tries once is received, dropped with the receiver, or handed
/// back.
#[test]
fn try_recv_races_with_send() {
    for order in 1..1024u64 {
        let drop_count = Arc::new(AtomicUsize::new(0));
        let (_tx, _rx, mut channel) = channel();
        channel.begin_send(Counted(drop_count.clone()));
        channel.begin_try_recv();
        let (sent, received) = run(&mut channel, order, 0);
        let got = matches!(received, Received::Tried(Ok(_)));
        let refused = matches!(sent, Sent::Sent(Err(_)));
        assert!(!(got && refused));
        assert_eq!(
            drop_count.load(Ordering::Relaxed),
            if got || refused { 0 } else { 1 }
        );
    }
}

#[test]
fn a_send_after_the_time_was_up_hands_the_value_back() {
    let (tx, rx, mut channel) = channel();
    let mut clock = 3;
    assert!(rx.recv_timeout(&mut channel, &mut clock, 4).is_err());
    assert_eq!(clock, 7);
    assert!(matches!(tx.send(&mut channel, 8), Err(SendError(8))));
}

#[test]
fn a_blocked_receiver_is_woken() {
    let (tx, _rx, mut channel) = channel();
    channel.begin_recv(None);
    while !channel.is_blocked() {
        assert!(channel.step_receiver(0).is_none());
    }
    tx.send(&mut channel, 6).unwrap();
    assert!(!channel.is_blocked());
    let got = loop {
        if let Some(received) = channel.step_receiver(0) {
            break received;
        }
    };
    assert!(matches!(got, Received::Waited(Ok(6))));
}

#[test]
fn flags_are_tested_all_or_any() {
    assert!(has(SENT | WAITING, SENT));
    assert!(!has(SENT, SENT | WAITING));
    assert!(has_any(SENT, SENT | WAITING));
    assert!(!has_any(RECEIVED, SENT | WAITING));
    assert!(has(EMPTY, EMPTY));
    assert!(!has_any(EMPTY, SENT | SENDER_CLOSED | RECEIVER_CLOSED));
}

#[test]
fn each_side_decides_by_the_flags_before() {
    assert!(matches!(
        SendState::<u8>::published(RECEIVER_CLOSED | WAITING),
        SendState::TakeBack
    ));
    assert!(matches!(SendState::<u8>::published(WAITING), SendState::Unpark));
    assert!(matches!(
        SendState::<u8>::published(EMPTY),
        SendState::LetGo { result: Ok(()) }
    ));
    assert_eq!(CloseState::sender_published(WAITING), CloseState::Unpark);
    assert_eq!(
        CloseState::sender_published(RECEIVER_CLOSED | WAITING),
        CloseState::LetGo
    );
    assert_eq!(
        CloseState::receiver_published(SENT | SENDER_CLOSED),
        CloseState::DropValue
    );
    assert_eq!(
        CloseState::receiver_published(SENT | SENDER_CLOSED | RECEIVED),
        CloseState::LetGo
    );
    assert!(matches!(
        RecvState::<u8>::inspected(SENT | SENDER_CLOSED, false),
        RecvState::MarkReceived
    ));
    assert!(matches!(RecvState::<u8>::inspected(EMPTY, false), RecvState::Park));
    assert!(matches!(RecvState::<u8>::inspected(EMPTY, true), RecvState::Clock));
    assert!(matches!(
        RecvState::<u8>::inspected(SENDER_CLOSED, true),
        RecvState::Done { result: Err(RecvTimeoutError::Disconnected) }
    ));
}

/// A receive ends within a few steps once the sender is closed, and blocks no more from its time
/// limit on.
#[test]
fn a_receive_ends_after_the_close_and_at_its_time_limit() {
    for steps in 0..12 {
        for sends in [false, true] {
            let (_tx, _rx, mut channel) = channel::<i32>();
            channel.begin_recv(Some(100));
            for _ in 0..steps {
                if !channel.is_blocked() {
                    assert!(channel.step_receiver(0).is_none());
                }
            }
            if sends {
                channel.begin_send(4);
            } else {
                channel.begin_close_sender();
            }
            while channel.step_sender().is_none() {}
            let mut left = 11;
            let received = loop {
                if let Some(received) = channel.step_receiver(0) {
                    break received;
                }
                assert!(left > 0);
                left -= 1;
            };
            if sends {
                assert!(matches!(received, Received::Waited(Ok(4))));
            } else {
                assert!(matches!(
                    received,
                    Received::Waited(Err(RecvTimeoutError::Disconnected))
                ));
            }
        }
        let (_tx, _rx, mut channel) = channel::<i32>();
        channel.begin_recv(Some(100));
        for _ in 0..steps {
            if !channel.is_blocked() {
                assert!(channel.step_receiver(99).is_none());
            }
        }
        let received = loop {
            if let Some(received) = channel.step_receiver(100) {
                break received;
            }
            assert!(!channel.is_blocked());
        };
        assert!(matches!(
            received,
            Received::Waited(Err(RecvTimeoutError::Timeout))
        ));
    }
}

#[test]
fn a_deadline_that_has_passed_is_not_waited_for() {
    let (_tx, rx, mut channel) = channel::<i32>();
    let mut clock = 30;
    assert!(matches!(
        rx.recv_deadline(&mut channel, &mut clock, 10),
        Err(RecvTimeoutError::Timeout),
    ));
    assert_eq!(clock, 30);
}

#[test]
fn a_time_limit_counts_from_the_start_of_the_receive() {
    let (_tx, _rx, mut channel) = channel::<i32>();
    channel.begin_recv_timeout(40, 2);
    while !channel.is_blocked() {
        assert!(channel.step_receiver(41).is_none());
    }
    let received = loop {
        if let Some(received) = channel.step_receiver(42) {
            break received;
        }
    };
    assert!(matches!(
        received,
        Received::Waited(Err(RecvTimeoutError::Timeout))
    ));
}
