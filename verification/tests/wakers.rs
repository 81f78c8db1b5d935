use veloce::lamport;
use veloce::vyukov;
use veloce::wakers::{RecvPoll, SendPoll, Wakers};

/// Each side holds at most one pending callback; a later registration
/// supersedes an earlier one, and waking clears it
#[test]
fn test_last_registration_wins() {
    let mut w = Wakers::new();
    assert_eq!(w.wake_sender(), None);
    assert_eq!(w.wake_receiver(), None);

    w.register_sender_waker(7);
    w.register_sender_waker(9);
    assert_eq!(w.wake_sender(), Some(9));
    assert_eq!(w.wake_sender(), None);

    w.register_receiver_waker(3);
    assert_eq!(w.wake_receiver(), Some(3));
    assert_eq!(w.wake_receiver(), None);
}

/// A poll on an empty channel registers the consumer's callback; the next
/// successful send hands exactly that callback back for invocation
#[test]
fn test_poll_recv_then_send_wakes() {
    let mut ch = lamport::Channel::<u32>::new(4);
    match ch.poll_recv(11) {
        RecvPoll::Pending { self_wake } => assert!(!self_wake),
        _ => panic!("expected Pending"),
    }
    match ch.poll_send(5, 22) {
        SendPoll::Sent { wake } => assert_eq!(wake, Some(11)),
        _ => panic!("expected Sent"),
    }
    match ch.poll_recv(11) {
        RecvPoll::Received { value, wake } => {
            assert_eq!(value, 5);
            assert_eq!(wake, None);
        }
        _ => panic!("expected Received"),
    }
}

/// A poll on a full channel hands the value back, registers the
/// producer's callback, and the next successful receive returns it
#[test]
fn test_poll_send_full_then_recv_wakes() {
    let mut ch = lamport::Channel::<u32>::new(2);
    assert!(matches!(ch.poll_send(1, 40), SendPoll::Sent { .. }));
    assert!(matches!(ch.poll_send(2, 40), SendPoll::Sent { .. }));
    match ch.poll_send(3, 40) {
        SendPoll::Pending { value, self_wake } => {
            assert_eq!(value, 3);
            assert!(!self_wake);
        }
        _ => panic!("expected Pending"),
    }
    match ch.poll_recv(50) {
        RecvPoll::Received { value, wake } => {
            assert_eq!(value, 1);
            assert_eq!(wake, Some(40));
        }
        _ => panic!("expected Received"),
    }
}

/// Closing a half hands back the peer's pending callback so it can observe
/// the disconnection
#[test]
fn test_close_wakes_peer() {
    let mut ch = lamport::Channel::<u32>::new(4);
    assert!(matches!(ch.poll_recv(77), RecvPoll::Pending { .. }));
    let wake = ch.close_sender();
    assert_eq!(wake, Some(77));
    assert!(matches!(ch.poll_recv(77), RecvPoll::Disconnected));
}

/// The same bridge drives the per-slot-stamp channel, whose re-check reads
/// the slot stamp rather than a shared cursor
#[test]
fn test_poll_vyukov() {
    let mut ch = vyukov::Channel::<u32>::new(2);
    match ch.poll_recv(1) {
        RecvPoll::Pending { self_wake } => assert!(!self_wake),
        _ => panic!("expected Pending"),
    }
    match ch.poll_send(8, 2) {
        SendPoll::Sent { wake } => assert_eq!(wake, Some(1)),
        _ => panic!("expected Sent"),
    }
    assert!(matches!(ch.poll_send(9, 2), SendPoll::Sent { .. }));
    match ch.poll_send(10, 2) {
        SendPoll::Pending { value, self_wake } => {
            assert_eq!(value, 10);
            assert!(!self_wake);
        }
        _ => panic!("expected Pending"),
    }
    match ch.poll_recv(3) {
        RecvPoll::Received { value, wake } => {
            assert_eq!(value, 8);
            assert_eq!(wake, Some(2));
        }
        _ => panic!("expected Received"),
    }
    ch.close_receiver();
    match ch.poll_send(11, 4) {
        SendPoll::Disconnected(v) => assert_eq!(v, 11),
        _ => panic!("expected Disconnected"),
    }
}

/// Snapshot cursors: `remaining` is the wrapping difference, including
/// across the top of the integer range
#[test]
fn test_cursors() {
    let c = veloce::cursors::Cursors { head: 3, tail: 8 };
    assert_eq!(c.remaining(), 5);
    assert!(!c.is_empty());
    let c = veloce::cursors::Cursors { head: 7, tail: 7 };
    assert_eq!(c.remaining(), 0);
    assert!(c.is_empty());
    let c = veloce::cursors::Cursors { head: usize::MAX, tail: 1 };
    assert_eq!(c.remaining(), 2);

    // Clamping bounds the count, also across the wraparound point.
    let c = c.clamp(1);
    assert_eq!(c.head, usize::MAX);
    assert_eq!(c.remaining(), 1);
    let c = veloce::cursors::Cursors { head: 3, tail: 8 }.clamp(100);
    assert_eq!(c.remaining(), 5);
}

/// Interleaved sends and receives across several wraparound laps keep
/// first-in-first-out order on both protocols
#[test]
fn test_interleaved_wraparound() {
    let mut a = lamport::Channel::<u32>::new(4);
    let mut b = vyukov::Channel::<u32>::new(4);
    let mut next_sent: u32 = 0;
    let mut next_expected: u32 = 0;
    // Repeatedly overfill and partially empty the ring so the cursors lap
    // it several times.
    for _ in 0..10 {
        while a.try_send(next_sent).is_ok() {
            assert!(b.try_send(next_sent).is_ok());
            next_sent += 1;
        }
        assert!(matches!(
            b.try_send(next_sent),
            Err(veloce::error::TrySendErr::Full(_))
        ));
        for _ in 0..3 {
            assert_eq!(a.try_recv().unwrap(), Some(next_expected));
            assert_eq!(b.try_recv().unwrap(), Some(next_expected));
            next_expected += 1;
        }
    }
    while let Some(v) = a.try_recv().unwrap() {
        assert_eq!(v, next_expected);
        assert_eq!(b.try_recv().unwrap(), Some(next_expected));
        next_expected += 1;
    }
    assert_eq!(next_expected, next_sent);
    assert_eq!(b.try_recv().unwrap(), None);
}

/// Sequential sends followed by sequential receives observe the sent
/// sequence exactly, on both protocols
#[test]
fn test_fifo_both_protocols() {
    let values = [3, 1, 4, 1, 5, 9, 2, 6];

    let mut a = lamport::Channel::<i32>::new(8);
    for v in values {
        a.try_send(v).unwrap();
    }
    for v in values {
        assert_eq!(a.try_recv().unwrap(), Some(v));
    }
    assert_eq!(a.try_recv().unwrap(), None);

    let mut b = vyukov::Channel::<i32>::new(8);
    for v in values {
        b.try_send(v).unwrap();
    }
    for v in values {
        assert_eq!(b.try_recv().unwrap(), Some(v));
    }
    assert_eq!(b.try_recv().unwrap(), None);
}
