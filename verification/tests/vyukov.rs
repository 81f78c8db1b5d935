use std::sync::Arc;
use std::sync::atomic::{AtomicUsize, Ordering};

use veloce::error::{TryRecvError, TrySendErr};
use veloce::vyukov::{Channel, slot_has_data};

/// Verify the stamp % N == (index + 1) % N formula for detecting "has data"
#[test]
fn test_stamp_has_data_formula() {
    const N: usize = 4;

    // For each slot index, verify the formula across multiple laps
    for index in 0..N {
        // Stamps that indicate EMPTY (ready for write)
        // Pattern: index, index+N, index+2N, ...
        for lap in 0..10 {
            let empty_stamp = index + lap * N;
            assert!(
                !slot_has_data(empty_stamp, index, N),
                "slot {} with stamp {} should be EMPTY",
                index,
                empty_stamp
            );
        }

        // Stamps that indicate HAS DATA (ready for read)
        // Pattern: index+1, index+1+N, index+1+2N, ...
        for lap in 0..10 {
            let data_stamp = index + 1 + lap * N;
            assert!(
                slot_has_data(data_stamp, index, N),
                "slot {} with stamp {} should HAVE DATA",
                index,
                data_stamp
            );
        }
    }
}

/// Edge case: slot at index N-1 (last slot)
/// After write: stamp = N, which % N = 0 = (N-1+1) % N
#[test]
fn test_stamp_last_slot_edge_case() {
    const N: usize = 4;
    let index = N - 1; // index = 3

    // Initial: stamp = 3 (empty)
    assert!(!slot_has_data(3, index, N));

    // After write at tail=3: stamp = 4
    // Check: 4 % 4 = 0, (3+1) % 4 = 0: has data
    assert!(slot_has_data(4, index, N));

    // After read at head=3: stamp = 7
    // Check: 7 % 4 = 3, (3+1) % 4 = 0: correctly detected as empty
    assert!(!slot_has_data(7, index, N));

    // After write at tail=7: stamp = 8
    // Check: 8 % 4 = 0, (3+1) % 4 = 0: has data
    assert!(slot_has_data(8, index, N));
}

/// The specific case where slot 0 and slot 1 both have the same stamp value
/// but only slot 0 has data. This happens after:
/// 1. First lap: write all N, read all N
/// 2. Second lap: write to slot 0 only
///
/// At this point:
/// - Slot 0: stamp = N+1 (has data from second write)
/// - Slot 1: stamp = N+1 (from first lap read: 1 + N = N+1)
///
/// The formula must correctly identify only slot 0 as having data.
#[test]
fn test_same_stamp_different_slots() {
    const N: usize = 4;

    // After first lap read, slot 1 has stamp = 1 + N = 5
    // After second lap write to slot 0, slot 0 has stamp = N + 1 = 5
    // Both have stamp = 5, but only slot 0 has data!

    let slot0_stamp = N + 1; // 5 - after second write
    let slot1_stamp = 1 + N; // 5 - after first read

    assert_eq!(slot0_stamp, slot1_stamp); // Both are 5!

    // But the formula correctly distinguishes them:
    // Slot 0: (5 % 4) = 1, ((0+1) % 4) = 1: has data
    assert!(slot_has_data(slot0_stamp, 0, N), "slot 0 should have data");

    // Slot 1: (5 % 4) = 1, ((1+1) % 4) = 2: empty
    assert!(!slot_has_data(slot1_stamp, 1, N), "slot 1 should be empty");
}

#[derive(Clone, Debug)]
struct DropCounter(Arc<AtomicUsize>);
impl Drop for DropCounter {
    fn drop(&mut self) {
        self.0.fetch_add(1, Ordering::SeqCst);
    }
}

/// Channel teardown correctly drops unread items using stamp detection
#[test]
fn test_channel_drop_partial_consumption() {
    let drop_count = Arc::new(AtomicUsize::new(0));

    // Scenario: write 3 items, read 1, tear the channel down - the 2
    // remaining items must be dropped
    {
        let mut ch = Channel::<DropCounter>::new(4);

        ch.try_send(DropCounter(drop_count.clone())).unwrap();
        ch.try_send(DropCounter(drop_count.clone())).unwrap();
        ch.try_send(DropCounter(drop_count.clone())).unwrap();

        // Read 1 item (this drops it)
        let _ = ch.try_recv().unwrap();

        // Now drop_count should be 1 (from the read)
        assert_eq!(drop_count.load(Ordering::SeqCst), 1);

        // Drop both halves, then tear down
        ch.close_sender();
        ch.close_receiver();
        let unread = ch.into_unread();
        drop(unread);
    }

    // After teardown, 2 more items should be dropped (total: 3)
    assert_eq!(drop_count.load(Ordering::SeqCst), 3);
}

/// Wrap-around: write N items, read all, write more, read some, tear down
#[test]
fn test_channel_drop_after_wraparound() {
    let drop_count = Arc::new(AtomicUsize::new(0));

    {
        let mut ch = Channel::<DropCounter>::new(4);

        // First lap: write 4, read 4
        for _ in 0..4 {
            ch.try_send(DropCounter(drop_count.clone())).unwrap();
        }
        for _ in 0..4 {
            let _ = ch.try_recv().unwrap();
        }

        // At this point: 4 items dropped via read
        assert_eq!(drop_count.load(Ordering::SeqCst), 4);

        // Second lap: write 3, read 1
        for _ in 0..3 {
            ch.try_send(DropCounter(drop_count.clone())).unwrap();
        }
        let _ = ch.try_recv().unwrap(); // Read 1

        // 5 dropped so far (4 from first lap + 1 from second lap read)
        assert_eq!(drop_count.load(Ordering::SeqCst), 5);

        // Tear down: the 2 remaining from the second lap must be dropped
        ch.close_sender();
        ch.close_receiver();
        let unread = ch.into_unread();
        drop(unread);
    }

    // Total: 4 + 1 + 2 = 7
    assert_eq!(drop_count.load(Ordering::SeqCst), 7);
}

/// Empty channel teardown (no items to drop)
#[test]
fn test_channel_drop_empty() {
    let drop_count = Arc::new(AtomicUsize::new(0));

    {
        let mut ch = Channel::<DropCounter>::new(4);
        ch.close_sender();
        ch.close_receiver();
        let unread = ch.into_unread();
        drop(unread);
    }

    // No items were ever written, so nothing to drop
    assert_eq!(drop_count.load(Ordering::SeqCst), 0);
}

/// Integration test: same-stamp scenario with actual channel operations
#[test]
fn test_same_stamp_different_slots_integration() {
    let drop_count = Arc::new(AtomicUsize::new(0));

    {
        let mut ch = Channel::<DropCounter>::new(4);

        // First lap: write 4, read 4
        for _ in 0..4 {
            ch.try_send(DropCounter(drop_count.clone())).unwrap();
        }
        for _ in 0..4 {
            let _ = ch.try_recv().unwrap();
        }

        // 4 items dropped via read
        assert_eq!(drop_count.load(Ordering::SeqCst), 4);

        // Second lap: write only to slot 0
        ch.try_send(DropCounter(drop_count.clone())).unwrap();

        // Now slot 0 and slot 1 both carry stamp 5, but only slot 0 has
        // data; teardown must drop exactly slot 0's item
        ch.close_sender();
        ch.close_receiver();
        let unread = ch.into_unread();
        assert_eq!(unread.len(), 1);
        drop(unread);
    }

    // Total: 4 (first lap reads) + 1 (slot 0 at teardown) = 5
    assert_eq!(drop_count.load(Ordering::SeqCst), 5);
}

/// Full channel teardown (all slots have unread data)
#[test]
fn test_channel_drop_full() {
    let drop_count = Arc::new(AtomicUsize::new(0));

    {
        let mut ch = Channel::<DropCounter>::new(4);

        // Fill the buffer completely
        for _ in 0..4 {
            ch.try_send(DropCounter(drop_count.clone())).unwrap();
        }

        // No reads - all 4 must be dropped at teardown
        ch.close_sender();
        ch.close_receiver();
        let unread = ch.into_unread();
        drop(unread);
    }

    assert_eq!(drop_count.load(Ordering::SeqCst), 4);
}

/// The stamp protocol delivers values first-in-first-out, across laps
#[test]
fn test_vyukov_fifo_order() {
    let mut ch = Channel::<i32>::new(4);
    for round in 0..3 {
        for i in 0..4 {
            ch.try_send(round * 10 + i).unwrap();
        }
        for i in 0..4 {
            assert_eq!(ch.try_recv().unwrap(), Some(round * 10 + i));
        }
        assert_eq!(ch.try_recv().unwrap(), None);
    }
}

/// Fullness, disconnection and the error payloads on the stamp protocol
#[test]
fn test_vyukov_full_and_disconnect() {
    let mut ch = Channel::<u32>::new(2);
    ch.try_send(1).unwrap();
    ch.try_send(2).unwrap();
    match ch.try_send(3) {
        Err(TrySendErr::Full(v)) => assert_eq!(v, 3),
        _ => panic!("expected Full"),
    }
    assert_eq!(ch.len(), 2);
    assert!(!ch.is_empty());

    ch.close_receiver();
    match ch.try_send(4) {
        Err(TrySendErr::Disconnected(v)) => assert_eq!(v, 4),
        _ => panic!("expected Disconnected"),
    }
    // Buffered data is still delivered after the close...
    assert_eq!(ch.try_recv().unwrap(), Some(1));
    assert_eq!(ch.try_recv().unwrap(), Some(2));
    // ...and only then is disconnection reported.
    assert_eq!(ch.try_recv().unwrap_err(), TryRecvError::Disconnected);
}

/// Draining the stamp protocol republishes each slot immediately, so a
/// producer can refill mid-drain; the clamp still bounds one batch
#[test]
fn test_vyukov_drain() {
    let mut ch = Channel::<i32>::new(4);
    for i in 0..4 {
        ch.try_send(i).unwrap();
    }
    let mut drain = ch.drain(3);
    assert_eq!(drain.remaining(), 3);
    assert_eq!(drain.next(), Some(0));
    assert_eq!(drain.next(), Some(1));
    let mut ch = drain.finish();
    // The two consumed slots are already free again.
    assert_eq!(ch.len(), 2);
    ch.try_send(4).unwrap();
    ch.try_send(5).unwrap();
    let mut drain = ch.drain(usize::MAX);
    let mut items: Vec<i32> = Vec::new();
    while let Some(v) = drain.next() {
        items.push(v);
    }
    assert_eq!(items, vec![2, 3, 4, 5]);
    assert!(drain.finish().is_empty());
}
