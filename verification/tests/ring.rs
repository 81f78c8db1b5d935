use veloce::ring::{RingBuffer, Storable, capacity_is_valid};
use veloce::slot::Slot;

/// Test read and write in the buffer
#[test]
fn ring_test_rw() {
    const N: usize = 2;
    let cells: Vec<Option<i32>> = vec![None; N];
    let mut ring = RingBuffer::from_cells(cells);
    let seq = 0;
    let i = ring.index(seq);
    let val = 28392;
    ring.write_at(i, val);
    let out = ring.read_at(i);
    assert_eq!(out, val);
}

/// Verify that masking by one less than a power-of-two capacity computes
/// the modulo of the given sequence number, and that the ring's index
/// mapping agrees with it
#[test]
fn ring_test_modulo() {
    const N: usize = 2;
    let mask = N - 1;
    let i = 3;
    assert_eq!(i & mask, i % N);
    let i = 4;
    assert_eq!(i & mask, i % N);

    const N_F: usize = 5;
    let mask_f = N_F - 1;
    let i = 3;
    assert_ne!(i & mask_f, i % N_F);
    let i = 6;
    assert_ne!(i & mask_f, i % N_F);
}

/// Verify the ring's index mapping against plain modulo
#[test]
fn slot_test_modulo() {
    const N: usize = 2;
    let cells: Vec<Slot<()>> = (0..N).map(Slot::new).collect();
    let ring = RingBuffer::from_cells(cells);
    let i = 3;
    assert_eq!(ring.index(i), i % N);
    let i = 4;
    assert_eq!(ring.index(i), i % N);
}

/// Test read and write through a stamped slot in the buffer
#[test]
fn slot_test_rw() {
    const N: usize = 2;
    let cells: Vec<Slot<i32>> = (0..N).map(Slot::new).collect();
    let mut ring = RingBuffer::from_cells(cells);
    let seq = 0;
    let i = ring.index(seq);
    let val = 28392;
    ring.cell_mut(i).put(val);
    let out = ring.cell_mut(i).take();
    assert_eq!(out, val);
}

/// Test initial stamp values
#[test]
fn test_initial_stamps() {
    const N: usize = 4;
    let cells: Vec<Slot<i32>> = (0..N).map(Slot::new).collect();
    let ring = RingBuffer::from_cells(cells);
    for i in 0..N {
        assert_eq!(ring.cell(i).load_stamp(), i);
    }
}

/// Test stamp update protocol
#[test]
fn test_stamp_protocol() {
    const N: usize = 4;
    let cells: Vec<Slot<i32>> = (0..N).map(Slot::new).collect();
    let mut ring = RingBuffer::from_cells(cells);

    // Simulate sender writing to slot 0 at tail=0
    assert_eq!(ring.cell(0).load_stamp(), 0); // Initial: index
    ring.cell_mut(0).put(42);
    ring.cell_mut(0).store_stamp(1); // After write: tail + 1

    // Simulate receiver reading from slot 0 at head=0
    assert_eq!(ring.cell(0).load_stamp(), 1); // Should see "data ready"
    let val = ring.cell_mut(0).take();
    assert_eq!(val, 42);
    ring.cell_mut(0).store_stamp(N); // After read: head + N (ready for next lap)

    // Simulate sender writing again at tail=N (wrap around)
    assert_eq!(ring.cell(0).load_stamp(), N); // Should see "ready for write"
}

/// The storage-cell discipline: a write fills an empty cell, a read moves
/// the value out and leaves it empty
#[test]
fn test_storable_cell() {
    let mut cell: Option<String> = None;
    cell.write(String::from("hello"));
    let out = cell.read();
    assert_eq!(out, "hello");
    assert!(cell.is_none());
    cell.write(String::from("again"));
    cell.drop_in_place();
    assert!(cell.is_none());
}

/// Only positive powers of two are valid ring capacities
#[test]
fn test_capacity_validity() {
    assert!(capacity_is_valid(1));
    assert!(capacity_is_valid(2));
    assert!(capacity_is_valid(4));
    assert!(capacity_is_valid(1024));
    assert!(!capacity_is_valid(0));
    assert!(!capacity_is_valid(3));
    assert!(!capacity_is_valid(6));
    assert!(!capacity_is_valid(12));
    assert!(!capacity_is_valid(usize::MAX));
}
