use wovenhat::heap::{align_up, init, stats, HeapState, InitError, SIZE, START};

#[test]
fn align_up_rounds_to_powers_of_two() {
    assert_eq!(align_up(0, 8), Some(0));
    assert_eq!(align_up(9, 8), Some(16));
    assert_eq!(align_up(16, 16), Some(16));
    assert_eq!(align_up(5, 3), None);
    assert_eq!(align_up(5, 0), None);
    assert_eq!(align_up(usize::MAX, 2), None);
}

#[test]
fn uninitialized_heap_hands_out_nothing() {
    let mut heap = HeapState::empty();
    assert_eq!(heap.allocate(16, 8), 0);
    assert_eq!(init(&mut heap, || false), Err(InitError::Paging));
    assert_eq!(heap.allocate(16, 8), 0);
}

#[test]
fn bump_then_best_fit_reuse() {
    let start = START as usize;
    let mut heap = HeapState::empty();
    assert_eq!(init(&mut heap, || true), Ok(()));
    assert_eq!(init(&mut heap, || true), Err(InitError::AlreadyInitialized));
    let a = heap.allocate(24, 8);
    assert_eq!(a, start);
    let b = heap.allocate(8, 16);
    assert_eq!(b, start + 32);
    let c = heap.allocate(100, 8);
    assert_eq!(c, start + 40);
    heap.deallocate(a);
    heap.deallocate(c);
    let s = stats(&heap);
    assert_eq!(s.allocations, 1);
    assert_eq!(s.allocated_bytes, 8);
    assert_eq!(s.free_bytes, 124);
    // The smallest block that fits is reused and its tail kept.
    let d = heap.allocate(16, 8);
    assert_eq!(d, start);
    let s = stats(&heap);
    assert_eq!(s.free_bytes, 108);
    assert_eq!(s.allocations, 2);
    // Unknown addresses are ignored.
    heap.deallocate(start + 1);
    assert_eq!(stats(&heap).allocations, 2);
    // A request larger than the region fails.
    assert_eq!(heap.allocate(SIZE, 8), 0);
}
