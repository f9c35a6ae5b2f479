use keru_text::offset_allocator_heap::{OffsetHeap, CHUNK_SIZE};

#[test]
fn allocations_fill_a_chunk_in_order() {
    let mut heap: OffsetHeap<u32> = OffsetHeap::new();
    let a = heap.allocate(3).unwrap();
    let b = heap.allocate(5).unwrap();
    assert_eq!((a.chunk_index, a.size), (0, 3));
    assert_eq!((b.chunk_index, b.size), (0, 5));
    assert_eq!(a.vec_index(CHUNK_SIZE), 0);
    // The second allocation starts after the first one: its offset is read
    // from the allocator, not made up.
    assert_eq!(b.vec_index(CHUNK_SIZE), 3);
    assert_eq!(heap.as_slice().len(), CHUNK_SIZE as usize);
}

#[test]
fn too_large_a_request_is_refused() {
    let mut heap: OffsetHeap<u32> = OffsetHeap::new();
    assert!(heap.allocate(CHUNK_SIZE + 1).is_none());
    assert_eq!(heap.as_slice().len(), 0);
    let whole = heap.allocate(CHUNK_SIZE).unwrap();
    assert_eq!(whole.vec_index(CHUNK_SIZE), 0);
}

#[test]
fn a_full_chunk_makes_a_new_one() {
    let mut heap: OffsetHeap<u32> = OffsetHeap::new();
    let a = heap.allocate(CHUNK_SIZE).unwrap();
    let b = heap.allocate(10).unwrap();
    assert_eq!(a.chunk_index, 0);
    assert_eq!(b.chunk_index, 1);
    assert_eq!(b.vec_index(CHUNK_SIZE), CHUNK_SIZE as usize);
    assert_eq!(heap.as_slice().len(), 2 * CHUNK_SIZE as usize);
}

#[test]
fn freed_space_is_reused() {
    let mut heap: OffsetHeap<u32> = OffsetHeap::new();
    let a = heap.allocate(CHUNK_SIZE).unwrap();
    heap.free(a);
    let b = heap.allocate(100).unwrap();
    assert_eq!(b.chunk_index, 0);
    assert_eq!(b.vec_index(CHUNK_SIZE), 0);
    assert_eq!(heap.as_slice().len(), CHUNK_SIZE as usize);
}

#[test]
fn regions_are_written_where_the_handle_says() {
    let mut heap: OffsetHeap<u32> = OffsetHeap::new();
    let a = heap.allocate(2).unwrap();
    let b = heap.allocate(3).unwrap();
    heap.get_mut(a).copy_from_slice(&[1, 2]);
    heap.get_mut(b).copy_from_slice(&[3, 4, 5]);
    assert_eq!(heap._get(a), &[1, 2]);
    assert_eq!(heap._get(b), &[3, 4, 5]);
    assert_eq!(&heap.as_slice()[..6], &[1, 2, 3, 4, 5, 0]);
    heap._as_slice_mut()[5] = 9;
    assert_eq!(heap.as_slice()[5], 9);
}

#[test]
fn zero_sized_allocation_is_allowed() {
    let mut heap: OffsetHeap<u8> = OffsetHeap::new();
    let a = heap.allocate(0).unwrap();
    assert_eq!(a.size, 0);
    assert_eq!(heap._get(a).len(), 0);
}

#[test]
fn new_chunk_is_filled_with_default_values() {
    let mut heap: OffsetHeap<u32> = OffsetHeap::new();
    let a = heap.allocate(4).unwrap();
    heap.get_mut(a).copy_from_slice(&[1, 2, 3, 4]);
    heap.allocate(CHUNK_SIZE).unwrap();
    let all = heap.as_slice();
    assert_eq!(&all[..4], &[1, 2, 3, 4]);
    assert!(all[CHUNK_SIZE as usize..].iter().all(|x| *x == 0));
}

#[test]
fn an_emptied_heap_reuses_chunk_zero_from_its_start() {
    let mut heap: OffsetHeap<u32> = OffsetHeap::new();
    let a = heap.allocate(700).unwrap();
    let b = heap.allocate(CHUNK_SIZE).unwrap();
    let c = heap.allocate(5).unwrap();
    assert_eq!((a.chunk_index, b.chunk_index, c.chunk_index), (0, 1, 0));
    heap.free(c);
    heap.free(a);
    heap.free(b);
    let d = heap.allocate(CHUNK_SIZE).unwrap();
    assert_eq!(d.chunk_index, 0);
    assert_eq!(d.vec_index(CHUNK_SIZE), 0);
    assert_eq!(heap.as_slice().len(), 2 * CHUNK_SIZE as usize);
}

#[test]
fn a_stale_handle_still_reads_its_old_region() {
    let mut heap: OffsetHeap<u32> = OffsetHeap::new();
    let a = heap.allocate(3).unwrap();
    heap.get_mut(a).copy_from_slice(&[7, 8, 9]);
    heap.free(a);
    // The handle is no longer live, but its region lies inside the heap.
    assert_eq!(heap._get(a), &[7, 8, 9]);
    heap.get_mut(a)[1] = 80;
    assert_eq!(&heap.as_slice()[..3], &[7, 80, 9]);
}

#[test]
fn the_length_follows_the_last_chunk_handed_out() {
    let mut heap: OffsetHeap<u8> = OffsetHeap::new();
    let mut last = 0;
    for round in 0..5u32 {
        let h = heap.allocate(CHUNK_SIZE - round).unwrap();
        assert!(h.chunk_index >= last);
        last = h.chunk_index;
        assert_eq!(heap.as_slice().len(), CHUNK_SIZE as usize * (last as usize + 1));
        heap.free(h);
        assert_eq!(heap.as_slice().len(), CHUNK_SIZE as usize * (last as usize + 1));
    }
    // Each freed chunk is empty again, so every round used chunk 0.
    assert_eq!(last, 0);
    let x = heap.allocate(CHUNK_SIZE).unwrap();
    let y = heap.allocate(1).unwrap();
    assert_eq!((x.chunk_index, y.chunk_index), (0, 1));
    assert_eq!(heap.as_slice().len(), 2 * CHUNK_SIZE as usize);
}
