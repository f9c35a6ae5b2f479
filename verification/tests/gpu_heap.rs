use keru_text::gpu_heap::{GpuHeap, Handle, HeapCommand, CHUNK_SIZE};

const CHUNK: usize = CHUNK_SIZE as usize;

#[test]
fn first_write_grows_the_buffer_and_writes() {
    let mut heap: GpuHeap<u32> = GpuHeap::with_usage(16);
    let mut handle: Option<Handle> = None;
    let cmds = heap.allocate_or_grow_and_write(&mut handle, &[1, 2, 3], 2);
    let h = handle.unwrap();
    assert_eq!((h.chunk_index, h.size), (0, 5));
    assert_eq!(
        cmds,
        vec![
            HeapCommand::Grow { old_capacity: 16, new_capacity: CHUNK },
            HeapCommand::Write { start: 0, len: 3 },
            HeapCommand::Zero { start: 3, len: 2 },
        ]
    );
    assert_eq!(heap.len(), CHUNK);
    assert!(heap.take_reallocated());
    assert!(!heap.take_reallocated());
}

#[test]
fn a_large_enough_buffer_does_not_grow() {
    let mut heap: GpuHeap<u32> = GpuHeap::with_usage(2 * CHUNK);
    let mut handle = None;
    let cmds = heap.allocate_or_grow_and_write(&mut handle, &[7; 4], 0);
    assert_eq!(cmds, vec![HeapCommand::Write { start: 0, len: 4 }]);
    assert!(!heap.take_reallocated());
}

#[test]
fn data_that_fits_is_written_in_place() {
    let mut heap: GpuHeap<u32> = GpuHeap::with_usage(0);
    let mut handle = None;
    heap.allocate_or_grow_and_write(&mut handle, &[1, 2, 3, 4], 0);
    let mut second = None;
    heap.allocate_or_grow_and_write(&mut second, &[9; 6], 0);
    let s = second.unwrap();
    assert_eq!(s.vec_index(CHUNK_SIZE), 4);
    // Shorter data: the rest of the region is cleared; spare capacity is ignored.
    let cmds = heap.allocate_or_grow_and_write(&mut second, &[5, 5], 10);
    assert_eq!(
        cmds,
        vec![HeapCommand::Write { start: 4, len: 2 }, HeapCommand::Zero { start: 6, len: 4 }]
    );
    assert_eq!(second.unwrap().size, 6);
}

#[test]
fn too_small_a_region_is_cleared_freed_and_replaced() {
    let mut heap: GpuHeap<u32> = GpuHeap::with_usage(0);
    let mut first = None;
    heap.allocate_or_grow_and_write(&mut first, &[1, 2], 0);
    let mut blocker = None;
    heap.allocate_or_grow_and_write(&mut blocker, &[3], 0);
    let cmds = heap.allocate_or_grow_and_write(&mut first, &[4, 5, 6], 0);
    let f = first.unwrap();
    assert_eq!(f.size, 3);
    assert_eq!(
        cmds,
        vec![
            HeapCommand::Zero { start: 0, len: 2 },
            HeapCommand::Write { start: f.vec_index(CHUNK_SIZE), len: 3 },
        ]
    );
    assert_ne!(f.vec_index(CHUNK_SIZE), 2);
}

#[test]
fn empty_data_clears_the_region() {
    let mut heap: GpuHeap<u32> = GpuHeap::with_usage(0);
    let mut handle = None;
    heap.allocate_or_grow_and_write(&mut handle, &[1, 2], 1);
    heap.finish_belt();
    let cmds = heap.allocate_or_grow_and_write(&mut handle, &[], 0);
    assert_eq!(cmds, vec![HeapCommand::Zero { start: 0, len: 3 }]);
    assert_eq!(handle.unwrap().size, 3);
    let mut none = None;
    assert_eq!(heap.allocate_or_grow_and_write(&mut none, &[], 0), vec![]);
    assert!(none.is_none());
}

#[test]
fn a_request_larger_than_a_chunk_gets_a_run_of_its_own() {
    let mut heap: GpuHeap<u32> = GpuHeap::with_usage(0);
    let mut handle = None;
    let data = vec![1u32; CHUNK + 1];
    let cmds = heap.allocate_or_grow_and_write(&mut handle, &data, 0);
    let h = handle.unwrap();
    assert_eq!((h.chunk_index, h.size), (0, CHUNK_SIZE + 1));
    assert_eq!(h.vec_index(CHUNK_SIZE), 0);
    // Two chunks are needed: the run takes two.
    assert_eq!(heap.len(), 2 * CHUNK);
    assert_eq!(
        cmds,
        vec![
            HeapCommand::Grow { old_capacity: 0, new_capacity: 2 * CHUNK },
            HeapCommand::Write { start: 0, len: CHUNK + 1 },
        ]
    );
    // The rest of the run takes small requests.
    let mut small = None;
    let cmds = heap.allocate_or_grow_and_write(&mut small, &[5, 6], 0);
    let s = small.unwrap();
    assert_eq!(s.chunk_index, 0);
    assert_eq!(s.vec_index(CHUNK_SIZE), CHUNK + 1);
    assert_eq!(cmds, vec![HeapCommand::Write { start: CHUNK + 1, len: 2 }]);
    assert_eq!(heap.len(), 2 * CHUNK);
}

#[test]
fn a_run_is_rounded_up_to_a_power_of_two_of_chunks() {
    let mut heap: GpuHeap<u32> = GpuHeap::with_usage(0);
    let mut first = None;
    heap.allocate_or_grow_and_write(&mut first, &[1], 0);
    let mut big = None;
    let data = vec![2u32; 2 * CHUNK + 1];
    let cmds = heap.allocate_or_grow_and_write(&mut big, &data, 0);
    let b = big.unwrap();
    // Three chunks needed, four taken, after the first chunk.
    assert_eq!(b.chunk_index, 1);
    assert_eq!(b.vec_index(CHUNK_SIZE), CHUNK);
    assert_eq!(heap.len(), 5 * CHUNK);
    assert_eq!(
        cmds,
        vec![
            HeapCommand::Grow { old_capacity: CHUNK, new_capacity: 8 * CHUNK },
            HeapCommand::Write { start: CHUNK, len: 2 * CHUNK + 1 },
        ]
    );
    // The rest of the run takes what the first chunk cannot hold.
    let mut next = None;
    heap.allocate_or_grow_and_write(&mut next, &vec![3u32; CHUNK], 0);
    let n = next.unwrap();
    assert_eq!(n.chunk_index, 1);
    assert_eq!(n.vec_index(CHUNK_SIZE), 3 * CHUNK + 1);
    assert_eq!(heap.len(), 5 * CHUNK);
    // The chunks that stand for the rest of the run take nothing: a request
    // that no allocator holds opens a new chunk after the run.
    let mut last = None;
    heap.allocate_or_grow_and_write(&mut last, &vec![4u32; CHUNK], 0);
    let l = last.unwrap();
    assert_eq!(l.chunk_index, 5);
    assert_eq!(l.vec_index(CHUNK_SIZE), 5 * CHUNK);
    assert_eq!(heap.len(), 6 * CHUNK);
}

#[test]
fn spare_capacity_is_ignored_when_the_data_fits() {
    let mut heap: GpuHeap<u32> = GpuHeap::with_usage(0);
    let mut handle = None;
    heap.allocate_or_grow_and_write(&mut handle, &[1, 2], 0);
    let cmds = heap.allocate_or_grow_and_write(&mut handle, &[3], u32::MAX);
    assert_eq!(
        cmds,
        vec![HeapCommand::Write { start: 0, len: 1 }, HeapCommand::Zero { start: 1, len: 1 }]
    );
    assert_eq!(handle.unwrap().size, 2);
}

#[test]
fn a_second_chunk_doubles_the_buffer() {
    let mut heap: GpuHeap<u32> = GpuHeap::with_usage(0);
    let mut a = None;
    heap.allocate_or_grow_and_write(&mut a, &vec![1u32; CHUNK], 0);
    assert!(heap.take_reallocated());
    let mut b = None;
    let cmds = heap.allocate_or_grow_and_write(&mut b, &[2], 0);
    assert_eq!(b.unwrap().chunk_index, 1);
    assert_eq!(
        cmds,
        vec![
            HeapCommand::Grow { old_capacity: CHUNK, new_capacity: 2 * CHUNK },
            HeapCommand::Write { start: CHUNK, len: 1 },
        ]
    );
    assert_eq!(heap.len(), 2 * CHUNK);
}

#[test]
fn free_and_clear_returns_the_region() {
    let mut heap: GpuHeap<u32> = GpuHeap::with_usage(0);
    let mut a = None;
    heap.allocate_or_grow_and_write(&mut a, &vec![1u32; CHUNK], 0);
    let cmds = heap.free_and_clear(a.unwrap());
    assert_eq!(cmds, vec![HeapCommand::Zero { start: 0, len: CHUNK }]);
    let mut b = None;
    heap.allocate_or_grow_and_write(&mut b, &[1], 0);
    assert_eq!(b.unwrap().chunk_index, 0);
    assert_eq!(heap.len(), CHUNK);
}
