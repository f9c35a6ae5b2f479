//! What the heaps keep true of each of their chunk allocators, and why
//! allocating and freeing keep it.
use vstd::prelude::*;
use crate::chunk_allocator::{
    allocation_offset, allocator_capacity, allocator_live, allocator_max_allocs,
    ranges_disjoint, ChunkAllocation, ChunkAllocator,
};

verus! {

/// The live allocations of the allocator lie inside its capacity and overlap
/// nowhere (an empty one sits on a boundary, never strictly inside another).
pub open spec fn chunk_wf(a: ChunkAllocator) -> bool {
    &&& forall|al: ChunkAllocation| #[trigger]
        allocator_live(a).contains_key(al) ==> allocation_offset(al) + allocator_live(a)[al]
            <= allocator_capacity(a)
    &&& forall|x: ChunkAllocation, y: ChunkAllocation|
        #[trigger] allocator_live(a).contains_key(x) && #[trigger] allocator_live(a).contains_key(y)
            && x != y ==> ranges_disjoint(
            allocation_offset(x) as int,
            allocator_live(a)[x] as int,
            allocation_offset(y) as int,
            allocator_live(a)[y] as int,
        )
}

/// What a successful `allocator_allocate` of `size` units guarantees, from the
/// allocator `before` to the allocator `after`, when `al` is returned.
pub open spec fn allocated(
    before: ChunkAllocator,
    after: ChunkAllocator,
    al: ChunkAllocation,
    size: u32,
) -> bool {
    &&& allocator_capacity(after) == allocator_capacity(before)
    &&& allocator_max_allocs(after) == allocator_max_allocs(before)
    &&& !allocator_live(before).contains_key(al)
    &&& allocator_live(after) == allocator_live(before).insert(al, size)
    &&& allocation_offset(al) + size <= allocator_capacity(before)
    &&& allocator_live(before).is_empty() ==> allocation_offset(al) == 0
    &&& forall|other: ChunkAllocation|
        #[trigger] allocator_live(before).contains_key(other) ==> ranges_disjoint(
            allocation_offset(al) as int,
            size as int,
            allocation_offset(other) as int,
            allocator_live(before)[other] as int,
        )
}

/// Allocating keeps a chunk well formed, and the allocation fits in it.
pub proof fn lemma_allocated_keeps_wf(
    before: ChunkAllocator,
    after: ChunkAllocator,
    al: ChunkAllocation,
    size: u32,
)
    requires
        chunk_wf(before),
        allocated(before, after, al, size),
    ensures
        chunk_wf(after),
        size <= allocator_capacity(before),
{
    assert forall|x: ChunkAllocation, y: ChunkAllocation|
        #[trigger] allocator_live(after).contains_key(x) && #[trigger] allocator_live(
            after,
        ).contains_key(y) && x != y implies ranges_disjoint(
        allocation_offset(x) as int,
        allocator_live(after)[x] as int,
        allocation_offset(y) as int,
        allocator_live(after)[y] as int,
    ) by {
        if x == al {
            assert(allocator_live(before).contains_key(y));
        } else if y == al {
            assert(allocator_live(before).contains_key(x));
        } else {
            assert(allocator_live(before).contains_key(x));
            assert(allocator_live(before).contains_key(y));
        }
    }
}

/// Freeing keeps a chunk well formed.
pub proof fn lemma_freed_keeps_wf(before: ChunkAllocator, after: ChunkAllocator, al: ChunkAllocation)
    requires
        chunk_wf(before),
        allocator_capacity(after) == allocator_capacity(before),
        allocator_live(after) == allocator_live(before).remove(al),
    ensures
        chunk_wf(after),
{
    assert forall|x: ChunkAllocation, y: ChunkAllocation|
        #[trigger] allocator_live(after).contains_key(x) && #[trigger] allocator_live(
            after,
        ).contains_key(y) && x != y implies ranges_disjoint(
        allocation_offset(x) as int,
        allocator_live(after)[x] as int,
        allocation_offset(y) as int,
        allocator_live(after)[y] as int,
    ) by {
        assert(allocator_live(before).contains_key(x));
        assert(allocator_live(before).contains_key(y));
    }
}

} // verus!
