//! The trusted boundary with the `offset-allocator` crate.
//!
//! An `offset_allocator::Allocator` manages the units `0 .. capacity` of one
//! contiguous range and hands out sub-ranges of it. Neither the allocator nor
//! an `Allocation` is looked into here: this module names what the library's
//! proofs rely on and states it on the wrappers below; nothing here is proved.
use vstd::prelude::*;
use crate::pow2::is_pow2;
use offset_allocator::{Allocation, Allocator};

verus! {

/// An `offset_allocator::Allocator` (with `u32` node indices), held opaque:
/// the crate's type is generic over a trait of the crate, so it is kept in
/// this struct, and its state is known only through the names below.
#[verifier::external_body]
pub struct ChunkAllocator {
    inner: Allocator,
}

/// An `offset_allocator::Allocation`, held opaque for the same reason as
/// [`ChunkAllocator`]; its offset is named by [`allocation_offset`].
#[verifier::external_body]
pub struct ChunkAllocation {
    inner: Allocation,
}

impl Clone for ChunkAllocation {
    /// A copy of the allocation (`offset_allocator::Allocation` is `Copy`).
    fn clone(&self) -> (copy: Self)
        ensures
            copy == *self,
    {
        *self
    }
}

impl Copy for ChunkAllocation {

}

/// The number of units that the allocator manages (the `size` it was made with).
pub uninterp spec fn allocator_capacity(a: ChunkAllocator) -> u32;

/// The largest number of allocations the allocator was made to hold.
pub uninterp spec fn allocator_max_allocs(a: ChunkAllocator) -> u32;

/// The live allocations of the allocator, each with the size it was allocated with.
pub uninterp spec fn allocator_live(a: ChunkAllocator) -> Map<ChunkAllocation, u32>;

/// Whether `Allocator::allocate` of `size` units succeeds on the allocator as
/// it stands; it depends on the allocator's free blocks and `size` alone.
pub uninterp spec fn allocator_fits(a: ChunkAllocator, size: u32) -> bool;

/// The `offset` field of an allocation: the first unit of its range.
pub uninterp spec fn allocation_offset(a: ChunkAllocation) -> u32;

/// Two ranges `[o1, o1 + s1)` and `[o2, o2 + s2)` share no unit.
pub open spec fn ranges_disjoint(o1: int, s1: int, o2: int, s2: int) -> bool {
    o1 + s1 <= o2 || o2 + s2 <= o1
}

/// Calls `Allocator::new`: an allocator over `size` units with no live
/// allocation, made (by the crate's source) with `min(128 * 1024, u32::MAX - 1)`
/// as its maximum number of allocations.
#[verifier::external_body]
pub(crate) fn allocator_new(size: u32) -> (fresh: ChunkAllocator)
    ensures
        allocator_capacity(fresh) == size,
        allocator_max_allocs(fresh) == 128 * 1024,
        allocator_live(fresh).is_empty(),
{
    ChunkAllocator { inner: Allocator::new(size) }
}

/// Calls `Allocator::with_max_allocs`: an allocator over `size` units with no
/// live allocation. The crate asserts `max_allocs < u32::MAX - 1`, and with
/// fewer than two allocations its start-up bookkeeping underflows.
#[verifier::external_body]
pub(crate) fn allocator_with_max_allocs(size: u32, max_allocs: u32) -> (fresh: ChunkAllocator)
    requires
        2 <= max_allocs < u32::MAX - 1,
    ensures
        allocator_capacity(fresh) == size,
        allocator_max_allocs(fresh) == max_allocs,
        allocator_live(fresh).is_empty(),
{
    ChunkAllocator { inner: Allocator::with_max_allocs(size, max_allocs) }
}

/// Calls `Allocator::allocate`. When it fails it returns before touching the
/// allocator. When it succeeds the new allocation is a range of `size` units
/// inside `0 .. capacity` that overlaps no other live allocation, and it
/// becomes live with that size. The allocator's blocks form a chain that
/// covers `0 .. capacity` in order, so an empty allocation too sits on a block
/// boundary, never strictly inside another allocation. With no live
/// allocation all the space is one free block starting at 0, so a request of
/// at most `capacity` units gets offset 0 and succeeds when the capacity is a
/// power of two (exact in the allocator's bin sizes) and the allocator holds
/// at least three allocation records (one for the free block, one for the
/// allocation and one for the remainder). Of other requests it is not stated
/// when they succeed: that depends on fragmentation.
#[verifier::external_body]
pub(crate) fn allocator_allocate(a: &mut ChunkAllocator, size: u32) -> (r: Option<ChunkAllocation>)
    ensures
        allocator_capacity(*final(a)) == allocator_capacity(*old(a)),
        allocator_max_allocs(*final(a)) == allocator_max_allocs(*old(a)),
        (r is Some) == allocator_fits(*old(a), size),
        r is None ==> *final(a) == *old(a),
        r matches Some(al) ==> {
            &&& !allocator_live(*old(a)).contains_key(al)
            &&& allocator_live(*final(a)) == allocator_live(*old(a)).insert(al, size)
            &&& allocation_offset(al) + size <= allocator_capacity(*old(a))
            &&& allocator_live(*old(a)).is_empty() ==> allocation_offset(al) == 0
            &&& forall|other: ChunkAllocation|
                #[trigger] allocator_live(*old(a)).contains_key(other) ==> ranges_disjoint(
                    allocation_offset(al) as int,
                    size as int,
                    allocation_offset(other) as int,
                    allocator_live(*old(a))[other] as int,
                )
        },
        allocator_live(*old(a)).is_empty() && size <= allocator_capacity(*old(a))
            && is_pow2(allocator_capacity(*old(a)) as nat) && allocator_max_allocs(*old(a)) >= 3
            ==> allocator_fits(*old(a), size),
{
    a.inner.allocate(size).map(|inner| ChunkAllocation { inner })
}

/// Calls `Allocator::free`, which returns a live allocation's range to the
/// allocator. On an allocation that is not live the crate asserts or corrupts
/// its bookkeeping, so such a call is left out.
#[verifier::external_body]
pub(crate) fn allocator_free(a: &mut ChunkAllocator, al: ChunkAllocation)
    requires
        allocator_live(*old(a)).contains_key(al),
    ensures
        allocator_capacity(*final(a)) == allocator_capacity(*old(a)),
        allocator_max_allocs(*final(a)) == allocator_max_allocs(*old(a)),
        allocator_live(*final(a)) == allocator_live(*old(a)).remove(al),
{
    a.inner.free(al.inner)
}

/// Reads the public `offset` field of an allocation.
#[verifier::external_body]
pub(crate) fn allocation_offset_of(al: &ChunkAllocation) -> (r: u32)
    ensures
        r == allocation_offset(*al),
{
    al.inner.offset
}

} // verus!
