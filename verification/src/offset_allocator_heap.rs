//! A growable heap of `T` backed by one `Vec<T>` and cut into fixed-size
//! chunks, each managed by its own offset allocator.
use vstd::prelude::*;
use crate::pow2::is_pow2;
use crate::chunk_allocator::{
    allocation_offset, allocation_offset_of, allocator_allocate, allocator_capacity,
    allocator_fits, allocator_free, allocator_live, allocator_max_allocs, allocator_new,
    ranges_disjoint, ChunkAllocation, ChunkAllocator,
};
use crate::chunk_invariants::{
    allocated, chunk_wf, lemma_allocated_keeps_wf, lemma_freed_keeps_wf,
};

verus! {

/// Number of elements of `T` in each chunk of the heap.
pub const CHUNK_SIZE: u32 = 2048;

/// The largest number of elements the heap grows to: the element indices of
/// every chunk up to it fit in the `u32` that a handle's index is computed in
/// (`u32::MAX + 1`). Only a request that would need a chunk beyond it gets
/// `None`.
pub const MAX_HEAP_LEN: u64 = 0x1_0000_0000;

/// The maximum number of allocations of each chunk's allocator
/// (`offset_allocator::Allocator::new` uses `128 * 1024`).
pub open spec fn chunk_max_allocs() -> u32 {
    131072
}

/// Each chunk allocator of the heap manages one chunk, was made by
/// `Allocator::new`, and keeps its live allocations inside it, apart.
pub open spec fn heap_chunk_wf(a: ChunkAllocator) -> bool {
    &&& chunk_wf(a)
    &&& allocator_capacity(a) == CHUNK_SIZE
    &&& allocator_max_allocs(a) == chunk_max_allocs()
}

/// A handle to a live allocation in the heap.
///
/// The element index of this allocation within the backing `Vec` is
/// `chunk_index * chunk_size + allocation.offset`.
#[derive(Clone, Copy)]
pub struct Handle {
    pub chunk_index: u32,
    pub allocation: ChunkAllocation,
    pub size: u32,
}

impl Handle {
    /// `chunk_index * chunk_size + offset`, as a mathematical integer.
    pub open spec fn index_in(self, chunk_size: u32) -> int {
        self.chunk_index * chunk_size + allocation_offset(self.allocation)
    }

    /// The element index of this allocation within the backing `Vec`.
    ///
    /// The index is computed in `u32`, so it must fit there.
    pub fn vec_index(&self, chunk_size: u32) -> (index: usize)
        requires
            self.index_in(chunk_size) <= u32::MAX,
        ensures
            index == self.index_in(chunk_size),
    {
        let offset = allocation_offset_of(&self.allocation);
        (self.chunk_index * chunk_size + offset) as usize
    }
}

/// A call that changes an [`OffsetHeap`]: `allocate(size)` returning a
/// result, `free(handle)`, or a write through `get_mut` or `_as_slice_mut`
/// that keeps the length of what it was given.
pub enum HeapStep {
    Allocate(u32, Option<Handle>),
    Free(Handle),
    Write,
}

/// The largest chunk index of a handle that the `allocate` calls among `ops`
/// returned, or -1 when they returned none.
pub open spec fn last_chunk_handed_out(ops: Seq<HeapStep>) -> int
    decreases ops.len(),
{
    if ops.len() == 0 {
        -1
    } else {
        let before = last_chunk_handed_out(ops.drop_last());
        match ops.last() {
            HeapStep::Allocate(_, Some(h)) => if h.chunk_index > before {
                h.chunk_index as int
            } else {
                before
            },
            _ => before,
        }
    }
}

/// A growable heap backed by a single `Vec<T>`, managed by a collection of
/// fixed-size allocator chunks.
///
/// Sizes and offsets are in units of `T`. When no existing chunk can satisfy an
/// allocation, a new chunk is appended to the vec and a fresh allocator is
/// created for it.
pub struct OffsetHeap<T> {
    vec: Vec<T>,
    chunks: Vec<ChunkAllocator>,
}

impl<T> OffsetHeap<T> {
    /// The elements of the backing `Vec`.
    pub closed spec fn elements(self) -> Seq<T> {
        self.vec@
    }

    /// The allocators of the chunks, in order.
    pub closed spec fn allocators(self) -> Seq<ChunkAllocator> {
        self.chunks@
    }

    /// The heap's invariant: one chunk of elements per allocator, a bounded
    /// length, and well-formed chunk allocators.
    pub open spec fn wf(self) -> bool {
        &&& self.elements().len() == self.allocators().len() * CHUNK_SIZE
        &&& self.elements().len() <= MAX_HEAP_LEN
        &&& forall|c: int|
            0 <= c < self.allocators().len() ==> #[trigger] heap_chunk_wf(self.allocators()[c])
    }

    /// `h` names a live allocation of this heap, of `h.size` elements.
    pub open spec fn holds(self, h: Handle) -> bool {
        &&& h.chunk_index < self.allocators().len()
        &&& allocator_live(self.allocators()[h.chunk_index as int]).contains_key(h.allocation)
        &&& allocator_live(self.allocators()[h.chunk_index as int])[h.allocation] == h.size
    }

    /// The first element of the region of `h`.
    pub open spec fn region_start(h: Handle) -> int {
        h.index_in(CHUNK_SIZE)
    }

    /// What `op` does, from the heap `before` to the heap `after`, as far as
    /// the heap's size goes: every call keeps the heap well formed; only an
    /// allocation that returns a handle past the last chunk adds a chunk, and
    /// then exactly one.
    pub open spec fn step(before: Self, op: HeapStep, after: Self) -> bool {
        &&& after.wf()
        &&& match op {
            HeapStep::Allocate(_, Some(h)) => {
                &&& h.chunk_index <= before.allocators().len()
                &&& h.chunk_index < before.allocators().len() ==> after.elements().len()
                    == before.elements().len()
                &&& h.chunk_index == before.allocators().len() ==> after.elements().len()
                    == before.elements().len() + CHUNK_SIZE
            },
            _ => after.elements().len() == before.elements().len(),
        }
    }

    pub fn new() -> (heap: Self)
        ensures
            heap.wf(),
            heap.elements() == Seq::<T>::empty(),
            heap.allocators() == Seq::<ChunkAllocator>::empty(),
    {
        OffsetHeap { vec: Vec::new(), chunks: Vec::new() }
    }

    /// Allocates `size` elements of `T`.
    ///
    /// Returns `None` if `size` exceeds the chunk size (or, with no room in
    /// any chunk, if a new chunk would take the heap past [`MAX_HEAP_LEN`]).
    pub fn allocate(&mut self, size: u32) -> (r: Option<Handle>)
        where T: Default,
        requires
            old(self).wf(),
        ensures
            final(self).wf(),
            Self::step(*old(self), HeapStep::Allocate(size, r), *final(self)),
            size > CHUNK_SIZE ==> r is None,
            // A chunk with no live allocation takes any request of at most a chunk.
            forall|c: int|
                0 <= c < old(self).allocators().len() && size <= CHUNK_SIZE
                    && allocator_live(#[trigger] old(self).allocators()[c]).is_empty() ==> (r matches Some(
                    h,
                ) && h.chunk_index <= c),
            // Existing chunks are tried in order; the first that fits is used.
            r is None ==> forall|c: int|
                0 <= c < old(self).allocators().len() ==> !#[trigger] allocator_fits(
                    old(self).allocators()[c],
                    size,
                ),
            r matches Some(h) ==> {
                &&& forall|c: int|
                    0 <= c < h.chunk_index ==> !#[trigger] allocator_fits(
                        old(self).allocators()[c],
                        size,
                    )
                &&& h.chunk_index < old(self).allocators().len() ==> allocator_fits(
                    old(self).allocators()[h.chunk_index as int],
                    size,
                )
            },
            r is None ==> final(self).elements() == old(self).elements()
                && final(self).allocators() == old(self).allocators(),
            r is None && size <= CHUNK_SIZE ==> old(self).elements().len() + CHUNK_SIZE
                > MAX_HEAP_LEN,
            r matches Some(h) ==> {
                &&& h.size == size
                &&& !old(self).holds(h)
                &&& final(self).holds(h)
                &&& forall|g: Handle| #[trigger]
                    final(self).holds(g) <==> (old(self).holds(g) || g == h)
                &&& h.chunk_index <= old(self).allocators().len()
                &&& h.chunk_index < old(self).allocators().len() ==> {
                    &&& final(self).elements() == old(self).elements()
                    // An allocation in an empty chunk starts the chunk.
                    &&& allocator_live(old(self).allocators()[h.chunk_index as int]).is_empty()
                        ==> Self::region_start(h) == h.chunk_index * CHUNK_SIZE
                }
                &&& h.chunk_index == old(self).allocators().len() ==> {
                    &&& final(self).elements().len() == old(self).elements().len() + CHUNK_SIZE
                    &&& final(self).elements().subrange(0, old(self).elements().len() as int)
                        == old(self).elements()
                    &&& forall|k: int|
                        old(self).elements().len() <= k < final(self).elements().len()
                            ==> call_ensures(T::default, (), #[trigger] final(self).elements()[k])
                    &&& Self::region_start(h) == old(self).elements().len()
                }
            },
    {
        let ghost old_heap = *self;
        // Try existing chunks first.
        let n = self.chunks.len();
        let mut i: usize = 0;
        while i < n
            invariant
                self.wf(),
                n == self.chunks@.len(),
                i <= n,
                forall|c: int| 0 <= c < i ==> !#[trigger] allocator_fits(self.allocators()[c], size),
                forall|c: int|
                    0 <= c < i ==> !(size <= CHUNK_SIZE && allocator_live(
                        #[trigger] self.allocators()[c],
                    ).is_empty()),
                self.elements() == old_heap.elements(),
                self.allocators() == old_heap.allocators(),
                old_heap == *old(self),
            decreases n - i,
        {
            proof {
                assert(heap_chunk_wf(self.allocators()[i as int]));
                assert(is_pow2(2048)) by {
                    reveal_with_fuel(is_pow2, 13);
                }
            }
            let res = allocator_allocate(&mut self.chunks[i], size);
            match res {
                Some(allocation) => {
                    let h = Handle { chunk_index: i as u32, allocation, size };
                    proof {
                        self.lemma_allocate_in_chunk(old_heap, i as int, allocation, size);
                    }
                    return Some(h);
                },
                None => {
                    assert(self.chunks@ =~= old_heap.chunks@);
                },
            }
            i += 1;
        }
        // No existing chunk could fit it; add a new one.
        if size > CHUNK_SIZE {
            return None;
        }
        if self.vec.len() as u64 > MAX_HEAP_LEN - CHUNK_SIZE as u64 {
            return None;
        }
        let chunk_index = self.chunks.len() as u32;
        let old_len = self.vec.len();
        let mut k: usize = 0;
        while k < CHUNK_SIZE as usize
            invariant
                self.vec@.len() == old_len + k,
                self.vec@.subrange(0, old_len as int) == old_heap.vec@,
                old_len == old_heap.vec@.len(),
                old_len + CHUNK_SIZE <= MAX_HEAP_LEN,
                k <= CHUNK_SIZE,
                self.chunks@ == old_heap.chunks@,
                forall|j: int|
                    old_len <= j < self.vec@.len() ==> call_ensures(T::default, (), #[trigger] self.vec@[j]),
            decreases CHUNK_SIZE - k,
        {
            let value = T::default();
            self.vec.push(value);
            k += 1;
        }
        let mut new_chunk = allocator_new(CHUNK_SIZE);
        proof {
            reveal_with_fuel(is_pow2, 13);
            assert(is_pow2(2048));
        }
        let ghost fresh = new_chunk;
        let allocation = allocator_allocate(&mut new_chunk, size);
        proof {
            assert(allocator_live(fresh) =~= Map::<ChunkAllocation, u32>::empty());
        }
        let allocation = match allocation {
            Some(a) => a,
            None => {
                proof {
                    assert(false);
                }
                return None;
            },
        };
        self.chunks.push(new_chunk);
        let h = Handle { chunk_index, allocation, size };
        proof {
            self.lemma_new_chunk(old_heap, h);
        }
        Some(h)
    }

    /// Returns the allocation of `handle` to its chunk.
    pub fn free(&mut self, handle: Handle)
        requires
            old(self).wf(),
            old(self).holds(handle),
        ensures
            final(self).wf(),
            Self::step(*old(self), HeapStep::Free(handle), *final(self)),
            final(self).elements() == old(self).elements(),
            final(self).allocators().len() == old(self).allocators().len(),
            forall|c: int|
                0 <= c < old(self).allocators().len() && c != handle.chunk_index
                    ==> #[trigger] final(self).allocators()[c] == old(self).allocators()[c],
            forall|g: Handle| #[trigger]
                final(self).holds(g) <==> (old(self).holds(g) && g != handle),
    {
        let ghost old_heap = *self;
        let c = handle.chunk_index as usize;
        allocator_free(&mut self.chunks[c], handle.allocation);
        proof {
            assert(heap_chunk_wf(old_heap.allocators()[c as int]));
            lemma_freed_keeps_wf(
                old_heap.allocators()[c as int],
                self.allocators()[c as int],
                handle.allocation,
            );
            assert forall|d: int| 0 <= d < self.allocators().len() implies #[trigger] heap_chunk_wf(
                self.allocators()[d],
            ) by {
                if d != c as int {
                    assert(heap_chunk_wf(old_heap.allocators()[d]));
                }
            }
            assert forall|g: Handle| #[trigger]
                self.holds(g) <==> (old_heap.holds(g) && g != handle) by {
                if g.chunk_index == handle.chunk_index && g.allocation == handle.allocation {
                    if old_heap.holds(g) {
                        assert(g == handle);
                    }
                }
            }
        }
    }

    /// The elements of the region of `handle`, for writing.
    ///
    /// Any handle whose region lies inside the backing `Vec` is served, live
    /// or not; beyond it the slice index would panic, and so would the `u32`
    /// index of a region that starts past `u32::MAX`.
    pub fn get_mut(&mut self, handle: Handle) -> (region: &mut [T])
        requires
            old(self).wf(),
            Self::region_start(handle) + handle.size <= old(self).elements().len(),
            Self::region_start(handle) <= u32::MAX,
        ensures
            ({
                let start = Self::region_start(handle);
                let end = start + handle.size;
                &&& region@ == old(self).elements().subrange(start, end)
                &&& final(self).elements() == old(self).elements().subrange(0, start)
                    + final(region)@ + old(self).elements().subrange(
                    end,
                    old(self).elements().len() as int,
                )
                &&& final(self).allocators() == old(self).allocators()
                &&& final(region)@.len() == handle.size ==> final(self).wf()
                    && Self::step(*old(self), HeapStep::Write, *final(self))
            }),
    {
        let start = handle.vec_index(CHUNK_SIZE);
        let size = handle.size as usize;
        let all = self.vec.as_mut_slice();
        let (_before, rest) = all.split_at_mut(start);
        let (region, _after) = rest.split_at_mut(size);
        region
    }

    /// The elements of the region of `handle`.
    ///
    /// Any handle whose region lies inside the backing `Vec` is served.
    pub fn _get(&self, handle: Handle) -> (region: &[T])
        requires
            self.wf(),
            Self::region_start(handle) + handle.size <= self.elements().len(),
            Self::region_start(handle) <= u32::MAX,
        ensures
            region@ == self.elements().subrange(
                Self::region_start(handle),
                Self::region_start(handle) + handle.size,
            ),
    {
        let start = handle.vec_index(CHUNK_SIZE);
        let size = handle.size as usize;
        let (_before, rest) = self.vec.as_slice().split_at(start);
        let (region, _after) = rest.split_at(size);
        region
    }

    /// All the elements of the heap, live or not.
    pub fn as_slice(&self) -> (all: &[T])
        ensures
            all@ == self.elements(),
    {
        self.vec.as_slice()
    }

    /// All the elements of the heap, live or not, for writing.
    pub fn _as_slice_mut(&mut self) -> (all: &mut [T])
        requires
            old(self).wf(),
        ensures
            all@ == old(self).elements(),
            final(self).elements() == final(all)@,
            final(self).allocators() == old(self).allocators(),
            final(all)@.len() == old(self).elements().len() ==> final(self).wf()
                && Self::step(*old(self), HeapStep::Write, *final(self)),
    {
        self.vec.as_mut_slice()
    }

    /// Writing the region of one live handle (as `get_mut` lets the caller do)
    /// gives back what was written when that region is read, and leaves the
    /// region of every other live handle as it was.
    pub proof fn law_write_keeps_other_regions(
        self,
        h: Handle,
        written: Seq<T>,
        after: Self,
        g: Handle,
    )
        requires
            self.wf(),
            self.holds(h),
            written.len() == h.size,
            after.elements() == self.elements().subrange(0, Self::region_start(h))
                + written + self.elements().subrange(
                Self::region_start(h) + h.size,
                self.elements().len() as int,
            ),
            self.holds(g),
            g != h,
        ensures
            after.elements().subrange(Self::region_start(h), Self::region_start(h) + h.size)
                == written,
            after.elements().subrange(Self::region_start(g), Self::region_start(g) + g.size)
                == self.elements().subrange(Self::region_start(g), Self::region_start(g) + g.size),
    {
        self.lemma_region_in_bounds(h);
        self.lemma_region_in_bounds(g);
        let hs = Self::region_start(h);
        let he = hs + h.size;
        let gs = Self::region_start(g);
        let ge = gs + g.size;
        assert(after.elements().subrange(hs, he) =~= written);
        self.lemma_live_regions_disjoint(h, g);
        assert(after.elements().subrange(gs, ge) =~= self.elements().subrange(gs, ge)) by {
            assert forall|k: int| gs <= k < ge implies after.elements()[k] == self.elements()[k] by {
                if k < hs {
                } else {
                    assert(k >= he);
                }
            }
        }
    }

    /// From an empty heap, through any sequence of calls: the heap holds one
    /// chunk for each chunk index up to the largest that `allocate` handed
    /// out, so its length is `CHUNK_SIZE` times one more than that index (0
    /// when none was handed out); and the length never decreases.
    /// `states[k + 1]` is the heap after `ops[k]` runs on `states[k]`.
    pub proof fn law_length_follows_chunks_handed_out(states: Seq<Self>, ops: Seq<HeapStep>)
        requires
            states.len() == ops.len() + 1,
            states[0].wf(),
            states[0].elements().len() == 0,
            forall|k: int| 0 <= k < ops.len() ==> #[trigger] Self::step(states[k], ops[k], states[k + 1]),
        ensures
            states.last().wf(),
            states.last().allocators().len() == last_chunk_handed_out(ops) + 1,
            states.last().elements().len() == CHUNK_SIZE * (last_chunk_handed_out(ops) + 1),
            forall|j: int, k: int|
                0 <= j <= k < states.len() ==> #[trigger] states[j].elements().len()
                    <= #[trigger] states[k].elements().len(),
        decreases ops.len(),
    {
        if ops.len() == 0 {
            assert(states.last() == states[0]);
        } else {
            let n = ops.len() - 1;
            let prefix = states.drop_last();
            let pops = ops.drop_last();
            assert forall|k: int| 0 <= k < pops.len() implies #[trigger] Self::step(prefix[k], pops[k], prefix[k + 1]) by {
                assert(Self::step(states[k], ops[k], states[k + 1]));
            }
            Self::law_length_follows_chunks_handed_out(prefix, pops);
            assert(prefix.last() == states[n]);
            assert(Self::step(states[n], ops[n], states[n + 1]));
            assert(states.last() == states[n + 1]);
            let before = states[n];
            let after = states[n + 1];
            assert(before.elements().len() <= after.elements().len());
            assert(after.allocators().len() == last_chunk_handed_out(ops) + 1);
            assert forall|j: int, k: int|
                0 <= j <= k < states.len() implies #[trigger] states[j].elements().len()
                    <= #[trigger] states[k].elements().len() by {
                if k < states.len() - 1 {
                    assert(prefix[j] == states[j]);
                    assert(prefix[k] == states[k]);
                    assert(prefix[j].elements().len() <= prefix[k].elements().len());
                } else if j < states.len() - 1 {
                    assert(prefix[j] == states[j]);
                    assert(prefix[j].elements().len() <= prefix[n].elements().len());
                }
            }
        }
    }

    /// The heap's length counts its chunks, and every live handle names one of
    /// them.
    pub proof fn law_length_counts_chunks(self, h: Handle)
        requires
            self.wf(),
            self.holds(h),
        ensures
            self.elements().len() == self.allocators().len() * CHUNK_SIZE,
            h.chunk_index * CHUNK_SIZE < self.elements().len(),
    {
    }

    /// The region of a live handle lies inside the backing `Vec`.
    pub proof fn lemma_region_in_bounds(self, h: Handle)
        requires
            self.wf(),
            self.holds(h),
        ensures
            0 <= Self::region_start(h),
            Self::region_start(h) + h.size <= self.elements().len(),
            Self::region_start(h) + h.size <= MAX_HEAP_LEN,
            Self::region_start(h) >= h.chunk_index * CHUNK_SIZE,
            Self::region_start(h) + h.size <= (h.chunk_index + 1) * CHUNK_SIZE,
    {
        let a = self.allocators()[h.chunk_index as int];
        assert(heap_chunk_wf(a));
        assert(allocator_live(a).contains_key(h.allocation));
    }

    /// The regions of two different live handles share no element; an empty
    /// region sits on a boundary, never strictly inside another region.
    pub proof fn lemma_live_regions_disjoint(self, h1: Handle, h2: Handle)
        requires
            self.wf(),
            self.holds(h1),
            self.holds(h2),
            h1 != h2,
        ensures
            ranges_disjoint(
                Self::region_start(h1),
                h1.size as int,
                Self::region_start(h2),
                h2.size as int,
            ),
    {
        self.lemma_region_in_bounds(h1);
        self.lemma_region_in_bounds(h2);
        if h1.chunk_index == h2.chunk_index {
            let a = self.allocators()[h1.chunk_index as int];
            assert(heap_chunk_wf(a));
            assert(h1.allocation != h2.allocation);
            assert(allocator_live(a).contains_key(h1.allocation));
            assert(allocator_live(a).contains_key(h2.allocation));
        } else if h1.chunk_index < h2.chunk_index {
            assert((h1.chunk_index + 1) * CHUNK_SIZE <= h2.chunk_index * CHUNK_SIZE);
        } else {
            assert((h2.chunk_index + 1) * CHUNK_SIZE <= h1.chunk_index * CHUNK_SIZE);
        }
    }

    proof fn lemma_allocate_in_chunk(
        self,
        old_heap: Self,
        c: int,
        al: ChunkAllocation,
        size: u32,
    )
        requires
            old_heap.wf(),
            0 <= c < old_heap.allocators().len(),
            self.elements() == old_heap.elements(),
            self.allocators() == old_heap.allocators().update(c, self.allocators()[c]),
            allocated(old_heap.allocators()[c], self.allocators()[c], al, size),
        ensures
            self.wf(),
            size <= CHUNK_SIZE,
            c < 0x1_0000_0000,
            ({
                let h = Handle { chunk_index: c as u32, allocation: al, size };
                &&& !old_heap.holds(h)
                &&& self.holds(h)
                &&& forall|g: Handle| #[trigger] self.holds(g) <==> (old_heap.holds(g) || g == h)
            }),
    {
        let a = self.allocators()[c];
        let oa = old_heap.allocators()[c];
        assert(heap_chunk_wf(oa));
        assert(c < 0x1_0000_0000);
        lemma_allocated_keeps_wf(oa, a, al, size);
        assert forall|d: int| 0 <= d < self.allocators().len() implies #[trigger] heap_chunk_wf(
            self.allocators()[d],
        ) by {
            if d != c {
                assert(heap_chunk_wf(old_heap.allocators()[d]));
            }
        }
        let h = Handle { chunk_index: c as u32, allocation: al, size };
        assert forall|g: Handle| #[trigger] self.holds(g) <==> (old_heap.holds(g) || g == h) by {
            if g.chunk_index as int == c {
                if g.allocation == al {
                    if self.holds(g) {
                        assert(g == h);
                    }
                }
            }
        }
    }

    proof fn lemma_new_chunk(self, old_heap: Self, h: Handle)
        requires
            old_heap.wf(),
            self.allocators() == old_heap.allocators().push(self.allocators().last()),
            h.chunk_index == old_heap.allocators().len(),
            self.elements().len() == old_heap.elements().len() + CHUNK_SIZE,
            self.elements().len() <= MAX_HEAP_LEN,
            allocator_capacity(self.allocators().last()) == CHUNK_SIZE,
            allocator_max_allocs(self.allocators().last()) == chunk_max_allocs(),
            allocator_live(self.allocators().last()) == Map::<ChunkAllocation, u32>::empty().insert(
                h.allocation,
                h.size,
            ),
            allocation_offset(h.allocation) + h.size <= CHUNK_SIZE,
        ensures
            self.wf(),
            !old_heap.holds(h),
            self.holds(h),
            forall|g: Handle| #[trigger] self.holds(g) <==> (old_heap.holds(g) || g == h),
    {
        let c = h.chunk_index as int;
        assert forall|d: int| 0 <= d < self.allocators().len() implies #[trigger] heap_chunk_wf(
            self.allocators()[d],
        ) by {
            if d != c {
                assert(self.allocators()[d] == old_heap.allocators()[d]);
                assert(heap_chunk_wf(old_heap.allocators()[d]));
            }
        }
        assert forall|g: Handle| #[trigger] self.holds(g) <==> (old_heap.holds(g) || g == h) by {
            if g.chunk_index as int == c {
                if self.holds(g) {
                    assert(g == h);
                }
            } else if (g.chunk_index as int) < c {
                assert(self.allocators()[g.chunk_index as int] == old_heap.allocators()[g.chunk_index as int]);
            }
        }
    }
}

} // verus!
