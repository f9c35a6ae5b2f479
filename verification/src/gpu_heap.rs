//! The bookkeeping of a growable heap of `T` that lives in a GPU buffer.
//!
//! The heap is cut into chunks of [`CHUNK_SIZE`] elements, each managed by
//! its own offset allocator. The GPU work itself (the buffer, the staging
//! belt, the encoder) is the caller's: each operation that touches the buffer
//! returns the [`HeapCommand`]s to carry out, in order.
use vstd::prelude::*;
use std::marker::PhantomData;
use crate::pow2::{
    is_pow2, lemma_next_pow2_at_least, lemma_next_pow2_below_double, lemma_pow2_mul, max_rounded,
    next_pow2, next_power_of_two,
};
use crate::chunk_allocator::{
    allocation_offset, allocation_offset_of, allocator_allocate, allocator_capacity, allocator_fits,
    allocator_free, allocator_live, allocator_max_allocs, allocator_with_max_allocs,
    ranges_disjoint, ChunkAllocation,
    ChunkAllocator,
};
use crate::chunk_invariants::{
    allocated, chunk_wf, lemma_allocated_keeps_wf, lemma_freed_keeps_wf,
};

verus! {

/// Number of elements of `T` in each chunk of the heap (and the most
/// allocations a chunk, or a run of chunks, holds).
pub const CHUNK_SIZE: u32 = 4096;

/// The most elements whose indices fit in the `u32` that a handle's index is
/// computed in (`u32::MAX + 1`).
pub const MAX_HEAP_LEN: u64 = 0x1_0000_0000;

/// The largest number of elements the heap grows to: [`MAX_HEAP_LEN`], and
/// on a target whose `usize` cannot hold the buffer's capacity rounded up to
/// a power of two beyond it, `usize::MAX / 2 + 1`.
pub open spec fn heap_limit() -> int {
    if max_rounded() < MAX_HEAP_LEN {
        max_rounded()
    } else {
        MAX_HEAP_LEN as int
    }
}

/// [`heap_limit`], computed.
fn heap_limit_exec() -> (limit: usize)
    ensures
        limit == heap_limit(),
        limit % 4096 == 0,
{
    proof {
        assert(usize::MAX == 0xffff_ffff || usize::MAX == 0xffff_ffff_ffff_ffff);
    }
    let rounded = usize::MAX / 2 + 1;
    if (rounded as u64) < MAX_HEAP_LEN {
        rounded
    } else {
        MAX_HEAP_LEN as usize
    }
}

/// Whether a new run for a request of `size` elements cannot be added to a
/// heap of `heap_len` elements: it would take the heap past [`heap_limit`],
/// or it would cover more elements than an allocator's `u32` range holds.
pub open spec fn run_refused(heap_len: nat, size: nat) -> bool {
    heap_len + span_len(size) > heap_limit() || span_len(size) > u32::MAX
}

/// A handle to a live allocation in the heap.
///
/// The element index of this allocation within the backing `Vec` is
/// `chunk_index * chunk_size + allocation.offset`.
#[derive(Clone, Copy)]
pub struct Handle {
    pub chunk_index: u32,
    pub allocation: ChunkAllocation,
    pub size: u32,
}

impl Handle {
    /// `chunk_index * chunk_size + offset`, as a mathematical integer.
    pub open spec fn index_in(self, chunk_size: u32) -> int {
        self.chunk_index * chunk_size + allocation_offset(self.allocation)
    }

    /// The element index of this allocation within the backing `Vec`.
    ///
    /// The index is computed in `u32`, so it must fit there.
    pub fn vec_index(&self, chunk_size: u32) -> (index: usize)
        requires
            self.index_in(chunk_size) <= u32::MAX,
        ensures
            index == self.index_in(chunk_size),
    {
        let offset = allocation_offset_of(&self.allocation);
        (self.chunk_index * chunk_size + offset) as usize
    }
}

/// One step of GPU work that the heap asks of its caller. Positions and
/// lengths count elements of `T`.
#[derive(Clone, Copy, Debug, PartialEq, Eq)]
pub enum HeapCommand {
    /// Write zeros over `len` elements from element `start`.
    Zero { start: usize, len: usize },
    /// Write the first `len` elements of the data being stored at element `start`.
    Write { start: usize, len: usize },
    /// Replace the buffer by a new one of `new_capacity` elements, copying the
    /// first `old_capacity` elements of the old one (nothing when it is zero).
    Grow { old_capacity: usize, new_capacity: usize },
}

/// The first element of the region of `h`.
pub open spec fn region_start(h: Handle) -> int {
    h.index_in(CHUNK_SIZE)
}

/// The command that clears the region of `h` (none for an empty region).
pub open spec fn zero_region(h: Handle) -> Seq<HeapCommand> {
    if h.size > 0 {
        seq![HeapCommand::Zero { start: region_start(h) as usize, len: h.size as usize }]
    } else {
        seq![]
    }
}

/// The commands that store `len` elements at the start of the region of `h`
/// and clear the rest of it (an empty piece writes nothing).
pub open spec fn write_region(h: Handle, len: nat) -> Seq<HeapCommand> {
    (if len > 0 {
        seq![HeapCommand::Write { start: region_start(h) as usize, len: len as usize }]
    } else {
        seq![]
    }) + if h.size > len {
        seq![
            HeapCommand::Zero {
                start: (region_start(h) + len) as usize,
                len: (h.size - len) as usize,
            },
        ]
    } else {
        seq![]
    }
}

/// The command that makes the buffer cover `len` elements when its
/// `capacity` falls short: a new buffer rounded up to a power of two.
pub open spec fn growth(capacity: nat, len: nat) -> Seq<HeapCommand> {
    if len > capacity {
        seq![
            HeapCommand::Grow {
                old_capacity: capacity as usize,
                new_capacity: next_pow2(len) as usize,
            },
        ]
    } else {
        seq![]
    }
}

/// The number of chunks that a new run for a request of `size` elements
/// takes: the chunks it needs, rounded up to a power of two (one chunk for a
/// request that fits in a chunk).
pub open spec fn span_chunks(size: nat) -> nat {
    next_pow2(((size - 1) / (CHUNK_SIZE as int) + 1) as nat)
}

/// The number of elements of a new run for a request of `size` elements.
pub open spec fn span_len(size: nat) -> nat {
    span_chunks(size) * (CHUNK_SIZE as nat)
}

/// Whether one of `commands` clears element `e`.
pub open spec fn clears(commands: Seq<HeapCommand>, e: int) -> bool {
    exists|i: int|
        0 <= i < commands.len() && (#[trigger] commands[i] matches HeapCommand::Zero { start, len }
            && start <= e < start + len)
}

/// Whether one of `commands` stores data into element `e`.
pub open spec fn stores(commands: Seq<HeapCommand>, e: int) -> bool {
    exists|i: int|
        0 <= i < commands.len() && (#[trigger] commands[i] matches HeapCommand::Write { start, len }
            && start <= e < start + len)
}

/// A request of at most one chunk that no chunk takes gets a new chunk as
/// long as the heap stays within `u32` element indices (`u32::MAX + 1`
/// elements) and within the largest `usize` that can still be rounded up to
/// a power of two: only beyond that is its run refused.
pub proof fn law_one_chunk_is_refused_only_at_the_limit(heap_len: nat, size: nat)
    requires
        1 <= size <= 4096,
        heap_len + 4096 <= 0x1_0000_0000,
        heap_len + 4096 <= usize::MAX / 2 + 1,
    ensures
        span_len(size) == 4096,
        !run_refused(heap_len, size),
{
    assert((size - 1) / 4096 == 0);
    assert(next_pow2(1) == 1);
}

/// A new run for a request of `size` elements covers the request: it is a
/// power of two of whole chunks, at least `size` elements, and less than
/// twice the chunks the request needs (one chunk for a request of at most a
/// chunk).
pub proof fn law_run_covers_the_request(size: nat)
    requires
        size >= 1,
    ensures
        span_len(size) >= size,
        span_len(size) % 4096 == 0,
        is_pow2(span_chunks(size)),
        span_chunks(size) * 4096 < 2 * (size + 4095),
        size <= 4096 ==> span_len(size) == 4096,
{
    let needed = ((size - 1) / 4096 + 1) as nat;
    lemma_next_pow2_at_least(needed);
    lemma_next_pow2_below_double(needed);
    assert(needed * 4096 >= size);
    assert(span_chunks(size) * 4096 >= needed * 4096) by (nonlinear_arith)
        requires
            span_chunks(size) >= needed,
    ;
    assert(span_chunks(size) * 4096 < 2 * needed * 4096) by (nonlinear_arith)
        requires
            span_chunks(size) < 2 * needed,
    ;
    assert(needed * 4096 <= size + 4095);
    if size <= 4096 {
        assert(needed == 1);
        assert(next_pow2(1) == 1);
    }
}

/// Storing `len` elements asks for a new region exactly when there is data
/// and no region, or a region smaller than the data; data that fits in the
/// held region goes there, and no data never asks for one.
pub proof fn law_new_region_only_when_the_data_does_not_fit(handle: Option<Handle>, len: nat)
    ensures
        len == 0 ==> !needs_new_region(handle, len),
        len > 0 && handle is None ==> needs_new_region(handle, len),
        handle matches Some(h) ==> (len > h.size ==> needs_new_region(handle, len)),
        handle matches Some(h) ==> (len <= h.size ==> !needs_new_region(handle, len)),
{
}

/// The buffer grows only when the heap has outgrown it, and then to the
/// smallest power of two that holds the heap: at least `len`, less than
/// twice `len`, copying the whole old buffer.
pub proof fn law_growth_is_the_next_power_of_two(capacity: nat, len: nat)
    requires
        capacity <= usize::MAX,
        len <= max_rounded(),
    ensures
        len <= capacity ==> growth(capacity, len).len() == 0,
        len > capacity ==> growth(capacity, len).len() == 1 && (growth(capacity, len)[0] matches HeapCommand::Grow {
            old_capacity,
            new_capacity,
        } && old_capacity == capacity && new_capacity >= len && new_capacity < 2 * len
            && is_pow2(new_capacity as nat)),
{
    if len > capacity {
        lemma_next_pow2_at_least(len);
        lemma_next_pow2_below_double(len);
        assert(usize::MAX == 0xffff_ffff || usize::MAX == 0xffff_ffff_ffff_ffff);
        assert(next_pow2(len) <= usize::MAX);
    }
}

/// Clearing the region of `h` clears every element of that region, whatever
/// the region's chunk and offset, and no other element; it stores nothing.
pub proof fn law_zero_region_clears_the_region(h: Handle)
    requires
        region_start(h) + h.size <= usize::MAX,
    ensures
        forall|e: int|
            region_start(h) <= e < region_start(h) + h.size ==> #[trigger] clears(zero_region(h), e),
        forall|e: int|
            #[trigger] clears(zero_region(h), e) ==> region_start(h) <= e < region_start(h) + h.size,
        forall|e: int| !#[trigger] stores(zero_region(h), e),
{
    let z = zero_region(h);
    assert forall|e: int| region_start(h) <= e < region_start(h) + h.size implies #[trigger] clears(z, e) by {
        assert(z[0] matches HeapCommand::Zero { start, len } && start <= e < start + len);
    }
    assert forall|e: int| #[trigger] clears(z, e) implies region_start(h) <= e < region_start(h) + h.size by {
        let i = choose|i: int|
            0 <= i < z.len() && (#[trigger] z[i] matches HeapCommand::Zero { start, len }
                && start <= e < start + len);
        assert(i == 0);
    }
    assert forall|e: int| !#[trigger] stores(z, e) by {
        if stores(z, e) {
            let i = choose|i: int|
                0 <= i < z.len() && (#[trigger] z[i] matches HeapCommand::Write { start, len }
                    && start <= e < start + len);
            assert(i == 0);
        }
    }
}

/// Storing `len` elements in the region of `h` stores exactly the first
/// `len` elements of the region and clears exactly the rest of it, whatever
/// the region's chunk and offset; no element outside the region is touched.
pub proof fn law_write_region_covers_the_region(h: Handle, len: nat)
    requires
        len <= h.size,
        region_start(h) + h.size <= usize::MAX,
    ensures
        forall|e: int|
            region_start(h) <= e < region_start(h) + len ==> #[trigger] stores(write_region(h, len), e)
                && !clears(write_region(h, len), e),
        forall|e: int|
            region_start(h) + len <= e < region_start(h) + h.size ==> #[trigger] clears(
                write_region(h, len),
                e,
            ) && !stores(write_region(h, len), e),
        forall|e: int|
            !(region_start(h) <= e < region_start(h) + h.size) ==> !#[trigger] stores(
                write_region(h, len),
                e,
            ) && !clears(write_region(h, len), e),
{
    let w = write_region(h, len);
    let rs = region_start(h);
    let t: int = if len > 0 { 1 } else { 0 };
    assert(w.len() == t + if h.size > len { 1int } else { 0int });
    assert(len > 0 ==> w[0] == HeapCommand::Write { start: rs as usize, len: len as usize });
    assert(h.size > len ==> w[t] == HeapCommand::Zero {
        start: (rs + len) as usize,
        len: (h.size - len) as usize,
    });
    assert forall|e: int| rs <= e < rs + len implies #[trigger] stores(w, e) && !clears(w, e) by {
        assert(w[0] matches HeapCommand::Write { start, len } && start <= e < start + len);
        if clears(w, e) {
            let i = choose|i: int|
                0 <= i < w.len() && (#[trigger] w[i] matches HeapCommand::Zero { start, len }
                    && start <= e < start + len);
            assert(i == t);
        }
    }
    assert forall|e: int| rs + len <= e < rs + h.size implies #[trigger] clears(w, e) && !stores(w, e) by {
        assert(w[t] matches HeapCommand::Zero { start, len } && start <= e < start + len);
        if stores(w, e) {
            let i = choose|i: int|
                0 <= i < w.len() && (#[trigger] w[i] matches HeapCommand::Write { start, len }
                    && start <= e < start + len);
            assert(i == 0);
        }
    }
    assert forall|e: int| !(rs <= e < rs + h.size) implies !#[trigger] stores(w, e) && !clears(w, e) by {
        if stores(w, e) {
            let i = choose|i: int|
                0 <= i < w.len() && (#[trigger] w[i] matches HeapCommand::Write { start, len }
                    && start <= e < start + len);
            assert(i == 0);
        }
        if clears(w, e) {
            let i = choose|i: int|
                0 <= i < w.len() && (#[trigger] w[i] matches HeapCommand::Zero { start, len }
                    && start <= e < start + len);
            assert(i == t);
        }
    }
}

/// Whether `commands` replace the buffer.
pub open spec fn has_growth(commands: Seq<HeapCommand>) -> bool
    decreases commands.len(),
{
    commands.len() > 0 && (commands[0] is Grow || has_growth(commands.drop_first()))
}

/// A concatenation replaces the buffer when one of its parts does.
pub proof fn lemma_has_growth_concat(a: Seq<HeapCommand>, b: Seq<HeapCommand>)
    ensures
        has_growth(a + b) == (has_growth(a) || has_growth(b)),
    decreases a.len(),
{
    if a.len() == 0 {
        assert(a + b =~= b);
    } else {
        assert((a + b).drop_first() =~= a.drop_first() + b);
        lemma_has_growth_concat(a.drop_first(), b);
    }
}

/// Whether storing `len` elements needs a new region: there is data, and no
/// region or too small a one.
pub open spec fn needs_new_region(handle: Option<Handle>, len: nat) -> bool {
    len > 0 && (handle matches Some(h) ==> len > h.size)
}

/// The commands that clear the region of the handle being given up, if any.
pub open spec fn zero_old(handle: Option<Handle>) -> Seq<HeapCommand> {
    match handle {
        Some(h) => zero_region(h),
        None => seq![],
    }
}

/// The buffer capacity after `commands` run on a buffer of `capacity` elements.
pub open spec fn capacity_after(commands: Seq<HeapCommand>, capacity: nat) -> nat
    decreases commands.len(),
{
    if commands.len() == 0 {
        capacity
    } else {
        match commands[0] {
            HeapCommand::Grow { new_capacity, .. } => capacity_after(
                commands.drop_first(),
                new_capacity as nat,
            ),
            _ => capacity_after(commands.drop_first(), capacity),
        }
    }
}

/// Run in order on a buffer of `capacity` elements, every write and clear of
/// `commands` stays inside the buffer of its time, and every growth starts
/// from that buffer and does not shrink it.
pub open spec fn fits(commands: Seq<HeapCommand>, capacity: nat) -> bool
    decreases commands.len(),
{
    if commands.len() == 0 {
        true
    } else {
        match commands[0] {
            HeapCommand::Zero { start, len } => start + len <= capacity && fits(
                commands.drop_first(),
                capacity,
            ),
            HeapCommand::Write { start, len } => start + len <= capacity && fits(
                commands.drop_first(),
                capacity,
            ),
            HeapCommand::Grow { old_capacity, new_capacity } => old_capacity == capacity
                && new_capacity >= capacity && fits(commands.drop_first(), new_capacity as nat),
        }
    }
}

/// Commands that fit one after the other fit together.
pub proof fn lemma_fits_concat(a: Seq<HeapCommand>, b: Seq<HeapCommand>, capacity: nat)
    requires
        fits(a, capacity),
        fits(b, capacity_after(a, capacity)),
    ensures
        fits(a + b, capacity),
        capacity_after(a + b, capacity) == capacity_after(b, capacity_after(a, capacity)),
    decreases a.len(),
{
    if a.len() == 0 {
        assert(a + b =~= b);
    } else {
        assert((a + b).drop_first() =~= a.drop_first() + b);
        match a[0] {
            HeapCommand::Grow { new_capacity, .. } => {
                lemma_fits_concat(a.drop_first(), b, new_capacity as nat);
            },
            _ => {
                lemma_fits_concat(a.drop_first(), b, capacity);
            },
        }
    }
}

/// No write or clear of `commands` touches the elements `start .. start + len`.
pub open spec fn spares(commands: Seq<HeapCommand>, start: int, len: int) -> bool {
    forall|i: int|
        0 <= i < commands.len() ==> match #[trigger] commands[i] {
            HeapCommand::Zero { start: s, len: l } => ranges_disjoint(s as int, l as int, start, len),
            HeapCommand::Write { start: s, len: l } => ranges_disjoint(s as int, l as int, start, len),
            HeapCommand::Grow { .. } => true,
        }
}

/// Clearing a region inside the buffer fits and keeps the buffer.
pub proof fn lemma_zero_region_fits(h: Handle, capacity: nat)
    requires
        0 <= region_start(h),
        region_start(h) + h.size <= capacity,
        region_start(h) + h.size <= usize::MAX,
    ensures
        fits(zero_region(h), capacity),
        capacity_after(zero_region(h), capacity) == capacity,
        !has_growth(zero_region(h)),
{
    reveal_with_fuel(fits, 2);
    reveal_with_fuel(capacity_after, 2);
    reveal_with_fuel(has_growth, 2);
    if h.size > 0 {
        assert(zero_region(h).drop_first() =~= Seq::<HeapCommand>::empty());
    }
}

/// Storing data in a region inside the buffer fits and keeps the buffer.
pub proof fn lemma_write_region_fits(h: Handle, len: nat, capacity: nat)
    requires
        len <= h.size,
        0 <= region_start(h),
        region_start(h) + h.size <= capacity,
        region_start(h) + h.size <= usize::MAX,
    ensures
        fits(write_region(h, len), capacity),
        capacity_after(write_region(h, len), capacity) == capacity,
        !has_growth(write_region(h, len)),
{
    reveal_with_fuel(fits, 3);
    reveal_with_fuel(capacity_after, 3);
    reveal_with_fuel(has_growth, 3);
    let w = write_region(h, len);
    if w.len() == 2 {
        assert(w.drop_first().drop_first() =~= Seq::<HeapCommand>::empty());
    } else if w.len() == 1 {
        assert(w.drop_first() =~= Seq::<HeapCommand>::empty());
    }
}

/// Growing to the next power of two of the heap's length fits, and leaves a
/// buffer of that size.
pub proof fn lemma_growth_fits(capacity: nat, len: nat)
    requires
        capacity <= usize::MAX,
        len > capacity ==> next_pow2(len) <= usize::MAX,
    ensures
        fits(growth(capacity, len), capacity),
        capacity_after(growth(capacity, len), capacity) == if len > capacity {
            next_pow2(len)
        } else {
            capacity
        },
        has_growth(growth(capacity, len)) == (len > capacity),
{
    reveal_with_fuel(fits, 2);
    reveal_with_fuel(capacity_after, 2);
    reveal_with_fuel(has_growth, 2);
    if len > capacity {
        lemma_next_pow2_at_least(len);
        assert(growth(capacity, len).drop_first() =~= Seq::<HeapCommand>::empty());
    }
}

/// What each chunk allocator at index `c` of a heap of `heap_len` elements
/// keeps: its live allocations are inside it, apart and not empty, and its
/// range (from the chunk's start) lies inside the heap.
pub open spec fn gpu_chunk_wf(a: ChunkAllocator, c: int, heap_len: nat) -> bool {
    &&& chunk_wf(a)
    // A run's allocator covers a power of two of elements and holds up to a
    // chunk's worth of allocations; the others cover nothing, with room for
    // two allocation records.
    &&& allocator_capacity(a) > 0 ==> is_pow2(allocator_capacity(a) as nat)
        && allocator_max_allocs(a) == CHUNK_SIZE
    &&& allocator_capacity(a) == 0 ==> allocator_max_allocs(a) == 2
    &&& c * CHUNK_SIZE + allocator_capacity(a) <= heap_len
    &&& forall|al: ChunkAllocation| #[trigger]
        allocator_live(a).contains_key(al) ==> allocator_live(a)[al] > 0
}

pub struct GpuHeap<T> {
    chunks: Vec<ChunkAllocator>,
    // Logical element count of the heap (chunks.len() * CHUNK_SIZE).
    vec_len: usize,
    buffer_capacity: usize,
    dirty: bool,
    // Set whenever the GPU buffer is replaced so the caller can recreate bind groups.
    reallocated: bool,
    _phantom: PhantomData<T>,
}

impl<T> GpuHeap<T> {
    /// The allocators of the chunks, in order.
    pub closed spec fn allocators(self) -> Seq<ChunkAllocator> {
        self.chunks@
    }

    /// The number of elements of the heap.
    pub closed spec fn heap_len(self) -> nat {
        self.vec_len as nat
    }

    /// The number of elements the GPU buffer holds.
    pub closed spec fn buffer_capacity(self) -> nat {
        self.buffer_capacity as nat
    }

    /// Whether writes were asked for since the staging belt was last finished.
    pub closed spec fn is_dirty(self) -> bool {
        self.dirty
    }

    /// Whether the buffer was replaced since the flag was last taken.
    pub closed spec fn is_reallocated(self) -> bool {
        self.reallocated
    }

    /// The chunks' part of the invariant: one chunk of elements per allocator,
    /// a bounded length, well-formed allocators, and the range of an allocator
    /// that can hold anything ends before the next such allocator starts.
    pub open spec fn chunks_wf(self) -> bool {
        &&& self.heap_len() == self.allocators().len() * CHUNK_SIZE
        &&& self.heap_len() <= heap_limit()
        &&& forall|c: int|
            0 <= c < self.allocators().len() ==> #[trigger] gpu_chunk_wf(
                self.allocators()[c],
                c,
                self.heap_len(),
            )
        &&& forall|c: int, d: int|
            #![trigger allocator_capacity(self.allocators()[c]), allocator_capacity(self.allocators()[d])]
            0 <= c < d < self.allocators().len() && allocator_capacity(self.allocators()[d]) > 0
                ==> c * CHUNK_SIZE + allocator_capacity(self.allocators()[c]) <= d * CHUNK_SIZE
    }

    /// The heap's invariant: well-formed chunks and a buffer that covers the heap.
    pub open spec fn wf(self) -> bool {
        &&& self.chunks_wf()
        &&& self.buffer_capacity() >= self.heap_len()
        &&& self.buffer_capacity() <= usize::MAX
    }

    /// `self` and `other` have the same chunks, length and buffer capacity
    /// (their flags may differ).
    pub open spec fn same_storage(self, other: Self) -> bool {
        &&& self.allocators() == other.allocators()
        &&& self.heap_len() == other.heap_len()
        &&& self.buffer_capacity() == other.buffer_capacity()
    }

    /// The live allocations of chunk `c` once `handle`, if any, is freed.
    pub open spec fn live_after_free(self, handle: Option<Handle>, c: int) -> Map<
        ChunkAllocation,
        u32,
    > {
        match handle {
            Some(h) => if h.chunk_index == c {
                allocator_live(self.allocators()[c]).remove(h.allocation)
            } else {
                allocator_live(self.allocators()[c])
            },
            None => allocator_live(self.allocators()[c]),
        }
    }

    /// `h` names a live allocation of this heap, of `h.size` elements.
    pub open spec fn holds(self, h: Handle) -> bool {
        &&& h.chunk_index < self.allocators().len()
        &&& allocator_live(self.allocators()[h.chunk_index as int]).contains_key(h.allocation)
        &&& allocator_live(self.allocators()[h.chunk_index as int])[h.allocation] == h.size
    }

    pub fn with_usage(capacity: usize) -> (heap: Self)
        ensures
            heap.wf(),
            heap.allocators() == Seq::<ChunkAllocator>::empty(),
            heap.heap_len() == 0,
            heap.buffer_capacity() == capacity,
            !heap.is_dirty(),
            !heap.is_reallocated(),
    {
        GpuHeap {
            chunks: Vec::with_capacity(1),
            vec_len: 0,
            buffer_capacity: capacity,
            dirty: false,
            reallocated: false,
            _phantom: PhantomData,
        }
    }

    /// If the heap has grown past the buffer's capacity, asks for a new buffer
    /// (of the next power of two) that keeps the old contents.
    fn maybe_grow_buffer(&mut self, commands: &mut Vec<HeapCommand>)
        requires
            old(self).heap_len() <= heap_limit(),
        ensures
            final(commands)@ == old(commands)@ + growth(
                old(self).buffer_capacity(),
                old(self).heap_len(),
            ),
            final(self).allocators() == old(self).allocators(),
            final(self).heap_len() == old(self).heap_len(),
            final(self).is_dirty() == old(self).is_dirty(),
            old(self).heap_len() <= old(self).buffer_capacity() ==> {
                &&& final(self).buffer_capacity() == old(self).buffer_capacity()
                &&& final(self).is_reallocated() == old(self).is_reallocated()
            },
            old(self).heap_len() > old(self).buffer_capacity() ==> {
                &&& final(self).buffer_capacity() == next_pow2(old(self).heap_len())
                &&& final(self).is_reallocated()
            },
            final(self).buffer_capacity() >= final(self).heap_len(),
    {
        if self.vec_len <= self.buffer_capacity {
            return;
        }
        let new_capacity = next_power_of_two(self.vec_len);
        commands.push(
            HeapCommand::Grow { old_capacity: self.buffer_capacity, new_capacity: new_capacity },
        );
        self.buffer_capacity = new_capacity;
        self.reallocated = true;
    }

    /// Allocates `size` elements, in the first chunk that takes them or else
    /// in a new run of chunks of its own (which may make the buffer grow).
    fn allocate(&mut self, size: u32, commands: &mut Vec<HeapCommand>) -> (r: Option<Handle>)
        requires
            old(self).wf(),
            size >= 1,
        ensures
            final(self).wf(),
            final(self).is_dirty() == old(self).is_dirty(),
            // A chunk with no live allocation takes any request that fits its range.
            forall|c: int|
                0 <= c < old(self).allocators().len() && allocator_live(
                    #[trigger] old(self).allocators()[c],
                ).is_empty() && size <= allocator_capacity(old(self).allocators()[c]) ==> (r matches Some(
                    h,
                ) && h.chunk_index <= c),
            r is None ==> {
                &&& run_refused(old(self).heap_len(), size as nat)
                &&& forall|c: int|
                    0 <= c < old(self).allocators().len() ==> !#[trigger] allocator_fits(
                        old(self).allocators()[c],
                        size,
                    )
                &&& final(self).same_storage(*old(self))
                &&& final(self).is_reallocated() == old(self).is_reallocated()
                &&& final(commands)@ == old(commands)@
            },
            r matches Some(h) ==> {
                &&& h.size == size
                &&& !old(self).holds(h)
                &&& final(self).holds(h)
                &&& forall|g: Handle| #[trigger]
                    final(self).holds(g) <==> (old(self).holds(g) || g == h)
                &&& forall|c: int|
                    0 <= c < h.chunk_index ==> !#[trigger] allocator_fits(
                        old(self).allocators()[c],
                        size,
                    )
                &&& h.chunk_index <= old(self).allocators().len()
                &&& h.chunk_index < old(self).allocators().len() ==> {
                    &&& allocator_fits(old(self).allocators()[h.chunk_index as int], size)
                    &&& final(self).heap_len() == old(self).heap_len()
                    &&& final(self).buffer_capacity() == old(self).buffer_capacity()
                    &&& final(self).is_reallocated() == old(self).is_reallocated()
                    &&& final(commands)@ == old(commands)@
                    &&& forall|c: int|
                        0 <= c < old(self).allocators().len() && c != h.chunk_index
                            ==> #[trigger] final(self).allocators()[c]
                            == old(self).allocators()[c]
                }
                &&& h.chunk_index == old(self).allocators().len() ==> {
                    &&& final(self).heap_len() == old(self).heap_len() + span_len(size as nat)
                    &&& region_start(h) == old(self).heap_len()
                    &&& final(commands)@ == old(commands)@ + growth(
                        old(self).buffer_capacity(),
                        final(self).heap_len(),
                    )
                    &&& final(self).heap_len() <= old(self).buffer_capacity() ==> {
                        &&& final(self).buffer_capacity() == old(self).buffer_capacity()
                        &&& final(self).is_reallocated() == old(self).is_reallocated()
                    }
                    &&& final(self).heap_len() > old(self).buffer_capacity() ==> {
                        &&& final(self).buffer_capacity() == next_pow2(final(self).heap_len())
                        &&& final(self).is_reallocated()
                    }
                }
            },
    {
        let ghost old_heap = *self;
        let n = self.chunks.len();
        let mut i: usize = 0;
        while i < n
            invariant
                self.wf(),
                n == self.chunks@.len(),
                i <= n,
                forall|c: int| 0 <= c < i ==> !#[trigger] allocator_fits(self.allocators()[c], size),
                forall|c: int|
                    0 <= c < i ==> !(allocator_live(#[trigger] self.allocators()[c]).is_empty() && size
                        <= allocator_capacity(self.allocators()[c])),
                self.chunks@ == old_heap.chunks@,
                self.vec_len == old_heap.vec_len,
                self.buffer_capacity == old_heap.buffer_capacity,
                self.dirty == old_heap.dirty,
                self.reallocated == old_heap.reallocated,
                old_heap == *old(self),
                commands@ == old(commands)@,
                size >= 1,
            decreases n - i,
        {
            proof {
                assert(gpu_chunk_wf(self.allocators()[i as int], i as int, self.heap_len()));
            }
            let res = allocator_allocate(&mut self.chunks[i], size);
            match res {
                Some(allocation) => {
                    let h = Handle { chunk_index: i as u32, allocation, size };
                    proof {
                        self.lemma_allocate_in_chunk(old_heap, i as int, allocation, size);
                    }
                    return Some(h);
                },
                None => {
                    assert(self.chunks@ =~= old_heap.chunks@);
                },
            }
            i += 1;
        }
        // No chunk fits: a run of its own, of a power of two of chunks.
        let needed = (size as usize - 1) / CHUNK_SIZE as usize + 1;
        let k = next_power_of_two(needed);
        let limit = heap_limit_exec();
        let room = (limit - self.vec_len) / CHUNK_SIZE as usize;
        if k > room {
            return None;
        }
        proof {
            assert(k * 4096 <= limit - self.vec_len) by (nonlinear_arith)
                requires
                    k <= room,
                    room == (limit - self.vec_len) / 4096,
                    self.vec_len <= limit,
            ;
        }
        let capacity = k * CHUNK_SIZE as usize;
        if capacity > u32::MAX as usize {
            return None;
        }
        proof {
            lemma_next_pow2_at_least(needed as nat);
            assert(is_pow2(4096)) by {
                reveal_with_fuel(is_pow2, 14);
            }
            lemma_pow2_mul(k as nat, 4096);
        }
        let chunk_index = self.chunks.len() as u32;
        let mut run = allocator_with_max_allocs(capacity as u32, CHUNK_SIZE);
        let ghost fresh = run;
        let allocation = allocator_allocate(&mut run, size);
        proof {
            assert(allocator_live(fresh) =~= Map::<ChunkAllocation, u32>::empty());
        }
        let allocation = match allocation {
            Some(a) => a,
            None => {
                proof {
                    assert(false);
                }
                return None;
            },
        };
        self.chunks.push(run);
        proof {
            assert(self.chunks@.subrange(0, old_heap.chunks@.len() + 1int) =~= old_heap.chunks@.push(run));
        }
        let mut f: usize = 1;
        while f < k
            invariant
                1 <= f <= k,
                self.vec_len == old_heap.vec_len,
                self.buffer_capacity == old_heap.buffer_capacity,
                self.dirty == old_heap.dirty,
                self.reallocated == old_heap.reallocated,
                self.chunks@.len() == old_heap.chunks@.len() + f,
                self.chunks@.subrange(0, old_heap.chunks@.len() + 1int) == old_heap.chunks@.push(
                    run,
                ),
                forall|j: int|
                    old_heap.chunks@.len() < j < self.chunks@.len() ==> {
                        &&& allocator_capacity(#[trigger] self.chunks@[j]) == 0
                        &&& allocator_max_allocs(self.chunks@[j]) == 2
                        &&& allocator_live(self.chunks@[j]).is_empty()
                    },
            decreases k - f,
        {
            let filler = allocator_with_max_allocs(0, 2);
            self.chunks.push(filler);
            f += 1;
            proof {
                assert(self.chunks@.subrange(0, old_heap.chunks@.len() + 1int) =~= old_heap.chunks@.push(run));
            }
        }
        self.vec_len = self.vec_len + capacity;
        let h = Handle { chunk_index, allocation, size };
        proof {
            assert(self.chunks@.subrange(0, old_heap.chunks@.len() + 1int)[old_heap.chunks@.len() as int] == self.chunks@[old_heap.chunks@.len() as int]);
            self.lemma_new_run(old_heap, h, k as nat);
        }
        let ghost before_grow = *self;
        self.maybe_grow_buffer(commands);
        proof {
            assert forall|g: Handle| #[trigger] self.holds(g) == before_grow.holds(g) by {}
        }
        Some(h)
    }

    fn heap_free(&mut self, handle: Handle)
        requires
            old(self).wf(),
            old(self).holds(handle),
        ensures
            final(self).wf(),
            final(self).heap_len() == old(self).heap_len(),
            final(self).allocators().len() == old(self).allocators().len(),
            forall|c: int|
                0 <= c < old(self).allocators().len() && c != handle.chunk_index
                    ==> #[trigger] final(self).allocators()[c] == old(self).allocators()[c],
            final(self).buffer_capacity() == old(self).buffer_capacity(),
            final(self).is_dirty() == old(self).is_dirty(),
            final(self).is_reallocated() == old(self).is_reallocated(),
            forall|g: Handle| #[trigger]
                final(self).holds(g) <==> (old(self).holds(g) && g != handle),
            allocator_live(final(self).allocators()[handle.chunk_index as int]) == allocator_live(
                old(self).allocators()[handle.chunk_index as int],
            ).remove(handle.allocation),
            allocator_capacity(final(self).allocators()[handle.chunk_index as int])
                == allocator_capacity(old(self).allocators()[handle.chunk_index as int]),
    {
        let ghost old_heap = *self;
        let c = handle.chunk_index as usize;
        allocator_free(&mut self.chunks[c], handle.allocation);
        proof {
            assert(gpu_chunk_wf(old_heap.allocators()[c as int], c as int, old_heap.heap_len()));
            lemma_freed_keeps_wf(
                old_heap.allocators()[c as int],
                self.allocators()[c as int],
                handle.allocation,
            );
            assert forall|d: int| 0 <= d < self.allocators().len() implies #[trigger] gpu_chunk_wf(
                self.allocators()[d],
                d,
                self.heap_len(),
            ) by {
                assert(gpu_chunk_wf(old_heap.allocators()[d], d, old_heap.heap_len()));
                if d == c as int {
                    assert forall|al: ChunkAllocation| #[trigger]
                        allocator_live(self.allocators()[d]).contains_key(al) implies allocator_live(
                        self.allocators()[d],
                    )[al] > 0 by {
                        assert(allocator_live(old_heap.allocators()[d]).contains_key(al));
                    }
                }
            }
            assert forall|x: int, y: int|
                #![trigger allocator_capacity(self.allocators()[x]), allocator_capacity(self.allocators()[y])]
                0 <= x < y < self.allocators().len() && allocator_capacity(self.allocators()[y]) > 0
                    implies x * CHUNK_SIZE + allocator_capacity(self.allocators()[x]) <= y * CHUNK_SIZE by {
                assert(allocator_capacity(self.allocators()[x]) == allocator_capacity(old_heap.allocators()[x]));
                assert(allocator_capacity(self.allocators()[y]) == allocator_capacity(old_heap.allocators()[y]));
            }
            assert forall|g: Handle| #[trigger]
                self.holds(g) <==> (old_heap.holds(g) && g != handle) by {
                if g.chunk_index == handle.chunk_index && g.allocation == handle.allocation {
                    if old_heap.holds(g) {
                        assert(g == handle);
                    }
                }
            }
        }
    }

    /// Asks for `data_len` elements of data to be stored at the start of the
    /// region of `handle`, and for the rest of the region to be cleared.
    fn write_handle(&mut self, handle: Handle, data_len: usize, commands: &mut Vec<HeapCommand>)
        requires
            old(self).wf(),
            old(self).holds(handle),
            data_len <= handle.size,
        ensures
            final(self).same_storage(*old(self)),
            final(self).is_reallocated() == old(self).is_reallocated(),
            final(self).is_dirty() == (old(self).is_dirty() || write_region(
                handle,
                data_len as nat,
            ).len() > 0),
            final(commands)@ == old(commands)@ + write_region(handle, data_len as nat),
    {
        proof {
            self.lemma_region_in_bounds(handle);
        }
        let start = handle.vec_index(CHUNK_SIZE);
        let tail = handle.size as usize - data_len;
        if data_len > 0 {
            commands.push(HeapCommand::Write { start: start, len: data_len });
            self.dirty = true;
        }
        if tail > 0 {
            commands.push(HeapCommand::Zero { start: start + data_len, len: tail });
            self.dirty = true;
        }
        proof {
            assert(commands@ =~= old(commands)@ + write_region(handle, data_len as nat));
        }
    }

    /// Asks for the region of `handle` to be cleared.
    fn zero_handle(&mut self, handle: Handle, commands: &mut Vec<HeapCommand>)
        requires
            old(self).wf(),
            old(self).holds(handle),
        ensures
            final(self).same_storage(*old(self)),
            final(self).is_reallocated() == old(self).is_reallocated(),
            final(self).is_dirty() == (old(self).is_dirty() || handle.size > 0),
            final(commands)@ == old(commands)@ + zero_region(handle),
    {
        proof {
            self.lemma_region_in_bounds(handle);
        }
        let start = handle.vec_index(CHUNK_SIZE);
        if handle.size > 0 {
            commands.push(HeapCommand::Zero { start: start, len: handle.size as usize });
            self.dirty = true;
        } else {
            assert(commands@ =~= old(commands)@ + zero_region(handle));
        }
    }

    /// Clears the region of `handle` and returns it to its chunk.
    pub fn free_and_clear(&mut self, handle: Handle) -> (commands: Vec<HeapCommand>)
        requires
            old(self).wf(),
            old(self).holds(handle),
        ensures
            final(self).wf(),
            commands@ == zero_region(handle),
            fits(commands@, old(self).buffer_capacity()),
            final(self).heap_len() == old(self).heap_len(),
            final(self).allocators().len() == old(self).allocators().len(),
            forall|c: int|
                0 <= c < old(self).allocators().len() && c != handle.chunk_index
                    ==> #[trigger] final(self).allocators()[c] == old(self).allocators()[c],
            final(self).buffer_capacity() == old(self).buffer_capacity(),
            final(self).is_dirty() == (old(self).is_dirty() || handle.size > 0),
            final(self).is_reallocated() == old(self).is_reallocated(),
            forall|g: Handle| #[trigger]
                final(self).holds(g) <==> (old(self).holds(g) && g != handle),
    {
        let mut commands: Vec<HeapCommand> = Vec::new();
        proof {
            self.lemma_region_in_bounds(handle);
            lemma_zero_region_fits(handle, self.buffer_capacity());
        }
        self.zero_handle(handle, &mut commands);
        self.heap_free(handle);
        proof {
            assert(commands@ =~= zero_region(handle));
        }
        commands
    }

    /// If `handle` is `None`, allocates a new region with enough space for `data`, then updates `handle` to contain a handle to the new allocation, then writes `data` in the new region.
    ///
    /// If `handle` is `Some` and points to a region that's too small to contain `data`, clears and frees the region and allocates a new one, sets `handle` to point at the new one, then writes `data`.
    ///
    /// If `handle` is `Some` and points to a region that's big enough to contain `data`, then writes `data` into the region, and clears any remaining space at the end.
    /// `spare_capacity` is only applied when creating a fresh allocation; it is ignored when
    /// writing into an existing allocation that already fits the data.
    ///
    /// The new region has `data.len() + spare_capacity` elements (a size
    /// counted in `u32`). Only when its run is refused ([`run_refused`]: the
    /// heap would outgrow [`heap_limit`]) is no region allocated. The GPU work is returned as commands, to be
    /// carried out in order.
    pub fn allocate_or_grow_and_write(
        &mut self,
        handle: &mut Option<Handle>,
        data: &[T],
        spare_capacity: u32,
    ) -> (commands: Vec<HeapCommand>)
        requires
            old(self).wf(),
            *old(handle) matches Some(h) ==> old(self).holds(h),
            needs_new_region(*old(handle), data@.len()) ==> data@.len() + spare_capacity
                <= u32::MAX,
        ensures
            final(self).wf(),
            *final(handle) matches Some(h) ==> final(self).holds(h) && data@.len() <= h.size,
            // The commands keep inside the buffer, and leave it as the heap sees it.
            fits(commands@, old(self).buffer_capacity()),
            capacity_after(commands@, old(self).buffer_capacity()) == final(self).buffer_capacity(),
            final(self).buffer_capacity() >= old(self).buffer_capacity(),
            final(self).is_reallocated() == (old(self).is_reallocated() || has_growth(commands@)),
            // Nothing to store: the old region, if any, is cleared and kept.
            data@.len() == 0 ==> {
                &&& *final(handle) == *old(handle)
                &&& commands@ == zero_old(*old(handle))
                &&& final(self).same_storage(*old(self))
                &&& final(self).is_dirty() == (old(self).is_dirty() || zero_old(
                    *old(handle),
                ).len() > 0)
            },
            // The old region is big enough: the data goes there.
            *old(handle) matches Some(h) ==> (0 < data@.len() <= h.size ==> {
                &&& *final(handle) == *old(handle)
                &&& commands@ == write_region(h, data@.len())
                &&& final(self).same_storage(*old(self))
                &&& final(self).is_dirty()
            }),
            // No region, or too small a one: it is cleared and freed, and a new
            // one of `data.len() + spare_capacity` elements is allocated.
            needs_new_region(*old(handle), data@.len()) ==> {
                let n = data@.len() + spare_capacity;
                &&& final(self).is_dirty() == (old(self).is_dirty() || commands@.len() > 0)
                // A chunk left with no live allocation takes the request if it fits its range.
                &&& forall|c: int|
                    0 <= c < old(self).allocators().len() && #[trigger] old(self).live_after_free(
                        *old(handle),
                        c,
                    ).is_empty() && n <= allocator_capacity(old(self).allocators()[c])
                        ==> (*final(handle) matches Some(h) && h.chunk_index <= c)
                &&& *final(handle) is None ==> {
                    &&& run_refused(old(self).heap_len(), n as nat)
                    &&& commands@ == zero_old(*old(handle))
                    &&& forall|g: Handle| #[trigger]
                        final(self).holds(g) <==> (old(self).holds(g) && *old(handle) != Some(g))
                    &&& final(self).heap_len() == old(self).heap_len()
                    &&& final(self).buffer_capacity() == old(self).buffer_capacity()
                }
                &&& *final(handle) matches Some(h) ==> {
                    &&& h.size == n
                    &&& !old(self).holds(h)
                    &&& forall|g: Handle| #[trigger]
                        final(self).holds(g) <==> ((old(self).holds(g) && *old(handle) != Some(
                            g,
                        )) || g == h)
                    // The first chunk that fits is used (the freed chunk aside).
                    &&& forall|c: int|
                        0 <= c < h.chunk_index && (*old(handle) matches Some(oh) ==> c
                            != oh.chunk_index) ==> !#[trigger] allocator_fits(
                            old(self).allocators()[c],
                            n as u32,
                        )
                    &&& final(self).heap_len() == old(self).heap_len() ==> {
                        &&& h.chunk_index < old(self).allocators().len()
                        &&& commands@ == zero_old(*old(handle)) + write_region(h, data@.len())
                        &&& final(self).buffer_capacity() == old(self).buffer_capacity()
                    }
                    // A new run of chunks, only when no other chunk fits.
                    &&& final(self).heap_len() != old(self).heap_len() ==> {
                        &&& h.chunk_index == old(self).allocators().len()
                        &&& final(self).heap_len() == old(self).heap_len() + span_len(n as nat)
                        &&& region_start(h) == old(self).heap_len()
                        &&& commands@ == zero_old(*old(handle)) + growth(
                            old(self).buffer_capacity(),
                            final(self).heap_len(),
                        ) + write_region(h, data@.len())
                        &&& final(self).heap_len() <= old(self).buffer_capacity()
                            ==> final(self).buffer_capacity() == old(self).buffer_capacity()
                        &&& final(self).heap_len() > old(self).buffer_capacity()
                            ==> final(self).buffer_capacity() == next_pow2(final(self).heap_len())
                    }
                }
            },
    {
        let ghost old_heap = *self;
        let ghost old_handle = *handle;
        let mut commands: Vec<HeapCommand> = Vec::new();
        if data.len() == 0 {
            if let Some(h) = *handle {
                self.zero_handle(h, &mut commands);
            }
            proof {
                reveal_with_fuel(has_growth, 1);
                assert(commands@ =~= zero_old(old_handle));
                if let Some(h) = old_handle {
                    old_heap.lemma_region_in_bounds(h);
                    lemma_zero_region_fits(h, old_heap.buffer_capacity());
                }
            }
            return commands;
        }
        let needs_realloc = match *handle {
            None => true,
            Some(h) => data.len() > h.size as usize,
        };
        let ghost mut cleared: Seq<HeapCommand> = Seq::empty();
        if needs_realloc {
            if let Some(h) = *handle {
                *handle = None;
                self.zero_handle(h, &mut commands);
                self.heap_free(h);
            }
            let ghost freed = *self;
            proof {
                reveal_with_fuel(has_growth, 1);
                cleared = commands@;
                assert(cleared =~= zero_old(old_handle));
                if let Some(h) = old_handle {
                    old_heap.lemma_region_in_bounds(h);
                    lemma_zero_region_fits(h, old_heap.buffer_capacity());
                }
                assert forall|g: Handle| #[trigger]
                    freed.holds(g) <==> (old_heap.holds(g) && old_handle != Some(g)) by {}
            }
            let size = data.len() as u32 + spare_capacity;
            proof {
                assert forall|c: int|
                    0 <= c < old_heap.allocators().len() && #[trigger] old_heap.live_after_free(
                        old_handle,
                        c,
                    ).is_empty() implies allocator_live(freed.allocators()[c]).is_empty()
                    && allocator_capacity(freed.allocators()[c]) == allocator_capacity(
                    old_heap.allocators()[c],
                ) by {
                    if let Some(oh) = old_handle {
                        if oh.chunk_index as int != c {
                            assert(freed.allocators()[c] == old_heap.allocators()[c]);
                        }
                    }
                }
            }
            *handle = self.allocate(size, &mut commands);
            proof {
                if let Some(h) = *handle {
                    assert forall|g: Handle| #[trigger]
                        self.holds(g) <==> ((old_heap.holds(g) && old_handle != Some(g)) || g == h) by {
                        assert(self.holds(g) <==> (freed.holds(g) || g == h));
                    }
                    if old_heap.holds(h) {
                        assert(old_handle != Some(h));
                        assert(freed.holds(h));
                    }
                    assert forall|c: int|
                        0 <= c < h.chunk_index && (old_handle matches Some(oh) ==> c
                            != oh.chunk_index) implies !#[trigger] allocator_fits(
                        old_heap.allocators()[c],
                        size,
                    ) by {
                        assert(!allocator_fits(freed.allocators()[c], size));
                        assert(freed.allocators()[c] == old_heap.allocators()[c]);
                    }
                } else {
                    assert forall|g: Handle| #[trigger]
                        self.holds(g) <==> (old_heap.holds(g) && old_handle != Some(g)) by {
                        assert(self.holds(g) <==> freed.holds(g));
                    }
                }
                // The growth, if any, fits after the clearing.
                let grown = commands@.subrange(cleared.len() as int, commands@.len() as int);
                assert(commands@ =~= cleared + grown);
                if (*handle is Some) && self.heap_len() != old_heap.heap_len() {
                    assert(grown =~= growth(old_heap.buffer_capacity(), self.heap_len()));
                    lemma_growth_fits(old_heap.buffer_capacity(), self.heap_len());
                    lemma_next_pow2_at_least(self.heap_len());
                } else {
                    assert(grown =~= Seq::<HeapCommand>::empty());
                }
                lemma_fits_concat(cleared, grown, old_heap.buffer_capacity());
                lemma_has_growth_concat(cleared, grown);
            }
        }
        let ghost before_write = commands@;
        let ghost before_heap = *self;
        if let Some(h) = *handle {
            self.write_handle(h, data.len(), &mut commands);
        }
        proof {
            reveal_with_fuel(has_growth, 1);
            assert forall|g: Handle| #[trigger] self.holds(g) == before_heap.holds(g) by {}
            if !needs_realloc {
                assert(before_write =~= Seq::<HeapCommand>::empty());
            }
            if let Some(h) = *handle {
                before_heap.lemma_region_in_bounds(h);
                lemma_write_region_fits(h, data@.len(), before_heap.buffer_capacity());
                lemma_fits_concat(
                    before_write,
                    write_region(h, data@.len()),
                    old_heap.buffer_capacity(),
                );
                lemma_has_growth_concat(before_write, write_region(h, data@.len()));
                if needs_realloc {
                    assert(commands@ == before_write + write_region(h, data@.len()));
                } else {
                    assert(commands@ =~= write_region(old_handle.unwrap(), data@.len()));
                }
            } else {
                assert(commands@ == before_write);
            }
        }
        commands
    }

    /// Must be called after all writes for the frame and before the encoder is
    /// submitted (the caller finishes the staging belt).
    pub fn finish_belt(&mut self)
        ensures
            final(self).same_storage(*old(self)),
            !final(self).is_dirty(),
            final(self).is_reallocated() == old(self).is_reallocated(),
    {
        self.dirty = false;
    }

    /// Returns true if the GPU buffer was reallocated since the last call, and resets the flag.
    /// Check this after `finish_belt` to know whether bind groups need to be recreated.
    pub fn take_reallocated(&mut self) -> (reallocated: bool)
        ensures
            reallocated == old(self).is_reallocated(),
            final(self).same_storage(*old(self)),
            final(self).is_dirty() == old(self).is_dirty(),
            !final(self).is_reallocated(),
    {
        let r = self.reallocated;
        self.reallocated = false;
        r
    }

    pub fn len(&self) -> (n: usize)
        ensures
            n == self.heap_len(),
    {
        self.vec_len
    }

    /// The region of a live handle lies inside the heap, inside the range of
    /// its chunk's allocator, and is not empty.
    pub proof fn lemma_region_in_bounds(self, h: Handle)
        requires
            self.chunks_wf(),
            self.holds(h),
        ensures
            h.size > 0,
            region_start(h) >= h.chunk_index * CHUNK_SIZE,
            region_start(h) + h.size <= h.chunk_index * CHUNK_SIZE + allocator_capacity(
                self.allocators()[h.chunk_index as int],
            ),
            region_start(h) + h.size <= self.heap_len(),
            region_start(h) + h.size <= usize::MAX,
            region_start(h) <= u32::MAX,
    {
        let a = self.allocators()[h.chunk_index as int];
        assert(gpu_chunk_wf(a, h.chunk_index as int, self.heap_len()));
        assert(allocator_live(a).contains_key(h.allocation));
    }

    /// Storing data through one live handle, or clearing its region, never
    /// touches the region of another live handle.
    pub proof fn law_commands_spare_other_regions(self, h: Handle, len: nat, g: Handle)
        requires
            self.wf(),
            self.holds(h),
            self.holds(g),
            g != h,
            len <= h.size,
        ensures
            spares(write_region(h, len), region_start(g), g.size as int),
            spares(zero_region(h), region_start(g), g.size as int),
    {
        self.lemma_region_in_bounds(h);
        self.lemma_region_in_bounds(g);
        self.lemma_live_regions_disjoint(h, g);
        let w = write_region(h, len);
        assert forall|i: int| 0 <= i < w.len() implies match #[trigger] w[i] {
            HeapCommand::Zero { start: s, len: l } => ranges_disjoint(
                s as int,
                l as int,
                region_start(g),
                g.size as int,
            ),
            HeapCommand::Write { start: s, len: l } => ranges_disjoint(
                s as int,
                l as int,
                region_start(g),
                g.size as int,
            ),
            HeapCommand::Grow { .. } => true,
        } by {
            if len > 0 && i == 0 {
                assert(w[0] == HeapCommand::Write {
                    start: region_start(h) as usize,
                    len: len as usize,
                });
            } else {
                assert(w[i] == HeapCommand::Zero {
                    start: (region_start(h) + len) as usize,
                    len: (h.size - len) as usize,
                });
            }
        }
    }

    /// The regions of two different live handles share no element.
    pub proof fn lemma_live_regions_disjoint(self, h1: Handle, h2: Handle)
        requires
            self.chunks_wf(),
            self.holds(h1),
            self.holds(h2),
            h1 != h2,
        ensures
            ranges_disjoint(region_start(h1), h1.size as int, region_start(h2), h2.size as int),
    {
        self.lemma_region_in_bounds(h1);
        self.lemma_region_in_bounds(h2);
        let c1 = h1.chunk_index as int;
        let c2 = h2.chunk_index as int;
        if c1 == c2 {
            let a = self.allocators()[c1];
            assert(gpu_chunk_wf(a, c1, self.heap_len()));
            assert(h1.allocation != h2.allocation);
            assert(allocator_live(a).contains_key(h1.allocation));
            assert(allocator_live(a).contains_key(h2.allocation));
        } else if c1 < c2 {
            assert(allocator_capacity(self.allocators()[c2]) > 0);
            assert(c1 * CHUNK_SIZE + allocator_capacity(self.allocators()[c1]) <= c2 * CHUNK_SIZE);
        } else {
            assert(allocator_capacity(self.allocators()[c1]) > 0);
            assert(c2 * CHUNK_SIZE + allocator_capacity(self.allocators()[c2]) <= c1 * CHUNK_SIZE);
        }
    }

    /// The heap's length counts its chunks, and every live handle names one of
    /// them.
    pub proof fn law_length_counts_chunks(self, h: Handle)
        requires
            self.wf(),
            self.holds(h),
        ensures
            self.heap_len() == self.allocators().len() * CHUNK_SIZE,
            h.chunk_index * CHUNK_SIZE < self.heap_len(),
    {
    }

    proof fn lemma_allocate_in_chunk(
        self,
        old_heap: Self,
        c: int,
        al: ChunkAllocation,
        size: u32,
    )
        requires
            old_heap.wf(),
            size >= 1,
            0 <= c < old_heap.allocators().len(),
            self.heap_len() == old_heap.heap_len(),
            self.buffer_capacity() == old_heap.buffer_capacity(),
            self.allocators() == old_heap.allocators().update(c, self.allocators()[c]),
            allocated(old_heap.allocators()[c], self.allocators()[c], al, size),
        ensures
            self.wf(),
            c < 0x1_0000_0000,
            ({
                let h = Handle { chunk_index: c as u32, allocation: al, size };
                &&& !old_heap.holds(h)
                &&& self.holds(h)
                &&& forall|g: Handle| #[trigger] self.holds(g) <==> (old_heap.holds(g) || g == h)
            }),
    {
        let a = self.allocators()[c];
        let oa = old_heap.allocators()[c];
        assert(gpu_chunk_wf(oa, c, old_heap.heap_len()));
        assert(c < 0x1_0000_0000);
        lemma_allocated_keeps_wf(oa, a, al, size);
        assert forall|d: int| 0 <= d < self.allocators().len() implies #[trigger] gpu_chunk_wf(
            self.allocators()[d],
            d,
            self.heap_len(),
        ) by {
            assert(gpu_chunk_wf(old_heap.allocators()[d], d, old_heap.heap_len()));
            if d == c {
                assert forall|x: ChunkAllocation| #[trigger]
                    allocator_live(a).contains_key(x) implies allocator_live(a)[x] > 0 by {
                    if x != al {
                        assert(allocator_live(oa).contains_key(x));
                    }
                }
            }
        }
        assert forall|x: int, y: int|
            #![trigger allocator_capacity(self.allocators()[x]), allocator_capacity(self.allocators()[y])]
            0 <= x < y < self.allocators().len() && allocator_capacity(self.allocators()[y]) > 0
                implies x * CHUNK_SIZE + allocator_capacity(self.allocators()[x]) <= y * CHUNK_SIZE by {
            assert(allocator_capacity(self.allocators()[x]) == allocator_capacity(old_heap.allocators()[x]));
            assert(allocator_capacity(self.allocators()[y]) == allocator_capacity(old_heap.allocators()[y]));
        }
        let h = Handle { chunk_index: c as u32, allocation: al, size };
        assert forall|g: Handle| #[trigger] self.holds(g) <==> (old_heap.holds(g) || g == h) by {
            if g.chunk_index as int == c {
                if g.allocation == al {
                    if self.holds(g) {
                        assert(g == h);
                    }
                }
            }
        }
    }

    proof fn lemma_new_run(self, old_heap: Self, h: Handle, k: nat)
        requires
            old_heap.wf(),
            h.size >= 1,
            k >= 1,
            h.chunk_index == old_heap.allocators().len(),
            self.allocators().len() == old_heap.allocators().len() + k,
            self.allocators().subrange(0, old_heap.allocators().len() + 1int)
                == old_heap.allocators().push(self.allocators()[h.chunk_index as int]),
            forall|j: int|
                old_heap.allocators().len() < j < self.allocators().len() ==> {
                    &&& allocator_capacity(#[trigger] self.allocators()[j]) == 0
                    &&& allocator_max_allocs(self.allocators()[j]) == 2
                    &&& allocator_live(self.allocators()[j]).is_empty()
                },
            allocator_capacity(self.allocators()[h.chunk_index as int]) == k * CHUNK_SIZE,
            is_pow2(allocator_capacity(self.allocators()[h.chunk_index as int]) as nat),
            allocator_max_allocs(self.allocators()[h.chunk_index as int]) == CHUNK_SIZE,
            allocator_live(self.allocators()[h.chunk_index as int])
                == Map::<ChunkAllocation, u32>::empty().insert(h.allocation, h.size),
            allocation_offset(h.allocation) == 0,
            h.size <= k * CHUNK_SIZE,
            self.heap_len() == old_heap.heap_len() + k * CHUNK_SIZE,
            self.heap_len() <= heap_limit(),
        ensures
            self.chunks_wf(),
            !old_heap.holds(h),
            self.holds(h),
            region_start(h) == old_heap.heap_len(),
            forall|g: Handle| #[trigger] self.holds(g) <==> (old_heap.holds(g) || g == h),
    {
        let n = old_heap.allocators().len();
        let c = h.chunk_index as int;
        assert forall|d: int| 0 <= d < n implies self.allocators()[d] == old_heap.allocators()[d] by {
            assert(self.allocators().subrange(0, n + 1int)[d] == self.allocators()[d]);
        }
        assert(self.allocators().subrange(0, n + 1int)[n as int] == self.allocators()[n as int]);
        let run = self.allocators()[c];
        assert(chunk_wf(run)) by {
            assert forall|x: ChunkAllocation, y: ChunkAllocation|
                #[trigger] allocator_live(run).contains_key(x) && #[trigger] allocator_live(run).contains_key(y)
                    && x != y implies ranges_disjoint(
                allocation_offset(x) as int,
                allocator_live(run)[x] as int,
                allocation_offset(y) as int,
                allocator_live(run)[y] as int,
            ) by {}
        }
        assert forall|d: int| 0 <= d < self.allocators().len() implies #[trigger] gpu_chunk_wf(
            self.allocators()[d],
            d,
            self.heap_len(),
        ) by {
            if d < n {
                assert(gpu_chunk_wf(old_heap.allocators()[d], d, old_heap.heap_len()));
            } else if d == n {
                assert(self.allocators()[d] == run);
                assert(allocator_capacity(run) > 0);
                assert(is_pow2(allocator_capacity(run) as nat));
                assert(d * CHUNK_SIZE + allocator_capacity(run) <= self.heap_len());
                assert forall|al: ChunkAllocation| #[trigger]
                    allocator_live(run).contains_key(al) implies allocator_live(run)[al] > 0 by {
                    assert(al == h.allocation);
                }
            } else if d > n {
                let e = self.allocators()[d];
                assert(allocator_live(e).is_empty());
                assert forall|al: ChunkAllocation| #![trigger allocator_live(e).contains_key(al)]
                    !allocator_live(e).contains_key(al) by {}
                assert(d * CHUNK_SIZE <= self.heap_len());
            }
        }
        assert forall|x: int, y: int|
            #![trigger allocator_capacity(self.allocators()[x]), allocator_capacity(self.allocators()[y])]
            0 <= x < y < self.allocators().len() && allocator_capacity(self.allocators()[y]) > 0
                implies x * CHUNK_SIZE + allocator_capacity(self.allocators()[x]) <= y * CHUNK_SIZE by {
            if y < n {
                assert(self.allocators()[x] == old_heap.allocators()[x]);
                assert(self.allocators()[y] == old_heap.allocators()[y]);
            } else if y == n {
                assert(self.allocators()[x] == old_heap.allocators()[x]);
                assert(gpu_chunk_wf(old_heap.allocators()[x], x, old_heap.heap_len()));
            }
        }
        assert forall|g: Handle| #[trigger] self.holds(g) <==> (old_heap.holds(g) || g == h) by {
            let gc = g.chunk_index as int;
            if gc == c {
                if self.holds(g) {
                    assert(g == h);
                }
            } else if gc < c {
                assert(self.allocators()[gc] == old_heap.allocators()[gc]);
            } else if gc < self.allocators().len() {
                assert(allocator_live(self.allocators()[gc]).is_empty());
                assert(!allocator_live(self.allocators()[gc]).contains_key(g.allocation));
            }
        }
    }
}

} // verus!
