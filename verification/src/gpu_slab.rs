//! An intrusive slab whose storage is uploaded to a GPU buffer.
//!
//! The slab keeps the free slots in a singly linked list that runs through
//! the free items themselves: each free item holds the index of the next free
//! slot, read and written through [`GpuSlabItem`]. The GPU side (the buffer,
//! its label, the upload itself) is done by the caller, which follows the
//! plan that [`GpuSlab::load_to_gpu`] returns.
use vstd::prelude::*;
use crate::pow2::{
    is_pow2, lemma_next_pow2_at_least, lemma_next_pow2_below_double, max_rounded, next_pow2,
    next_power_of_two,
};
use vstd::set_lib::{lemma_int_range, set_int_range};

verus! {

/// Trait implemented by user types to expose slab metadata stored inside the struct.
///
/// The slab relies on `next_free` reading back what `set_next_free` wrote,
/// and on `set_next_free` changing nothing else of the item. That is stated
/// over `free_link`, the link the item holds, and `with_free_link`, the item
/// with another link: an implementation returns from `free_link` what
/// `next_free` returns, and from `with_free_link` a copy on which
/// `set_next_free` was called.
pub trait GpuSlabItem: Sized {
    /// The free-list link that the item holds.
    spec fn free_link(&self) -> Option<usize>;

    /// Index of next free item in the free list.
    fn next_free(&self) -> (next: Option<usize>)
        ensures
            next == self.free_link(),
    ;

    /// The item with its free-list link set to `link`, and nothing else of it
    /// changed.
    spec fn with_free_link(self, link: Option<usize>) -> Self;

    /// Set the index of next free item in the free list.
    fn set_next_free(&mut self, i: Option<usize>)
        ensures
            *final(self) == old(self).with_free_link(i),
            final(self).free_link() == i,
    ;
}

/// What the caller must do on the GPU side to bring the buffer up to date.
#[derive(Clone, Copy, Debug, PartialEq, Eq)]
pub struct SlabUpload {
    /// `Some(capacity)`: replace the GPU buffer by a new one of `capacity` items.
    pub new_buffer_capacity: Option<usize>,
    /// Write the first `write_len` items of the slab to the start of the buffer
    /// (nothing when it is zero).
    pub write_len: usize,
}

/// A call that changes a slab: `insert(item)` returning an index, `remove(i)`,
/// writing `item` to an occupied slot `i` (through `get_mut` or `index_mut`),
/// or `load_to_gpu`.
pub enum SlabStep<T> {
    Insert(T, usize),
    Remove(usize),
    Write(usize, T),
    Upload,
}

/// Intrusive slab with GPU buffer for use on GPU.
///
/// This is a simplified slab that doesn't track occupied/unoccupied slots, which is fine
/// if we only need to refer to elements by index and we never have to iterate.
///
/// Items must implement `GpuSlabItem` to store the free list pointer when a slot is free.
pub struct GpuSlab<T: GpuSlabItem + Copy> {
    items: Vec<T>,
    first_free: Option<usize>,
    /// The free slots, in the order of the free list (head first).
    free: Ghost<Seq<usize>>,
    has_buffer: bool,
    buffer_capacity: usize,
    dirty: bool,
}

/// The link that the free slot at position `k` of the free list must hold.
pub open spec fn link_after(free: Seq<usize>, k: int) -> Option<usize> {
    if k + 1 < free.len() {
        Some(free[k + 1])
    } else {
        None
    }
}

/// The head of a free list.
pub open spec fn list_head(free: Seq<usize>) -> Option<usize> {
    if free.len() > 0 {
        Some(free[0])
    } else {
        None
    }
}

impl<T: GpuSlabItem + Copy> GpuSlab<T> {
    /// All the slots, occupied or free.
    pub closed spec fn slots(self) -> Seq<T> {
        self.items@
    }

    /// The free slots, in the order in which `insert` reuses them.
    pub closed spec fn free_slots(self) -> Seq<usize> {
        self.free@
    }

    /// Whether the items changed since the last upload.
    pub closed spec fn is_dirty(self) -> bool {
        self.dirty
    }

    /// Whether a GPU buffer exists.
    pub closed spec fn has_gpu_buffer(self) -> bool {
        self.has_buffer
    }

    /// The number of items the GPU buffer holds.
    pub closed spec fn gpu_capacity(self) -> usize {
        self.buffer_capacity
    }

    /// Slot `i` holds an item (it is in range and not on the free list).
    pub open spec fn is_occupied(self, i: usize) -> bool {
        i < self.slots().len() && !self.free_slots().contains(i)
    }

    /// The slab's own record of the head of its free list agrees with the list.
    pub closed spec fn head_recorded(self) -> bool {
        self.first_free == list_head(self.free@)
    }

    /// The slab's invariant: the free list visits distinct slots in range,
    /// its head is recorded, and each free slot links to the next one; and a
    /// clean slab with a buffer fits in it.
    pub open spec fn wf(self) -> bool {
        &&& !self.is_dirty() && self.has_gpu_buffer() ==> self.gpu_capacity() >= self.slots().len()
        &&& self.free_slots().no_duplicates()
        &&& forall|k: int|
            0 <= k < self.free_slots().len() ==> #[trigger] self.free_slots()[k]
                < self.slots().len()
        &&& self.head_recorded()
        &&& forall|k: int|
            0 <= k < self.free_slots().len() ==> #[trigger] self.slots()[self.free_slots()[k] as int].free_link()
                == link_after(self.free_slots(), k)
    }

    /// What `insert(item)` does, returning `index`: the head of the free list
    /// is reused if there is one, else the item is pushed at the end.
    pub open spec fn inserted(before: Self, after: Self, item: T, index: usize) -> bool {
        &&& after.wf()
        &&& after.is_dirty()
        &&& after.has_gpu_buffer() == before.has_gpu_buffer()
        &&& after.gpu_capacity() == before.gpu_capacity()
        &&& before.free_slots().len() > 0 ==> {
            &&& index == before.free_slots()[0]
            &&& after.slots() == before.slots().update(index as int, item)
            &&& after.free_slots() == before.free_slots().drop_first()
        }
        &&& before.free_slots().len() == 0 ==> {
            &&& index == before.slots().len()
            &&& after.slots() == before.slots().push(item)
            &&& after.free_slots() == before.free_slots()
        }
    }

    /// What `remove(i)` does: slot `i` goes to the head of the free list and
    /// holds the old head as its link; the other slots are untouched.
    pub open spec fn removed(before: Self, after: Self, i: usize) -> bool {
        &&& after.wf()
        &&& after.is_dirty()
        &&& after.has_gpu_buffer() == before.has_gpu_buffer()
        &&& after.gpu_capacity() == before.gpu_capacity()
        &&& after.free_slots() == seq![i] + before.free_slots()
        &&& after.slots().len() == before.slots().len()
        &&& forall|j: int|
            0 <= j < before.slots().len() && j != i ==> #[trigger] after.slots()[j]
                == before.slots()[j]
        &&& after.slots()[i as int] == before.slots()[i as int].with_free_link(
            list_head(before.free_slots()),
        )
        &&& after.slots()[i as int].free_link() == list_head(before.free_slots())
    }

    /// What `load_to_gpu` does, returning `plan`: nothing when the slab is
    /// clean and has a buffer; else a new buffer (rounded up to a power of
    /// two) when there is none or it is too small, and a write of all the
    /// items. Afterwards the slab is clean and its buffer holds every item.
    pub open spec fn uploaded(before: Self, after: Self, plan: Option<SlabUpload>) -> bool {
        &&& after.wf()
        &&& after.slots() == before.slots()
        &&& after.free_slots() == before.free_slots()
        &&& !after.is_dirty()
        &&& after.has_gpu_buffer()
        &&& after.gpu_capacity() >= after.slots().len()
        &&& !before.is_dirty() && before.has_gpu_buffer() ==> plan is None
            && after.gpu_capacity() == before.gpu_capacity()
        &&& before.is_dirty() || !before.has_gpu_buffer() ==> plan is Some
        &&& plan matches Some(up) ==> {
            &&& up.write_len == before.slots().len()
            &&& (up.new_buffer_capacity is Some) == (!before.has_gpu_buffer()
                || before.slots().len() > before.gpu_capacity())
            &&& up.new_buffer_capacity is None ==> after.gpu_capacity() == before.gpu_capacity()
            &&& up.new_buffer_capacity matches Some(cap) ==> {
                &&& cap == after.gpu_capacity()
                &&& cap == next_pow2(if before.slots().len() > 1 { before.slots().len() } else { 1 })
            }
        }
    }

    /// An insert puts the item in a slot that held none, and every other
    /// occupied slot keeps its item: indices stay valid until removed.
    pub proof fn law_insert_takes_a_free_slot(before: Self, after: Self, item: T, index: usize)
        requires
            before.wf(),
            Self::inserted(before, after, item, index),
        ensures
            !before.is_occupied(index),
            after.is_occupied(index),
            after.slots()[index as int] == item,
            forall|j: usize|
                before.is_occupied(j) && j != index ==> #[trigger] after.is_occupied(j)
                    && after.slots()[j as int] == before.slots()[j as int],
    {
        if before.free_slots().len() > 0 {
            assert(before.free_slots().contains(index));
            assert(before.free_slots().no_duplicates());
            assert forall|j: usize| before.is_occupied(j) && j != index implies #[trigger] after.is_occupied(j)
                && after.slots()[j as int] == before.slots()[j as int] by {
                if after.free_slots().contains(j) {
                    let k = choose|k: int| 0 <= k < after.free_slots().len() && after.free_slots()[k] == j;
                    assert(before.free_slots()[k + 1] == j);
                }
            }
            assert(!after.free_slots().contains(index)) by {
                if after.free_slots().contains(index) {
                    let k = choose|k: int| 0 <= k < after.free_slots().len() && after.free_slots()[k] == index;
                    assert(before.free_slots()[k + 1] == index);
                    assert(before.free_slots()[0] == index);
                }
            }
        }
    }

    /// Removing a slot frees it and no other: every other occupied slot stays
    /// occupied with its item.
    pub proof fn law_remove_frees_only_that_slot(before: Self, after: Self, i: usize)
        requires
            before.wf(),
            before.is_occupied(i),
            Self::removed(before, after, i),
        ensures
            !after.is_occupied(i),
            forall|j: usize|
                before.is_occupied(j) && j != i ==> #[trigger] after.is_occupied(j)
                    && after.slots()[j as int] == before.slots()[j as int],
    {
        assert(after.free_slots()[0] == i);
        assert forall|j: usize| before.is_occupied(j) && j != i implies #[trigger] after.is_occupied(j)
            && after.slots()[j as int] == before.slots()[j as int] by {
            if after.free_slots().contains(j) {
                let k = choose|k: int| 0 <= k < after.free_slots().len() && after.free_slots()[k] == j;
                assert(k > 0);
                assert(before.free_slots()[k - 1] == j);
            }
        }
    }

    /// The slot removed last is the one the next insert fills, and then the
    /// same slots are occupied as before the removal.
    pub proof fn law_insert_reuses_last_removed(
        s0: Self,
        i: usize,
        s1: Self,
        item: T,
        index: usize,
        s2: Self,
    )
        requires
            s0.wf(),
            s0.is_occupied(i),
            Self::removed(s0, s1, i),
            Self::inserted(s1, s2, item, index),
        ensures
            index == i,
            s2.slots()[i as int] == item,
            forall|j: usize| #[trigger] s2.is_occupied(j) <==> s0.is_occupied(j),
    {
        assert(s2.free_slots() =~= s0.free_slots());
        assert(s2.slots().len() == s0.slots().len());
    }

    /// Every insert, whether it fills a free slot or appends one, marks the
    /// slab for upload: the upload after it writes every slot, the new item
    /// included.
    pub proof fn law_insert_then_upload_writes_every_slot(
        s0: Self,
        item: T,
        index: usize,
        s1: Self,
        s2: Self,
        plan: Option<SlabUpload>,
    )
        requires
            s0.wf(),
            Self::inserted(s0, s1, item, index),
            Self::uploaded(s1, s2, plan),
        ensures
            s1.is_dirty(),
            plan matches Some(up) && up.write_len == s1.slots().len(),
            index < s2.slots().len(),
            s2.slots()[index as int] == item,
    {
        if s0.free_slots().len() > 0 {
            assert(s0.free_slots()[0] < s0.slots().len());
        }
    }

    /// Every remove marks the slab for upload: the upload after it writes
    /// every slot.
    pub proof fn law_remove_then_upload_writes_every_slot(
        s0: Self,
        i: usize,
        s1: Self,
        s2: Self,
        plan: Option<SlabUpload>,
    )
        requires
            s0.wf(),
            s0.is_occupied(i),
            Self::removed(s0, s1, i),
            Self::uploaded(s1, s2, plan),
        ensures
            s1.is_dirty(),
            plan matches Some(up) && up.write_len == s1.slots().len(),
    {
    }

    /// An upload asks for a new buffer exactly when there is none or the slab
    /// has more slots than it holds. A buffer that holds every slot is kept,
    /// at its size; a new one holds every slot and is larger than the old.
    pub proof fn law_upload_replaces_only_a_missing_or_small_buffer(
        before: Self,
        after: Self,
        plan: Option<SlabUpload>,
    )
        requires
            before.wf(),
            Self::uploaded(before, after, plan),
        ensures
            before.has_gpu_buffer() && before.slots().len() <= before.gpu_capacity() ==> {
                &&& after.gpu_capacity() == before.gpu_capacity()
                &&& plan matches Some(up) ==> up.new_buffer_capacity is None
            },
            !before.has_gpu_buffer() || before.slots().len() > before.gpu_capacity() ==> {
                &&& plan matches Some(up) && up.new_buffer_capacity == Some(after.gpu_capacity())
                &&& after.gpu_capacity() >= before.slots().len()
                &&& after.gpu_capacity() >= 1
                &&& before.has_gpu_buffer() ==> after.gpu_capacity() > before.gpu_capacity()
                // The smallest power of two that holds every slot (and at least one).
                &&& is_pow2(after.gpu_capacity() as nat)
                &&& after.gpu_capacity() < 2 * before.slots().len() || after.gpu_capacity() == 1
            },
    {
        if let Some(up) = plan {
            if up.new_buffer_capacity is Some {
                let m = if before.slots().len() > 1 { before.slots().len() } else { 1 };
                lemma_next_pow2_at_least(m as nat);
                lemma_next_pow2_below_double(m as nat);
            }
        }
    }

    /// Uploading twice in a row: the second upload has nothing to do.
    pub proof fn law_second_upload_does_nothing(
        s0: Self,
        s1: Self,
        plan1: Option<SlabUpload>,
        s2: Self,
        plan2: Option<SlabUpload>,
    )
        requires
            Self::uploaded(s0, s1, plan1),
            Self::uploaded(s1, s2, plan2),
        ensures
            plan2 is None,
            s2.slots() == s1.slots(),
            s2.gpu_capacity() == s1.gpu_capacity(),
    {
    }

    /// What `op` does, from the slab `before` to the slab `after`, by the
    /// contract of the call it stands for.
    pub open spec fn step(before: Self, op: SlabStep<T>, after: Self) -> bool {
        match op {
            SlabStep::Insert(item, index) => Self::inserted(before, after, item, index),
            SlabStep::Remove(i) => before.is_occupied(i) && Self::removed(before, after, i),
            SlabStep::Write(i, item) => {
                &&& before.is_occupied(i)
                &&& after.wf()
                &&& after.slots() == before.slots().update(i as int, item)
                &&& after.free_slots() == before.free_slots()
                &&& after.has_gpu_buffer() == before.has_gpu_buffer()
                &&& after.gpu_capacity() == before.gpu_capacity()
            },
            SlabStep::Upload => exists|plan: Option<SlabUpload>| Self::uploaded(before, after, plan),
        }
    }

    /// `op` leaves slot `i` alone: it neither removes it nor writes to it.
    pub open spec fn spares_slot(op: SlabStep<T>, i: usize) -> bool {
        match op {
            SlabStep::Remove(j) => j != i,
            SlabStep::Write(j, _) => j != i,
            _ => true,
        }
    }

    /// One call that spares an occupied slot keeps it occupied with its item,
    /// and never shrinks the slab.
    pub proof fn law_step_keeps_slot(before: Self, op: SlabStep<T>, after: Self, i: usize)
        requires
            before.wf(),
            before.is_occupied(i),
            Self::step(before, op, after),
            Self::spares_slot(op, i),
        ensures
            after.wf(),
            after.is_occupied(i),
            after.slots()[i as int] == before.slots()[i as int],
            after.slots().len() >= before.slots().len(),
    {
        match op {
            SlabStep::Insert(item, index) => {
                Self::law_insert_takes_a_free_slot(before, after, item, index);
            },
            SlabStep::Remove(j) => {
                Self::law_remove_frees_only_that_slot(before, after, j);
            },
            SlabStep::Write(j, item) => {},
            SlabStep::Upload => {},
        }
    }

    /// An index stays valid, holding its item, through any sequence of calls
    /// until `remove` is called on it (or its slot is written); the slab never
    /// shrinks meanwhile. `states[k + 1]` is the slab after `ops[k]` runs on
    /// `states[k]`.
    pub proof fn law_index_valid_until_removed(
        states: Seq<Self>,
        ops: Seq<SlabStep<T>>,
        i: usize,
    )
        requires
            states.len() == ops.len() + 1,
            states[0].wf(),
            states[0].is_occupied(i),
            forall|k: int| 0 <= k < ops.len() ==> #[trigger] Self::step(states[k], ops[k], states[k + 1]),
            forall|k: int| 0 <= k < ops.len() ==> #[trigger] Self::spares_slot(ops[k], i),
        ensures
            states.last().wf(),
            states.last().is_occupied(i),
            states.last().slots()[i as int] == states[0].slots()[i as int],
            states.last().slots().len() >= states[0].slots().len(),
        decreases ops.len(),
    {
        if ops.len() > 0 {
            let n = ops.len() - 1;
            let prefix = states.drop_last();
            let pops = ops.drop_last();
            assert forall|k: int| 0 <= k < pops.len() implies #[trigger] Self::step(prefix[k], pops[k], prefix[k + 1]) by {
                assert(Self::step(states[k], ops[k], states[k + 1]));
            }
            assert forall|k: int| 0 <= k < pops.len() implies #[trigger] Self::spares_slot(pops[k], i) by {
                assert(Self::spares_slot(ops[k], i));
            }
            Self::law_index_valid_until_removed(prefix, pops, i);
            assert(prefix.last() == states[n]);
            assert(Self::step(states[n], ops[n], states[n + 1]));
            assert(Self::spares_slot(ops[n], i));
            Self::law_step_keeps_slot(states[n], ops[n], states[n + 1], i);
        }
    }

    /// Once a slab in `states` has a buffer, the last one has a buffer at
    /// least as large.
    pub open spec fn buffer_kept(states: Seq<Self>) -> bool {
        forall|k: int|
            #![trigger states[k]]
            0 <= k < states.len() && states[k].has_gpu_buffer() ==> states.last().has_gpu_buffer()
                && states.last().gpu_capacity() >= states[k].gpu_capacity()
    }

    /// The indices that the `insert` calls among `ops` returned.
    pub open spec fn inserted_indices(ops: Seq<SlabStep<T>>) -> Set<int>
        decreases ops.len(),
    {
        if ops.len() == 0 {
            Set::empty()
        } else {
            let before = Self::inserted_indices(ops.drop_last());
            match ops.last() {
                SlabStep::Insert(_, index) => before.insert(index as int),
                _ => before,
            }
        }
    }

    /// What every call keeps: the slab stays well formed, its slot count
    /// changes only by an insert that appends (returning the old count), and
    /// a buffer, once there, stays and never shrinks.
    pub proof fn law_step_shape(before: Self, op: SlabStep<T>, after: Self)
        requires
            before.wf(),
            Self::step(before, op, after),
        ensures
            after.wf(),
            op matches SlabStep::Insert(_, index) ==> index <= before.slots().len() && (
            after.slots().len() == if index == before.slots().len() {
                before.slots().len() + 1
            } else {
                before.slots().len()
            }),
            !(op is Insert) ==> after.slots().len() == before.slots().len(),
            before.has_gpu_buffer() ==> after.has_gpu_buffer() && after.gpu_capacity()
                >= before.gpu_capacity(),
    {
        match op {
            SlabStep::Insert(item, index) => {
                if before.free_slots().len() > 0 {
                    assert(before.free_slots()[0] < before.slots().len());
                }
            },
            SlabStep::Upload => {
                let plan = choose|plan: Option<SlabUpload>| Self::uploaded(before, after, plan);
                if let Some(up) = plan {
                    if let Some(cap) = up.new_buffer_capacity {
                        let m = if before.slots().len() > 1 { before.slots().len() } else { 1 };
                        lemma_next_pow2_at_least(m);
                    }
                }
            },
            _ => {},
        }
    }

    /// From a slab with no slot (new, or cleared), through any sequence of
    /// calls: the slots are exactly the indices that `insert` handed out, so
    /// the slab's length counts them; and the buffer, once there, never
    /// shrinks and, after an upload, holds every slot. `states[k + 1]` is the
    /// slab after `ops[k]` runs on `states[k]`.
    pub proof fn law_length_counts_inserted_indices(states: Seq<Self>, ops: Seq<SlabStep<T>>)
        requires
            states.len() == ops.len() + 1,
            states[0].wf(),
            states[0].slots().len() == 0,
            forall|k: int| 0 <= k < ops.len() ==> #[trigger] Self::step(states[k], ops[k], states[k + 1]),
        ensures
            states.last().wf(),
            Self::inserted_indices(ops) == set_int_range(0, states.last().slots().len() as int),
            Self::inserted_indices(ops).len() == states.last().slots().len(),
            Self::buffer_kept(states),
            ops.len() > 0 && ops.last() is Upload ==> states.last().has_gpu_buffer()
                && states.last().gpu_capacity() >= states.last().slots().len(),
        decreases ops.len(),
    {
        if ops.len() == 0 {
            assert(set_int_range(0, 0) =~= Set::<int>::empty());
            assert(states.last() == states[0]);
            assert forall|k: int|
                #![trigger states[k]]
                0 <= k < states.len() && states[k].has_gpu_buffer() implies states.last().has_gpu_buffer()
                    && states.last().gpu_capacity() >= states[k].gpu_capacity() by {
                assert(k == 0);
                assert(states[k] == states.last());
            }
        } else {
            let n = ops.len() - 1;
            let prefix = states.drop_last();
            let pops = ops.drop_last();
            assert forall|k: int| 0 <= k < pops.len() implies #[trigger] Self::step(prefix[k], pops[k], prefix[k + 1]) by {
                assert(Self::step(states[k], ops[k], states[k + 1]));
            }
            Self::law_length_counts_inserted_indices(prefix, pops);
            assert(prefix.last() == states[n]);
            assert(Self::step(states[n], ops[n], states[n + 1]));
            Self::law_step_shape(states[n], ops[n], states[n + 1]);
            let len0 = states[n].slots().len() as int;
            let s0 = Self::inserted_indices(pops);
            assert(s0 == set_int_range(0, len0));
            match ops[n] {
                SlabStep::Insert(_, index) => {
                    if index == len0 {
                        assert(Self::inserted_indices(ops) =~= set_int_range(0, len0 + 1));
                    } else {
                        assert(Self::inserted_indices(ops) =~= set_int_range(0, len0));
                    }
                },
                _ => {
                    assert(Self::inserted_indices(ops) =~= set_int_range(0, len0));
                },
            }
            lemma_int_range(0, states.last().slots().len() as int);
            assert(states.last() == states[n + 1]);
            assert forall|k: int|
                #![trigger states[k]]
                0 <= k < states.len() && states[k].has_gpu_buffer() implies states.last().has_gpu_buffer()
                    && states.last().gpu_capacity() >= states[k].gpu_capacity() by {
                if k < n + 1 {
                    assert(prefix[k] == states[k]);
                }
            }
            if ops[n] is Upload {
                let sn = states[n];
                let sn1 = states[n + 1];
                let plan = choose|plan: Option<SlabUpload>| #[trigger] Self::uploaded(sn, sn1, plan);
                assert(Self::uploaded(sn, sn1, plan));
            }
        }
    }

    /// Create a new `GpuSlab` with at least the specified capacity.
    /// The GPU buffer will be created on first call to `load_to_gpu`.
    pub fn with_capacity(capacity: usize) -> (slab: Self)
        ensures
            slab.wf(),
            slab.slots() == Seq::<T>::empty(),
            slab.free_slots() == Seq::<usize>::empty(),
            !slab.has_gpu_buffer(),
            slab.gpu_capacity() == 0,
            slab.is_dirty(),
    {
        GpuSlab {
            items: Vec::with_capacity(capacity),
            first_free: None,
            free: Ghost(Seq::empty()),
            has_buffer: false,
            buffer_capacity: 0,
            dirty: true,
        }
    }

    /// Create a new `GpuSlab` whose GPU buffer, of `capacity` items, the caller
    /// has just created.
    pub fn new(capacity: usize) -> (slab: Self)
        ensures
            slab.wf(),
            slab.slots() == Seq::<T>::empty(),
            slab.free_slots() == Seq::<usize>::empty(),
            slab.has_gpu_buffer(),
            slab.gpu_capacity() == capacity,
            !slab.is_dirty(),
    {
        GpuSlab {
            items: Vec::with_capacity(capacity),
            first_free: None,
            free: Ghost(Seq::empty()),
            has_buffer: true,
            buffer_capacity: capacity,
            dirty: false,
        }
    }

    /// Insert an item in the slab and return an index into it.
    ///
    /// The index is stable and guaranteed to be valid until [`GpuSlab::remove()`] is called on it.
    pub fn insert(&mut self, item: T) -> (index: usize)
        requires
            old(self).wf(),
            old(self).free_slots().len() == 0 ==> old(self).slots().len() < usize::MAX,
        ensures
            Self::inserted(*old(self), *final(self), item, index),
    {
        self.dirty = true;
        if let Some(first) = self.first_free {
            let ghost free = self.free@;
            proof {
                assert(self.items@[free[0] as int].free_link() == link_after(free, 0));
            }
            let next = self.items[first].next_free();
            self.first_free = next;
            self.items.set(first, item);
            self.free = Ghost(free.drop_first());
            proof {
                let nf = free.drop_first();
                assert forall|k: int| 0 <= k < nf.len() implies #[trigger] self.items@[nf[k] as int].free_link()
                    == link_after(nf, k) by {
                    assert(nf[k] == free[k + 1]);
                    assert(free[k + 1] != free[0]);
                    assert(self.items@[free[k + 1] as int].free_link() == link_after(free, k + 1));
                }
                assert forall|k: int| 0 <= k < nf.len() implies #[trigger] nf[k] < self.items@.len() by {
                    assert(free[k + 1] < self.items@.len());
                }
            }
            first
        } else {
            let idx = self.items.len();
            self.items.push(item);
            idx
        }
    }

    /// Remove an item.
    ///
    /// Removing an already-removed item will either panic or cause incorrect behavior.
    pub fn remove(&mut self, i: usize)
        requires
            old(self).wf(),
            old(self).is_occupied(i),
        ensures
            Self::removed(*old(self), *final(self), i),
    {
        self.dirty = true;
        let ghost free = self.free@;
        let next = self.first_free;
        let mut item = self.items[i];
        item.set_next_free(next);
        self.items.set(i, item);
        self.first_free = Some(i);
        self.free = Ghost(seq![i] + free);
        proof {
            let nf = seq![i] + free;
            assert forall|a: int, b: int| 0 <= a < nf.len() && 0 <= b < nf.len() && a != b implies nf[a] != nf[b] by {
                if a > 0 && b > 0 {
                    assert(nf[a] == free[a - 1]);
                    assert(nf[b] == free[b - 1]);
                } else if a == 0 {
                    assert(nf[b] == free[b - 1]);
                    assert(free.contains(free[b - 1]));
                } else {
                    assert(nf[a] == free[a - 1]);
                    assert(free.contains(free[a - 1]));
                }
            }
            assert forall|k: int| 0 <= k < nf.len() implies #[trigger] nf[k] < self.items@.len() by {
                if k > 0 {
                    assert(nf[k] == free[k - 1]);
                }
            }
            assert forall|k: int| 0 <= k < nf.len() implies #[trigger] self.items@[nf[k] as int].free_link()
                == link_after(nf, k) by {
                if k > 0 {
                    assert(nf[k] == free[k - 1]);
                    assert(free.contains(free[k - 1]));
                    assert(self.items@[free[k - 1] as int].free_link() == link_after(free, k - 1));
                }
            }
        }
    }

    /// Get the number of slots (including free slots).
    pub fn len(&self) -> (n: usize)
        ensures
            n == self.slots().len(),
    {
        self.items.len()
    }

    /// Get a mutable reference to an item.
    ///
    /// A free slot can be borrowed too; the slab stays well formed as long as
    /// the free-list link it holds is left as it was.
    pub fn get_mut(&mut self, i: usize) -> (item: &mut T)
        requires
            old(self).wf(),
            i < old(self).slots().len(),
        ensures
            old(self).is_occupied(i) || (*final(item)).free_link() == old(
                self,
            ).slots()[i as int].free_link() ==> final(self).wf(),
            *item == old(self).slots()[i as int],
            final(self).slots() == old(self).slots().update(i as int, *final(item)),
            final(self).free_slots() == old(self).free_slots(),
            final(self).is_dirty(),
            final(self).has_gpu_buffer() == old(self).has_gpu_buffer(),
            final(self).gpu_capacity() == old(self).gpu_capacity(),
    {
        self.dirty = true;
        &mut self.items[i]
    }

    /// The item in slot `i`.
    pub fn index(&self, i: usize) -> (item: &T)
        requires
            i < self.slots().len(),
        ensures
            *item == self.slots()[i as int],
    {
        &self.items[i]
    }

    /// A mutable reference to the item in slot `i`; like `get_mut`.
    pub fn index_mut(&mut self, i: usize) -> (item: &mut T)
        requires
            old(self).wf(),
            i < old(self).slots().len(),
        ensures
            old(self).is_occupied(i) || (*final(item)).free_link() == old(
                self,
            ).slots()[i as int].free_link() ==> final(self).wf(),
            *item == old(self).slots()[i as int],
            final(self).slots() == old(self).slots().update(i as int, *final(item)),
            final(self).free_slots() == old(self).free_slots(),
            final(self).is_dirty(),
            final(self).has_gpu_buffer() == old(self).has_gpu_buffer(),
            final(self).gpu_capacity() == old(self).gpu_capacity(),
    {
        self.dirty = true;
        &mut self.items[i]
    }

    /// Clear all items from the slab.
    pub fn clear(&mut self)
        requires
            old(self).wf(),
        ensures
            final(self).wf(),
            final(self).slots() == Seq::<T>::empty(),
            final(self).free_slots() == Seq::<usize>::empty(),
            final(self).is_dirty() == (old(self).is_dirty() || old(self).slots().len() > 0),
            final(self).has_gpu_buffer() == old(self).has_gpu_buffer(),
            final(self).gpu_capacity() == old(self).gpu_capacity(),
    {
        if !self.items.is_empty() {
            self.items.clear();
            self.first_free = None;
            self.free = Ghost(Seq::empty());
            self.dirty = true;
        } else {
            proof {
                if self.free@.len() > 0 {
                    assert(self.free@[0] < self.items@.len());
                }
                assert(self.free@ =~= Seq::<usize>::empty());
            }
        }
    }

    /// Get a reference to the item storage as a slice, including both occupied and unoccupied items.
    pub fn as_slice(&self) -> (all: &[T])
        ensures
            all@ == self.slots(),
    {
        self.items.as_slice()
    }

    /// Decides what bringing the GPU buffer up to date takes, and records it
    /// as done: the caller then makes the buffer (when asked to) and writes the
    /// items. `None` means there is nothing to do; the buffer was reallocated
    /// exactly when `new_buffer_capacity` is `Some`.
    ///
    /// For slabs created with `with_capacity`, this will create the buffer on first call.
    pub fn load_to_gpu(&mut self) -> (plan: Option<SlabUpload>)
        requires
            old(self).wf(),
            old(self).slots().len() <= max_rounded(),
        ensures
            Self::uploaded(*old(self), *final(self), plan),
    {
        if !self.dirty && self.has_buffer {
            return None;
        }
        let len = self.items.len();
        let needs_new_buffer = !self.has_buffer || len > self.buffer_capacity;
        let mut new_buffer_capacity = None;
        if needs_new_buffer {
            let at_least_one = if len > 1 { len } else { 1 };
            let capacity = next_power_of_two(at_least_one);
            self.buffer_capacity = capacity;
            self.has_buffer = true;
            new_buffer_capacity = Some(capacity);
        }
        self.dirty = false;
        Some(SlabUpload { new_buffer_capacity, write_len: len })
    }
}

} // verus!
