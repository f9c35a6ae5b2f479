//! `keru_text` keeps the GPU-side storage of a text renderer: an intrusive
//! slab of GPU items, heaps of chunked allocations, and the small value types
//! shared with the renderer.
//!
//! What touches the GPU itself (buffers, staging belts, encoders) is left to
//! the caller; the types here decide what has to be done and return it.
use vstd::prelude::*;

pub mod pow2;
pub mod chunk_allocator;
pub mod chunk_invariants;
pub mod offset_allocator_heap;
pub mod gpu_slab;
pub mod gpu_heap;

verus! {

/// A color, as four 8-bit channels (red, green, blue, alpha).
#[derive(Clone, Copy, Debug, PartialEq)]
pub struct ColorBrush(pub [u8; 4]);

/// Style configuration for text edit boxes.
///
/// Contains color settings that are specific to text edit behavior (disabled/placeholder states).
#[derive(Clone, Debug, PartialEq)]
pub struct TextEditStyle {
    /// Color to use when text is disabled
    pub disabled_text_color: ColorBrush,
    /// Color to use for placeholder text
    pub placeholder_text_color: ColorBrush,
}

impl Default for TextEditStyle {
    fn default() -> (style: Self)
        ensures
            style.disabled_text_color.0@ == seq![128u8, 128u8, 128u8, 255u8],
            style.placeholder_text_color.0@ == seq![70u8, 70u8, 70u8, 255u8],
    {
        let style = Self {
            disabled_text_color: ColorBrush([128, 128, 128, 255]),
            placeholder_text_color: ColorBrush([70, 70, 70, 255]),
        };
        assert(style.disabled_text_color.0@ =~= seq![128u8, 128u8, 128u8, 255u8]);
        assert(style.placeholder_text_color.0@ =~= seq![70u8, 70u8, 70u8, 255u8]);
        style
    }
}

/// A handle to a retained group transform.
#[derive(Debug, Clone, Copy, PartialEq, Eq)]
pub struct GroupTransformHandle(pub(crate) usize);

impl GroupTransformHandle {
    /// The slot of the transform in the renderer's slab of group transforms.
    pub closed spec fn slot(self) -> usize {
        self.0
    }

    /// A handle to the always-present identity transform (the first slot).
    pub fn identity() -> (handle: Self)
        ensures
            handle.slot() == 0,
    {
        Self(0)
    }
}

/// The bit pattern that a free `GroupTransform` slot stores (in the bits of
/// its padding float) to mark the end of the free list.
pub const END_OF_FREE_LIST: u32 = 0xffff_ffff;

/// The free-list link that the padding bits `bits` of a `GroupTransform` hold.
pub open spec fn link_from_bits(bits: u32) -> Option<usize> {
    if bits == END_OF_FREE_LIST {
        None
    } else {
        Some(bits as usize)
    }
}

/// The padding bits that store the free-list link `link`: the index cut to
/// 32 bits, or the end marker.
pub open spec fn link_to_bits(link: Option<usize>) -> u32 {
    match link {
        Some(idx) => idx as u32,
        None => END_OF_FREE_LIST,
    }
}

/// Reads the free-list link of a `GroupTransform` from the bits of its padding
/// float (`GpuSlabItem::next_free`).
pub fn group_transform_next_free(bits: u32) -> (link: Option<usize>)
    ensures
        link == link_from_bits(bits),
{
    if bits == END_OF_FREE_LIST {
        None
    } else {
        Some(bits as usize)
    }
}

/// The bits that a `GroupTransform`'s padding float takes to store the
/// free-list link `link` (`GpuSlabItem::set_next_free`).
pub fn group_transform_link_bits(link: Option<usize>) -> (bits: u32)
    ensures
        bits == link_to_bits(link),
{
    match link {
        Some(idx) => idx as u32,
        None => END_OF_FREE_LIST,
    }
}

/// Reading back the stored bits gives the link that was stored, for every
/// link that fits below the end marker.
pub proof fn lemma_link_bits_roundtrip(link: Option<usize>)
    requires
        link matches Some(idx) ==> idx < END_OF_FREE_LIST,
    ensures
        link_from_bits(link_to_bits(link)) == link,
{
}

} // verus!
