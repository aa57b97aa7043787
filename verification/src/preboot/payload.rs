//! The kernel behind the boot code: where it starts, and whether it is one.
use vstd::prelude::*;

use crate::bytes::round_up;

verus! {

/// The kernel starts at a multiple of this.
pub const PAYLOAD_ALIGN: u64 = 0x20_0000;

/// Where a kernel tells its size.
pub const ARM64_IMAGE_SIZE_OFFSET: u64 = 16;

/// Where a kernel tells that it is one.
pub const ARM64_IMAGE_MAGIC_OFFSET: u64 = 56;

/// What a kernel tells there.
pub const ARM64_IMAGE_MAGIC: u32 = 0x644d_5241;

proof fn lemma_mask(v: u64, align: u64)
    by (bit_vector)
    requires
        align == 0x20_0000,
    ensures
        v & !((align - 1) as u64) == v - v % align,
{
}

/// A value rounded up to a multiple of the alignment of the kernel.
pub fn align_up(value: u64) -> (r: u64)
    requires
        value + PAYLOAD_ALIGN - 1 <= u64::MAX,
    ensures
        r == round_up(value as int, PAYLOAD_ALIGN as int),
{
    let v = value + (PAYLOAD_ALIGN - 1);
    proof {
        lemma_mask(v, PAYLOAD_ALIGN);
    }
    v & !(PAYLOAD_ALIGN - 1)
}

/// Where the kernel starts: behind the boot code, by where that is and how long it is.
pub fn payload_entry(base: u64, image_size: u64) -> (r: u64)
    requires
        base + image_size + PAYLOAD_ALIGN - 1 <= u64::MAX,
    ensures
        r == round_up(base + image_size, PAYLOAD_ALIGN as int),
{
    align_up(base + image_size)
}

/// Whether a kernel stands where it should, by its mark.
pub fn is_payload(magic: u32) -> (r: bool)
    ensures
        r == (magic == ARM64_IMAGE_MAGIC),
{
    magic == ARM64_IMAGE_MAGIC
}

/// The kernel starts behind the boot code, aligned, with less than one alignment between.
pub proof fn law_payload_follows(base: int, size: int)
    requires
        0 <= base,
        0 <= size,
    ensures
        base + size <= round_up(base + size, PAYLOAD_ALIGN as int) < base + size + PAYLOAD_ALIGN,
        round_up(base + size, PAYLOAD_ALIGN as int) % (PAYLOAD_ALIGN as int) == 0,
{
}

} // verus!
