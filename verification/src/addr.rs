//! Physical and virtual address arithmetic shared by every component.

use vstd::prelude::*;

verus! {

/// Size in bytes of a physical frame and of a virtual page.
pub const FRAME_SIZE: u64 = 4096;

/// The frame index that contains the physical address `addr`.
pub open spec fn spec_frame_index(addr: u64) -> int {
    addr as int / FRAME_SIZE as int
}

/// The frame index that contains the physical address `addr`.
pub fn frame_index(addr: u64) -> (r: u64)
    ensures
        r == spec_frame_index(addr),
{
    addr / FRAME_SIZE
}

/// Convert a physical address to a virtual address through the direct map,
/// by adding the fixed offset supplied at boot.
pub fn phys_to_virt(paddr: u64, offset: u64) -> (r: u64)
    requires
        paddr + offset <= u64::MAX,
    ensures
        r == paddr + offset,
{
    paddr + offset
}

} // verus!
