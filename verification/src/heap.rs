//! Heap bootstrap: carve one fixed-size, fully backed virtual range out of
//! the VMM for the kernel's general-purpose dynamic allocator.

use vstd::prelude::*;
use crate::addr::FRAME_SIZE;
use crate::paging::{PageFlags, PageTableStore};
use crate::pmm::SystemFrameAllocator;
use crate::pmm::free_count;
use crate::vmm::{pages_for, range_backed, range_mapped, VMAlloc, VMALLOC_SIZE};

verus! {

/// Size in bytes of the kernel heap. The heap is created exactly once at
/// boot and never grown or shrunk: a fixed-size heap is an explicit,
/// documented limitation.
pub const HEAP_SIZE: u64 = 100 * 1024;

/// The backed virtual range handed to the dynamic allocator.
#[derive(Clone, Copy, Debug, PartialEq, Eq, Structural)]
pub struct HeapRange {
    /// First virtual address of the heap.
    pub start: u64,
    /// Size of the heap in bytes, a whole number of pages.
    pub size: u64,
}

/// Failure to stand the heap up. The kernel cannot proceed without a heap,
/// so the caller treats this as fatal at boot.
#[derive(Clone, Copy, Debug, PartialEq, Eq, Structural)]
pub enum HeapError {
    /// The VMM could not provide a backed range: virtual or physical
    /// memory is exhausted.
    AllocationFailed,
}

/// Initialize the heap: request one fixed-size allocation from the VMM,
/// mapped readable and writable, and return the backed range for the
/// dynamic allocator to take over.
pub fn init(vmm: &mut VMAlloc, store: &mut PageTableStore, pmm: &mut SystemFrameAllocator) -> (r:
    Result<HeapRange, HeapError>)
    requires
        old(vmm).wf(),
        old(store).wf(),
        old(store).wf_space(old(vmm).address_space.root as int),
        old(pmm).wf(),
        old(vmm).free_mappable(*old(store)),
        old(store).table_count() + 3 * ((VMALLOC_SIZE / FRAME_SIZE) as int) <= usize::MAX,
    ensures
        final (vmm).wf(),
        final (store).wf(),
        final (store).wf_space(final (vmm).address_space.root as int),
        final (pmm).wf(),
        final (vmm).free_mappable(*final (store)),
        final (vmm).address_space == old(vmm).address_space,
        (exists|j: int|
            0 <= j < old(vmm).free_list@.len() && (#[trigger] old(vmm).free_list@[j]).len
                >= HEAP_SIZE) && free_count(*old(pmm)) >= 4 * pages_for(HEAP_SIZE) ==> r is Ok,
        match r {
            Ok(h) => {
                &&& h.size == HEAP_SIZE
                &&& h.size == pages_for(HEAP_SIZE) * FRAME_SIZE
                &&& range_backed(
                    *final (store),
                    final (vmm).address_space.root as int,
                    *final (pmm),
                    h.start,
                    pages_for(HEAP_SIZE),
                )
                &&& range_mapped(
                    *final (store),
                    final (vmm).address_space.root as int,
                    h.start,
                    pages_for(HEAP_SIZE),
                    PageFlags { present: true, writable: true },
                )
                &&& final (vmm).allocated == old(vmm).allocated + HEAP_SIZE
            },
            Err(e) => {
                &&& e == HeapError::AllocationFailed
                &&& final (vmm).allocated == old(vmm).allocated
            },
        },
{
    let flags = PageFlags { present: true, writable: true };
    proof {
        assert(pages_for(HEAP_SIZE) * FRAME_SIZE == HEAP_SIZE);
    }
    match vmm.allocate(store, pmm, HEAP_SIZE, flags) {
        Some(start) => Ok(HeapRange { start, size: HEAP_SIZE }),
        None => Err(HeapError::AllocationFailed),
    }
}

} // verus!
