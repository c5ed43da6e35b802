//! Memory-system orchestration: stand the PMM, the paging model and the VMM
//! up from the boot memory map, as one explicit state object with a
//! one-time-initialization lifecycle.

use vstd::prelude::*;
use crate::paging::{PageTableStore, VAddressSpace};
use crate::pmm::{
    bitmap_bytes, fits_bitmap, init_used, regions_wf, total_frames, PmmError, Region,
    SystemFrameAllocator,
};
use crate::vmm::{FreeVMRegion, VMAlloc, VMALLOC_SIZE, VMALLOC_START};

verus! {

/// The whole memory subsystem: physical frames, live translation state and
/// the managed virtual range. Created once at boot and owned for the
/// kernel's lifetime.
pub struct MemorySystem {
    pub pmm: SystemFrameAllocator,
    pub store: PageTableStore,
    pub vmm: VMAlloc,
    /// The direct-map offset: added to any physical address, it yields a
    /// dereferenceable virtual address.
    pub physical_memory_offset: u64,
}

impl MemorySystem {
    /// Every component is well formed and they agree: the VMM's address
    /// space lives in the store and all of its free pages can be mapped.
    pub open spec fn wf(self) -> bool {
        &&& self.pmm.wf()
        &&& self.store.wf()
        &&& self.store.wf_space(self.vmm.address_space.root as int)
        &&& self.vmm.wf()
        &&& self.vmm.free_mappable(self.store)
    }

    /// The direct-map offset supplied at boot.
    pub fn physical_memory_offset(&self) -> (r: u64)
        ensures
            r == self.physical_memory_offset,
    {
        self.physical_memory_offset
    }

    /// Convert a physical address to a virtual address through the direct
    /// map.
    pub fn phys_to_virt(&self, paddr: u64) -> (r: u64)
        requires
            paddr + self.physical_memory_offset <= u64::MAX,
        ensures
            r == paddr + self.physical_memory_offset,
    {
        crate::addr::phys_to_virt(paddr, self.physical_memory_offset)
    }
}

/// Initialize memory allocation facilities from the boot memory map.
///
/// Builds the physical frame allocator over the map, then the virtual
/// memory manager over the active address space, whose root table occupies
/// `active_root_frame` (as the hardware reports it). Fails only when no
/// usable region can hold the frame bitmap, which is fatal at boot.
pub fn init(regions: &Vec<Region>, physical_memory_offset: u64, active_root_frame: u64) -> (r:
    Result<MemorySystem, PmmError>)
    requires
        regions@.len() > 0,
        regions_wf(regions@),
        total_frames(regions@) >= 1,
        total_frames(regions@) + 31 <= usize::MAX,
    ensures
        match r {
            Ok(m) => {
                &&& m.wf()
                &&& m.physical_memory_offset == physical_memory_offset
                &&& m.pmm.frames() == total_frames(regions@)
                &&& forall|f: int|
                    0 <= f < m.pmm.frames() ==> (#[trigger] m.pmm.frame_used(f) <==> init_used(
                        regions@,
                        m.pmm.spec_bitmap_base(),
                        f,
                    ))
                &&& m.vmm.allocated == 0
                &&& m.vmm.free_list@.len() == 1
                &&& m.vmm.free_list@[0] == (FreeVMRegion {
                    base: VMALLOC_START,
                    len: VMALLOC_SIZE,
                })
                &&& m.store.table_count() == 1
                &&& forall|w: u64|
                    m.store.translate(m.vmm.address_space.root as int, #[trigger] (w & w)) is None
            },
            Err(e) => {
                &&& e == PmmError::NoBitmapSpace
                &&& forall|i: int|
                    0 <= i < regions@.len() ==> !fits_bitmap(
                        #[trigger] regions@[i],
                        bitmap_bytes(regions@),
                    )
            },
        },
{
    let pmm = match SystemFrameAllocator::new(regions) {
        Ok(p) => p,
        Err(e) => {
            return Err(e);
        },
    };

    let mut store = PageTableStore::new();
    let root = store.add_root(active_root_frame);
    let address_space = VAddressSpace { l4_page_table: active_root_frame, root };
    let vmm = VMAlloc::new(address_space);

    proof {
        assert forall|w: u64| store.can_map(root as int, w) && store.translate(
            root as int,
            #[trigger] (w & w),
        ) is None by {
            assert(w & w == w) by (bit_vector);
            assert(store.entry(root as int, crate::paging::l4_index(w)) is Missing);
        }
    }
    Ok(MemorySystem { pmm, store, vmm, physical_memory_offset })
}

} // verus!
