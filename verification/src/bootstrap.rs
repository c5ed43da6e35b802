//! Bootstrap allocator: hands out single frames through the direct map
//! before the heap exists.

use vstd::prelude::*;
use crate::addr::FRAME_SIZE;
use crate::pmm::SystemFrameAllocator;

verus! {

/// The bootstrap allocation failed: no frame is available.
#[derive(Clone, Copy, Debug, PartialEq, Eq, Structural)]
pub struct AllocError;

/// An allocator of whole frames, made dereferenceable through the
/// direct-map offset; used by early boot code before the heap exists.
pub struct BootstrapAllocator;

impl BootstrapAllocator {
    /// Allocate one 4 KiB block: a frame from the PMM, returned as the
    /// virtual address where the direct map exposes it.
    pub fn allocate(&self, pmm: &mut SystemFrameAllocator, offset: u64, align: u64) -> (r: Result<
        u64,
        AllocError,
    >)
        requires
            old(pmm).wf(),
            align == FRAME_SIZE,
            offset + old(pmm).frames() * FRAME_SIZE <= u64::MAX,
        ensures
            final (pmm).wf(),
            match r {
                Ok(vaddr) => exists|f: u64|
                    {
                        &&& #[trigger] SystemFrameAllocator::alloc_transition(
                            *old(pmm),
                            *final (pmm),
                            Some(f),
                        )
                        &&& vaddr == f + offset
                    },
                Err(_) => {
                    &&& *final (pmm) == *old(pmm)
                    &&& !old(pmm).has_free_frame()
                },
            },
    {
        match pmm.allocate() {
            Some(frame) => {
                proof {
                    let ghost nf = old(pmm).frames();
                    assert(frame == (frame as int / FRAME_SIZE as int) * FRAME_SIZE);
                    assert(frame <= nf * FRAME_SIZE) by (nonlinear_arith)
                        requires
                            frame == (frame as int / FRAME_SIZE as int) * FRAME_SIZE,
                            (frame as int / FRAME_SIZE as int) < nf,
                            FRAME_SIZE == 4096,
                    ;
                }
                Ok(frame + offset)
            },
            None => Err(AllocError),
        }
    }

    /// Return the 4 KiB block at direct-map address `vaddr` to the PMM.
    /// Freeing an address that was never allocated is a caller error and
    /// out of contract.
    pub fn deallocate(&self, pmm: &mut SystemFrameAllocator, offset: u64, vaddr: u64, align: u64)
        requires
            old(pmm).wf(),
            align == FRAME_SIZE,
            vaddr >= offset,
            ((vaddr - offset) as int / FRAME_SIZE as int) < old(pmm).frames(),
            old(pmm).frame_used((vaddr - offset) as int / FRAME_SIZE as int),
        ensures
            final (pmm).wf(),
            SystemFrameAllocator::dealloc_transition(*old(pmm), *final (pmm), (vaddr - offset) as u64),
    {
        let paddr = vaddr - offset;
        pmm.deallocate(paddr);
    }
}

} // verus!
