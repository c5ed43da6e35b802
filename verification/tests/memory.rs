use monoos::heap;
use monoos::mem;
use monoos::paging::{PageFlags, PageTableStore, VAddressSpace};
use monoos::pmm::{Region, RegionKind, SystemFrameAllocator};
use monoos::vmm::{VMALLOC_SIZE, VMALLOC_START};
use monoos::bootstrap::BootstrapAllocator;
use monoos::addr::{frame_index, phys_to_virt};
use monoos::FRAME_SIZE;

fn small_map() -> Vec<Region> {
    vec![
        Region { base: 0x0, len: 0x1000, kind: RegionKind::Reserved },
        Region { base: 0x1000, len: 0x9000, kind: RegionKind::Usable },
    ]
}

fn large_map() -> Vec<Region> {
    vec![
        Region { base: 0x0, len: 0x1000, kind: RegionKind::Reserved },
        Region { base: 0x1000, len: 0x4ff000, kind: RegionKind::Usable },
    ]
}

fn rw() -> PageFlags {
    PageFlags { present: true, writable: true }
}

fn vpn_of(va: u64) -> u64 {
    (va / FRAME_SIZE) % (512 * 512 * 512 * 512)
}

#[test]
fn allocation() {
    let regions = small_map();
    let mut frame_allocator = SystemFrameAllocator::new(&regions).unwrap();
    let frame = frame_allocator.allocate().unwrap();
    let frame_idx = (frame / FRAME_SIZE) as usize;
    assert!(frame_allocator.is_frame_used(frame_idx));
}

#[test]
fn bitmap_covers_unusable_regions() {
    let regions = vec![
        Region { base: 0x0, len: 0x1000, kind: RegionKind::Reserved },
        Region { base: 0x1000, len: 0x9000, kind: RegionKind::Usable },
        Region { base: 0xa000, len: 0x2000, kind: RegionKind::Reclaimable },
        Region { base: 0xc000, len: 0x1000, kind: RegionKind::Reserved },
    ];
    let pmm = SystemFrameAllocator::new(&regions).unwrap();
    // every frame of a Reserved or Reclaimable region is marked used
    assert!(pmm.is_frame_used(0));
    assert!(pmm.is_frame_used(10));
    assert!(pmm.is_frame_used(11));
    assert!(pmm.is_frame_used(12));
}

#[test]
fn allocation_exclusivity() {
    let regions = small_map();
    let mut pmm = SystemFrameAllocator::new(&regions).unwrap();
    let a = pmm.allocate().unwrap();
    let b = pmm.allocate().unwrap();
    assert_ne!(a, b);
    assert!(pmm.is_frame_used((a / FRAME_SIZE) as usize));
    assert!(pmm.is_frame_used((b / FRAME_SIZE) as usize));
}

#[test]
fn allocate_deallocate_round_trip() {
    let regions = small_map();
    let mut pmm = SystemFrameAllocator::new(&regions).unwrap();
    let a = pmm.allocate().unwrap();
    pmm.deallocate(a);
    let b = pmm.allocate().unwrap();
    assert_eq!(a, b);
}

#[test]
fn boot_scenario() {
    // 9 usable frames starting at 0x1000; the bitmap needs 2 bytes and
    // lands at 0x1000, occupying frame 1.
    let regions = small_map();
    let mut pmm = SystemFrameAllocator::new(&regions).unwrap();
    assert_eq!(pmm.bitmap_base_addr(), 0x1000);
    assert_eq!(pmm.bitmap_byte_size(), 2);
    assert!(pmm.is_frame_used(0));
    assert!(pmm.is_frame_used(1));
    // the first allocation returns the lowest free frame past the bitmap
    let first = pmm.allocate().unwrap();
    assert_eq!(first, 0x2000);
    // eight allocations succeed in all (frames 2 through 9), then none
    for _ in 0..7 {
        assert!(pmm.allocate().is_some());
    }
    assert!(pmm.allocate().is_none());
}

#[test]
fn exhaustion_returns_none() {
    let regions = small_map();
    let mut pmm = SystemFrameAllocator::new(&regions).unwrap();
    let mut count = 0;
    while let Some(_) = pmm.allocate() {
        count += 1;
        assert!(count <= 10);
    }
    assert_eq!(count, 8);
    // and the failure is a value, not a crash: asking again still returns none
    assert!(pmm.allocate().is_none());
}

#[test]
fn no_room_for_bitmap() {
    // a map whose only usable region is too small to hold the bitmap
    let regions = vec![
        Region { base: 0x0, len: 0x10000000, kind: RegionKind::Reserved },
        Region { base: 0x10000000, len: 0x10, kind: RegionKind::Usable },
        Region { base: 0x10000010, len: 0xf0000000, kind: RegionKind::Reserved },
    ];
    assert!(SystemFrameAllocator::new(&regions).is_err());
}

#[test]
fn mark_and_clear() {
    let regions = small_map();
    let mut pmm = SystemFrameAllocator::new(&regions).unwrap();
    assert!(!pmm.is_frame_used(5));
    pmm.mark_frame(5, true);
    assert!(pmm.is_frame_used(5));
    pmm.mark_frame(5, false);
    assert!(!pmm.is_frame_used(5));
    pmm.mark_contiguous_frames(0x3000, 0x6000, true);
    assert!(pmm.is_frame_used(3));
    assert!(pmm.is_frame_used(4));
    assert!(pmm.is_frame_used(5));
    assert!(!pmm.is_frame_used(6));
    pmm.clear_bitmap();
    assert!(!pmm.is_frame_used(0));
    assert!(!pmm.is_frame_used(5));
}

#[test]
fn memory_system_init() {
    let regions = large_map();
    let m = mem::init(&regions, 0xffff800000000000, 0x1000).unwrap();
    assert_eq!(m.physical_memory_offset(), 0xffff800000000000);
    assert_eq!(m.phys_to_virt(0x3000), 0xffff800000003000);
    assert_eq!(m.vmm.allocated, 0);
    assert_eq!(m.vmm.free_list.len(), 1);
    assert_eq!(m.vmm.free_list[0].base, VMALLOC_START);
    assert_eq!(m.vmm.free_list[0].len, VMALLOC_SIZE);
}

#[test]
fn vmm_allocate_maps_pages() {
    let regions = large_map();
    let mut m = mem::init(&regions, 0, 0x1000).unwrap();
    let va = m.vmm.allocate(&mut m.store, &mut m.pmm, 2 * 4096, rw()).unwrap();
    assert_eq!(va, VMALLOC_START);
    assert_eq!(m.vmm.allocated, 2 * 4096);
    let root = m.vmm.address_space.root;
    let m0 = m.store.lookup_mapping(root, vpn_of(va)).unwrap();
    let m1 = m.store.lookup_mapping(root, vpn_of(va + 4096)).unwrap();
    assert!(m0.1.present && m0.1.writable);
    assert!(m1.1.present && m1.1.writable);
    assert_ne!(m0.0, m1.0);
    // the backing frames are marked allocated in the bitmap
    assert!(m.pmm.is_frame_used((m0.0 / FRAME_SIZE) as usize));
    assert!(m.pmm.is_frame_used((m1.0 / FRAME_SIZE) as usize));
}

#[test]
fn vmm_free_returns_everything() {
    let regions = large_map();
    let mut m = mem::init(&regions, 0, 0x1000).unwrap();
    let va = m.vmm.allocate(&mut m.store, &mut m.pmm, 3 * 4096, rw()).unwrap();
    let root = m.vmm.address_space.root;
    let f0 = m.store.lookup_mapping(root, vpn_of(va)).unwrap().0;
    m.vmm.free(&mut m.store, &mut m.pmm, va, 3 * 4096);
    assert_eq!(m.vmm.allocated, 0);
    assert_eq!(m.vmm.free_list.len(), 1);
    assert_eq!(m.vmm.free_list[0].base, VMALLOC_START);
    assert_eq!(m.vmm.free_list[0].len, VMALLOC_SIZE);
    assert!(m.store.lookup_mapping(root, vpn_of(va)).is_none());
    assert!(!m.pmm.is_frame_used((f0 / FRAME_SIZE) as usize));
}

#[test]
fn first_fit_takes_lowest_address() {
    let regions = large_map();
    let mut m = mem::init(&regions, 0, 0x1000).unwrap();
    let pg: u64 = 4096;
    // carve out six blocks, then free the first, third and fifth so the
    // free list reads [4096, 8192, 4096, tail] at increasing addresses
    let a = m.vmm.allocate(&mut m.store, &mut m.pmm, pg, rw()).unwrap();
    let _b = m.vmm.allocate(&mut m.store, &mut m.pmm, pg, rw()).unwrap();
    let c = m.vmm.allocate(&mut m.store, &mut m.pmm, 2 * pg, rw()).unwrap();
    let _d = m.vmm.allocate(&mut m.store, &mut m.pmm, pg, rw()).unwrap();
    let e = m.vmm.allocate(&mut m.store, &mut m.pmm, pg, rw()).unwrap();
    let _f = m.vmm.allocate(&mut m.store, &mut m.pmm, pg, rw()).unwrap();
    m.vmm.free(&mut m.store, &mut m.pmm, a, pg);
    m.vmm.free(&mut m.store, &mut m.pmm, c, 2 * pg);
    m.vmm.free(&mut m.store, &mut m.pmm, e, pg);
    assert_eq!(m.vmm.free_list.len(), 4);
    assert_eq!(m.vmm.free_list[0].len, 4096);
    assert_eq!(m.vmm.free_list[1].len, 8192);
    assert_eq!(m.vmm.free_list[2].len, 4096);
    // a request for 4096 bytes is satisfied from the first (lowest-address)
    // matching region, not the smallest or the largest
    let g = m.vmm.allocate(&mut m.store, &mut m.pmm, pg, rw()).unwrap();
    assert_eq!(g, a);
    assert_eq!(g, VMALLOC_START);
}

#[test]
fn free_coalesces_neighbors() {
    let regions = large_map();
    let mut m = mem::init(&regions, 0, 0x1000).unwrap();
    let pg: u64 = 4096;
    let a = m.vmm.allocate(&mut m.store, &mut m.pmm, pg, rw()).unwrap();
    let b = m.vmm.allocate(&mut m.store, &mut m.pmm, pg, rw()).unwrap();
    let _guard = m.vmm.allocate(&mut m.store, &mut m.pmm, pg, rw()).unwrap();
    m.vmm.free(&mut m.store, &mut m.pmm, a, pg);
    assert_eq!(m.vmm.free_list.len(), 2);
    // freeing the adjacent block merges the two into one region
    m.vmm.free(&mut m.store, &mut m.pmm, b, pg);
    assert_eq!(m.vmm.free_list.len(), 2);
    assert_eq!(m.vmm.free_list[0].base, a);
    assert_eq!(m.vmm.free_list[0].len, 2 * pg);
}

#[test]
fn vmm_virtual_exhaustion() {
    let regions = large_map();
    let mut m = mem::init(&regions, 0, 0x1000).unwrap();
    // one more byte than the reserved range holds
    assert!(m.vmm.allocate(&mut m.store, &mut m.pmm, VMALLOC_SIZE + 1, rw()).is_none());
    assert_eq!(m.vmm.allocated, 0);
    // the failed call touched neither the page tables nor the bitmap: the
    // next frame handed out is still the first free one
    assert_eq!(m.store.tables.len(), 1);
    assert_eq!(m.pmm.allocate().unwrap(), 0x2000);
}

#[test]
fn vmm_physical_exhaustion_rolls_back() {
    // plenty of virtual space but only a handful of physical frames
    let regions = small_map();
    let mut m = mem::init(&regions, 0, 0x1000).unwrap();
    // 9 usable frames minus bitmap and page-table frames cannot back 4 MiB
    let r = m.vmm.allocate(&mut m.store, &mut m.pmm, 1024 * 4096, rw());
    assert!(r.is_none());
    // the failed allocation left no claim behind
    assert_eq!(m.vmm.allocated, 0);
    assert_eq!(m.vmm.free_list.len(), 1);
    assert_eq!(m.vmm.free_list[0].len, VMALLOC_SIZE);
}

#[test]
fn address_space_shares_upper_half() {
    let regions = large_map();
    let mut m = mem::init(&regions, 0, 0x1000).unwrap();
    // the managed range lies in the upper half, so a mapping made there is
    // kernel-global
    let va = m.vmm.allocate(&mut m.store, &mut m.pmm, 4096, rw()).unwrap();
    let active = m.vmm.address_space;
    let sp = VAddressSpace::new(&mut m.store, &active, &mut m.pmm).unwrap();
    let seen = m.store.lookup_mapping(sp.root, vpn_of(va));
    let original = m.store.lookup_mapping(active.root, vpn_of(va));
    assert_eq!(seen, original);
    assert!(seen.is_some());
    // the lower half of the new space starts empty
    assert!(m.store.lookup_mapping(sp.root, vpn_of(0x1000)).is_none());
}

#[test]
fn address_space_needs_a_frame() {
    let regions = small_map();
    let mut m = mem::init(&regions, 0, 0x1000).unwrap();
    // the new root table's frame is the one the PMM hands out next
    let active = m.vmm.address_space;
    let sp = VAddressSpace::new(&mut m.store, &active, &mut m.pmm).unwrap();
    assert_eq!(sp.l4_page_table, 0x2000);
    assert!(m.pmm.is_frame_used(2));
    // with the PMM exhausted, creating an address space fails as a value
    while m.pmm.allocate().is_some() {}
    let before = m.store.tables.len();
    assert!(VAddressSpace::new(&mut m.store, &active, &mut m.pmm).is_err());
    assert_eq!(m.store.tables.len(), before);
}

#[test]
fn map_and_unmap_page() {
    let regions = large_map();
    let mut m = mem::init(&regions, 0, 0x1000).unwrap();
    let root = m.vmm.address_space.root;
    let frame = m.pmm.allocate().unwrap();
    let vpn = vpn_of(VMALLOC_START);
    m.store.map_page(root, vpn, frame, rw(), &mut m.pmm).unwrap();
    assert_eq!(m.store.lookup_mapping(root, vpn), Some((frame, rw())));
    let (back, fl) = m.store.unmap_page(root, vpn).unwrap();
    assert_eq!(back, frame);
    assert!(fl.present && fl.writable);
    assert!(m.store.lookup_mapping(root, vpn).is_none());
    assert!(m.store.unmap_page(root, vpn).is_err());
}

#[test]
fn heap_bootstrap() {
    let regions = large_map();
    let mut m = mem::init(&regions, 0, 0x1000).unwrap();
    let h = heap::init(&mut m.vmm, &mut m.store, &mut m.pmm).unwrap();
    assert_eq!(h.size, 100 * 1024);
    assert_eq!(h.start, VMALLOC_START);
    assert_eq!(m.vmm.allocated, 100 * 1024);
    // every heap page is mapped writable
    let root = m.vmm.address_space.root;
    for k in 0..(h.size / 4096) {
        let mapping = m.store.lookup_mapping(root, vpn_of(h.start + k * 4096)).unwrap();
        assert!(mapping.1.present && mapping.1.writable);
    }
}

#[test]
fn heap_bootstrap_fails_without_frames() {
    // no usable frame is left for the heap on a tiny machine
    let regions = small_map();
    let mut m = mem::init(&regions, 0, 0x1000).unwrap();
    assert!(heap::init(&mut m.vmm, &mut m.store, &mut m.pmm).is_err());
}

#[test]
fn bootstrap_allocator_uses_direct_map() {
    let regions = small_map();
    let mut pmm = SystemFrameAllocator::new(&regions).unwrap();
    let offset: u64 = 0xffff800000000000;
    let alloc = BootstrapAllocator;
    let va = alloc.allocate(&mut pmm, offset, 4096).unwrap();
    assert_eq!(va, offset + 0x2000);
    assert!(pmm.is_frame_used(2));
    alloc.deallocate(&mut pmm, offset, va, 4096);
    assert!(!pmm.is_frame_used(2));
}

#[test]
fn free_list_accounting() {
    // after any sequence of allocate and free calls, the free regions are
    // pairwise disjoint and sorted by base, and free plus allocated bytes
    // account for the whole reserved range
    let regions = large_map();
    let mut m = mem::init(&regions, 0, 0x1000).unwrap();
    let pg: u64 = 4096;
    let a = m.vmm.allocate(&mut m.store, &mut m.pmm, 3 * pg, rw()).unwrap();
    let _b = m.vmm.allocate(&mut m.store, &mut m.pmm, pg, rw()).unwrap();
    let c = m.vmm.allocate(&mut m.store, &mut m.pmm, 2 * pg, rw()).unwrap();
    m.vmm.free(&mut m.store, &mut m.pmm, a, 3 * pg);
    m.vmm.free(&mut m.store, &mut m.pmm, c, 2 * pg);
    let _d = m.vmm.allocate(&mut m.store, &mut m.pmm, pg, rw()).unwrap();
    let mut sum: u64 = 0;
    for i in 0..m.vmm.free_list.len() {
        let r = m.vmm.free_list[i];
        assert!(r.len > 0);
        assert!(VMALLOC_START <= r.base && r.base + r.len <= VMALLOC_START + VMALLOC_SIZE);
        if i + 1 < m.vmm.free_list.len() {
            assert!(r.base + r.len < m.vmm.free_list[i + 1].base);
        }
        sum += r.len;
    }
    assert_eq!(sum + m.vmm.allocated, VMALLOC_SIZE);
}

#[test]
fn address_arithmetic() {
    assert_eq!(frame_index(0x2fff), 2);
    assert_eq!(frame_index(0x3000), 3);
    assert_eq!(phys_to_virt(0x2000, 0xffff800000000000), 0xffff800000002000);
}

#[test]
fn page_store_rejects_unmapped_lookup() {
    let mut store = PageTableStore::new();
    let root = store.add_root(0x1000);
    assert!(store.lookup_mapping(root, 0).is_none());
    assert!(store.lookup_mapping(root, 123456).is_none());
}
