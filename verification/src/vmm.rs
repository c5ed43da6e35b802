//! Virtual memory manager: hands out contiguous page-aligned ranges from a
//! reserved virtual region, backing each page with a physical frame through
//! the paging layer, and tracks the free portions in an address-ordered
//! free list.

use vstd::prelude::*;
use vstd::arithmetic::div_mod::lemma_div_is_ordered;
use crate::addr::FRAME_SIZE;
use crate::paging::{page_vpn, MapError, PageFlags, PageTableStore, VAddressSpace, VPN_LIMIT};
use crate::pmm::{free_count, lemma_alloc_count, lemma_dealloc_count, lemma_free_count_pos, lemma_grows_count, SystemFrameAllocator};

verus! {

/// Base of the reserved virtual range the VMM manages.
pub const VMALLOC_START: u64 = 0xfffff80000000000;

/// Size in bytes of the reserved virtual range.
pub const VMALLOC_SIZE: u64 = 128 * 1024 * 1024;

/// A free region of virtual memory: a maximal unallocated range.
#[derive(Clone, Copy, Debug, PartialEq, Eq, Structural)]
pub struct FreeVMRegion {
    /// The base address of this free region of virtual memory.
    pub base: u64,
    /// The length, in bytes, of this free region of virtual memory.
    pub len: u64,
}

impl FreeVMRegion {
    pub fn new(base: u64, len: u64) -> (r: Self)
        ensures
            r.base == base,
            r.len == len,
    {
        FreeVMRegion { base, len }
    }
}

/// Total number of free bytes in a free list.
pub open spec fn sum_free(regions: Seq<FreeVMRegion>) -> int
    decreases regions.len(),
{
    if regions.len() == 0 {
        0
    } else {
        regions[0].len + sum_free(regions.drop_first())
    }
}

/// The free-list invariant: regions are page-aligned, non-empty, lie inside
/// the managed range, are sorted ascending by base, and no two are adjacent
/// or overlapping (adjacent regions are always coalesced).
pub open spec fn list_wf(regions: Seq<FreeVMRegion>) -> bool {
    &&& forall|i: int|
        0 <= i < regions.len() ==> {
            &&& (#[trigger] regions[i]).len > 0
            &&& regions[i].len % FRAME_SIZE == 0
            &&& regions[i].base % FRAME_SIZE == 0
            &&& VMALLOC_START <= regions[i].base
            &&& regions[i].base + regions[i].len <= VMALLOC_START + VMALLOC_SIZE
        }
    &&& forall|i: int|
        0 <= i && i + 1 < regions.len() ==> (#[trigger] regions[i]).base + regions[i].len
            < regions[i + 1].base
}

proof fn lemma_sum_update(regions: Seq<FreeVMRegion>, j: int, r: FreeVMRegion)
    requires
        0 <= j < regions.len(),
    ensures
        sum_free(regions.update(j, r)) == sum_free(regions) - regions[j].len + r.len,
    decreases regions.len(),
{
    if j == 0 {
        assert(regions.update(0, r).drop_first() =~= regions.drop_first());
    } else {
        lemma_sum_update(regions.drop_first(), j - 1, r);
        assert(regions.update(j, r).drop_first() =~= regions.drop_first().update(j - 1, r));
    }
}

proof fn lemma_sum_remove(regions: Seq<FreeVMRegion>, j: int)
    requires
        0 <= j < regions.len(),
    ensures
        sum_free(regions.remove(j)) == sum_free(regions) - regions[j].len,
    decreases regions.len(),
{
    if j == 0 {
        assert(regions.remove(0) =~= regions.drop_first());
    } else {
        lemma_sum_remove(regions.drop_first(), j - 1);
        assert(regions.remove(j).drop_first() =~= regions.drop_first().remove(j - 1));
    }
}

proof fn lemma_sum_insert(regions: Seq<FreeVMRegion>, j: int, r: FreeVMRegion)
    requires
        0 <= j <= regions.len(),
    ensures
        sum_free(regions.insert(j, r)) == sum_free(regions) + r.len,
    decreases regions.len(),
{
    if j == 0 {
        assert(regions.insert(0, r).drop_first() =~= regions);
    } else {
        lemma_sum_insert(regions.drop_first(), j - 1, r);
        assert(regions.insert(j, r).drop_first() =~= regions.drop_first().insert(j - 1, r));
    }
}

/// Sorted disjoint regions between `lo` and `hi` hold at most `hi - lo`
/// bytes in total.
proof fn lemma_sum_le_span(regions: Seq<FreeVMRegion>, lo: int, hi: int)
    requires
        lo <= hi,
        forall|i: int|
            0 <= i < regions.len() ==> lo <= (#[trigger] regions[i]).base && regions[i].base
                + regions[i].len <= hi && regions[i].len >= 0,
        forall|i: int|
            0 <= i && i + 1 < regions.len() ==> (#[trigger] regions[i]).base + regions[i].len
                <= regions[i + 1].base,
    ensures
        sum_free(regions) <= hi - lo,
    decreases regions.len(),
{
    if regions.len() > 0 {
        let rest = regions.drop_first();
        assert forall|i: int| 0 <= i < rest.len() implies regions[0].base + regions[0].len <= (
        #[trigger] rest[i]).base && rest[i].base + rest[i].len <= hi && rest[i].len >= 0 by {
            assert(rest[i] == regions[i + 1]);
            if i > 0 {
                assert(regions[i].base + regions[i].len <= regions[i + 1].base);
            }
            lemma_sorted_chain(regions, 0, i + 1);
        }
        assert forall|i: int| 0 <= i && i + 1 < rest.len() implies (#[trigger] rest[i]).base
            + rest[i].len <= rest[i + 1].base by {
            assert(rest[i] == regions[i + 1] && rest[i + 1] == regions[i + 2]);
        }
        lemma_sum_le_span(rest, regions[0].base + regions[0].len, hi);
    }
}

/// In a sorted disjoint list, every later region starts at or after the end
/// of an earlier one.
proof fn lemma_sorted_chain(regions: Seq<FreeVMRegion>, i: int, j: int)
    requires
        0 <= i <= j < regions.len(),
        forall|k: int|
            0 <= k && k + 1 < regions.len() ==> (#[trigger] regions[k]).base + regions[k].len
                <= regions[k + 1].base,
        forall|k: int| 0 <= k < regions.len() ==> (#[trigger] regions[k]).len >= 0,
    ensures
        regions[i].base + regions[i].len <= regions[j].base + regions[j].len,
        i < j ==> regions[i].base + regions[i].len <= regions[j].base,
    decreases j - i,
{
    if i < j {
        lemma_sorted_chain(regions, i, j - 1);
        assert(regions[j - 1].base + regions[j - 1].len <= regions[j].base);
    }
}

/// The virtual memory allocator: an address space plus the free portions of
/// the reserved range, in address order, and the number of bytes handed out.
pub struct VMAlloc {
    /// The address space this VMM maps pages into.
    pub address_space: VAddressSpace,
    /// Address-ordered free list of the unallocated portions.
    pub free_list: Vec<FreeVMRegion>,
    /// Bytes currently handed out to callers.
    pub allocated: u64,
}

impl VMAlloc {
    /// Free regions plus outstanding allocations account for the whole
    /// reserved range.
    pub open spec fn wf(self) -> bool {
        &&& list_wf(self.free_list@)
        &&& sum_free(self.free_list@) + self.allocated == VMALLOC_SIZE
        &&& self.allocated % FRAME_SIZE == 0
    }

    /// Every page of every free region can still be mapped fresh in the
    /// store: nothing else maps into the VMM's reserved range.
    pub open spec fn free_mappable(self, store: PageTableStore) -> bool {
        forall|k: int|
            #[trigger] covers_page(self.free_list@, k) ==> store.can_map(
                self.address_space.root as int,
                page_vpn(k),
            )
    }

    /// Create the VMM over an address space: the free list starts as one
    /// node spanning the entire reserved range.
    pub fn new(address_space: VAddressSpace) -> (r: Self)
        ensures
            r.wf(),
            r.address_space == address_space,
            r.allocated == 0,
            r.free_list@.len() == 1,
            r.free_list@[0] == (FreeVMRegion { base: VMALLOC_START, len: VMALLOC_SIZE }),
    {
        let region = FreeVMRegion::new(VMALLOC_START, VMALLOC_SIZE);
        let mut free_list: Vec<FreeVMRegion> = Vec::new();
        free_list.push(region);
        proof {
            let s = free_list@;
            assert(sum_free(s) == s[0].len + sum_free(s.drop_first()));
            assert(s.drop_first().len() == 0);
            assert(sum_free(s.drop_first()) == 0);
        }
        VMAlloc { address_space, free_list, allocated: 0 }
    }
}

/// Some free region contains page number `k`.
pub open spec fn covers_page(regions: Seq<FreeVMRegion>, k: int) -> bool {
    exists|i: int|
        0 <= i < regions.len() && (#[trigger] regions[i]).base as int / FRAME_SIZE as int <= k < (
        regions[i].base + regions[i].len) / FRAME_SIZE as int
}

/// How a successful first-fit claim of `bytes` bytes relates the old free
/// list to the new one: the first large-enough region, in address order, is
/// shrunk from its base, or removed when the match is exact.
pub open spec fn first_fit_at(
    pre: Seq<FreeVMRegion>,
    bytes: u64,
    j: int,
    va: u64,
    post: Seq<FreeVMRegion>,
) -> bool {
    &&& 0 <= j < pre.len()
    &&& pre[j].len >= bytes
    &&& forall|i: int| 0 <= i < j ==> (#[trigger] pre[i]).len < bytes
    &&& va == pre[j].base
    &&& post == if pre[j].len == bytes {
        pre.remove(j)
    } else {
        pre.update(
            j,
            FreeVMRegion { base: (pre[j].base + bytes) as u64, len: (pre[j].len - bytes) as u64 },
        )
    }
}

proof fn lemma_sum_nonneg(regions: Seq<FreeVMRegion>)
    requires
        forall|i: int| 0 <= i < regions.len() ==> (#[trigger] regions[i]).len >= 0,
    ensures
        sum_free(regions) >= 0,
    decreases regions.len(),
{
    if regions.len() > 0 {
        lemma_sum_nonneg(regions.drop_first());
    }
}

impl VMAlloc {
    /// Claim the first free region large enough for `bytes` bytes, shrinking
    /// or removing it, and account for the claimed bytes.
    fn take_first_fit(&mut self, bytes: u64) -> (r: Option<u64>)
        requires
            old(self).wf(),
            0 < bytes,
            bytes % FRAME_SIZE == 0,
        ensures
            final (self).wf(),
            final (self).address_space == old(self).address_space,
            match r {
                Some(va) => {
                    &&& exists|j: int|
                        first_fit_at(old(self).free_list@, bytes, j, va, final (self).free_list@)
                    &&& final (self).allocated == old(self).allocated + bytes
                    &&& va % FRAME_SIZE == 0
                    &&& VMALLOC_START <= va
                    &&& va + bytes <= VMALLOC_START + VMALLOC_SIZE
                    &&& forall|k: int|
                        #[trigger] covers_page(final (self).free_list@, k) ==> covers_page(
                            old(self).free_list@,
                            k,
                        ) && !(va as int / FRAME_SIZE as int <= k < (va + bytes)
                            / FRAME_SIZE as int)
                    &&& forall|k: int|
                        covers_page(old(self).free_list@, #[trigger] (k + 0)) && !(
                        va as int / FRAME_SIZE as int <= k < (va + bytes) / FRAME_SIZE as int)
                            ==> covers_page(final (self).free_list@, k)
                    &&& forall|k: int|
                        va as int / FRAME_SIZE as int <= k < (va + bytes) / FRAME_SIZE as int
                            ==> covers_page(old(self).free_list@, #[trigger] (k + 0))
                    &&& forall|i: int|
                        0 <= i < final (self).free_list@.len()
                            ==> ((#[trigger] final (self).free_list@[i]).base
                            + final (self).free_list@[i].len <= va || va + bytes
                            <= final (self).free_list@[i].base)
                },
                None => {
                    &&& *final (self) == *old(self)
                    &&& forall|i: int|
                        0 <= i < old(self).free_list@.len() ==> (
                        #[trigger] old(self).free_list@[i]).len < bytes
                },
            },
    {
        let n = self.free_list.len();
        let mut j: usize = 0;
        let mut found: bool = false;
        while j < n && !found
            invariant
                n == self.free_list@.len(),
                0 <= j <= n,
                self == old(self),
                !found ==> forall|i: int|
                    0 <= i < j ==> (#[trigger] self.free_list@[i]).len < bytes,
                found ==> j < n && self.free_list@[j as int].len >= bytes && forall|i: int|
                    0 <= i < j ==> (#[trigger] self.free_list@[i]).len < bytes,
            decreases n - j + if found {
                0int
            } else {
                1int
            },
        {
            if self.free_list[j].len >= bytes {
                found = true;
            } else {
                j += 1;
            }
        }
        if !found {
            return None;
        }

        let ghost pre = self.free_list@;
        let ghost jj = j as int;
        let region = self.free_list[j];
        let va = region.base;
        proof {
            lemma_sum_ge_element(pre, jj);
            lemma_sum_nonneg(pre);
            assert forall|k: int|
                va as int / FRAME_SIZE as int <= k < (va + bytes) / FRAME_SIZE as int implies
                covers_page(pre, #[trigger] (k + 0)) by {
                lemma_div_is_ordered(va + bytes, va + pre[jj].len, FRAME_SIZE as int);
                assert(pre[jj].base as int / FRAME_SIZE as int <= k < (pre[jj].base + pre[jj].len)
                    / FRAME_SIZE as int);
            }
        }
        if region.len == bytes {
            self.free_list.remove(j);
            proof {
                lemma_sum_remove(pre, jj);
                lemma_take_remove(pre, jj);
            }
        } else {
            let shrunk = FreeVMRegion::new(region.base + bytes, region.len - bytes);
            let slot = vstd::std_specs::vec::vec_index_mut(&mut self.free_list, j);
            *slot = shrunk;
            proof {
                lemma_sum_update(pre, jj, shrunk);
                lemma_take_shrink(pre, jj, bytes);
            }
        }
        let ghost pre_alloc = self.allocated;
        self.allocated = self.allocated + bytes;
        proof {
            assert(first_fit_at(pre, bytes, jj, va, self.free_list@));
            assert(self.allocated % FRAME_SIZE == 0) by (nonlinear_arith)
                requires
                    self.allocated == pre_alloc + bytes,
                    pre_alloc % FRAME_SIZE == 0,
                    bytes % FRAME_SIZE == 0,
                    FRAME_SIZE > 0,
            ;
        }
        Some(va)
    }
}

/// In a well formed free list, an earlier region ends before a later one
/// starts.
proof fn lemma_sorted_strict(regions: Seq<FreeVMRegion>, i: int, j: int)
    requires
        list_wf(regions),
        0 <= i < j < regions.len(),
    ensures
        regions[i].base + regions[i].len <= regions[j].base,
    decreases j - i,
{
    if i + 1 < j {
        lemma_sorted_strict(regions, i + 1, j);
    }
}

proof fn lemma_sum_ge_element(regions: Seq<FreeVMRegion>, j: int)
    requires
        0 <= j < regions.len(),
        forall|i: int| 0 <= i < regions.len() ==> (#[trigger] regions[i]).len >= 0,
    ensures
        sum_free(regions) >= regions[j].len,
    decreases regions.len(),
{
    lemma_sum_nonneg(regions.drop_first());
    if j > 0 {
        lemma_sum_ge_element(regions.drop_first(), j - 1);
    }
}

/// Removing a region keeps the list well formed, and the remaining regions
/// cover only pages they covered before, none of them the removed region's.
proof fn lemma_take_remove(pre: Seq<FreeVMRegion>, j: int)
    requires
        list_wf(pre),
        0 <= j < pre.len(),
    ensures
        list_wf(pre.remove(j)),
        forall|k: int| #[trigger]
            covers_page(pre.remove(j), k) ==> covers_page(pre, k) && !(pre[j].base as int
                / FRAME_SIZE as int <= k < (pre[j].base + pre[j].len) / FRAME_SIZE as int),
        forall|k: int|
            covers_page(pre, #[trigger] (k + 0)) && !(pre[j].base as int / FRAME_SIZE as int <= k
                < (pre[j].base + pre[j].len) / FRAME_SIZE as int) ==> covers_page(
                pre.remove(j),
                k,
            ),
        forall|i: int|
            0 <= i < pre.remove(j).len() ==> ((#[trigger] pre.remove(j)[i]).base + pre.remove(
                j,
            )[i].len <= pre[j].base || pre[j].base + pre[j].len <= pre.remove(j)[i].base),
{
    let post = pre.remove(j);
    assert forall|i: int| 0 <= i < post.len() implies ((#[trigger] post[i]).base + post[i].len
        <= pre[j].base || pre[j].base + pre[j].len <= post[i].base) by {
        let ip: int = if i < j {
            i
        } else {
            i + 1
        };
        assert(post[i] == pre[ip]);
        if ip < j {
            lemma_sorted_strict(pre, ip, j);
        } else {
            lemma_sorted_strict(pre, j, ip);
        }
    }
    assert forall|k: int|
        covers_page(pre, #[trigger] (k + 0)) && !(pre[j].base as int / FRAME_SIZE as int <= k < (
        pre[j].base + pre[j].len) / FRAME_SIZE as int) implies covers_page(post, k) by {
        let i = choose|i: int|
            0 <= i < pre.len() && (#[trigger] pre[i]).base as int / FRAME_SIZE as int <= k < (
            pre[i].base + pre[i].len) / FRAME_SIZE as int;
        if i < j {
            assert(post[i] == pre[i]);
            assert(covers_page(post, k));
        } else if i > j {
            assert(post[i - 1] == pre[i]);
            assert(covers_page(post, k));
        }
    }
    assert forall|i: int| 0 <= i && i + 1 < post.len() implies (#[trigger] post[i]).base
        + post[i].len < post[i + 1].base by {
        if i + 1 == j {
            assert(post[i] == pre[i] && post[i + 1] == pre[i + 2]);
            assert(pre[i].base + pre[i].len < pre[i + 1].base);
            assert(pre[i + 1].base + pre[i + 1].len < pre[i + 2].base);
        }
    }
    assert forall|k: int| #[trigger] covers_page(post, k) implies covers_page(pre, k) && !(
    pre[j].base as int / FRAME_SIZE as int <= k < (pre[j].base + pre[j].len)
        / FRAME_SIZE as int) by {
        let i = choose|i: int|
            0 <= i < post.len() && (#[trigger] post[i]).base as int / FRAME_SIZE as int <= k < (
            post[i].base + post[i].len) / FRAME_SIZE as int;
        let ip: int = if i < j {
            i
        } else {
            i + 1
        };
        assert(post[i] == pre[ip]);
        assert(covers_page(pre, k));
        if ip < j {
            lemma_sorted_strict(pre, ip, j);
            lemma_div_is_ordered(
                pre[ip].base + pre[ip].len,
                pre[j].base as int,
                FRAME_SIZE as int,
            );
        } else {
            lemma_sorted_strict(pre, j, ip);
            lemma_div_is_ordered(
                pre[j].base + pre[j].len,
                pre[ip].base as int,
                FRAME_SIZE as int,
            );
        }
    }
}

/// Shrinking a region from its base keeps the list well formed, and the
/// regions cover only pages they covered before, none of them one of the
/// claimed pages at the shrunk region's old base.
proof fn lemma_take_shrink(pre: Seq<FreeVMRegion>, j: int, bytes: u64)
    requires
        list_wf(pre),
        0 <= j < pre.len(),
        0 < bytes < pre[j].len,
        bytes % FRAME_SIZE == 0,
    ensures
        list_wf(
            pre.update(
                j,
                FreeVMRegion {
                    base: (pre[j].base + bytes) as u64,
                    len: (pre[j].len - bytes) as u64,
                },
            ),
        ),
        forall|k: int| #[trigger]
            covers_page(
                pre.update(
                    j,
                    FreeVMRegion {
                        base: (pre[j].base + bytes) as u64,
                        len: (pre[j].len - bytes) as u64,
                    },
                ),
                k,
            ) ==> covers_page(pre, k) && !(pre[j].base as int / FRAME_SIZE as int <= k < (
            pre[j].base + bytes) / FRAME_SIZE as int),
        forall|k: int|
            covers_page(pre, #[trigger] (k + 0)) && !(pre[j].base as int / FRAME_SIZE as int <= k
                < (pre[j].base + bytes) / FRAME_SIZE as int) ==> covers_page(
                pre.update(
                    j,
                    FreeVMRegion {
                        base: (pre[j].base + bytes) as u64,
                        len: (pre[j].len - bytes) as u64,
                    },
                ),
                k,
            ),
        forall|i: int|
            0 <= i < pre.len() ==> ((#[trigger] pre.update(
                j,
                FreeVMRegion {
                    base: (pre[j].base + bytes) as u64,
                    len: (pre[j].len - bytes) as u64,
                },
            )[i]).base + pre.update(
                j,
                FreeVMRegion {
                    base: (pre[j].base + bytes) as u64,
                    len: (pre[j].len - bytes) as u64,
                },
            )[i].len <= pre[j].base || pre[j].base + bytes <= pre.update(
                j,
                FreeVMRegion {
                    base: (pre[j].base + bytes) as u64,
                    len: (pre[j].len - bytes) as u64,
                },
            )[i].base),
{
    let post = pre.update(
        j,
        FreeVMRegion { base: (pre[j].base + bytes) as u64, len: (pre[j].len - bytes) as u64 },
    );
    assert forall|i: int| 0 <= i < pre.len() implies ((#[trigger] post[i]).base + post[i].len
        <= pre[j].base || pre[j].base + bytes <= post[i].base) by {
        if i < j {
            lemma_sorted_strict(pre, i, j);
        } else if i > j {
            lemma_sorted_strict(pre, j, i);
        }
    }
    assert forall|k: int|
        covers_page(pre, #[trigger] (k + 0)) && !(pre[j].base as int / FRAME_SIZE as int <= k < (
        pre[j].base + bytes) / FRAME_SIZE as int) implies covers_page(post, k) by {
        let i = choose|i: int|
            0 <= i < pre.len() && (#[trigger] pre[i]).base as int / FRAME_SIZE as int <= k < (
            pre[i].base + pre[i].len) / FRAME_SIZE as int;
        if i == j {
            assert(post[j].base as int / FRAME_SIZE as int <= k < (post[j].base + post[j].len)
                / FRAME_SIZE as int);
            assert(covers_page(post, k));
        } else {
            assert(post[i] == pre[i]);
            assert(covers_page(post, k));
        }
    }
    assert forall|k: int| #[trigger] covers_page(post, k) implies covers_page(pre, k) && !(
    pre[j].base as int / FRAME_SIZE as int <= k < (pre[j].base + bytes)
        / FRAME_SIZE as int) by {
        let i = choose|i: int|
            0 <= i < post.len() && (#[trigger] post[i]).base as int / FRAME_SIZE as int <= k < (
            post[i].base + post[i].len) / FRAME_SIZE as int;
        if i == j {
            assert(pre[j].base as int / FRAME_SIZE as int <= k < (pre[j].base + pre[j].len)
                / FRAME_SIZE as int) by {
                lemma_div_is_ordered(
                    pre[j].base as int,
                    pre[j].base + bytes,
                    FRAME_SIZE as int,
                );
            }
            assert(covers_page(pre, k));
        } else {
            assert(post[i] == pre[i]);
            assert(covers_page(pre, k));
            if i < j {
                lemma_sorted_strict(pre, i, j);
                lemma_div_is_ordered(
                    pre[i].base + pre[i].len,
                    pre[j].base as int,
                    FRAME_SIZE as int,
                );
            } else {
                lemma_sorted_strict(pre, j, i);
                lemma_div_is_ordered(pre[j].base + pre[j].len, pre[i].base as int, FRAME_SIZE as int);
                lemma_div_is_ordered(pre[j].base + bytes, pre[j].base + pre[j].len, FRAME_SIZE as int);
            }
        }
    }
}

impl VMAlloc {
    /// Reinsert a free range into the free list at its address-ordered
    /// position, coalescing with an adjacent free region on either side when
    /// contiguous so that fragmentation cannot accumulate unboundedly.
    #[verifier::rlimit(100)]
    fn insert_region(&mut self, base: u64, len: u64)
        requires
            list_wf(old(self).free_list@),
            0 < len,
            len % FRAME_SIZE == 0,
            base % FRAME_SIZE == 0,
            VMALLOC_START <= base,
            base + len <= VMALLOC_START + VMALLOC_SIZE,
            forall|i: int|
                0 <= i < old(self).free_list@.len() ==> ((#[trigger] old(self).free_list@[i]).base
                    + old(self).free_list@[i].len <= base || base + len <= old(
                    self,
                ).free_list@[i].base),
        ensures
            list_wf(final (self).free_list@),
            sum_free(final (self).free_list@) == sum_free(old(self).free_list@) + len,
            final (self).allocated == old(self).allocated,
            final (self).address_space == old(self).address_space,
            forall|k: int| #[trigger]
                covers_page(final (self).free_list@, k) ==> covers_page(old(self).free_list@, k)
                    || (base as int / FRAME_SIZE as int <= k < (base + len) / FRAME_SIZE as int),
            forall|k: int|
                base as int / FRAME_SIZE as int <= k < (base + len) / FRAME_SIZE as int
                    ==> covers_page(final (self).free_list@, #[trigger] (k + 0)),
            forall|k: int|
                covers_page(old(self).free_list@, #[trigger] (k + 0)) ==> covers_page(
                    final (self).free_list@,
                    k,
                ),
    {
        let ghost pre = self.free_list@;
        let n = self.free_list.len();
        let mut pos: usize = 0;
        while pos < n && self.free_list[pos].base < base
            invariant
                n == self.free_list@.len(),
                0 <= pos <= n,
                self == old(self),
                forall|i: int| 0 <= i < pos ==> (#[trigger] self.free_list@[i]).base < base,
            decreases n - pos,
        {
            pos += 1;
        }
        proof {
            assert forall|i: int| 0 <= i < pre.len() implies (#[trigger] pre[i]).base != base by {}
            assert(pos < n ==> pre[pos as int].base > base);
            assert forall|i: int| pos <= i < pre.len() implies (#[trigger] pre[i]).base > base by {
                if i > pos {
                    lemma_sorted_strict(pre, pos as int, i);
                }
            }
            assert(pos > 0 ==> pre[pos as int - 1].base + pre[pos as int - 1].len <= base);
            assert(pos < n ==> base + len <= pre[pos as int].base);
        }

        let merge_left = pos > 0 && {
            let left = self.free_list[pos - 1];
            left.base + left.len == base
        };
        let merge_right = pos < n && base + len == self.free_list[pos].base;

        if merge_left && merge_right {
            let right = self.free_list[pos];
            let left = self.free_list[pos - 1];
            let merged = FreeVMRegion::new(left.base, left.len + len + right.len);
            let slot = vstd::std_specs::vec::vec_index_mut(&mut self.free_list, pos - 1);
            *slot = merged;
            self.free_list.remove(pos);
            proof {
                let mid = pre.update(pos as int - 1, merged);
                lemma_sum_update(pre, pos as int - 1, merged);
                lemma_sum_remove(mid, pos as int);
                lemma_insert_both(pre, pos as int, base, len, self.free_list@);
            }
        } else if merge_left {
            let left = self.free_list[pos - 1];
            let merged = FreeVMRegion::new(left.base, left.len + len);
            let slot = vstd::std_specs::vec::vec_index_mut(&mut self.free_list, pos - 1);
            *slot = merged;
            proof {
                lemma_sum_update(pre, pos as int - 1, merged);
                lemma_insert_left(pre, pos as int, base, len, self.free_list@);
            }
        } else if merge_right {
            let right = self.free_list[pos];
            let merged = FreeVMRegion::new(base, len + right.len);
            let slot = vstd::std_specs::vec::vec_index_mut(&mut self.free_list, pos);
            *slot = merged;
            proof {
                lemma_sum_update(pre, pos as int, merged);
                lemma_insert_right(pre, pos as int, base, len, self.free_list@);
            }
        } else {
            self.free_list.insert(pos, FreeVMRegion::new(base, len));
            proof {
                lemma_sum_insert(pre, pos as int, FreeVMRegion { base, len });
                lemma_insert_alone(pre, pos as int, base, len, self.free_list@);
            }
        }
    }
}

/// Common requirements of the four insertion shapes: `pos` is the sorted
/// position of `base`, and the range touches no region.
spec fn insert_pos_ok(pre: Seq<FreeVMRegion>, pos: int, base: u64, len: u64) -> bool {
    &&& list_wf(pre)
    &&& 0 <= pos <= pre.len()
    &&& 0 < len
    &&& len % FRAME_SIZE == 0
    &&& base % FRAME_SIZE == 0
    &&& VMALLOC_START <= base
    &&& base + len <= VMALLOC_START + VMALLOC_SIZE
    &&& forall|i: int| 0 <= i < pos ==> (#[trigger] pre[i]).base + pre[i].len <= base
    &&& forall|i: int| pos <= i < pre.len() ==> base + len <= (#[trigger] pre[i]).base
}

/// What the four insertion-shape lemmas conclude about the new list.
spec fn insert_covers_ok(
    pre: Seq<FreeVMRegion>,
    base: u64,
    len: u64,
    post: Seq<FreeVMRegion>,
) -> bool {
    &&& list_wf(post)
    &&& forall|k: int| #[trigger]
        covers_page(post, k) ==> covers_page(pre, k) || (base as int / FRAME_SIZE as int <= k < (
        base + len) / FRAME_SIZE as int)
    &&& forall|k: int|
        base as int / FRAME_SIZE as int <= k < (base + len) / FRAME_SIZE as int ==> covers_page(
            post,
            #[trigger] (k + 0),
        )
    &&& forall|k: int|
        covers_page(pre, #[trigger] (k + 0)) ==> covers_page(post, k)
}

#[verifier::rlimit(100)]
proof fn lemma_insert_both(
    pre: Seq<FreeVMRegion>,
    pos: int,
    base: u64,
    len: u64,
    post: Seq<FreeVMRegion>,
)
    requires
        insert_pos_ok(pre, pos, base, len),
        0 < pos < pre.len(),
        pre[pos - 1].base + pre[pos - 1].len == base,
        base + len == pre[pos].base,
        post == pre.update(
            pos - 1,
            FreeVMRegion {
                base: pre[pos - 1].base,
                len: (pre[pos - 1].len + len + pre[pos].len) as u64,
            },
        ).remove(pos),
    ensures
        insert_covers_ok(pre, base, len, post),
{
    let merged = FreeVMRegion {
        base: pre[pos - 1].base,
        len: (pre[pos - 1].len + len + pre[pos].len) as u64,
    };
    assert(post.len() == pre.len() - 1);
    assert forall|i: int| 0 <= i < post.len() implies #[trigger] post[i] == (if i < pos - 1 {
        pre[i]
    } else if i == pos - 1 {
        merged
    } else {
        pre[i + 1]
    }) by {}
    assert forall|i: int| 0 <= i && i + 1 < post.len() implies (#[trigger] post[i]).base
        + post[i].len < post[i + 1].base by {
        if i + 1 == pos {
            assert(pre[pos].base + pre[pos].len < pre[pos + 1].base);
        }
    }
    assert forall|k: int| #[trigger] covers_page(post, k) implies covers_page(pre, k) || (
    base as int / FRAME_SIZE as int <= k < (base + len) / FRAME_SIZE as int) by {
        let i = choose|i: int|
            0 <= i < post.len() && (#[trigger] post[i]).base as int / FRAME_SIZE as int <= k < (
            post[i].base + post[i].len) / FRAME_SIZE as int;
        if i == pos - 1 {
            if k < base as int / FRAME_SIZE as int {
                assert(covers_page(pre, k));
            } else if k < (base + len) / FRAME_SIZE as int {
            } else {
                assert(pre[pos].base as int / FRAME_SIZE as int <= k < (pre[pos].base
                    + pre[pos].len) / FRAME_SIZE as int);
                assert(covers_page(pre, k));
            }
        } else if i < pos - 1 {
            assert(covers_page(pre, k));
        } else {
            assert(pre[i + 1].base as int / FRAME_SIZE as int <= k < (pre[i + 1].base + pre[i
                + 1].len) / FRAME_SIZE as int);
            assert(covers_page(pre, k));
        }
    }
    assert forall|k: int|
        base as int / FRAME_SIZE as int <= k < (base + len) / FRAME_SIZE as int implies
        covers_page(post, #[trigger] (k + 0)) by {
        assert(post[pos - 1] == merged);
        assert(merged.base as int / FRAME_SIZE as int <= k < (merged.base + merged.len)
            / FRAME_SIZE as int) by {
            lemma_div_is_ordered(merged.base as int, base as int, FRAME_SIZE as int);
            lemma_div_is_ordered(
                base + len,
                merged.base + merged.len,
                FRAME_SIZE as int,
            );
        }
    }
    assert forall|k: int|
        covers_page(pre, #[trigger] (k + 0)) implies covers_page(post, k) by {
        let i = choose|i: int|
            0 <= i < pre.len() && (#[trigger] pre[i]).base as int / FRAME_SIZE as int <= k < (
            pre[i].base + pre[i].len) / FRAME_SIZE as int;
        if i < pos - 1 {
            assert(post[i] == pre[i]);
            assert(covers_page(post, k));
        } else if i == pos - 1 {
            assert(post[pos - 1] == merged);
            lemma_div_is_ordered(pre[i].base + pre[i].len, merged.base + merged.len, FRAME_SIZE as int);
            assert(covers_page(post, k));
        } else if i == pos {
            assert(post[pos - 1] == merged);
            lemma_div_is_ordered(merged.base as int, pre[i].base as int, FRAME_SIZE as int);
            assert(covers_page(post, k));
        } else {
            assert(post[i - 1] == pre[i]);
            assert(covers_page(post, k));
        }
    }
}

#[verifier::rlimit(100)]
proof fn lemma_insert_left(
    pre: Seq<FreeVMRegion>,
    pos: int,
    base: u64,
    len: u64,
    post: Seq<FreeVMRegion>,
)
    requires
        insert_pos_ok(pre, pos, base, len),
        0 < pos,
        pre[pos - 1].base + pre[pos - 1].len == base,
        pos < pre.len() ==> base + len < pre[pos].base,
        post == pre.update(
            pos - 1,
            FreeVMRegion { base: pre[pos - 1].base, len: (pre[pos - 1].len + len) as u64 },
        ),
    ensures
        insert_covers_ok(pre, base, len, post),
{
    let merged = FreeVMRegion { base: pre[pos - 1].base, len: (pre[pos - 1].len + len) as u64 };
    assert forall|i: int| 0 <= i && i + 1 < post.len() implies (#[trigger] post[i]).base
        + post[i].len < post[i + 1].base by {}
    assert forall|k: int| #[trigger] covers_page(post, k) implies covers_page(pre, k) || (
    base as int / FRAME_SIZE as int <= k < (base + len) / FRAME_SIZE as int) by {
        let i = choose|i: int|
            0 <= i < post.len() && (#[trigger] post[i]).base as int / FRAME_SIZE as int <= k < (
            post[i].base + post[i].len) / FRAME_SIZE as int;
        if i == pos - 1 {
            if k < base as int / FRAME_SIZE as int {
                assert(covers_page(pre, k));
            }
        } else {
            assert(post[i] == pre[i]);
            assert(covers_page(pre, k));
        }
    }
    assert forall|k: int|
        base as int / FRAME_SIZE as int <= k < (base + len) / FRAME_SIZE as int implies
        covers_page(post, #[trigger] (k + 0)) by {
        assert(post[pos - 1] == merged);
        lemma_div_is_ordered(merged.base as int, base as int, FRAME_SIZE as int);
    }
    assert forall|k: int|
        covers_page(pre, #[trigger] (k + 0)) implies covers_page(post, k) by {
        let i = choose|i: int|
            0 <= i < pre.len() && (#[trigger] pre[i]).base as int / FRAME_SIZE as int <= k < (
            pre[i].base + pre[i].len) / FRAME_SIZE as int;
        if i == pos - 1 {
            assert(post[pos - 1] == merged);
            lemma_div_is_ordered(pre[i].base + pre[i].len, merged.base + merged.len, FRAME_SIZE as int);
            assert(covers_page(post, k));
        } else {
            assert(post[i] == pre[i]);
            assert(covers_page(post, k));
        }
    }
}

#[verifier::rlimit(100)]
proof fn lemma_insert_right(
    pre: Seq<FreeVMRegion>,
    pos: int,
    base: u64,
    len: u64,
    post: Seq<FreeVMRegion>,
)
    requires
        insert_pos_ok(pre, pos, base, len),
        pos < pre.len(),
        base + len == pre[pos].base,
        pos > 0 ==> pre[pos - 1].base + pre[pos - 1].len < base,
        post == pre.update(pos, FreeVMRegion { base, len: (len + pre[pos].len) as u64 }),
    ensures
        insert_covers_ok(pre, base, len, post),
{
    let merged = FreeVMRegion { base, len: (len + pre[pos].len) as u64 };
    assert forall|i: int| 0 <= i && i + 1 < post.len() implies (#[trigger] post[i]).base
        + post[i].len < post[i + 1].base by {}
    assert forall|k: int| #[trigger] covers_page(post, k) implies covers_page(pre, k) || (
    base as int / FRAME_SIZE as int <= k < (base + len) / FRAME_SIZE as int) by {
        let i = choose|i: int|
            0 <= i < post.len() && (#[trigger] post[i]).base as int / FRAME_SIZE as int <= k < (
            post[i].base + post[i].len) / FRAME_SIZE as int;
        if i == pos {
            if k >= (base + len) / FRAME_SIZE as int {
                assert(pre[pos].base as int / FRAME_SIZE as int <= k < (pre[pos].base
                    + pre[pos].len) / FRAME_SIZE as int);
                assert(covers_page(pre, k));
            }
        } else {
            assert(post[i] == pre[i]);
            assert(covers_page(pre, k));
        }
    }
    assert forall|k: int|
        base as int / FRAME_SIZE as int <= k < (base + len) / FRAME_SIZE as int implies
        covers_page(post, #[trigger] (k + 0)) by {
        assert(post[pos] == merged);
        lemma_div_is_ordered(base + len, merged.base + merged.len, FRAME_SIZE as int);
    }
    assert forall|k: int|
        covers_page(pre, #[trigger] (k + 0)) implies covers_page(post, k) by {
        let i = choose|i: int|
            0 <= i < pre.len() && (#[trigger] pre[i]).base as int / FRAME_SIZE as int <= k < (
            pre[i].base + pre[i].len) / FRAME_SIZE as int;
        if i == pos {
            assert(post[pos] == merged);
            lemma_div_is_ordered(merged.base as int, pre[i].base as int, FRAME_SIZE as int);
            assert(covers_page(post, k));
        } else {
            assert(post[i] == pre[i]);
            assert(covers_page(post, k));
        }
    }
}

#[verifier::rlimit(100)]
proof fn lemma_insert_alone(
    pre: Seq<FreeVMRegion>,
    pos: int,
    base: u64,
    len: u64,
    post: Seq<FreeVMRegion>,
)
    requires
        insert_pos_ok(pre, pos, base, len),
        pos > 0 ==> pre[pos - 1].base + pre[pos - 1].len < base,
        pos < pre.len() ==> base + len < pre[pos].base,
        post == pre.insert(pos, FreeVMRegion { base, len }),
    ensures
        insert_covers_ok(pre, base, len, post),
{
    let fresh = FreeVMRegion { base, len };
    assert forall|i: int| 0 <= i && i + 1 < post.len() implies (#[trigger] post[i]).base
        + post[i].len < post[i + 1].base by {
        if i + 1 < pos {
            assert(post[i] == pre[i] && post[i + 1] == pre[i + 1]);
        } else if i + 1 == pos {
            assert(post[i] == pre[i] && post[i + 1] == fresh);
        } else if i == pos {
            assert(post[i] == fresh && post[i + 1] == pre[i]);
        } else {
            assert(post[i] == pre[i - 1] && post[i + 1] == pre[i]);
        }
    }
    assert forall|i: int| 0 <= i < post.len() implies {
        &&& (#[trigger] post[i]).len > 0
        &&& post[i].len % FRAME_SIZE == 0
        &&& post[i].base % FRAME_SIZE == 0
        &&& VMALLOC_START <= post[i].base
        &&& post[i].base + post[i].len <= VMALLOC_START + VMALLOC_SIZE
    } by {
        if i < pos {
            assert(post[i] == pre[i]);
        } else if i > pos {
            assert(post[i] == pre[i - 1]);
        }
    }
    assert forall|k: int| #[trigger] covers_page(post, k) implies covers_page(pre, k) || (
    base as int / FRAME_SIZE as int <= k < (base + len) / FRAME_SIZE as int) by {
        let i = choose|i: int|
            0 <= i < post.len() && (#[trigger] post[i]).base as int / FRAME_SIZE as int <= k < (
            post[i].base + post[i].len) / FRAME_SIZE as int;
        if i < pos {
            assert(post[i] == pre[i]);
            assert(covers_page(pre, k));
        } else if i > pos {
            assert(post[i] == pre[i - 1]);
            assert(covers_page(pre, k));
        }
    }
    assert forall|k: int|
        base as int / FRAME_SIZE as int <= k < (base + len) / FRAME_SIZE as int implies
        covers_page(post, #[trigger] (k + 0)) by {
        assert(post[pos] == fresh);
    }
    assert forall|k: int|
        covers_page(pre, #[trigger] (k + 0)) implies covers_page(post, k) by {
        let i = choose|i: int|
            0 <= i < pre.len() && (#[trigger] pre[i]).base as int / FRAME_SIZE as int <= k < (
            pre[i].base + pre[i].len) / FRAME_SIZE as int;
        if i < pos {
            assert(post[i] == pre[i]);
            assert(covers_page(post, k));
        } else {
            assert(post[i + 1] == pre[i]);
            assert(covers_page(post, k));
        }
    }
}

/// Number of whole pages needed to hold `len` bytes.
pub open spec fn pages_for(len: u64) -> int {
    (len + FRAME_SIZE - 1) as int / FRAME_SIZE as int
}

/// Every page of the range starting at `va` is mapped, to a page-aligned
/// frame that the PMM tracks as allocated.
pub open spec fn range_backed(
    store: PageTableStore,
    root: int,
    pmm: SystemFrameAllocator,
    va: u64,
    pages: int,
) -> bool {
    forall|k: int|
        0 <= k < pages ==> {
            let m = #[trigger] store.translate(
                root,
                page_vpn(va as int / FRAME_SIZE as int + k),
            );
            &&& m is Some
            &&& (m->Some_0).0 % FRAME_SIZE == 0
            &&& ((m->Some_0).0 as int / FRAME_SIZE as int) < pmm.frames()
            &&& pmm.frame_used((m->Some_0).0 as int / FRAME_SIZE as int)
        }
}

/// Every page of the range carries exactly the requested flags.
pub open spec fn range_mapped(
    store: PageTableStore,
    root: int,
    va: u64,
    pages: int,
    flags: PageFlags,
) -> bool {
    forall|k: int|
        0 <= k < pages ==> {
            let m = #[trigger] store.translate(
                root,
                page_vpn(va as int / FRAME_SIZE as int + k),
            );
            m is Some && (m->Some_0).1 == flags
        }
}

/// No two pages of the range share a backing frame.
pub open spec fn range_frames_distinct(
    store: PageTableStore,
    root: int,
    va: u64,
    pages: int,
) -> bool {
    forall|k1: int, k2: int|
        0 <= k1 < k2 < pages ==> (#[trigger] store.translate(
            root,
            page_vpn(va as int / FRAME_SIZE as int + k1),
        ))->Some_0.0 != (#[trigger] store.translate(
            root,
            page_vpn(va as int / FRAME_SIZE as int + k2),
        ))->Some_0.0
}

/// Page numbers inside the managed range sit inside one aliasing window of
/// the four-level walk: their virtual page numbers are consecutive and
/// in bounds.
proof fn lemma_vpn_window(p: u64, m: u64)
    by (bit_vector)
    requires
        0xfffff80000000u64 <= p,
        p <= 0xfffff80008000u64,
        m <= 0x8000u64,
    ensures
        vstd::prelude::add(p, m) % 0x1000000000u64 == vstd::prelude::add(
            p % 0x1000000000u64,
            m,
        ),
        vstd::prelude::add(p % 0x1000000000u64, m) < 0x1000000000u64,
        p % 0x1000000000u64 >= 0xf80000000u64,
{
}

/// A page for which a fresh mapping can be created has no current mapping.
proof fn lemma_can_map_none(s: PageTableStore, root: int, vpn: u64)
    requires
        s.can_map(root, vpn),
    ensures
        s.translate(root, vpn) is None,
{
}

/// Page numbers of the managed range have consecutive virtual page numbers:
/// the walk's aliasing window never wraps inside the range.
proof fn lemma_page_vpn_at(k: int)
    requires
        0xfffff80000000 <= k <= 0xfffff80008000,
    ensures
        page_vpn(k) == 0xf80000000 + (k - 0xfffff80000000),
{
    let p: u64 = 0xfffff80000000u64;
    let m: u64 = (k - 0xfffff80000000) as u64;
    lemma_vpn_window(p, m);
    assert(vstd::prelude::add(p, m) == k);
    assert(0xfffff80000000u64 % 0x1000000000u64 == 0xf80000000u64) by (bit_vector);
    assert(vstd::prelude::add(p % 0x1000000000u64, m) == 0xf80000000 + m);
}

/// Loop invariant of backing a claimed range page by page: the first `k`
/// pages are mapped to the recorded distinct fresh frames, everything else
/// is untouched, and the whole range was mappable at the start.
spec fn map_inv(
    store0: PageTableStore,
    pmm0: SystemFrameAllocator,
    store: PageTableStore,
    pmm: SystemFrameAllocator,
    root: int,
    vpn0: u64,
    k: int,
    pages: int,
    flags: PageFlags,
    mapped: Seq<u64>,
) -> bool {
    &&& store.wf()
    &&& store.wf_space(root)
    &&& pmm.wf()
    &&& SystemFrameAllocator::grows(pmm0, pmm)
    &&& mapped.len() == k
    &&& 0 <= k <= pages
    &&& vpn0 + pages < VPN_LIMIT
    &&& store.table_count() >= store0.table_count()
    &&& free_count(pmm) == free_count(pmm0) - k - (store.table_count() - store0.table_count())
    &&& forall|m: int|
        0 <= m < k ==> store.translate(root, (vpn0 + m) as u64) == Some(
            (#[trigger] mapped[m], flags),
        )
    &&& forall|m: int|
        0 <= m < k ==> (#[trigger] mapped[m]) % FRAME_SIZE == 0 && (mapped[m] as int
            / FRAME_SIZE as int) < pmm.frames() && pmm.frame_used(
            mapped[m] as int / FRAME_SIZE as int,
        )
    &&& forall|m: int|
        0 <= m < k ==> !pmm0.frame_used((#[trigger] mapped[m]) as int / FRAME_SIZE as int)
    &&& forall|m1: int, m2: int|
        0 <= m1 < m2 < k ==> #[trigger] mapped[m1] != #[trigger] mapped[m2]
    &&& forall|w: u64|
        w < VPN_LIMIT && !(vpn0 <= w < vpn0 + k) ==> store.translate(root, w)
            == store0.translate(root, w) && store.can_map(root, w) == store0.can_map(root, w)
    &&& forall|m: int| 0 <= m < pages ==> #[trigger] store0.can_map(root, (vpn0 + m) as u64)
}

/// Back one more page of the claimed range with a fresh frame. Returns
/// false when the PMM is exhausted; the page then stays unmapped.
fn map_one(
    store: &mut PageTableStore,
    pmm: &mut SystemFrameAllocator,
    root_idx: usize,
    vpn0: u64,
    k: u64,
    pages: u64,
    flags: PageFlags,
    mapped: &mut Vec<u64>,
    Ghost(store0): Ghost<PageTableStore>,
    Ghost(pmm0): Ghost<SystemFrameAllocator>,
) -> (ok: bool)
    requires
        map_inv(
            store0,
            pmm0,
            *old(store),
            *old(pmm),
            root_idx as int,
            vpn0,
            k as int,
            pages as int,
            flags,
            old(mapped)@,
        ),
        k < pages,
        old(store).table_count() + 3 <= usize::MAX,
    ensures
        final (store).table_count() <= old(store).table_count() + 3,
        free_count(*final (pmm)) >= free_count(*old(pmm)) - 4,
        !ok ==> free_count(*old(pmm)) < 4,
        ok ==> map_inv(
            store0,
            pmm0,
            *final (store),
            *final (pmm),
            root_idx as int,
            vpn0,
            k + 1,
            pages as int,
            flags,
            final (mapped)@,
        ),
        !ok ==> map_inv(
            store0,
            pmm0,
            *final (store),
            *final (pmm),
            root_idx as int,
            vpn0,
            k as int,
            pages as int,
            flags,
            final (mapped)@,
        ) && final (mapped)@ == old(mapped)@,
{
    let ghost root = root_idx as int;
    let ghost s_pre = *store;
    let ghost p_pre = *pmm;
    proof {
        lemma_free_count_pos(*pmm);
    }
    let f = match pmm.allocate() {
        Some(f) => f,
        None => {
            proof {
                lemma_free_count_pos(*pmm);
            }
            return false;
        },
    };
    proof {
        lemma_alloc_count(p_pre, *pmm, f);
    }
    let ghost p_mid = *pmm;
    match store.map_page(root_idx, vpn0 + k, f, flags, pmm) {
        Ok(()) => {
            mapped.push(f);
            proof {
                lemma_map_one_ok(
                    store0,
                    pmm0,
                    s_pre,
                    *store,
                    p_pre,
                    p_mid,
                    *pmm,
                    root,
                    vpn0,
                    k as int,
                    pages as int,
                    flags,
                    old(mapped)@,
                    f,
                );
            }
            true
        },
        Err(e) => {
            proof {
                assert(store0.can_map(root, (vpn0 + k as int) as u64));
                assert(store.can_map(root, (vpn0 + k as int) as u64));
                assert(e == MapError::FrameAllocationFailed);
                pmm.lemma_frames_fit();
            }
            let ghost p_m2 = *pmm;
            pmm.deallocate(f);
            proof {
                assert(p_m2.frame_used(f as int / FRAME_SIZE as int));
                lemma_dealloc_count(p_m2, *pmm, f);
                lemma_map_one_err(
                    store0,
                    pmm0,
                    s_pre,
                    *store,
                    p_pre,
                    p_mid,
                    p_m2,
                    *pmm,
                    root,
                    vpn0,
                    k as int,
                    pages as int,
                    flags,
                    old(mapped)@,
                    f,
                );
            }
            false
        },
    }
}

/// One page backed successfully: the invariant advances by one page.
proof fn lemma_map_one_ok(
    store0: PageTableStore,
    pmm0: SystemFrameAllocator,
    s_pre: PageTableStore,
    s_post: PageTableStore,
    p_pre: SystemFrameAllocator,
    p_mid: SystemFrameAllocator,
    p_post: SystemFrameAllocator,
    root: int,
    vpn0: u64,
    k: int,
    pages: int,
    flags: PageFlags,
    mapped: Seq<u64>,
    f: u64,
)
    requires
        map_inv(store0, pmm0, s_pre, p_pre, root, vpn0, k, pages, flags, mapped),
        0 <= k < pages,
        SystemFrameAllocator::alloc_transition(p_pre, p_mid, Some(f)),
        p_mid.wf(),
        s_post.wf(),
        s_post.wf_space(root),
        p_post.wf(),
        SystemFrameAllocator::grows(p_mid, p_post),
        free_count(p_mid) - free_count(p_post) == s_post.table_count() - s_pre.table_count(),
        s_post.translate(root, (vpn0 + k) as u64) == Some((f, flags)),
        forall|w: u64|
            w < VPN_LIMIT && w != (vpn0 + k) as u64 ==> s_post.translate(root, w)
                == s_pre.translate(root, w) && s_post.can_map(root, w) == s_pre.can_map(root, w),
    ensures
        map_inv(store0, pmm0, s_post, p_post, root, vpn0, k + 1, pages, flags, mapped.push(f)),
{
    let fi = f as int / FRAME_SIZE as int;
    p_pre.lemma_frames_fit();
    lemma_alloc_count(p_pre, p_mid, f);
    lemma_grows_count(p_mid, p_post);
    assert(f % FRAME_SIZE == 0) by (nonlinear_arith)
        requires
            f == fi * FRAME_SIZE,
            FRAME_SIZE == 4096,
            fi >= 0,
    ;
    assert(SystemFrameAllocator::grows(p_pre, p_mid));
    assert(SystemFrameAllocator::grows(pmm0, p_post));
    assert(!pmm0.frame_used(fi));
    let mapped2 = mapped.push(f);
    assert forall|m: int| 0 <= m < k + 1 implies s_post.translate(root, (vpn0 + m) as u64)
        == Some((#[trigger] mapped2[m], flags)) by {
        if m < k {
            assert(mapped2[m] == mapped[m]);
            assert((vpn0 + m) as u64 != (vpn0 + k) as u64);
        }
    }
    assert forall|m: int| 0 <= m < k + 1 implies (#[trigger] mapped2[m]) % FRAME_SIZE == 0 && (
    mapped2[m] as int / FRAME_SIZE as int) < p_post.frames() && p_post.frame_used(
        mapped2[m] as int / FRAME_SIZE as int,
    ) by {
        if m < k {
            assert(mapped2[m] == mapped[m]);
            assert((mapped[m] as int / FRAME_SIZE as int) < p_pre.capacity()) by {
                p_pre.lemma_frames_fit();
            }
            assert(p_mid.frame_used(mapped[m] as int / FRAME_SIZE as int));
        }
    }
    assert forall|m: int| 0 <= m < k + 1 implies !pmm0.frame_used(
        (#[trigger] mapped2[m]) as int / FRAME_SIZE as int,
    ) by {
        if m < k {
            assert(mapped2[m] == mapped[m]);
        }
    }
    assert forall|m1: int, m2: int| 0 <= m1 < m2 < k + 1 implies #[trigger] mapped2[m1]
        != #[trigger] mapped2[m2] by {
        if m2 == k {
            assert(mapped2[m1] == mapped[m1]);
            assert(p_pre.frame_used(mapped[m1] as int / FRAME_SIZE as int));
            assert(!p_pre.frame_used(fi));
        } else {
            assert(mapped2[m1] == mapped[m1] && mapped2[m2] == mapped[m2]);
        }
    }
}

/// Backing a page failed at mapping time and the fresh frame went back:
/// the invariant still holds unchanged.
proof fn lemma_map_one_err(
    store0: PageTableStore,
    pmm0: SystemFrameAllocator,
    s_pre: PageTableStore,
    s_post: PageTableStore,
    p_pre: SystemFrameAllocator,
    p_mid: SystemFrameAllocator,
    p_m2: SystemFrameAllocator,
    p_post: SystemFrameAllocator,
    root: int,
    vpn0: u64,
    k: int,
    pages: int,
    flags: PageFlags,
    mapped: Seq<u64>,
    f: u64,
)
    requires
        map_inv(store0, pmm0, s_pre, p_pre, root, vpn0, k, pages, flags, mapped),
        0 <= k < pages,
        SystemFrameAllocator::alloc_transition(p_pre, p_mid, Some(f)),
        p_mid.wf(),
        s_post.wf(),
        s_post.wf_space(root),
        p_m2.wf(),
        SystemFrameAllocator::grows(p_mid, p_m2),
        free_count(p_mid) - free_count(p_m2) == s_post.table_count() - s_pre.table_count(),
        SystemFrameAllocator::dealloc_transition(p_m2, p_post, f),
        p_post.wf(),
        s_post.translate(root, (vpn0 + k) as u64) == s_pre.translate(root, (vpn0 + k) as u64),
        s_post.can_map(root, (vpn0 + k) as u64) == s_pre.can_map(root, (vpn0 + k) as u64),
        forall|w: u64|
            w < VPN_LIMIT && w != (vpn0 + k) as u64 ==> s_post.translate(root, w)
                == s_pre.translate(root, w) && s_post.can_map(root, w) == s_pre.can_map(root, w),
    ensures
        map_inv(store0, pmm0, s_post, p_post, root, vpn0, k, pages, flags, mapped),
{
    let fi = f as int / FRAME_SIZE as int;
    p_pre.lemma_frames_fit();
    lemma_alloc_count(p_pre, p_mid, f);
    lemma_grows_count(p_mid, p_m2);
    assert(p_m2.frame_used(fi));
    lemma_dealloc_count(p_m2, p_post, f);
    assert(SystemFrameAllocator::grows(p_pre, p_mid));
    assert(!pmm0.frame_used(fi));
    assert forall|g: int| 0 <= g < pmm0.capacity() && pmm0.frame_used(g) implies p_post.frame_used(
        g,
    ) by {
        assert(p_m2.frame_used(g));
        assert(g != fi);
    }
    assert forall|m: int| 0 <= m < k implies (#[trigger] mapped[m]) % FRAME_SIZE == 0 && (
    mapped[m] as int / FRAME_SIZE as int) < p_post.frames() && p_post.frame_used(
        mapped[m] as int / FRAME_SIZE as int,
    ) by {
        assert(p_pre.frame_used(mapped[m] as int / FRAME_SIZE as int));
        assert(mapped[m] as int / FRAME_SIZE as int != fi);
        assert(p_m2.frame_used(mapped[m] as int / FRAME_SIZE as int));
    }
    assert forall|w: u64|
        w < VPN_LIMIT && !(vpn0 <= w < vpn0 + k) implies s_post.translate(root, w)
            == store0.translate(root, w) && s_post.can_map(root, w) == store0.can_map(
            root,
            w,
        ) by {}
}

/// Loop invariant of rolling a partial mapping back: the first `m` pages
/// are unmapped again with their frames returned, the rest still carry
/// their recorded frames.
spec fn unmap_inv(
    store0: PageTableStore,
    pmm0: SystemFrameAllocator,
    store: PageTableStore,
    pmm: SystemFrameAllocator,
    root: int,
    vpn0: u64,
    m: int,
    kf: int,
    pages: int,
    flags: PageFlags,
    mapped: Seq<u64>,
) -> bool {
    &&& store.wf()
    &&& store.wf_space(root)
    &&& pmm.wf()
    &&& SystemFrameAllocator::grows(pmm0, pmm)
    &&& mapped.len() == kf
    &&& 0 <= m <= kf <= pages
    &&& vpn0 + pages < VPN_LIMIT
    &&& store.table_count() >= store0.table_count()
    &&& free_count(pmm) == free_count(pmm0) - (kf - m) - (store.table_count()
        - store0.table_count())
    &&& forall|mp: int|
        m <= mp < kf ==> store.translate(root, (vpn0 + mp) as u64) == Some(
            (#[trigger] mapped[mp], flags),
        )
    &&& forall|mp: int|
        m <= mp < kf ==> (#[trigger] mapped[mp]) % FRAME_SIZE == 0 && (mapped[mp] as int
            / FRAME_SIZE as int) < pmm.frames() && pmm.frame_used(
            mapped[mp] as int / FRAME_SIZE as int,
        )
    &&& forall|mp: int|
        0 <= mp < kf ==> !pmm0.frame_used((#[trigger] mapped[mp]) as int / FRAME_SIZE as int)
    &&& forall|m1: int, m2: int|
        0 <= m1 < m2 < kf ==> #[trigger] mapped[m1] != #[trigger] mapped[m2]
    &&& forall|mp: int|
        0 <= mp < m ==> store.translate(root, (vpn0 + mp) as u64) is None && store.can_map(
            root,
            #[trigger] ((vpn0 + mp) as u64),
        )
    &&& forall|w: u64|
        w < VPN_LIMIT && !(vpn0 <= w < vpn0 + kf) ==> store.translate(root, w)
            == store0.translate(root, w) && store.can_map(root, w) == store0.can_map(root, w)
    &&& forall|mp: int| 0 <= mp < pages ==> #[trigger] store0.can_map(root, (vpn0 + mp) as u64)
}

/// Undo the mapping of one page of a partially backed range and return its
/// frame to the PMM.
fn unmap_one(
    store: &mut PageTableStore,
    pmm: &mut SystemFrameAllocator,
    root_idx: usize,
    vpn0: u64,
    m: usize,
    Ghost(kf): Ghost<int>,
    Ghost(pages): Ghost<int>,
    Ghost(flags): Ghost<PageFlags>,
    mapped: &Vec<u64>,
    Ghost(store0): Ghost<PageTableStore>,
    Ghost(pmm0): Ghost<SystemFrameAllocator>,
)
    requires
        unmap_inv(
            store0,
            pmm0,
            *old(store),
            *old(pmm),
            root_idx as int,
            vpn0,
            m as int,
            kf,
            pages,
            flags,
            mapped@,
        ),
        m < kf,
    ensures
        final (store).table_count() == old(store).table_count(),
        unmap_inv(
            store0,
            pmm0,
            *final (store),
            *final (pmm),
            root_idx as int,
            vpn0,
            m + 1,
            kf,
            pages,
            flags,
            mapped@,
        ),
{
    let ghost root = root_idx as int;
    let f = mapped[m];
    match store.unmap_page(root_idx, vpn0 + (m as u64)) {
        Ok((fr, _fl)) => {
            proof {
                assert(fr == f);
                pmm.lemma_frames_fit();
            }
            let ghost p_pre = *pmm;
            pmm.deallocate(fr);
            proof {
                lemma_dealloc_count(p_pre, *pmm, fr);
            }
        },
        Err(_) => {
            proof {
                assert(false);
            }
        },
    }
}

impl VMAlloc {
    /// Allocate `byte_length` bytes of virtual memory, rounded up to whole
    /// pages, each page backed by a fresh physical frame mapped with the
    /// given flags.
    ///
    /// Scans the free list in address order and claims the first region
    /// large enough (first-fit). When the PMM runs out of frames partway
    /// through backing the range, every page mapped so far is unmapped
    /// again, its frame returned, and the claimed range reinserted into the
    /// free list: a failed call leaves no partial mappings behind. Returns
    /// `None` on virtual or physical exhaustion rather than panicking.
    #[verifier::rlimit(100)]
    pub fn allocate(
        &mut self,
        store: &mut PageTableStore,
        pmm: &mut SystemFrameAllocator,
        byte_length: u64,
        flags: PageFlags,
    ) -> (r: Option<u64>)
        requires
            old(self).wf(),
            old(store).wf(),
            old(store).wf_space(old(self).address_space.root as int),
            old(pmm).wf(),
            old(self).free_mappable(*old(store)),
            0 < byte_length,
            old(store).table_count() + 3 * ((VMALLOC_SIZE / FRAME_SIZE) as int) <= usize::MAX,
        ensures
            final (self).wf(),
            final (store).wf(),
            final (store).wf_space(final (self).address_space.root as int),
            final (pmm).wf(),
            SystemFrameAllocator::grows(*old(pmm), *final (pmm)),
            final (self).free_mappable(*final (store)),
            final (self).address_space == old(self).address_space,
            (exists|j: int|
                0 <= j < old(self).free_list@.len() && (#[trigger] old(self).free_list@[j]).len
                    >= pages_for(byte_length) * FRAME_SIZE) && free_count(*old(pmm)) >= 4
                * pages_for(byte_length) ==> r is Some,
            final (store).table_count() <= old(store).table_count() + 3 * pages_for(byte_length),
            r is None ==> free_count(*old(pmm)) - free_count(*final (pmm))
                == final (store).table_count() - old(store).table_count(),
            r is None && (forall|i: int|
                0 <= i < old(self).free_list@.len() ==> (#[trigger] old(self).free_list@[i]).len
                    < pages_for(byte_length) * FRAME_SIZE) ==> *final (self) == *old(self)
                && *final (pmm) == *old(pmm) && *final (store) == *old(store),
            match r {
                Some(va) => {
                    &&& exists|j: int|
                        #[trigger] first_fit_at(
                            old(self).free_list@,
                            (pages_for(byte_length) * FRAME_SIZE) as u64,
                            j,
                            va,
                            final (self).free_list@,
                        )
                    &&& final (self).allocated == old(self).allocated + pages_for(byte_length)
                        * FRAME_SIZE
                    &&& va % FRAME_SIZE == 0
                    &&& VMALLOC_START <= va
                    &&& va + pages_for(byte_length) * FRAME_SIZE <= VMALLOC_START + VMALLOC_SIZE
                    &&& range_backed(
                        *final (store),
                        final (self).address_space.root as int,
                        *final (pmm),
                        va,
                        pages_for(byte_length),
                    )
                    &&& range_mapped(
                        *final (store),
                        final (self).address_space.root as int,
                        va,
                        pages_for(byte_length),
                        flags,
                    )
                    &&& range_frames_distinct(
                        *final (store),
                        final (self).address_space.root as int,
                        va,
                        pages_for(byte_length),
                    )
                    &&& forall|w: u64|
                        w < VPN_LIMIT && !(page_vpn(va as int / FRAME_SIZE as int) <= w < page_vpn(
                            va as int / FRAME_SIZE as int,
                        ) + pages_for(byte_length)) ==> final (store).translate(
                            final (self).address_space.root as int,
                            w,
                        ) == old(store).translate(final (self).address_space.root as int, w)
                    &&& free_count(*old(pmm)) - free_count(*final (pmm)) == pages_for(byte_length)
                        + final (store).table_count() - old(store).table_count()
                },
                None => {
                    &&& final (self).allocated == old(self).allocated
                    &&& forall|k: int|
                        covers_page(final (self).free_list@, #[trigger] (k + 0)) <==> covers_page(
                            old(self).free_list@,
                            k,
                        )
                    &&& forall|w: u64|
                        w < VPN_LIMIT ==> final (store).translate(
                            old(self).address_space.root as int,
                            w,
                        ) == old(store).translate(old(self).address_space.root as int, w)
                },
            },
    {
        let ghost root = self.address_space.root as int;
        let root_idx = self.address_space.root;
        if byte_length > VMALLOC_SIZE {
            // No region can ever hold this much: every free region fits
            // inside the reserved range.
            proof {
                assert forall|j: int| 0 <= j < self.free_list@.len() implies (
                #[trigger] self.free_list@[j]).len < pages_for(byte_length) * FRAME_SIZE by {
                    assert(self.free_list@[j].len <= VMALLOC_SIZE);
                    assert(pages_for(byte_length) * FRAME_SIZE > VMALLOC_SIZE)
                        by (nonlinear_arith)
                        requires
                            pages_for(byte_length) == (byte_length + FRAME_SIZE - 1) as int
                                / FRAME_SIZE as int,
                            byte_length > VMALLOC_SIZE,
                            FRAME_SIZE == 4096,
                            VMALLOC_SIZE == 0x8000000,
                    ;
                }
            }
            return None;
        }
        let pages: u64 = (byte_length + FRAME_SIZE - 1) / FRAME_SIZE;
        let bytes: u64 = pages * FRAME_SIZE;
        proof {
            assert(pages == pages_for(byte_length));
            assert(pages <= VMALLOC_SIZE / FRAME_SIZE) by (nonlinear_arith)
                requires
                    pages == (byte_length + FRAME_SIZE - 1) as int / FRAME_SIZE as int,
                    0 < byte_length <= VMALLOC_SIZE,
                    FRAME_SIZE == 4096,
                    VMALLOC_SIZE == 0x8000000,
            ;
            assert(bytes <= VMALLOC_SIZE) by (nonlinear_arith)
                requires
                    bytes == pages * FRAME_SIZE,
                    pages <= VMALLOC_SIZE / FRAME_SIZE,
                    FRAME_SIZE == 4096,
                    VMALLOC_SIZE == 0x8000000,
            ;
            assert(bytes >= FRAME_SIZE) by (nonlinear_arith)
                requires
                    bytes == pages * FRAME_SIZE,
                    pages == (byte_length + FRAME_SIZE - 1) as int / FRAME_SIZE as int,
                    0 < byte_length,
                    FRAME_SIZE == 4096,
            ;
            assert(bytes % FRAME_SIZE == 0) by (nonlinear_arith)
                requires
                    bytes == pages * FRAME_SIZE,
                    FRAME_SIZE == 4096,
            ;
        }

        let va = match self.take_first_fit(bytes) {
            Some(va) => va,
            None => {
                return None;
            },
        };
        let ghost s_taken = *self;

        // The claimed pages sit in one aliasing window of the walk.
        let vpn0: u64 = (va / FRAME_SIZE) % VPN_LIMIT;
        proof {
            lemma_claim_window(
                *old(self),
                s_taken,
                *old(store),
                root,
                va,
                bytes,
                pages as int,
                vpn0,
            );
        }

        let mut mapped: Vec<u64> = Vec::new();
        let mut k: u64 = 0;
        let mut failed: bool = false;
        while k < pages && !failed
            invariant
                *self == s_taken,
                self.address_space.root == root_idx,
                root == root_idx as int,
                0 <= k <= pages,
                store.table_count() <= old(store).table_count() + 3 * k + (if failed {
                    3int
                } else {
                    0int
                }),
                free_count(*pmm) >= free_count(*old(pmm)) - 4 * k - (if failed {
                    4int
                } else {
                    0int
                }),
                failed ==> free_count(*old(pmm)) < 4 * (pages as int),
                failed ==> k < pages,
                old(store).table_count() + 3 * ((VMALLOC_SIZE / FRAME_SIZE) as int) <= usize::MAX,
                pages <= VMALLOC_SIZE / FRAME_SIZE,
                map_inv(
                    *old(store),
                    *old(pmm),
                    *store,
                    *pmm,
                    root,
                    vpn0,
                    k as int,
                    pages as int,
                    flags,
                    mapped@,
                ),
            decreases pages - k + if failed {
                0int
            } else {
                1int
            },
        {
            if map_one(
                store,
                pmm,
                root_idx,
                vpn0,
                k,
                pages,
                flags,
                &mut mapped,
                Ghost(*old(store)),
                Ghost(*old(pmm)),
            ) {
                k += 1;
            } else {
                failed = true;
            }
        }

        if !failed {
            proof {
                lemma_alloc_success(
                    *old(self),
                    s_taken,
                    *old(store),
                    *store,
                    *old(pmm),
                    *pmm,
                    root,
                    va,
                    bytes,
                    pages as int,
                    vpn0,
                    flags,
                    mapped@,
                );
            }
            return Some(va);
        }

        // Physical memory ran out mid-way: roll the partial mapping back.
        let kf = k;
        let mut m: usize = 0;
        while m < mapped.len()
            invariant
                *self == s_taken,
                self.address_space.root == root_idx,
                root == root_idx as int,
                mapped@.len() == kf <= pages,
                0 <= m <= kf,
                store.table_count() <= old(store).table_count() + 3 * (pages as int),
                unmap_inv(
                    *old(store),
                    *old(pmm),
                    *store,
                    *pmm,
                    root,
                    vpn0,
                    m as int,
                    kf as int,
                    pages as int,
                    flags,
                    mapped@,
                ),
            decreases mapped@.len() - m,
        {
            unmap_one(
                store,
                pmm,
                root_idx,
                vpn0,
                m,
                Ghost(kf as int),
                Ghost(pages as int),
                Ghost(flags),
                &mapped,
                Ghost(*old(store)),
                Ghost(*old(pmm)),
            );
            m += 1;
        }

        self.insert_region(va, bytes);
        proof {
            lemma_sum_le_span(
                self.free_list@,
                VMALLOC_START as int,
                (VMALLOC_START + VMALLOC_SIZE) as int,
            );
        }
        self.allocated = self.allocated - bytes;

        proof {
            lemma_alloc_rollback(
                *old(self),
                s_taken,
                *self,
                *old(store),
                *store,
                *old(pmm),
                *pmm,
                root,
                va,
                bytes,
                pages as int,
                vpn0,
                flags,
                mapped@,
                kf as int,
            );
            if forall|i: int|
                0 <= i < old(self).free_list@.len() ==> (#[trigger] old(self).free_list@[i]).len
                    < pages_for(byte_length) * FRAME_SIZE {
                let j = choose|j: int|
                    #[trigger] first_fit_at(
                        old(self).free_list@,
                        bytes,
                        j,
                        va,
                        s_taken.free_list@,
                    );
                assert(old(self).free_list@[j].len < bytes);
                assert(false);
            }
        }
        None
    }
}

/// After a successful first-fit claim of `[va, va + bytes)`, the claimed
/// pages sit in one aliasing window, every claimed page is still mappable,
/// and their virtual page numbers start at `vpn0`.
proof fn lemma_claim_window(
    pre: VMAlloc,
    taken: VMAlloc,
    store0: PageTableStore,
    root: int,
    va: u64,
    bytes: u64,
    pages: int,
    vpn0: u64,
)
    requires
        pre.wf(),
        pre.free_mappable(store0),
        root == pre.address_space.root as int,
        va % FRAME_SIZE == 0,
        VMALLOC_START <= va,
        va + bytes <= VMALLOC_START + VMALLOC_SIZE,
        bytes == pages * FRAME_SIZE,
        0 < pages <= VMALLOC_SIZE / FRAME_SIZE,
        vpn0 == (va as int / FRAME_SIZE as int) % (VPN_LIMIT as int),
        forall|k: int|
            va as int / FRAME_SIZE as int <= k < (va + bytes) / FRAME_SIZE as int ==> covers_page(
                pre.free_list@,
                #[trigger] (k + 0),
            ),
    ensures
        vpn0 + pages < VPN_LIMIT,
        forall|m: int|
            0 <= m <= pages ==> #[trigger] page_vpn(va as int / FRAME_SIZE as int + m) == vpn0 + m,
        forall|m: int| 0 <= m < pages ==> #[trigger] store0.can_map(root, (vpn0 + m) as u64),
        (va + bytes) / FRAME_SIZE as int == va as int / FRAME_SIZE as int + pages,
{
    lemma_div_is_ordered(VMALLOC_START as int, va as int, FRAME_SIZE as int);
    assert((va + bytes) / FRAME_SIZE as int == va as int / FRAME_SIZE as int + pages)
        by (nonlinear_arith)
        requires
            va % FRAME_SIZE == 0,
            bytes == pages * FRAME_SIZE,
            FRAME_SIZE == 4096,
    ;
    lemma_div_is_ordered(va + bytes, (VMALLOC_START + VMALLOC_SIZE) as int, FRAME_SIZE as int);
    assert(VMALLOC_START as int / FRAME_SIZE as int == 0xfffff80000000);
    assert((VMALLOC_START + VMALLOC_SIZE) as int / FRAME_SIZE as int == 0xfffff80008000);
    assert forall|m: int| 0 <= m <= pages implies #[trigger] page_vpn(
        va as int / FRAME_SIZE as int + m,
    ) == vpn0 + m by {
        lemma_page_vpn_at(va as int / FRAME_SIZE as int + m);
        lemma_page_vpn_at(va as int / FRAME_SIZE as int);
    }
    assert(vpn0 + pages < VPN_LIMIT) by {
        lemma_page_vpn_at(va as int / FRAME_SIZE as int + pages);
        lemma_page_vpn_at(va as int / FRAME_SIZE as int);
    }
    assert forall|m: int| 0 <= m < pages implies #[trigger] store0.can_map(
        root,
        (vpn0 + m) as u64,
    ) by {
        assert(covers_page(pre.free_list@, va as int / FRAME_SIZE as int + m + 0));
        assert(page_vpn(va as int / FRAME_SIZE as int + m) == vpn0 + m);
    }
}

/// When every page of the claimed range is mapped, the allocation's
/// postcondition holds: the range is backed by distinct fresh frames and
/// the remaining free pages are still mappable.
proof fn lemma_alloc_success(
    pre: VMAlloc,
    taken: VMAlloc,
    store0: PageTableStore,
    store: PageTableStore,
    pmm0: SystemFrameAllocator,
    pmm: SystemFrameAllocator,
    root: int,
    va: u64,
    bytes: u64,
    pages: int,
    vpn0: u64,
    flags: PageFlags,
    mapped: Seq<u64>,
)
    requires
        map_inv(store0, pmm0, store, pmm, root, vpn0, pages, pages, flags, mapped),
        taken.wf(),
        root == taken.address_space.root as int,
        va % FRAME_SIZE == 0,
        VMALLOC_START <= va,
        va + bytes <= VMALLOC_START + VMALLOC_SIZE,
        bytes == pages * FRAME_SIZE,
        0 < pages,
        forall|m: int|
            0 <= m <= pages ==> #[trigger] page_vpn(va as int / FRAME_SIZE as int + m) == vpn0 + m,
        vpn0 == page_vpn(va as int / FRAME_SIZE as int),
        forall|k: int| #[trigger]
            covers_page(taken.free_list@, k) ==> covers_page(pre.free_list@, k) && !(
            va as int / FRAME_SIZE as int <= k < (va + bytes) / FRAME_SIZE as int),
        (va + bytes) / FRAME_SIZE as int == va as int / FRAME_SIZE as int + pages,
        pre.free_mappable(store0),
        pre.address_space == taken.address_space,
    ensures
        range_backed(store, root, pmm, va, pages),
        range_mapped(store, root, va, pages, flags),
        range_frames_distinct(store, root, va, pages),
        taken.free_mappable(store),
        forall|w: u64|
            w < VPN_LIMIT && !(page_vpn(va as int / FRAME_SIZE as int) <= w < page_vpn(
                va as int / FRAME_SIZE as int,
            ) + pages) ==> store.translate(root, w) == store0.translate(root, w),
{
    assert forall|k: int| 0 <= k < pages implies {
        let m = #[trigger] store.translate(root, page_vpn(va as int / FRAME_SIZE as int + k));
        &&& m is Some
        &&& (m->Some_0).0 % FRAME_SIZE == 0
        &&& ((m->Some_0).0 as int / FRAME_SIZE as int) < pmm.frames()
        &&& pmm.frame_used((m->Some_0).0 as int / FRAME_SIZE as int)
        &&& (m->Some_0).1 == flags
    } by {
        assert(page_vpn(va as int / FRAME_SIZE as int + k) == vpn0 + k);
        assert(store.translate(root, (vpn0 + k) as u64) == Some((mapped[k], flags)));
    }
    assert forall|k1: int, k2: int| 0 <= k1 < k2 < pages implies (#[trigger] store.translate(
        root,
        page_vpn(va as int / FRAME_SIZE as int + k1),
    ))->Some_0.0 != (#[trigger] store.translate(
        root,
        page_vpn(va as int / FRAME_SIZE as int + k2),
    ))->Some_0.0 by {
        assert(page_vpn(va as int / FRAME_SIZE as int + k1) == vpn0 + k1);
        assert(page_vpn(va as int / FRAME_SIZE as int + k2) == vpn0 + k2);
        assert(store.translate(root, (vpn0 + k1) as u64) == Some((mapped[k1], flags)));
        assert(store.translate(root, (vpn0 + k2) as u64) == Some((mapped[k2], flags)));
    }
    assert forall|kp: int| #[trigger] covers_page(taken.free_list@, kp) implies store.can_map(
        root,
        page_vpn(kp),
    ) by {
        assert(covers_page(pre.free_list@, kp));
        assert(store0.can_map(root, page_vpn(kp)));
        assert(0xfffff80000000 <= kp < 0xfffff80008000) by {
            let i = choose|i: int|
                0 <= i < taken.free_list@.len() && (#[trigger] taken.free_list@[i]).base as int
                    / FRAME_SIZE as int <= kp < (taken.free_list@[i].base
                    + taken.free_list@[i].len) / FRAME_SIZE as int;
            lemma_div_is_ordered(
                VMALLOC_START as int,
                taken.free_list@[i].base as int,
                FRAME_SIZE as int,
            );
            lemma_div_is_ordered(
                taken.free_list@[i].base + taken.free_list@[i].len,
                (VMALLOC_START + VMALLOC_SIZE) as int,
                FRAME_SIZE as int,
            );
        }
        lemma_page_vpn_at(kp);
        lemma_page_vpn_at(va as int / FRAME_SIZE as int);
        assert(!(vpn0 <= page_vpn(kp) < vpn0 + pages));
    }
}

/// After rolling a failed allocation fully back, nothing observable
/// changed: all translations, the free coverage and the accounting are as
/// before the call.
proof fn lemma_alloc_rollback(
    pre: VMAlloc,
    taken: VMAlloc,
    fin: VMAlloc,
    store0: PageTableStore,
    store: PageTableStore,
    pmm0: SystemFrameAllocator,
    pmm: SystemFrameAllocator,
    root: int,
    va: u64,
    bytes: u64,
    pages: int,
    vpn0: u64,
    flags: PageFlags,
    mapped: Seq<u64>,
    kf: int,
)
    requires
        unmap_inv(store0, pmm0, store, pmm, root, vpn0, kf, kf, pages, flags, mapped),
        pre.wf(),
        pre.free_mappable(store0),
        root == pre.address_space.root as int,
        pre.address_space == fin.address_space,
        va % FRAME_SIZE == 0,
        VMALLOC_START <= va,
        va + bytes <= VMALLOC_START + VMALLOC_SIZE,
        bytes == pages * FRAME_SIZE,
        0 < pages,
        forall|m: int|
            0 <= m <= pages ==> #[trigger] page_vpn(va as int / FRAME_SIZE as int + m) == vpn0 + m,
        (va + bytes) / FRAME_SIZE as int == va as int / FRAME_SIZE as int + pages,
        // what take_first_fit left behind
        forall|k: int|
            va as int / FRAME_SIZE as int <= k < (va + bytes) / FRAME_SIZE as int ==> covers_page(
                pre.free_list@,
                #[trigger] (k + 0),
            ),
        forall|k: int| #[trigger]
            covers_page(taken.free_list@, k) ==> covers_page(pre.free_list@, k) && !(
            va as int / FRAME_SIZE as int <= k < (va + bytes) / FRAME_SIZE as int),
        forall|k: int|
            covers_page(pre.free_list@, #[trigger] (k + 0)) && !(va as int / FRAME_SIZE as int
                <= k < (va + bytes) / FRAME_SIZE as int) ==> covers_page(taken.free_list@, k),
        // what insert_region produced
        forall|k: int| #[trigger]
            covers_page(fin.free_list@, k) ==> covers_page(taken.free_list@, k) || (
            va as int / FRAME_SIZE as int <= k < (va + bytes) / FRAME_SIZE as int),
        forall|k: int|
            covers_page(taken.free_list@, #[trigger] (k + 0)) ==> covers_page(fin.free_list@, k),
        forall|k: int|
            va as int / FRAME_SIZE as int <= k < (va + bytes) / FRAME_SIZE as int ==> covers_page(
                fin.free_list@,
                #[trigger] (k + 0),
            ),
    ensures
        forall|w: u64|
            w < VPN_LIMIT ==> store.translate(root, w) == store0.translate(root, w),
        forall|k: int|
            covers_page(fin.free_list@, #[trigger] (k + 0)) <==> covers_page(pre.free_list@, k),
        fin.free_mappable(store),
{
    assert forall|w: u64| w < VPN_LIMIT implies store.translate(root, w) == store0.translate(
        root,
        w,
    ) && store.can_map(root, w) == store0.can_map(root, w) by {
        if vpn0 <= w < vpn0 + kf {
            let mp = w - vpn0;
            assert(store.translate(root, (vpn0 + mp) as u64) is None);
            assert(store.can_map(root, (vpn0 + mp) as u64));
            assert(store0.can_map(root, (vpn0 + mp) as u64));
            lemma_can_map_none(store0, root, (vpn0 + mp) as u64);
        }
    }
    assert forall|k: int|
        covers_page(fin.free_list@, #[trigger] (k + 0)) <==> covers_page(
            pre.free_list@,
            k,
        ) by {
        if covers_page(fin.free_list@, k + 0) {
            if !(va as int / FRAME_SIZE as int <= k < (va + bytes) / FRAME_SIZE as int) {
                assert(covers_page(taken.free_list@, k));
                assert(covers_page(pre.free_list@, k));
            } else {
                assert(covers_page(pre.free_list@, k + 0));
            }
        }
        if covers_page(pre.free_list@, k) {
            if va as int / FRAME_SIZE as int <= k < (va + bytes) / FRAME_SIZE as int {
                assert(covers_page(fin.free_list@, k + 0));
            } else {
                assert(covers_page(pre.free_list@, k + 0));
                assert(covers_page(taken.free_list@, k));
                assert(covers_page(taken.free_list@, k + 0));
                assert(covers_page(fin.free_list@, k));
            }
        }
    }
    assert forall|kp: int| #[trigger] covers_page(fin.free_list@, kp) implies store.can_map(
        root,
        page_vpn(kp),
    ) by {
        assert(covers_page(fin.free_list@, kp + 0));
        assert(covers_page(pre.free_list@, kp));
        assert(store0.can_map(root, page_vpn(kp)));
        assert(0xfffff80000000 <= kp < 0xfffff80008000) by {
            let i = choose|i: int|
                0 <= i < pre.free_list@.len() && (#[trigger] pre.free_list@[i]).base as int
                    / FRAME_SIZE as int <= kp < (pre.free_list@[i].base + pre.free_list@[i].len)
                    / FRAME_SIZE as int;
            lemma_div_is_ordered(
                VMALLOC_START as int,
                pre.free_list@[i].base as int,
                FRAME_SIZE as int,
            );
            lemma_div_is_ordered(
                pre.free_list@[i].base + pre.free_list@[i].len,
                (VMALLOC_START + VMALLOC_SIZE) as int,
                FRAME_SIZE as int,
            );
        }
        lemma_page_vpn_at(kp);
        assert(page_vpn(kp) < VPN_LIMIT);
        assert(store.can_map(root, page_vpn(kp)) == store0.can_map(root, page_vpn(kp)));
    }
}
/// The index of the physical frame backing `vpn`, when it is mapped.
pub open spec fn page_frame(store: PageTableStore, root: int, vpn: u64) -> int {
    (store.translate(root, vpn)->Some_0).0 as int / FRAME_SIZE as int
}

/// The consecutive virtual pages `vpn0 .. vpn0 + pages` are all mapped to
/// distinct live frames.
spec fn range_backed_at(
    store0: PageTableStore,
    pmm0: SystemFrameAllocator,
    root: int,
    vpn0: u64,
    pages: int,
) -> bool {
    &&& forall|mp: int|
        0 <= mp < pages ==> {
            let t = store0.translate(root, #[trigger] ((vpn0 + mp) as u64));
            &&& t is Some
            &&& (t->Some_0).0 % FRAME_SIZE == 0
            &&& ((t->Some_0).0 as int / FRAME_SIZE as int) < pmm0.frames()
            &&& pmm0.frame_used((t->Some_0).0 as int / FRAME_SIZE as int)
        }
    &&& forall|m1: int, m2: int|
        0 <= m1 < m2 < pages ==> page_frame(store0, root, #[trigger] ((vpn0 + m1) as u64))
            != page_frame(store0, root, #[trigger] ((vpn0 + m2) as u64))
}

/// Loop invariant of releasing a range: the first `m` pages are unmapped
/// with their frames returned, the rest still carry their old mappings, and
/// only those frames changed in the PMM.
spec fn free_inv(
    store0: PageTableStore,
    pmm0: SystemFrameAllocator,
    store: PageTableStore,
    pmm: SystemFrameAllocator,
    root: int,
    vpn0: u64,
    m: int,
    pages: int,
) -> bool {
    &&& store.wf()
    &&& store.wf_space(root)
    &&& pmm.wf()
    &&& SystemFrameAllocator::same_shape(pmm0, pmm)
    &&& 0 <= m <= pages
    &&& vpn0 + pages < VPN_LIMIT
    &&& range_backed_at(store0, pmm0, root, vpn0, pages)
    &&& forall|mp: int|
        m <= mp < pages ==> store.translate(root, #[trigger] ((vpn0 + mp) as u64))
            == store0.translate(root, (vpn0 + mp) as u64)
    &&& forall|mp: int|
        0 <= mp < m ==> store.translate(root, #[trigger] ((vpn0 + mp) as u64)) is None
            && store.can_map(root, (vpn0 + mp) as u64)
    &&& forall|mp: int|
        0 <= mp < m ==> !pmm.frame_used(page_frame(store0, root, #[trigger] ((vpn0 + mp) as u64)))
    &&& forall|g: int|
        0 <= g < pmm0.capacity() && pmm.frame_used(g) != pmm0.frame_used(g) ==> exists|mp: int|
            0 <= mp < m && g == page_frame(store0, root, #[trigger] ((vpn0 + mp) as u64))
    &&& forall|w: u64|
        w < VPN_LIMIT && !(vpn0 <= w < vpn0 + pages) ==> store.translate(root, w)
            == store0.translate(root, w) && store.can_map(root, w) == store0.can_map(root, w)
}

/// Release one page of a range being freed: unmap it and return its frame.
#[verifier::rlimit(100)]
fn free_one(
    store: &mut PageTableStore,
    pmm: &mut SystemFrameAllocator,
    root_idx: usize,
    vpn0: u64,
    m: u64,
    Ghost(pages): Ghost<int>,
    Ghost(store0): Ghost<PageTableStore>,
    Ghost(pmm0): Ghost<SystemFrameAllocator>,
)
    requires
        free_inv(
            store0,
            pmm0,
            *old(store),
            *old(pmm),
            root_idx as int,
            vpn0,
            m as int,
            pages,
        ),
        m < pages,
    ensures
        free_inv(
            store0,
            pmm0,
            *final (store),
            *final (pmm),
            root_idx as int,
            vpn0,
            m + 1,
            pages,
        ),
{
    let ghost root = root_idx as int;
    let ghost p_pre = *pmm;
    match store.unmap_page(root_idx, vpn0 + m) {
        Ok((fr, _fl)) => {
            proof {
                assert(store0.translate(root, (vpn0 + m as int) as u64) is Some);
                assert(fr == (store0.translate(root, (vpn0 + m as int) as u64)->Some_0).0);
                let fi = fr as int / FRAME_SIZE as int;
                assert(fi == page_frame(store0, root, (vpn0 + m as int) as u64));
                pmm0.lemma_frames_fit();
                assert(0 <= fi < pmm0.capacity());
                assert(pmm0.frame_used(fi));
                if !pmm.frame_used(fi) {
                    assert(pmm.frame_used(fi) != pmm0.frame_used(fi));
                    let mp = choose|mp: int|
                        0 <= mp < m && fi == page_frame(
                            store0,
                            root,
                            #[trigger] ((vpn0 + mp) as u64),
                        );
                    assert(page_frame(store0, root, (vpn0 + mp) as u64) != page_frame(
                        store0,
                        root,
                        (vpn0 + m as int) as u64,
                    ));
                    assert(false);
                }
                pmm.lemma_frames_fit();
            }
            pmm.deallocate(fr);
            proof {
                let fi = fr as int / FRAME_SIZE as int;
                assert forall|g: int|
                    0 <= g < pmm0.capacity() && pmm.frame_used(g) != pmm0.frame_used(
                        g,
                    ) implies exists|mp: int|
                    0 <= mp < m + 1 && g == page_frame(
                        store0,
                        root,
                        #[trigger] ((vpn0 + mp) as u64),
                    ) by {
                    if g == fi {
                        assert(g == page_frame(store0, root, (vpn0 + m as int) as u64));
                    } else {
                        assert(p_pre.frame_used(g) == pmm.frame_used(g));
                        let mp = choose|mp: int|
                            0 <= mp < m && g == page_frame(
                                store0,
                                root,
                                #[trigger] ((vpn0 + mp) as u64),
                            );
                        assert(g == page_frame(store0, root, (vpn0 + mp) as u64));
                    }
                }
            }
        },
        Err(_) => {
            proof {
                assert(false);
            }
        },
    }
}

impl VMAlloc {
    /// Return the range `[virtual_address, virtual_address + byte_length)`
    /// (rounded up to whole pages) to the allocator: unmap every page,
    /// return each backing frame to the PMM, and reinsert the range into
    /// the free list, coalescing with adjacent free regions.
    ///
    /// The range must have been obtained from `allocate` and not freed
    /// since; freeing anything else is a caller error and out of contract.
    #[verifier::rlimit(100)]
    pub fn free(
        &mut self,
        store: &mut PageTableStore,
        pmm: &mut SystemFrameAllocator,
        virtual_address: u64,
        byte_length: u64,
    )
        requires
            old(self).wf(),
            old(store).wf(),
            old(store).wf_space(old(self).address_space.root as int),
            old(pmm).wf(),
            old(self).free_mappable(*old(store)),
            0 < byte_length,
            virtual_address % FRAME_SIZE == 0,
            VMALLOC_START <= virtual_address,
            virtual_address + pages_for(byte_length) * FRAME_SIZE <= VMALLOC_START + VMALLOC_SIZE,
            forall|i: int|
                0 <= i < old(self).free_list@.len() ==> ((#[trigger] old(self).free_list@[i]).base
                    + old(self).free_list@[i].len <= virtual_address || virtual_address
                    + pages_for(byte_length) * FRAME_SIZE <= old(self).free_list@[i].base),
            range_backed(
                *old(store),
                old(self).address_space.root as int,
                *old(pmm),
                virtual_address,
                pages_for(byte_length),
            ),
            range_frames_distinct(
                *old(store),
                old(self).address_space.root as int,
                virtual_address,
                pages_for(byte_length),
            ),
        ensures
            final (self).wf(),
            final (store).wf(),
            final (store).wf_space(final (self).address_space.root as int),
            final (pmm).wf(),
            SystemFrameAllocator::same_shape(*old(pmm), *final (pmm)),
            final (self).free_mappable(*final (store)),
            final (self).address_space == old(self).address_space,
            final (self).allocated == old(self).allocated - pages_for(byte_length) * FRAME_SIZE,
            forall|k: int|
                covers_page(final (self).free_list@, #[trigger] (k + 0)) <==> (covers_page(
                    old(self).free_list@,
                    k,
                ) || (virtual_address as int / FRAME_SIZE as int <= k < virtual_address as int
                    / FRAME_SIZE as int + pages_for(byte_length))),
            forall|k: int|
                0 <= k < pages_for(byte_length) ==> final (store).translate(
                    final (self).address_space.root as int,
                    #[trigger] page_vpn(virtual_address as int / FRAME_SIZE as int + k),
                ) is None,
            forall|k: int|
                0 <= k < pages_for(byte_length) ==> !final (pmm).frame_used(
                    page_frame(
                        *old(store),
                        old(self).address_space.root as int,
                        #[trigger] page_vpn(virtual_address as int / FRAME_SIZE as int + k),
                    ),
                ),
            forall|g: int|
                0 <= g < old(pmm).capacity() && final (pmm).frame_used(g) != old(pmm).frame_used(g)
                    ==> exists|k: int|
                    0 <= k < pages_for(byte_length) && g == page_frame(
                        *old(store),
                        old(self).address_space.root as int,
                        #[trigger] page_vpn(virtual_address as int / FRAME_SIZE as int + k),
                    ),
            forall|w: u64|
                w < VPN_LIMIT && !(page_vpn(virtual_address as int / FRAME_SIZE as int) <= w
                    < page_vpn(virtual_address as int / FRAME_SIZE as int) + pages_for(
                    byte_length,
                )) ==> final (store).translate(old(self).address_space.root as int, w) == old(
                    store,
                ).translate(old(self).address_space.root as int, w),
    {
        let ghost root = self.address_space.root as int;
        let root_idx = self.address_space.root;
        let va = virtual_address;
        proof {
            assert(pages_for(byte_length) >= 1);
            assert(pages_for(byte_length) * FRAME_SIZE >= FRAME_SIZE) by (nonlinear_arith)
                requires
                    pages_for(byte_length) >= 1,
                    FRAME_SIZE == 4096,
            ;
            assert(byte_length <= pages_for(byte_length) * FRAME_SIZE) by (nonlinear_arith)
                requires
                    pages_for(byte_length) == (byte_length + FRAME_SIZE - 1) as int
                        / FRAME_SIZE as int,
                    FRAME_SIZE == 4096,
            ;
        }
        let pages: u64 = (byte_length + FRAME_SIZE - 1) / FRAME_SIZE;
        let bytes: u64 = pages * FRAME_SIZE;
        let vpn0: u64 = (va / FRAME_SIZE) % VPN_LIMIT;
        proof {
            assert(pages == pages_for(byte_length));
            assert(bytes == pages_for(byte_length) * FRAME_SIZE);
            assert(bytes % FRAME_SIZE == 0) by (nonlinear_arith)
                requires
                    bytes == pages * FRAME_SIZE,
                    FRAME_SIZE == 4096,
            ;
            lemma_free_window(*old(store), *old(pmm), root, va, bytes, pages as int, vpn0);
        }

        let mut m: u64 = 0;
        while m < pages
            invariant
                *self == *old(self),
                self.address_space.root == root_idx,
                root == root_idx as int,
                0 <= m <= pages,
                vpn0 + pages < VPN_LIMIT,
                free_inv(
                    *old(store),
                    *old(pmm),
                    *store,
                    *pmm,
                    root,
                    vpn0,
                    m as int,
                    pages as int,
                ),
            decreases pages - m,
        {
            free_one(
                store,
                pmm,
                root_idx,
                vpn0,
                m,
                Ghost(pages as int),
                Ghost(*old(store)),
                Ghost(*old(pmm)),
            );
            m += 1;
        }

        self.finish_free(
            store,
            pmm,
            va,
            bytes,
            pages,
            vpn0,
            Ghost(*old(store)),
            Ghost(*old(pmm)),
        );
    }

    /// Account for a fully released range: put it back into the free list
    /// and shrink the outstanding-allocation total.
    #[verifier::rlimit(100)]
    fn finish_free(
        &mut self,
        store: &PageTableStore,
        pmm: &SystemFrameAllocator,
        va: u64,
        bytes: u64,
        pages: u64,
        vpn0: u64,
        Ghost(store0): Ghost<PageTableStore>,
        Ghost(pmm0): Ghost<SystemFrameAllocator>,
    )
        requires
            old(self).wf(),
            old(self).free_mappable(store0),
            free_inv(
                store0,
                pmm0,
                *store,
                *pmm,
                old(self).address_space.root as int,
                vpn0,
                pages as int,
                pages as int,
            ),
            va % FRAME_SIZE == 0,
            VMALLOC_START <= va,
            va + bytes <= VMALLOC_START + VMALLOC_SIZE,
            bytes == pages * FRAME_SIZE,
            bytes % FRAME_SIZE == 0,
            0 < pages,
            vpn0 == page_vpn(va as int / FRAME_SIZE as int),
            forall|m: int|
                0 <= m <= pages ==> #[trigger] page_vpn(va as int / FRAME_SIZE as int + m) == vpn0
                    + m,
            (va + bytes) / FRAME_SIZE as int == va as int / FRAME_SIZE as int + pages,
            forall|i: int|
                0 <= i < old(self).free_list@.len() ==> ((#[trigger] old(self).free_list@[i]).base
                    + old(self).free_list@[i].len <= va || va + bytes <= old(
                    self,
                ).free_list@[i].base),
        ensures
            final (self).wf(),
            final (self).free_mappable(*store),
            final (self).address_space == old(self).address_space,
            final (self).allocated == old(self).allocated - pages * FRAME_SIZE,
            forall|k: int|
                covers_page(final (self).free_list@, #[trigger] (k + 0)) <==> (covers_page(
                    old(self).free_list@,
                    k,
                ) || (va as int / FRAME_SIZE as int <= k < va as int / FRAME_SIZE as int
                    + pages)),
            forall|k: int|
                0 <= k < pages ==> store.translate(
                    old(self).address_space.root as int,
                    #[trigger] page_vpn(va as int / FRAME_SIZE as int + k),
                ) is None,
            forall|k: int|
                0 <= k < pages ==> !pmm.frame_used(
                    page_frame(
                        store0,
                        old(self).address_space.root as int,
                        #[trigger] page_vpn(va as int / FRAME_SIZE as int + k),
                    ),
                ),
            forall|g: int|
                0 <= g < pmm0.capacity() && pmm.frame_used(g) != pmm0.frame_used(g)
                    ==> exists|k: int|
                    0 <= k < pages && g == page_frame(
                        store0,
                        old(self).address_space.root as int,
                        #[trigger] page_vpn(va as int / FRAME_SIZE as int + k),
                    ),
            forall|w: u64|
                w < VPN_LIMIT && !(vpn0 <= w < vpn0 + pages) ==> store.translate(
                    old(self).address_space.root as int,
                    w,
                ) == store0.translate(old(self).address_space.root as int, w),
    {
        let ghost root = self.address_space.root as int;
        self.insert_region(va, bytes);
        proof {
            lemma_sum_le_span(
                self.free_list@,
                VMALLOC_START as int,
                (VMALLOC_START + VMALLOC_SIZE) as int,
            );
        }
        self.allocated = self.allocated - bytes;

        proof {
            lemma_free_post(
                *old(self),
                *self,
                store0,
                *store,
                pmm0,
                *pmm,
                root,
                va,
                bytes,
                pages as int,
                vpn0,
            );
        }
    }
}

/// The claimed pages sit in one aliasing window and are all mapped to
/// distinct live frames under their consecutive virtual page numbers.
proof fn lemma_free_window(
    store0: PageTableStore,
    pmm0: SystemFrameAllocator,
    root: int,
    va: u64,
    bytes: u64,
    pages: int,
    vpn0: u64,
)
    requires
        va % FRAME_SIZE == 0,
        VMALLOC_START <= va,
        va + bytes <= VMALLOC_START + VMALLOC_SIZE,
        bytes == pages * FRAME_SIZE,
        0 < pages,
        vpn0 == (va as int / FRAME_SIZE as int) % (VPN_LIMIT as int),
        range_backed(store0, root, pmm0, va, pages),
        range_frames_distinct(store0, root, va, pages),
    ensures
        vpn0 + pages < VPN_LIMIT,
        forall|m: int|
            0 <= m <= pages ==> #[trigger] page_vpn(va as int / FRAME_SIZE as int + m) == vpn0 + m,
        (va + bytes) / FRAME_SIZE as int == va as int / FRAME_SIZE as int + pages,
        range_backed_at(store0, pmm0, root, vpn0, pages),
{
    lemma_div_is_ordered(VMALLOC_START as int, va as int, FRAME_SIZE as int);
    assert((va + bytes) / FRAME_SIZE as int == va as int / FRAME_SIZE as int + pages)
        by (nonlinear_arith)
        requires
            va % FRAME_SIZE == 0,
            bytes == pages * FRAME_SIZE,
            FRAME_SIZE == 4096,
    ;
    lemma_div_is_ordered(va + bytes, (VMALLOC_START + VMALLOC_SIZE) as int, FRAME_SIZE as int);
    assert(VMALLOC_START as int / FRAME_SIZE as int == 0xfffff80000000);
    assert((VMALLOC_START + VMALLOC_SIZE) as int / FRAME_SIZE as int == 0xfffff80008000);
    assert forall|m: int| 0 <= m <= pages implies #[trigger] page_vpn(
        va as int / FRAME_SIZE as int + m,
    ) == vpn0 + m by {
        lemma_page_vpn_at(va as int / FRAME_SIZE as int + m);
        lemma_page_vpn_at(va as int / FRAME_SIZE as int);
    }
    assert(vpn0 + pages < VPN_LIMIT) by {
        lemma_page_vpn_at(va as int / FRAME_SIZE as int + pages);
        lemma_page_vpn_at(va as int / FRAME_SIZE as int);
    }
    assert forall|mp: int| 0 <= mp < pages implies {
        let t = store0.translate(root, #[trigger] ((vpn0 + mp) as u64));
        &&& t is Some
        &&& (t->Some_0).0 % FRAME_SIZE == 0
        &&& ((t->Some_0).0 as int / FRAME_SIZE as int) < pmm0.frames()
        &&& pmm0.frame_used((t->Some_0).0 as int / FRAME_SIZE as int)
    } by {
        assert(page_vpn(va as int / FRAME_SIZE as int + mp) == vpn0 + mp);
    }
    assert forall|m1: int, m2: int| 0 <= m1 < m2 < pages implies page_frame(
        store0,
        root,
        #[trigger] ((vpn0 + m1) as u64),
    ) != page_frame(store0, root, #[trigger] ((vpn0 + m2) as u64)) by {
        assert(page_vpn(va as int / FRAME_SIZE as int + m1) == vpn0 + m1);
        assert(page_vpn(va as int / FRAME_SIZE as int + m2) == vpn0 + m2);
    }
}

/// After releasing a whole range, the freed pages are unmapped, exactly
/// their frames went back to the PMM, and every free page is mappable.
#[verifier::rlimit(100)]
proof fn lemma_free_post(
    pre: VMAlloc,
    fin: VMAlloc,
    store0: PageTableStore,
    store: PageTableStore,
    pmm0: SystemFrameAllocator,
    pmm: SystemFrameAllocator,
    root: int,
    va: u64,
    bytes: u64,
    pages: int,
    vpn0: u64,
)
    requires
        free_inv(store0, pmm0, store, pmm, root, vpn0, pages, pages),
        pre.wf(),
        pre.free_mappable(store0),
        root == pre.address_space.root as int,
        va % FRAME_SIZE == 0,
        VMALLOC_START <= va,
        va + bytes <= VMALLOC_START + VMALLOC_SIZE,
        bytes == pages * FRAME_SIZE,
        0 < pages,
        forall|m: int|
            0 <= m <= pages ==> #[trigger] page_vpn(va as int / FRAME_SIZE as int + m) == vpn0 + m,
        vpn0 == page_vpn(va as int / FRAME_SIZE as int),
        (va + bytes) / FRAME_SIZE as int == va as int / FRAME_SIZE as int + pages,
        forall|i: int|
            0 <= i < pre.free_list@.len() ==> ((#[trigger] pre.free_list@[i]).base
                + pre.free_list@[i].len <= va || va + bytes <= pre.free_list@[i].base),
        // what insert_region produced
        forall|k: int| #[trigger]
            covers_page(fin.free_list@, k) ==> covers_page(pre.free_list@, k) || (
            va as int / FRAME_SIZE as int <= k < (va + bytes) / FRAME_SIZE as int),
        forall|k: int|
            va as int / FRAME_SIZE as int <= k < (va + bytes) / FRAME_SIZE as int ==> covers_page(
                fin.free_list@,
                #[trigger] (k + 0),
            ),
        fin.address_space == pre.address_space,
    ensures
        forall|w: u64|
            w < VPN_LIMIT && !(page_vpn(va as int / FRAME_SIZE as int) <= w < page_vpn(
                va as int / FRAME_SIZE as int,
            ) + pages) ==> store.translate(root, w) == store0.translate(root, w),
        forall|k: int|
            0 <= k < pages ==> store.translate(
                root,
                #[trigger] page_vpn(va as int / FRAME_SIZE as int + k),
            ) is None,
        forall|k: int|
            0 <= k < pages ==> !pmm.frame_used(
                page_frame(
                    store0,
                    root,
                    #[trigger] page_vpn(va as int / FRAME_SIZE as int + k),
                ),
            ),
        forall|g: int|
            0 <= g < pmm0.capacity() && pmm.frame_used(g) != pmm0.frame_used(g) ==> exists|k: int|
                0 <= k < pages && g == page_frame(
                    store0,
                    root,
                    #[trigger] page_vpn(va as int / FRAME_SIZE as int + k),
                ),
        fin.free_mappable(store),
{
    assert forall|k: int| 0 <= k < pages implies store.translate(
        root,
        #[trigger] page_vpn(va as int / FRAME_SIZE as int + k),
    ) is None by {
        assert(page_vpn(va as int / FRAME_SIZE as int + k) == vpn0 + k);
    }
    assert forall|k: int| 0 <= k < pages implies !pmm.frame_used(
        page_frame(store0, root, #[trigger] page_vpn(va as int / FRAME_SIZE as int + k)),
    ) by {
        assert(page_vpn(va as int / FRAME_SIZE as int + k) == vpn0 + k);
    }
    assert forall|g: int|
        0 <= g < pmm0.capacity() && pmm.frame_used(g) != pmm0.frame_used(g) implies exists|k: int|
        0 <= k < pages && g == page_frame(
            store0,
            root,
            #[trigger] page_vpn(va as int / FRAME_SIZE as int + k),
        ) by {
        let mp = choose|mp: int|
            0 <= mp < pages && g == page_frame(store0, root, #[trigger] ((vpn0 + mp) as u64));
        assert(page_vpn(va as int / FRAME_SIZE as int + mp) == vpn0 + mp);
        assert(g == page_frame(store0, root, page_vpn(va as int / FRAME_SIZE as int + mp)));
    }
    assert forall|kp: int| #[trigger] covers_page(fin.free_list@, kp) implies store.can_map(
        root,
        page_vpn(kp),
    ) by {
        assert(covers_page(fin.free_list@, kp + 0));
        if va as int / FRAME_SIZE as int <= kp < (va + bytes) / FRAME_SIZE as int {
            lemma_page_vpn_at(kp);
            lemma_page_vpn_at(va as int / FRAME_SIZE as int);
            assert(page_vpn(kp) == vpn0 + (kp - va as int / FRAME_SIZE as int));
            assert(store.can_map(root, (vpn0 + (kp - va as int / FRAME_SIZE as int)) as u64));
        } else {
            assert(covers_page(pre.free_list@, kp));
            assert(store0.can_map(root, page_vpn(kp)));
            assert(0xfffff80000000 <= kp < 0xfffff80008000) by {
                let i = choose|i: int|
                    0 <= i < pre.free_list@.len() && (#[trigger] pre.free_list@[i]).base as int
                        / FRAME_SIZE as int <= kp < (pre.free_list@[i].base
                        + pre.free_list@[i].len) / FRAME_SIZE as int;
                lemma_div_is_ordered(
                    VMALLOC_START as int,
                    pre.free_list@[i].base as int,
                    FRAME_SIZE as int,
                );
                lemma_div_is_ordered(
                    pre.free_list@[i].base + pre.free_list@[i].len,
                    (VMALLOC_START + VMALLOC_SIZE) as int,
                    FRAME_SIZE as int,
                );
            }
            lemma_page_vpn_at(kp);
            lemma_page_vpn_at(va as int / FRAME_SIZE as int);
            assert(!(vpn0 <= page_vpn(kp) < vpn0 + pages));
        }
    }
}

} // verus!
