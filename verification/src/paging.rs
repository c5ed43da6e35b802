//! Address translation layer: a typed model of the x86-64 four-level page
//! tables.
//!
//! Physical memory holding page tables is modeled as an arena of tables,
//! each occupying one physical frame obtained from the PMM. An entry either
//! is missing, links to a lower-level table, or maps a frame. Address spaces
//! are roots into the arena; the kernel mutates live translation state only
//! through `map_page` and `unmap_page`.

use vstd::prelude::*;
use crate::addr::FRAME_SIZE;
use crate::pmm::{free_count, lemma_alloc_count, lemma_free_count_pos, SystemFrameAllocator};

verus! {

/// Entries per page table on this architecture.
pub const TABLE_ENTRIES: usize = 512;

/// Number of distinct virtual page numbers a four-level walk can translate.
pub const VPN_LIMIT: u64 = 512 * 512 * 512 * 512;

/// Permission and presence bits of a mapping.
#[derive(Clone, Copy, Debug, PartialEq, Eq, Structural)]
pub struct PageFlags {
    pub present: bool,
    pub writable: bool,
}

/// One slot of a page table.
#[derive(Clone, Copy, Debug, PartialEq, Eq, Structural)]
pub enum PageTableEntry {
    /// The slot is unused.
    Missing,
    /// The slot links to the next-level table: its index in the arena and
    /// the physical frame it occupies.
    Table { table: usize, frame: u64 },
    /// The slot maps a virtual page to a physical frame.
    Leaf { frame: u64, flags: PageFlags },
}

/// One page table: 512 entries living in one physical frame.
pub struct PageTable {
    /// Physical address of the frame holding this table.
    pub frame: u64,
    /// The table's 512 slots.
    pub entries: Vec<PageTableEntry>,
}

/// The arena of page tables: a model of the physical memory that holds
/// live translation state.
pub struct PageTableStore {
    pub tables: Vec<PageTable>,
}

/// The virtual page number of page `k`, as the hardware walk sees it: the
/// four-level indices keep only the low 36 bits of the page number.
pub open spec fn page_vpn(k: int) -> u64 {
    (k % (VPN_LIMIT as int)) as u64
}

/// Index into the level-4 (root) table for a virtual page number.
pub open spec fn l4_index(vpn: u64) -> int {
    (vpn as int / (512int * 512 * 512)) % 512
}

/// Index into the level-3 table for a virtual page number.
pub open spec fn l3_index(vpn: u64) -> int {
    (vpn as int / (512int * 512)) % 512
}

/// Index into the level-2 table for a virtual page number.
pub open spec fn l2_index(vpn: u64) -> int {
    (vpn as int / 512int) % 512
}

/// Index into the level-1 table for a virtual page number.
pub open spec fn l1_index(vpn: u64) -> int {
    vpn as int % 512
}

impl PageTable {
    /// A table is well formed within an arena of `n` tables when it has
    /// exactly 512 entries and every link stays inside the arena.
    pub open spec fn wf_in(self, n: int) -> bool {
        &&& self.entries@.len() == 512
        &&& forall|e: int|
            0 <= e < 512 ==> ((#[trigger] self.entries@[e]) matches PageTableEntry::Table {
                table,
                ..
            } ==> table < n)
    }
}

impl PageTableStore {
    pub open spec fn table_count(self) -> int {
        self.tables@.len() as int
    }

    /// Every table has 512 entries and links only inside the arena.
    pub open spec fn wf(self) -> bool {
        forall|t: int|
            0 <= t < self.table_count() ==> (#[trigger] self.tables@[t]).wf_in(self.table_count())
    }

    /// The entry in slot `e` of table `t`.
    pub open spec fn entry(self, t: int, e: int) -> PageTableEntry {
        self.tables@[t].entries@[e]
    }

    /// The table that slot `e` of table `t` links to, if any.
    pub open spec fn child(self, t: int, e: int) -> Option<int> {
        match self.entry(t, e) {
            PageTableEntry::Table { table, .. } => Some(table as int),
            _ => None,
        }
    }

    /// The level-3 table of the chain that starts at root slot `a`.
    pub open spec fn l3_of(self, root: int, a: int) -> Option<int> {
        self.child(root, a)
    }

    /// The level-2 table of the chain through root slot `a`, slot `b`.
    pub open spec fn l2_of(self, root: int, a: int, b: int) -> Option<int> {
        match self.l3_of(root, a) {
            Some(t) => self.child(t, b),
            None => None,
        }
    }

    /// The level-1 table of the chain through slots `a`, `b`, `c`.
    pub open spec fn l1_of(self, root: int, a: int, b: int, c: int) -> Option<int> {
        match self.l2_of(root, a, b) {
            Some(t) => self.child(t, c),
            None => None,
        }
    }

    /// The mapping the hardware walk would find for virtual page `vpn`
    /// under the root table `root`: walk the four levels, following links;
    /// any missing or leaf slot on the way ends the walk unmapped.
    pub open spec fn translate(self, root: int, vpn: u64) -> Option<(u64, PageFlags)> {
        match self.child(root, l4_index(vpn)) {
            Some(t3) => match self.child(t3, l3_index(vpn)) {
                Some(t2) => match self.child(t2, l2_index(vpn)) {
                    Some(t1) => match self.entry(t1, l1_index(vpn)) {
                        PageTableEntry::Leaf { frame, flags } => Some((frame, flags)),
                        _ => None,
                    },
                    None => None,
                },
                None => None,
            },
            None => None,
        }
    }

    /// A fresh mapping can be created for `vpn`: every slot on the chain is
    /// either missing (a table will be allocated) or a link, and the final
    /// slot is free.
    pub open spec fn can_map(self, root: int, vpn: u64) -> bool {
        match self.entry(root, l4_index(vpn)) {
            PageTableEntry::Missing => true,
            PageTableEntry::Leaf { .. } => false,
            PageTableEntry::Table { table: t3, .. } => match self.entry(
                t3 as int,
                l3_index(vpn),
            ) {
                PageTableEntry::Missing => true,
                PageTableEntry::Leaf { .. } => false,
                PageTableEntry::Table { table: t2, .. } => match self.entry(
                    t2 as int,
                    l2_index(vpn),
                ) {
                    PageTableEntry::Missing => true,
                    PageTableEntry::Leaf { .. } => false,
                    PageTableEntry::Table { table: t1, .. } => self.entry(
                        t1 as int,
                        l1_index(vpn),
                    ) is Missing,
                },
            },
        }
    }

    /// The chains under `root` form a tree: no table is reached on two
    /// different paths, and no chain returns to the root. Mutating one
    /// chain then cannot disturb any other chain of the same root.
    pub open spec fn wf_space(self, root: int) -> bool {
        &&& 0 <= root < self.table_count()
        &&& forall|a: int| 0 <= a < 512 ==> #[trigger] self.l3_of(root, a) != Some(root)
        &&& forall|a: int, b: int|
            0 <= a < 512 && 0 <= b < 512 ==> #[trigger] self.l2_of(root, a, b) != Some(root)
        &&& forall|a: int, b: int, c: int|
            0 <= a < 512 && 0 <= b < 512 && 0 <= c < 512 ==> #[trigger] self.l1_of(root, a, b, c)
                != Some(root)
        &&& forall|a: int, ap: int|
            0 <= a < 512 && 0 <= ap < 512 && a != ap && #[trigger] self.l3_of(root, a) is Some
                ==> self.l3_of(root, a) != #[trigger] self.l3_of(root, ap)
        &&& forall|a: int, b: int, ap: int|
            0 <= a < 512 && 0 <= b < 512 && 0 <= ap < 512 && #[trigger] self.l2_of(root, a, b)
                is Some ==> self.l2_of(root, a, b) != #[trigger] self.l3_of(root, ap)
        &&& forall|a: int, b: int, c: int, ap: int|
            0 <= a < 512 && 0 <= b < 512 && 0 <= c < 512 && 0 <= ap < 512 && #[trigger] self.l1_of(
                root,
                a,
                b,
                c,
            ) is Some ==> self.l1_of(root, a, b, c) != #[trigger] self.l3_of(root, ap)
        &&& forall|a: int, b: int, ap: int, bp: int|
            0 <= a < 512 && 0 <= b < 512 && 0 <= ap < 512 && 0 <= bp < 512 && (a != ap || b != bp)
                && #[trigger] self.l2_of(root, a, b) is Some ==> self.l2_of(root, a, b)
                != #[trigger] self.l2_of(root, ap, bp)
        &&& forall|a: int, b: int, c: int, ap: int, bp: int|
            0 <= a < 512 && 0 <= b < 512 && 0 <= c < 512 && 0 <= ap < 512 && 0 <= bp < 512
                && #[trigger] self.l1_of(root, a, b, c) is Some ==> self.l1_of(root, a, b, c)
                != #[trigger] self.l2_of(root, ap, bp)
        &&& forall|a: int, b: int, c: int, ap: int, bp: int, cp: int|
            0 <= a < 512 && 0 <= b < 512 && 0 <= c < 512 && 0 <= ap < 512 && 0 <= bp < 512 && 0
                <= cp < 512 && (a != ap || b != bp || c != cp) && #[trigger] self.l1_of(
                root,
                a,
                b,
                c,
            ) is Some ==> self.l1_of(root, a, b, c) != #[trigger] self.l1_of(root, ap, bp, cp)
    }
}

/// If the slots that the walk for `vpn` reads under `pre_root` in `pre` are
/// the same slots the walk reads under `post_root` in `post`, the two walks
/// agree.
proof fn lemma_chain_same(
    pre: PageTableStore,
    post: PageTableStore,
    pre_root: int,
    post_root: int,
    vpn: u64,
)
    requires
        post.entry(post_root, l4_index(vpn)) == pre.entry(pre_root, l4_index(vpn)),
        forall|t: int|
            pre.l3_of(pre_root, l4_index(vpn)) == Some(t) ==> #[trigger] post.entry(
                t,
                l3_index(vpn),
            ) == pre.entry(t, l3_index(vpn)),
        forall|t: int|
            pre.l2_of(pre_root, l4_index(vpn), l3_index(vpn)) == Some(t) ==> #[trigger] post.entry(
                t,
                l2_index(vpn),
            ) == pre.entry(t, l2_index(vpn)),
        forall|t: int|
            pre.l1_of(pre_root, l4_index(vpn), l3_index(vpn), l2_index(vpn)) == Some(t)
                ==> #[trigger] post.entry(t, l1_index(vpn)) == pre.entry(t, l1_index(vpn)),
    ensures
        post.translate(post_root, vpn) == pre.translate(pre_root, vpn),
        post.can_map(post_root, vpn) == pre.can_map(pre_root, vpn),
{
}

/// Errors of `map_page`, mirroring what a hardware mapper reports.
#[derive(Clone, Copy, Debug, PartialEq, Eq, Structural)]
pub enum MapError {
    /// The PMM could not supply a frame for a missing intermediate table.
    FrameAllocationFailed,
    /// Some slot on the chain already maps memory.
    PageAlreadyMapped,
}

/// Errors of `unmap_page`.
#[derive(Clone, Copy, Debug, PartialEq, Eq, Structural)]
pub enum UnmapError {
    /// The page has no mapping to remove.
    PageNotMapped,
}

/// Index into the level-4 table, as executable code.
fn index4(vpn: u64) -> (r: usize)
    ensures
        r == l4_index(vpn),
        r < 512,
{
    ((vpn / (512 * 512 * 512)) % 512) as usize
}

/// Index into the level-3 table, as executable code.
fn index3(vpn: u64) -> (r: usize)
    ensures
        r == l3_index(vpn),
        r < 512,
{
    ((vpn / (512 * 512)) % 512) as usize
}

/// Index into the level-2 table, as executable code.
fn index2(vpn: u64) -> (r: usize)
    ensures
        r == l2_index(vpn),
        r < 512,
{
    ((vpn / 512) % 512) as usize
}

/// Index into the level-1 table, as executable code.
fn index1(vpn: u64) -> (r: usize)
    ensures
        r == l1_index(vpn),
        r < 512,
{
    (vpn % 512) as usize
}

impl PageTableStore {
    /// An empty arena: no translation state is tracked yet.
    pub fn new() -> (r: Self)
        ensures
            r.table_count() == 0,
            r.wf(),
    {
        PageTableStore { tables: Vec::new() }
    }

    /// Read the entry in slot `e` of table `t`.
    pub fn get_entry(&self, t: usize, e: usize) -> (r: PageTableEntry)
        requires
            self.wf(),
            t < self.table_count(),
            e < 512,
        ensures
            r == self.entry(t as int, e as int),
    {
        let tb = &self.tables[t];
        tb.entries[e]
    }

    /// Write the entry in slot `e` of table `t`.
    fn set_entry(&mut self, t: usize, e: usize, v: PageTableEntry)
        requires
            old(self).wf(),
            t < old(self).table_count(),
            e < 512,
        ensures
            final (self).table_count() == old(self).table_count(),
            forall|u: int|
                0 <= u < old(self).table_count() && u != t ==> final (self).tables@[u] == old(
                    self,
                ).tables@[u],
            final (self).tables@[t as int].frame == old(self).tables@[t as int].frame,
            final (self).tables@[t as int].entries@.len() == 512,
            final (self).entry(t as int, e as int) == v,
            forall|ep: int|
                0 <= ep < 512 && ep != e ==> final (self).entry(t as int, ep) == old(self).entry(
                    t as int,
                    ep,
                ),
    {
        let tb = vstd::std_specs::vec::vec_index_mut(&mut self.tables, t);
        let slot = vstd::std_specs::vec::vec_index_mut(&mut tb.entries, e);
        *slot = v;
    }

    /// Append a fresh, empty table occupying the physical frame `frame`.
    fn push_table(&mut self, frame: u64) -> (idx: usize)
        requires
            old(self).wf(),
            old(self).table_count() < usize::MAX,
        ensures
            idx == old(self).table_count(),
            final (self).table_count() == old(self).table_count() + 1,
            forall|u: int|
                0 <= u < old(self).table_count() ==> final (self).tables@[u] == old(
                    self,
                ).tables@[u],
            final (self).tables@[idx as int].frame == frame,
            final (self).tables@[idx as int].entries@.len() == 512,
            forall|e: int| 0 <= e < 512 ==> final (self).entry(idx as int, e) is Missing,
            final (self).wf(),
    {
        let mut entries: Vec<PageTableEntry> = Vec::new();
        let mut i: usize = 0;
        while i < TABLE_ENTRIES
            invariant
                0 <= i <= 512,
                entries@.len() == i,
                forall|e: int| 0 <= e < i ==> entries@[e] is Missing,
            decreases 512 - i,
        {
            entries.push(PageTableEntry::Missing);
            i += 1;
        }
        let idx = self.tables.len();
        self.tables.push(PageTable { frame, entries });
        proof {
            assert forall|t: int| 0 <= t < self.table_count() implies (
            #[trigger] self.tables@[t]).wf_in(self.table_count()) by {
                if t < idx {
                    assert(old(self).tables@[t].wf_in(old(self).table_count()));
                }
            }
        }
        idx
    }

    /// Add a root table for a new address space, occupying frame `frame`.
    /// Everything already in the arena, and every translation under an
    /// existing root, is untouched.
    pub fn add_root(&mut self, frame: u64) -> (root: usize)
        requires
            old(self).wf(),
            old(self).table_count() < usize::MAX,
        ensures
            final (self).wf(),
            root == old(self).table_count(),
            final (self).table_count() == old(self).table_count() + 1,
            forall|u: int|
                0 <= u < old(self).table_count() ==> final (self).tables@[u] == old(
                    self,
                ).tables@[u],
            final (self).tables@[root as int].frame == frame,
            forall|e: int| 0 <= e < 512 ==> final (self).entry(root as int, e) is Missing,
            final (self).wf_space(root as int),
            forall|r: int, w: u64|
                0 <= r < old(self).table_count() ==> final (self).translate(r, w) == old(
                    self,
                ).translate(r, w),
            forall|r: int|
                0 <= r < old(self).table_count() && old(self).wf_space(r)
                    ==> final (self).wf_space(r),
    {
        let root = self.push_table(frame);
        proof {
            lemma_push_preserves(*old(self), *self, root as int);
        }
        root
    }
}

/// Appending a table changes no existing table, hence no chain and no
/// translation under an existing root; a root of empty slots is a well
/// formed space.
proof fn lemma_push_preserves(pre: PageTableStore, post: PageTableStore, fresh: int)
    requires
        pre.wf(),
        post.wf(),
        fresh == pre.table_count(),
        post.table_count() == pre.table_count() + 1,
        forall|u: int| 0 <= u < pre.table_count() ==> post.tables@[u] == pre.tables@[u],
        forall|e: int| 0 <= e < 512 ==> post.entry(fresh, e) is Missing,
    ensures
        post.wf_space(fresh),
        forall|r: int, w: u64|
            0 <= r < pre.table_count() ==> post.translate(r, w) == pre.translate(r, w),
        forall|r: int| 0 <= r < pre.table_count() && pre.wf_space(r) ==> post.wf_space(r),
{
    assert forall|r: int, w: u64| 0 <= r < pre.table_count() implies post.translate(r, w)
        == pre.translate(r, w) by {
        lemma_chain_same(pre, post, r, r, w);
    }
    assert forall|r: int| 0 <= r < pre.table_count() && pre.wf_space(r) implies post.wf_space(
        r,
    ) by {
        assert forall|t: int, e: int| 0 <= t < pre.table_count() && 0 <= e < 512 implies
            #[trigger] post.entry(t, e) == pre.entry(t, e) by {}
        assert forall|a: int| 0 <= a < 512 implies #[trigger] post.l3_of(r, a) == pre.l3_of(
            r,
            a,
        ) by {}
        assert forall|a: int, b: int| 0 <= a < 512 && 0 <= b < 512 implies #[trigger] post.l2_of(
            r,
            a,
            b,
        ) == pre.l2_of(r, a, b) by {
            if pre.l3_of(r, a) is Some {
                let t = pre.l3_of(r, a)->Some_0;
                assert(pre.tables@[r].wf_in(pre.table_count()));
            }
        }
        assert forall|a: int, b: int, c: int|
            0 <= a < 512 && 0 <= b < 512 && 0 <= c < 512 implies #[trigger] post.l1_of(r, a, b, c)
            == pre.l1_of(r, a, b, c) by {
            if pre.l2_of(r, a, b) is Some {
                let t3 = pre.l3_of(r, a)->Some_0;
                assert(pre.tables@[r].wf_in(pre.table_count()));
                assert(pre.tables@[t3].wf_in(pre.table_count()));
            }
        }
    }
    assert forall|a: int| 0 <= a < 512 implies #[trigger] post.l3_of(fresh, a) is None by {}
}

/// Every table a chain reaches lies inside the arena.
proof fn lemma_chain_bounds(s: PageTableStore, root: int)
    requires
        s.wf(),
        0 <= root < s.table_count(),
    ensures
        forall|a: int|
            0 <= a < 512 && #[trigger] s.l3_of(root, a) is Some ==> 0 <= s.l3_of(root, a)->Some_0
                < s.table_count(),
        forall|a: int, b: int|
            0 <= a < 512 && 0 <= b < 512 && #[trigger] s.l2_of(root, a, b) is Some ==> 0 <= s.l2_of(
                root,
                a,
                b,
            )->Some_0 < s.table_count(),
        forall|a: int, b: int, c: int|
            0 <= a < 512 && 0 <= b < 512 && 0 <= c < 512 && #[trigger] s.l1_of(root, a, b, c)
                is Some ==> 0 <= s.l1_of(root, a, b, c)->Some_0 < s.table_count(),
{
    assert forall|a: int| 0 <= a < 512 && #[trigger] s.l3_of(root, a) is Some implies 0 <= s.l3_of(
        root,
        a,
    )->Some_0 < s.table_count() by {
        assert(s.tables@[root].wf_in(s.table_count()));
    }
    assert forall|a: int, b: int|
        0 <= a < 512 && 0 <= b < 512 && #[trigger] s.l2_of(root, a, b) is Some implies 0 <= s.l2_of(
        root,
        a,
        b,
    )->Some_0 < s.table_count() by {
        assert(s.tables@[root].wf_in(s.table_count()));
        let t3 = s.l3_of(root, a)->Some_0;
        assert(s.tables@[t3].wf_in(s.table_count()));
    }
    assert forall|a: int, b: int, c: int|
        0 <= a < 512 && 0 <= b < 512 && 0 <= c < 512 && #[trigger] s.l1_of(root, a, b, c)
        is Some implies 0 <= s.l1_of(root, a, b, c)->Some_0 < s.table_count() by {
        assert(s.tables@[root].wf_in(s.table_count()));
        let t3 = s.l3_of(root, a)->Some_0;
        assert(s.tables@[t3].wf_in(s.table_count()));
        let t2 = s.l2_of(root, a, b)->Some_0;
        assert(s.tables@[t2].wf_in(s.table_count()));
    }
}

/// Linking a fresh empty table into a missing root slot changes no
/// translation and keeps the space a tree.
proof fn lemma_link_l4(pre: PageTableStore, post: PageTableStore, root: int, i4: int, tnew: int)
    requires
        pre.wf(),
        post.wf(),
        pre.wf_space(root),
        0 <= i4 < 512,
        pre.entry(root, i4) is Missing,
        tnew == pre.table_count(),
        post.table_count() == pre.table_count() + 1,
        forall|u: int| 0 <= u < pre.table_count() && u != root ==> post.tables@[u] == pre.tables@[u],
        post.tables@[root].entries@.len() == 512,
        forall|e: int| 0 <= e < 512 && e != i4 ==> post.entry(root, e) == pre.entry(root, e),
        post.child(root, i4) == Some(tnew),
        forall|e: int| 0 <= e < 512 ==> post.entry(tnew, e) is Missing,
    ensures
        post.wf_space(root),
        forall|w: u64| post.translate(root, w) == pre.translate(root, w),
        forall|w: u64| post.can_map(root, w) == pre.can_map(root, w),
{
    lemma_chain_bounds(pre, root);
    assert forall|a: int| 0 <= a < 512 implies #[trigger] post.l3_of(root, a) == (if a == i4 {
        Some(tnew)
    } else {
        pre.l3_of(root, a)
    }) by {}
    assert forall|a: int, b: int| 0 <= a < 512 && 0 <= b < 512 implies #[trigger] post.l2_of(
        root,
        a,
        b,
    ) == (if a == i4 {
        None::<int>
    } else {
        pre.l2_of(root, a, b)
    }) by {
        if a != i4 && pre.l3_of(root, a) is Some {
            let t = pre.l3_of(root, a)->Some_0;
            assert(t != root && t != tnew);
            assert(post.tables@[t] == pre.tables@[t]);
        }
    }
    assert forall|a: int, b: int, c: int|
        0 <= a < 512 && 0 <= b < 512 && 0 <= c < 512 implies #[trigger] post.l1_of(root, a, b, c)
        == (if a == i4 {
        None::<int>
    } else {
        pre.l1_of(root, a, b, c)
    }) by {
        if a != i4 && pre.l2_of(root, a, b) is Some {
            let t3 = pre.l3_of(root, a)->Some_0;
            let t2 = pre.l2_of(root, a, b)->Some_0;
            assert(t3 != root && t3 != tnew);
            assert(t2 != root && t2 != tnew);
            assert(post.tables@[t3] == pre.tables@[t3]);
            assert(post.tables@[t2] == pre.tables@[t2]);
        }
    }
    assert forall|w: u64|
        post.translate(root, w) == pre.translate(root, w) && post.can_map(root, w) == pre.can_map(
            root,
            w,
        ) by {
        let a = l4_index(w);
        if a == i4 {
            assert(pre.translate(root, w) is None);
            assert(post.l2_of(root, a, l3_index(w)) is None);
            assert(post.translate(root, w) is None);
            assert(pre.can_map(root, w));
            assert(post.entry(tnew, l3_index(w)) is Missing);
            assert(post.can_map(root, w));
        } else {
            if pre.l3_of(root, a) is Some {
                let t3 = pre.l3_of(root, a)->Some_0;
                assert(t3 != root && t3 != tnew);
                assert(post.tables@[t3] == pre.tables@[t3]);
            }
            if pre.l2_of(root, a, l3_index(w)) is Some {
                let t2 = pre.l2_of(root, a, l3_index(w))->Some_0;
                assert(t2 != root && t2 != tnew);
                assert(post.tables@[t2] == pre.tables@[t2]);
            }
            if pre.l1_of(root, a, l3_index(w), l2_index(w)) is Some {
                let t1 = pre.l1_of(root, a, l3_index(w), l2_index(w))->Some_0;
                assert(t1 != root && t1 != tnew);
                assert(post.tables@[t1] == pre.tables@[t1]);
            }
            lemma_chain_same(pre, post, root, root, w);
        }
    }
}

/// Linking a fresh empty table into a missing level-3 slot changes no
/// translation and keeps the space a tree.
proof fn lemma_link_l3(
    pre: PageTableStore,
    post: PageTableStore,
    root: int,
    i4: int,
    i3: int,
    t3: int,
    tnew: int,
)
    requires
        pre.wf(),
        post.wf(),
        pre.wf_space(root),
        0 <= i4 < 512,
        0 <= i3 < 512,
        pre.l3_of(root, i4) == Some(t3),
        pre.entry(t3, i3) is Missing,
        tnew == pre.table_count(),
        post.table_count() == pre.table_count() + 1,
        forall|u: int| 0 <= u < pre.table_count() && u != t3 ==> post.tables@[u] == pre.tables@[u],
        post.tables@[t3].entries@.len() == 512,
        forall|e: int| 0 <= e < 512 && e != i3 ==> post.entry(t3, e) == pre.entry(t3, e),
        post.child(t3, i3) == Some(tnew),
        forall|e: int| 0 <= e < 512 ==> post.entry(tnew, e) is Missing,
    ensures
        post.wf_space(root),
        forall|w: u64| post.translate(root, w) == pre.translate(root, w),
        forall|w: u64| post.can_map(root, w) == pre.can_map(root, w),
{
    lemma_chain_bounds(pre, root);
    assert(t3 != root);
    assert forall|a: int| 0 <= a < 512 implies #[trigger] post.l3_of(root, a) == pre.l3_of(
        root,
        a,
    ) by {}
    assert forall|a: int, b: int| 0 <= a < 512 && 0 <= b < 512 implies #[trigger] post.l2_of(
        root,
        a,
        b,
    ) == (if a == i4 && b == i3 {
        Some(tnew)
    } else {
        pre.l2_of(root, a, b)
    }) by {
        if pre.l3_of(root, a) is Some {
            let t = pre.l3_of(root, a)->Some_0;
            if a != i4 {
                assert(t != t3);
                assert(post.tables@[t] == pre.tables@[t]);
            }
        }
    }
    assert forall|a: int, b: int, c: int|
        0 <= a < 512 && 0 <= b < 512 && 0 <= c < 512 implies #[trigger] post.l1_of(root, a, b, c)
        == (if a == i4 && b == i3 {
        None::<int>
    } else {
        pre.l1_of(root, a, b, c)
    }) by {
        if a == i4 && b == i3 {
            assert(pre.l2_of(root, a, b) is None);
        } else if pre.l2_of(root, a, b) is Some {
            let t2 = pre.l2_of(root, a, b)->Some_0;
            assert(t2 != t3 && t2 != tnew);
            assert(post.tables@[t2] == pre.tables@[t2]);
        }
    }
    assert forall|w: u64|
        post.translate(root, w) == pre.translate(root, w) && post.can_map(root, w) == pre.can_map(
            root,
            w,
        ) by {
        let a = l4_index(w);
        let b = l3_index(w);
        if a == i4 && b == i3 {
            assert(pre.translate(root, w) is None);
            assert(post.l1_of(root, a, b, l2_index(w)) is None);
            assert(post.translate(root, w) is None);
            assert(pre.can_map(root, w));
            assert(post.entry(tnew, l2_index(w)) is Missing);
            assert(post.can_map(root, w));
        } else {
            if a == i4 {
                assert(post.entry(t3, b) == pre.entry(t3, b));
            } else if pre.l3_of(root, a) is Some {
                let t = pre.l3_of(root, a)->Some_0;
                assert(t != t3 && t != tnew);
                assert(post.tables@[t] == pre.tables@[t]);
            }
            if pre.l2_of(root, a, b) is Some {
                let t2 = pre.l2_of(root, a, b)->Some_0;
                assert(t2 != t3 && t2 != tnew);
                assert(post.tables@[t2] == pre.tables@[t2]);
            }
            if pre.l1_of(root, a, b, l2_index(w)) is Some {
                let t1 = pre.l1_of(root, a, b, l2_index(w))->Some_0;
                assert(t1 != t3 && t1 != tnew);
                assert(post.tables@[t1] == pre.tables@[t1]);
            }
            lemma_chain_same(pre, post, root, root, w);
        }
    }
}

/// Linking a fresh empty table into a missing level-2 slot changes no
/// translation and keeps the space a tree.
proof fn lemma_link_l2(
    pre: PageTableStore,
    post: PageTableStore,
    root: int,
    i4: int,
    i3: int,
    i2: int,
    t2: int,
    tnew: int,
)
    requires
        pre.wf(),
        post.wf(),
        pre.wf_space(root),
        0 <= i4 < 512,
        0 <= i3 < 512,
        0 <= i2 < 512,
        pre.l2_of(root, i4, i3) == Some(t2),
        pre.entry(t2, i2) is Missing,
        tnew == pre.table_count(),
        post.table_count() == pre.table_count() + 1,
        forall|u: int| 0 <= u < pre.table_count() && u != t2 ==> post.tables@[u] == pre.tables@[u],
        post.tables@[t2].entries@.len() == 512,
        forall|e: int| 0 <= e < 512 && e != i2 ==> post.entry(t2, e) == pre.entry(t2, e),
        post.child(t2, i2) == Some(tnew),
        forall|e: int| 0 <= e < 512 ==> post.entry(tnew, e) is Missing,
    ensures
        post.wf_space(root),
        forall|w: u64| post.translate(root, w) == pre.translate(root, w),
        forall|w: u64| post.can_map(root, w) == pre.can_map(root, w),
{
    lemma_chain_bounds(pre, root);
    assert(t2 != root);
    assert forall|a: int| 0 <= a < 512 implies #[trigger] post.l3_of(root, a) == pre.l3_of(
        root,
        a,
    ) by {}
    assert forall|a: int, b: int| 0 <= a < 512 && 0 <= b < 512 implies #[trigger] post.l2_of(
        root,
        a,
        b,
    ) == pre.l2_of(root, a, b) by {
        if pre.l3_of(root, a) is Some {
            let t = pre.l3_of(root, a)->Some_0;
            assert(t != t2);
            assert(post.tables@[t] == pre.tables@[t]);
        }
    }
    assert forall|a: int, b: int, c: int|
        0 <= a < 512 && 0 <= b < 512 && 0 <= c < 512 implies #[trigger] post.l1_of(root, a, b, c)
        == (if a == i4 && b == i3 && c == i2 {
        Some(tnew)
    } else {
        pre.l1_of(root, a, b, c)
    }) by {
        if pre.l2_of(root, a, b) is Some {
            let t = pre.l2_of(root, a, b)->Some_0;
            if a == i4 && b == i3 {
                assert(t == t2);
            } else {
                assert(t != t2);
                assert(post.tables@[t] == pre.tables@[t]);
            }
        }
    }
    assert forall|w: u64|
        post.translate(root, w) == pre.translate(root, w) && post.can_map(root, w) == pre.can_map(
            root,
            w,
        ) by {
        let a = l4_index(w);
        let b = l3_index(w);
        let c = l2_index(w);
        if a == i4 && b == i3 && c == i2 {
            assert(pre.translate(root, w) is None);
            assert(post.l1_of(root, a, b, c) == Some(tnew));
            assert(post.entry(tnew, l1_index(w)) is Missing);
            assert(post.translate(root, w) is None);
            assert(pre.can_map(root, w));
            assert(post.can_map(root, w));
        } else {
            if pre.l3_of(root, a) is Some {
                let t = pre.l3_of(root, a)->Some_0;
                assert(t != t2 && t != tnew);
                assert(post.tables@[t] == pre.tables@[t]);
            }
            if a == i4 && b == i3 {
                assert(post.entry(t2, c) == pre.entry(t2, c));
            } else if pre.l2_of(root, a, b) is Some {
                let t = pre.l2_of(root, a, b)->Some_0;
                assert(t != t2 && t != tnew);
                assert(post.tables@[t] == pre.tables@[t]);
            }
            if pre.l1_of(root, a, b, c) is Some {
                let t1 = pre.l1_of(root, a, b, c)->Some_0;
                assert(t1 != t2 && t1 != tnew);
                assert(post.tables@[t1] == pre.tables@[t1]);
            }
            lemma_chain_same(pre, post, root, root, w);
        }
    }
}

/// Rewriting one leaf slot touches exactly one virtual page of the space
/// and keeps the space a tree.
proof fn lemma_set_l1(
    pre: PageTableStore,
    post: PageTableStore,
    root: int,
    i4: int,
    i3: int,
    i2: int,
    i1: int,
    t1: int,
)
    requires
        pre.wf(),
        post.wf(),
        pre.wf_space(root),
        0 <= i4 < 512,
        0 <= i3 < 512,
        0 <= i2 < 512,
        0 <= i1 < 512,
        pre.l1_of(root, i4, i3, i2) == Some(t1),
        post.table_count() == pre.table_count(),
        forall|u: int| 0 <= u < pre.table_count() && u != t1 ==> post.tables@[u] == pre.tables@[u],
        post.tables@[t1].entries@.len() == 512,
        forall|e: int| 0 <= e < 512 && e != i1 ==> post.entry(t1, e) == pre.entry(t1, e),
        !(pre.entry(t1, i1) is Table),
        !(post.entry(t1, i1) is Table),
    ensures
        post.wf_space(root),
        post.l1_of(root, i4, i3, i2) == Some(t1),
        forall|w: u64|
            (l4_index(w) != i4 || l3_index(w) != i3 || l2_index(w) != i2 || l1_index(w) != i1)
                ==> post.translate(root, w) == pre.translate(root, w) && post.can_map(root, w)
                == pre.can_map(root, w),
{
    lemma_chain_bounds(pre, root);
    assert(t1 != root);
    assert forall|a: int| 0 <= a < 512 implies #[trigger] post.l3_of(root, a) == pre.l3_of(
        root,
        a,
    ) by {}
    assert forall|a: int, b: int| 0 <= a < 512 && 0 <= b < 512 implies #[trigger] post.l2_of(
        root,
        a,
        b,
    ) == pre.l2_of(root, a, b) by {
        if pre.l3_of(root, a) is Some {
            let t = pre.l3_of(root, a)->Some_0;
            assert(t != t1);
            assert(post.tables@[t] == pre.tables@[t]);
        }
    }
    assert forall|a: int, b: int, c: int|
        0 <= a < 512 && 0 <= b < 512 && 0 <= c < 512 implies #[trigger] post.l1_of(root, a, b, c)
        == pre.l1_of(root, a, b, c) by {
        if pre.l2_of(root, a, b) is Some {
            let t = pre.l2_of(root, a, b)->Some_0;
            if a == i4 && b == i3 && c == i2 {
            } else {
                assert(t != t1 || post.entry(t, c) == pre.entry(t, c));
                if t != t1 {
                    assert(post.tables@[t] == pre.tables@[t]);
                }
            }
        }
    }
    assert forall|w: u64|
        (l4_index(w) != i4 || l3_index(w) != i3 || l2_index(w) != i2 || l1_index(w) != i1) implies
        post.translate(root, w) == pre.translate(root, w) && post.can_map(root, w) == pre.can_map(
            root,
            w,
        ) by {
        let a = l4_index(w);
        let b = l3_index(w);
        let c = l2_index(w);
        let d = l1_index(w);
        if pre.l3_of(root, a) is Some {
            let t = pre.l3_of(root, a)->Some_0;
            assert(t != t1);
            assert(post.tables@[t] == pre.tables@[t]);
        }
        if pre.l2_of(root, a, b) is Some {
            let t = pre.l2_of(root, a, b)->Some_0;
            assert(t != t1);
            assert(post.tables@[t] == pre.tables@[t]);
        }
        if pre.l1_of(root, a, b, c) is Some {
            let t = pre.l1_of(root, a, b, c)->Some_0;
            if (a, b, c) == (i4, i3, i2) {
                assert(t == t1);
                assert(d != i1);
                assert(post.entry(t, d) == pre.entry(t, d));
            } else {
                assert(t != t1);
                assert(post.tables@[t] == pre.tables@[t]);
            }
        }
        lemma_chain_same(pre, post, root, root, w);
    }
}

/// Two virtual page numbers with the same four indices are the same page.
proof fn lemma_vpn_unique(w: u64, v: u64)
    requires
        w < VPN_LIMIT,
        v < VPN_LIMIT,
        l4_index(w) == l4_index(v),
        l3_index(w) == l3_index(v),
        l2_index(w) == l2_index(v),
        l1_index(w) == l1_index(v),
    ensures
        w == v,
{
    assert(w == v) by (bit_vector)
        requires
            w < 68719476736u64,
            v < 68719476736u64,
            (w / 134217728u64) % 512 == (v / 134217728u64) % 512,
            (w / 262144u64) % 512 == (v / 262144u64) % 512,
            (w / 512u64) % 512 == (v / 512u64) % 512,
            w % 512 == v % 512,
    ;
}

impl PageTableStore {
    /// Resolve the table that slot `idx` of `parent` links to, allocating a
    /// fresh zeroed table from the PMM when the slot is missing. Never
    /// allocates for an already-present link.
    fn ensure_table(&mut self, parent: usize, idx: usize, pmm: &mut SystemFrameAllocator) -> (r:
        Result<usize, MapError>)
        requires
            old(self).wf(),
            parent < old(self).table_count(),
            idx < 512,
            old(pmm).wf(),
            old(self).table_count() < usize::MAX,
        ensures
            final (self).wf(),
            final (pmm).wf(),
            SystemFrameAllocator::grows(*old(pmm), *final (pmm)),
            free_count(*final (pmm)) >= free_count(*old(pmm)) - 1,
            free_count(*old(pmm)) - free_count(*final (pmm)) == final (self).table_count() - old(
                self,
            ).table_count(),
            match r {
                Ok(t) => {
                    &&& 0 <= t < final (self).table_count()
                    &&& final (self).child(parent as int, idx as int) == Some(t as int)
                    &&& match old(self).entry(parent as int, idx as int) {
                        PageTableEntry::Table { table, .. } => {
                            &&& t == table
                            &&& *final (self) == *old(self)
                            &&& *final (pmm) == *old(pmm)
                        },
                        PageTableEntry::Missing => {
                            &&& t == old(self).table_count()
                            &&& final (self).table_count() == old(self).table_count() + 1
                            &&& forall|u: int|
                                0 <= u < old(self).table_count() && u != parent
                                    ==> final (self).tables@[u] == old(self).tables@[u]
                            &&& final (self).tables@[parent as int].entries@.len() == 512
                            &&& forall|ep: int|
                                0 <= ep < 512 && ep != idx ==> final (self).entry(parent as int, ep)
                                    == old(self).entry(parent as int, ep)
                            &&& forall|e: int|
                                0 <= e < 512 ==> final (self).entry(t as int, e) is Missing
                        },
                        PageTableEntry::Leaf { .. } => false,
                    }
                },
                Err(MapError::PageAlreadyMapped) => {
                    &&& *final (self) == *old(self)
                    &&& *final (pmm) == *old(pmm)
                    &&& old(self).entry(parent as int, idx as int) is Leaf
                },
                Err(MapError::FrameAllocationFailed) => {
                    &&& *final (self) == *old(self)
                    &&& !final (pmm).has_free_frame()
                    &&& free_count(*old(pmm)) == 0
                    &&& old(self).entry(parent as int, idx as int) is Missing
                },
            },
    {
        let cur = self.get_entry(parent, idx);
        match cur {
            PageTableEntry::Table { table, .. } => {
                proof {
                    assert(self.tables@[parent as int].wf_in(self.table_count()));
                }
                Ok(table)
            },
            PageTableEntry::Leaf { .. } => Err(MapError::PageAlreadyMapped),
            PageTableEntry::Missing => {
                proof {
                    lemma_free_count_pos(*pmm);
                }
                let f = match pmm.allocate() {
                    Some(f) => f,
                    None => {
                        proof {
                            lemma_free_count_pos(*pmm);
                        }
                        return Err(MapError::FrameAllocationFailed);
                    },
                };
                proof {
                    lemma_alloc_count(*old(pmm), *pmm, f);
                }
                let t = self.push_table(f);
                let ghost mid = *self;
                self.set_entry(parent, idx, PageTableEntry::Table { table: t, frame: f });
                proof {
                    assert forall|e: int| 0 <= e < 512 implies self.entry(t as int, e)
                        is Missing by {
                        assert(self.tables@[t as int] == mid.tables@[t as int]);
                        assert(mid.entry(t as int, e) is Missing);
                    }
                    assert forall|u: int| 0 <= u < self.table_count() implies (
                    #[trigger] self.tables@[u]).wf_in(self.table_count()) by {
                        if u == parent {
                            assert(old(self).tables@[parent as int].wf_in(
                                old(self).table_count(),
                            ));
                            assert forall|e: int|
                                0 <= e < 512 implies ((#[trigger] self.tables@[u].entries@[e])
                                matches PageTableEntry::Table { table, .. } ==> table
                                < self.table_count()) by {
                                if e != idx {
                                    assert(self.entry(parent as int, e) == old(self).entry(
                                        parent as int,
                                        e,
                                    ));
                                }
                            }
                        } else {
                            assert(mid.tables@[u].wf_in(mid.table_count()));
                            assert(self.tables@[u] == mid.tables@[u]);
                        }
                    }
                }
                Ok(t)
            },
        }
    }

    /// Create a mapping from virtual page `vpn` to physical `frame` with the
    /// given flags, under the root table `root`.
    ///
    /// Walks the four levels from the root; for each missing intermediate
    /// level it allocates a fresh frame from the PMM, zeroes it and links it
    /// in, then writes the leaf entry. Already-present levels never
    /// allocate. Fails with `FrameAllocationFailed` when the PMM is
    /// exhausted, with `PageAlreadyMapped` when some slot on the chain
    /// already maps memory; either way no translation changes.
    pub fn map_page(
        &mut self,
        root: usize,
        vpn: u64,
        frame: u64,
        flags: PageFlags,
        pmm: &mut SystemFrameAllocator,
    ) -> (r: Result<(), MapError>)
        requires
            old(self).wf(),
            old(self).wf_space(root as int),
            vpn < VPN_LIMIT,
            old(pmm).wf(),
            old(self).table_count() + 3 <= usize::MAX,
        ensures
            final (self).wf(),
            final (self).wf_space(root as int),
            final (pmm).wf(),
            SystemFrameAllocator::grows(*old(pmm), *final (pmm)),
            free_count(*final (pmm)) >= free_count(*old(pmm)) - 3,
            free_count(*old(pmm)) - free_count(*final (pmm)) == final (self).table_count() - old(
                self,
            ).table_count(),
            final (self).table_count() <= old(self).table_count() + 3,
            forall|w: u64|
                w < VPN_LIMIT && w != vpn ==> final (self).translate(root as int, w) == old(
                    self,
                ).translate(root as int, w),
            forall|w: u64|
                w < VPN_LIMIT && w != vpn ==> final (self).can_map(root as int, w) == old(
                    self,
                ).can_map(root as int, w),
            old(self).can_map(root as int, vpn) && free_count(*old(pmm)) >= 3 ==> r is Ok,
            match r {
                Ok(()) => {
                    &&& old(self).can_map(root as int, vpn)
                    &&& old(self).translate(root as int, vpn) is None
                    &&& final (self).translate(root as int, vpn) == Some((frame, flags))
                },
                Err(MapError::PageAlreadyMapped) => {
                    &&& !old(self).can_map(root as int, vpn)
                    &&& *final (self) == *old(self)
                    &&& *final (pmm) == *old(pmm)
                },
                Err(MapError::FrameAllocationFailed) => {
                    &&& old(self).can_map(root as int, vpn)
                    &&& !final (pmm).has_free_frame()
                    &&& free_count(*old(pmm)) < 3
                    &&& final (self).translate(root as int, vpn) == old(self).translate(
                        root as int,
                        vpn,
                    )
                    &&& final (self).can_map(root as int, vpn)
                },
            },
    {
        let i4 = index4(vpn);
        let i3 = index3(vpn);
        let i2 = index2(vpn);
        let i1 = index1(vpn);
        let ghost s0 = *self;

        let t3 = match self.ensure_table(root, i4, pmm) {
            Ok(t) => t,
            Err(e) => {
                return Err(e);
            },
        };
        let ghost s1 = *self;
        proof {
            if s1.table_count() != s0.table_count() {
                lemma_link_l4(s0, s1, root as int, i4 as int, t3 as int);
            }
            assert(s1.wf_space(root as int));
            assert(forall|w: u64|
                s1.translate(root as int, w) == s0.translate(root as int, w));
            assert(forall|w: u64| s1.can_map(root as int, w) == s0.can_map(root as int, w));
            assert(s1.l3_of(root as int, i4 as int) == Some(t3 as int));
        }

        let t2 = match self.ensure_table(t3, i3, pmm) {
            Ok(t) => t,
            Err(e) => {
                proof {
                    if e == MapError::PageAlreadyMapped {
                        assert(s1.entry(t3 as int, i3 as int) is Leaf);
                        assert(s1 == s0);
                        assert(!s0.can_map(root as int, vpn));
                    } else {
                        assert(s0.can_map(root as int, vpn));
                    }
                }
                return Err(e);
            },
        };
        let ghost s2 = *self;
        proof {
            if s2.table_count() != s1.table_count() {
                lemma_link_l3(s1, s2, root as int, i4 as int, i3 as int, t3 as int, t2 as int);
            } else {
                assert(s2 == s1);
            }
            assert(s2.wf_space(root as int));
            assert(forall|w: u64|
                s2.translate(root as int, w) == s0.translate(root as int, w));
            assert(forall|w: u64| s2.can_map(root as int, w) == s0.can_map(root as int, w));
            assert(s2.l2_of(root as int, i4 as int, i3 as int) == Some(t2 as int));
        }

        let t1 = match self.ensure_table(t2, i2, pmm) {
            Ok(t) => t,
            Err(e) => {
                proof {
                    if e == MapError::PageAlreadyMapped {
                        assert(s2.entry(t2 as int, i2 as int) is Leaf);
                        assert(s2 == s1 && s1 == s0);
                        assert(!s0.can_map(root as int, vpn));
                    } else {
                        assert(s0.can_map(root as int, vpn));
                    }
                }
                return Err(e);
            },
        };
        let ghost s3 = *self;
        proof {
            if s3.table_count() != s2.table_count() {
                lemma_link_l2(
                    s2,
                    s3,
                    root as int,
                    i4 as int,
                    i3 as int,
                    i2 as int,
                    t2 as int,
                    t1 as int,
                );
            } else {
                assert(s3 == s2);
            }
            assert(s3.wf_space(root as int));
            assert(forall|w: u64|
                s3.translate(root as int, w) == s0.translate(root as int, w));
            assert(forall|w: u64| s3.can_map(root as int, w) == s0.can_map(root as int, w));
            assert(s3.l1_of(root as int, i4 as int, i3 as int, i2 as int) == Some(t1 as int));
            lemma_chain_bounds(s3, root as int);
        }

        let leaf = self.get_entry(t1, i1);
        if !(matches!(leaf, PageTableEntry::Missing)) {
            proof {
                assert(s3.entry(t1 as int, i1 as int) is Leaf || s3.entry(
                    t1 as int,
                    i1 as int,
                ) is Table);
                assert(s3 == s2 && s2 == s1 && s1 == s0);
                assert(!s0.can_map(root as int, vpn));
            }
            return Err(MapError::PageAlreadyMapped);
        }

        self.set_entry(t1, i1, PageTableEntry::Leaf { frame, flags });
        proof {
            assert forall|u: int| 0 <= u < self.table_count() implies (
            #[trigger] self.tables@[u]).wf_in(self.table_count()) by {
                assert(s3.tables@[u].wf_in(s3.table_count()));
                if u == t1 {
                    assert forall|e: int|
                        0 <= e < 512 implies ((#[trigger] self.tables@[u].entries@[e])
                        matches PageTableEntry::Table { table, .. } ==> table
                        < self.table_count()) by {
                        if e != i1 {
                            assert(self.entry(t1 as int, e) == s3.entry(t1 as int, e));
                        }
                    }
                }
            }
            lemma_set_l1(
                s3,
                *self,
                root as int,
                i4 as int,
                i3 as int,
                i2 as int,
                i1 as int,
                t1 as int,
            );
            assert forall|w: u64| w < VPN_LIMIT && w != vpn implies self.translate(root as int, w)
                == s0.translate(root as int, w) && self.can_map(root as int, w) == s0.can_map(
                root as int,
                w,
            ) by {
                if l4_index(w) == i4 && l3_index(w) == i3 && l2_index(w) == i2 && l1_index(w)
                    == i1 {
                    lemma_vpn_unique(w, vpn);
                }
            }
            assert(s3.translate(root as int, vpn) is None);
            assert(s0.can_map(root as int, vpn)) by {
                if s1.table_count() == s0.table_count() {
                    assert(s0.entry(root as int, i4 as int) is Table);
                }
            }
            assert(self.l1_of(root as int, i4 as int, i3 as int, i2 as int) == Some(t1 as int));
            assert(self.translate(root as int, vpn) == Some((frame, flags)));
        }
        Ok(())
    }

    /// Remove the mapping of virtual page `vpn` under the root table `root`
    /// and return the frame and flags it mapped. The intermediate tables
    /// stay in place. Fails when the page is not mapped; nothing changes
    /// then.
    pub fn unmap_page(&mut self, root: usize, vpn: u64) -> (r: Result<(u64, PageFlags), UnmapError>)
        requires
            old(self).wf(),
            old(self).wf_space(root as int),
            vpn < VPN_LIMIT,
        ensures
            final (self).wf(),
            final (self).wf_space(root as int),
            final (self).table_count() == old(self).table_count(),
            forall|w: u64|
                w < VPN_LIMIT && w != vpn ==> final (self).translate(root as int, w) == old(
                    self,
                ).translate(root as int, w),
            forall|w: u64|
                w < VPN_LIMIT && w != vpn ==> final (self).can_map(root as int, w) == old(
                    self,
                ).can_map(root as int, w),
            match r {
                Ok((frame, flags)) => {
                    &&& old(self).translate(root as int, vpn) == Some((frame, flags))
                    &&& final (self).translate(root as int, vpn) is None
                    &&& final (self).can_map(root as int, vpn)
                },
                Err(UnmapError::PageNotMapped) => {
                    &&& old(self).translate(root as int, vpn) is None
                    &&& *final (self) == *old(self)
                },
            },
    {
        let i4 = index4(vpn);
        let i3 = index3(vpn);
        let i2 = index2(vpn);
        let i1 = index1(vpn);
        let ghost s0 = *self;

        let t3 = match self.get_entry(root, i4) {
            PageTableEntry::Table { table, .. } => table,
            _ => {
                return Err(UnmapError::PageNotMapped);
            },
        };
        proof {
            assert(self.tables@[root as int].wf_in(self.table_count()));
        }
        let t2 = match self.get_entry(t3, i3) {
            PageTableEntry::Table { table, .. } => table,
            _ => {
                return Err(UnmapError::PageNotMapped);
            },
        };
        proof {
            assert(self.tables@[t3 as int].wf_in(self.table_count()));
        }
        let t1 = match self.get_entry(t2, i2) {
            PageTableEntry::Table { table, .. } => table,
            _ => {
                return Err(UnmapError::PageNotMapped);
            },
        };
        proof {
            assert(self.tables@[t2 as int].wf_in(self.table_count()));
        }
        let (frame, flags) = match self.get_entry(t1, i1) {
            PageTableEntry::Leaf { frame, flags } => (frame, flags),
            _ => {
                return Err(UnmapError::PageNotMapped);
            },
        };

        self.set_entry(t1, i1, PageTableEntry::Missing);
        proof {
            assert forall|u: int| 0 <= u < self.table_count() implies (
            #[trigger] self.tables@[u]).wf_in(self.table_count()) by {
                assert(s0.tables@[u].wf_in(s0.table_count()));
                if u == t1 {
                    assert forall|e: int|
                        0 <= e < 512 implies ((#[trigger] self.tables@[u].entries@[e])
                        matches PageTableEntry::Table { table, .. } ==> table
                        < self.table_count()) by {
                        if e != i1 {
                            assert(self.entry(t1 as int, e) == s0.entry(t1 as int, e));
                        }
                    }
                }
            }
            lemma_set_l1(
                s0,
                *self,
                root as int,
                i4 as int,
                i3 as int,
                i2 as int,
                i1 as int,
                t1 as int,
            );
            assert forall|w: u64| w < VPN_LIMIT && w != vpn implies self.translate(root as int, w)
                == s0.translate(root as int, w) && self.can_map(root as int, w) == s0.can_map(
                root as int,
                w,
            ) by {
                if l4_index(w) == i4 && l3_index(w) == i3 && l2_index(w) == i2 && l1_index(w)
                    == i1 {
                    lemma_vpn_unique(w, vpn);
                }
            }
            assert(self.translate(root as int, vpn) is None);
            assert(self.entry(t1 as int, i1 as int) is Missing);
            assert(self.can_map(root as int, vpn));
        }
        Ok((frame, flags))
    }

    /// Look up the current mapping of virtual page `vpn` under `root`.
    pub fn lookup_mapping(&self, root: usize, vpn: u64) -> (r: Option<(u64, PageFlags)>)
        requires
            self.wf(),
            root < self.table_count(),
            vpn < VPN_LIMIT,
        ensures
            r == self.translate(root as int, vpn),
    {
        let i4 = index4(vpn);
        let i3 = index3(vpn);
        let i2 = index2(vpn);
        let i1 = index1(vpn);
        let t3 = match self.get_entry(root, i4) {
            PageTableEntry::Table { table, .. } => table,
            _ => {
                return None;
            },
        };
        proof {
            assert(self.tables@[root as int].wf_in(self.table_count()));
        }
        let t2 = match self.get_entry(t3, i3) {
            PageTableEntry::Table { table, .. } => table,
            _ => {
                return None;
            },
        };
        proof {
            assert(self.tables@[t3 as int].wf_in(self.table_count()));
        }
        let t1 = match self.get_entry(t2, i2) {
            PageTableEntry::Table { table, .. } => table,
            _ => {
                return None;
            },
        };
        proof {
            assert(self.tables@[t2 as int].wf_in(self.table_count()));
        }
        match self.get_entry(t1, i1) {
            PageTableEntry::Leaf { frame, flags } => Some((frame, flags)),
            _ => None,
        }
    }
}

/// A virtual address space: the root (level 4) page table, named both by
/// the physical frame it occupies and by its index in the arena.
#[derive(Clone, Copy, Debug, PartialEq, Eq, Structural)]
pub struct VAddressSpace {
    /// Physical address of the frame holding the root table.
    pub l4_page_table: u64,
    /// The root table's index in the arena.
    pub root: usize,
}

impl VAddressSpace {
    /// Allocate a new virtual address space.
    ///
    /// Obtains a fresh frame from the PMM for the root table. The lower half
    /// of the root (the address-space-private part) starts empty; the upper
    /// half (kernel-global mappings) shares the tables of the given active
    /// space. Fails when the PMM cannot supply the root frame.
    pub fn new(
        store: &mut PageTableStore,
        active: &VAddressSpace,
        pmm: &mut SystemFrameAllocator,
    ) -> (r: Result<VAddressSpace, MapError>)
        requires
            old(store).wf(),
            old(store).wf_space(active.root as int),
            old(pmm).wf(),
            old(store).table_count() < usize::MAX,
        ensures
            final (store).wf(),
            final (pmm).wf(),
            SystemFrameAllocator::grows(*old(pmm), *final (pmm)),
            old(pmm).has_free_frame() ==> r is Ok,
            match r {
                Ok(sp) => {
                    &&& sp.root == old(store).table_count()
                    &&& final (store).wf_space(sp.root as int)
                    &&& final (store).tables@[sp.root as int].frame == sp.l4_page_table
                    &&& SystemFrameAllocator::alloc_transition(
                        *old(pmm),
                        *final (pmm),
                        Some(sp.l4_page_table),
                    )
                    &&& forall|w: u64|
                        l4_index(w) < 256 ==> final (store).translate(sp.root as int, w) is None
                    &&& forall|w: u64|
                        l4_index(w) >= 256 ==> final (store).translate(sp.root as int, w) == old(
                            store,
                        ).translate(active.root as int, w)
                    &&& forall|r2: int, w: u64|
                        0 <= r2 < old(store).table_count() ==> final (store).translate(r2, w)
                            == old(store).translate(r2, w)
                    &&& forall|r2: int|
                        0 <= r2 < old(store).table_count() && old(store).wf_space(r2)
                            ==> final (store).wf_space(r2)
                },
                Err(e) => {
                    &&& e == MapError::FrameAllocationFailed
                    &&& *final (store) == *old(store)
                    &&& *final (pmm) == *old(pmm)
                    &&& !final (pmm).has_free_frame()
                },
            },
    {
        let frame = match pmm.allocate() {
            Some(f) => f,
            None => {
                return Err(MapError::FrameAllocationFailed);
            },
        };
        let root = store.add_root(frame);
        let ghost s0 = *old(store);
        let ghost s1 = *store;

        // Share the kernel half of the active space's root table.
        let mut i: usize = 256;
        while i < 512
            invariant
                store.wf(),
                256 <= i <= 512,
                root == s0.table_count(),
                store.table_count() == s0.table_count() + 1,
                s0.wf(),
                s0.wf_space(active.root as int),
                forall|u: int| 0 <= u < s0.table_count() ==> store.tables@[u] == s0.tables@[u],
                store.tables@[root as int].frame == frame,
                store.tables@[root as int].entries@.len() == 512,
                forall|e: int| 0 <= e < 256 ==> store.entry(root as int, e) is Missing,
                forall|e: int|
                    256 <= e < i ==> store.entry(root as int, e) == s0.entry(active.root as int, e),
                forall|e: int| i <= e < 512 ==> store.entry(root as int, e) is Missing,
            decreases 512 - i,
        {
            let e = store.get_entry(active.root, i);
            let ghost prev = *store;
            store.set_entry(root, i, e);
            proof {
                assert forall|u: int| 0 <= u < store.table_count() implies (
                #[trigger] store.tables@[u]).wf_in(store.table_count()) by {
                    assert(prev.tables@[u].wf_in(prev.table_count()));
                    if u == root {
                        assert forall|ep: int|
                            0 <= ep < 512 implies ((#[trigger] store.tables@[u].entries@[ep])
                            matches PageTableEntry::Table { table, .. } ==> table
                            < store.table_count()) by {
                            if ep != i {
                                assert(store.entry(root as int, ep) == prev.entry(root as int, ep));
                            } else {
                                assert(s0.tables@[active.root as int].wf_in(s0.table_count()));
                            }
                        }
                    }
                }
            }
            i += 1;
        }
        proof {
            lemma_mirror(s0, *store, active.root as int, root as int);
        }
        Ok(VAddressSpace { l4_page_table: frame, root })
    }
}

/// A fresh root whose lower half is empty and whose upper half copies the
/// active root's slots translates exactly like the active space above the
/// half boundary, like nothing below it, and is itself a tree; every
/// existing space is untouched.
proof fn lemma_mirror(pre: PageTableStore, post: PageTableStore, active: int, fresh: int)
    requires
        pre.wf(),
        post.wf(),
        pre.wf_space(active),
        fresh == pre.table_count(),
        post.table_count() == pre.table_count() + 1,
        forall|u: int| 0 <= u < pre.table_count() ==> post.tables@[u] == pre.tables@[u],
        forall|e: int| 0 <= e < 256 ==> post.entry(fresh, e) is Missing,
        forall|e: int| 256 <= e < 512 ==> post.entry(fresh, e) == pre.entry(active, e),
    ensures
        post.wf_space(fresh),
        forall|w: u64| l4_index(w) < 256 ==> post.translate(fresh, w) is None,
        forall|w: u64| l4_index(w) >= 256 ==> post.translate(fresh, w) == pre.translate(active, w),
        forall|r: int, w: u64|
            0 <= r < pre.table_count() ==> post.translate(r, w) == pre.translate(r, w),
        forall|r: int| 0 <= r < pre.table_count() && pre.wf_space(r) ==> post.wf_space(r),
{
    lemma_chain_bounds(pre, active);
    lemma_push_preserves_shape(pre, post);
    assert forall|a: int| 0 <= a < 512 implies #[trigger] post.l3_of(fresh, a) == (if a >= 256 {
        pre.l3_of(active, a)
    } else {
        None::<int>
    }) by {}
    assert forall|a: int, b: int| 0 <= a < 512 && 0 <= b < 512 implies #[trigger] post.l2_of(
        fresh,
        a,
        b,
    ) == (if a >= 256 {
        pre.l2_of(active, a, b)
    } else {
        None::<int>
    }) by {
        if a >= 256 && pre.l3_of(active, a) is Some {
            let t = pre.l3_of(active, a)->Some_0;
            assert(post.tables@[t] == pre.tables@[t]);
        }
    }
    assert forall|a: int, b: int, c: int|
        0 <= a < 512 && 0 <= b < 512 && 0 <= c < 512 implies #[trigger] post.l1_of(fresh, a, b, c)
        == (if a >= 256 {
        pre.l1_of(active, a, b, c)
    } else {
        None::<int>
    }) by {
        if a >= 256 && pre.l2_of(active, a, b) is Some {
            let t3 = pre.l3_of(active, a)->Some_0;
            let t2 = pre.l2_of(active, a, b)->Some_0;
            assert(post.tables@[t3] == pre.tables@[t3]);
            assert(post.tables@[t2] == pre.tables@[t2]);
        }
    }
    assert forall|w: u64| l4_index(w) >= 256 implies post.translate(fresh, w) == pre.translate(
        active,
        w,
    ) by {
        let a = l4_index(w);
        if pre.l3_of(active, a) is Some {
            let t = pre.l3_of(active, a)->Some_0;
            assert(post.tables@[t] == pre.tables@[t]);
        }
        if pre.l2_of(active, a, l3_index(w)) is Some {
            let t = pre.l2_of(active, a, l3_index(w))->Some_0;
            assert(post.tables@[t] == pre.tables@[t]);
        }
        if pre.l1_of(active, a, l3_index(w), l2_index(w)) is Some {
            let t = pre.l1_of(active, a, l3_index(w), l2_index(w))->Some_0;
            assert(post.tables@[t] == pre.tables@[t]);
        }
        lemma_chain_same(pre, post, active, fresh, w);
    }
}

/// Existing tables being untouched preserves every existing space and its
/// translations, whatever the appended table holds.
proof fn lemma_push_preserves_shape(pre: PageTableStore, post: PageTableStore)
    requires
        pre.wf(),
        post.table_count() == pre.table_count() + 1,
        forall|u: int| 0 <= u < pre.table_count() ==> post.tables@[u] == pre.tables@[u],
    ensures
        forall|r: int, w: u64|
            0 <= r < pre.table_count() ==> post.translate(r, w) == pre.translate(r, w),
        forall|r: int| 0 <= r < pre.table_count() && pre.wf_space(r) ==> post.wf_space(r),
{
    assert forall|r: int, w: u64| 0 <= r < pre.table_count() implies post.translate(r, w)
        == pre.translate(r, w) by {
        lemma_chain_bounds(pre, r);
        if pre.l3_of(r, l4_index(w)) is Some {
            let t = pre.l3_of(r, l4_index(w))->Some_0;
            assert(post.tables@[t] == pre.tables@[t]);
        }
        if pre.l2_of(r, l4_index(w), l3_index(w)) is Some {
            let t = pre.l2_of(r, l4_index(w), l3_index(w))->Some_0;
            assert(post.tables@[t] == pre.tables@[t]);
        }
        if pre.l1_of(r, l4_index(w), l3_index(w), l2_index(w)) is Some {
            let t = pre.l1_of(r, l4_index(w), l3_index(w), l2_index(w))->Some_0;
            assert(post.tables@[t] == pre.tables@[t]);
        }
        lemma_chain_same(pre, post, r, r, w);
    }
    assert forall|r: int| 0 <= r < pre.table_count() && pre.wf_space(r) implies post.wf_space(
        r,
    ) by {
        lemma_chain_bounds(pre, r);
        assert forall|a: int| 0 <= a < 512 implies #[trigger] post.l3_of(r, a) == pre.l3_of(
            r,
            a,
        ) by {}
        assert forall|a: int, b: int| 0 <= a < 512 && 0 <= b < 512 implies #[trigger] post.l2_of(
            r,
            a,
            b,
        ) == pre.l2_of(r, a, b) by {
            if pre.l3_of(r, a) is Some {
                let t = pre.l3_of(r, a)->Some_0;
                assert(post.tables@[t] == pre.tables@[t]);
            }
        }
        assert forall|a: int, b: int, c: int|
            0 <= a < 512 && 0 <= b < 512 && 0 <= c < 512 implies #[trigger] post.l1_of(r, a, b, c)
            == pre.l1_of(r, a, b, c) by {
            if pre.l2_of(r, a, b) is Some {
                let t = pre.l2_of(r, a, b)->Some_0;
                assert(post.tables@[t] == pre.tables@[t]);
            }
        }
    }
}

} // verus!
