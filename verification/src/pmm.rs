//! Physical memory manager: a bitmap-based frame allocator.
//!
//! One bit per 4 KiB frame, least-significant bit first within each 32-bit
//! word. A set bit means the frame is allocated or permanently unusable.

use vstd::prelude::*;
use crate::addr::FRAME_SIZE;

verus! {

/// The kind of a boot memory map region. Only `Usable` regions may be
/// handed out as frames; everything else is treated uniformly as "not usable".
#[derive(Clone, Copy, Debug, PartialEq, Eq, Structural)]
pub enum RegionKind {
    Usable,
    Reserved,
    Reclaimable,
}

/// One region of the boot memory map: a contiguous range of physical bytes.
#[derive(Clone, Copy, Debug, PartialEq, Eq, Structural)]
pub struct Region {
    pub base: u64,
    pub len: u64,
    pub kind: RegionKind,
}

impl Region {
    /// One past the last physical byte of the region.
    pub open spec fn end(self) -> int {
        self.base + self.len
    }

    pub open spec fn is_usable(self) -> bool {
        self.kind is Usable
    }

    /// The region touches some byte of frame `f`.
    pub open spec fn covers_frame(self, f: int) -> bool {
        self.base as int / FRAME_SIZE as int <= f
            < (self.end() + FRAME_SIZE - 1) / FRAME_SIZE as int
    }
}

/// A memory map is well formed when no region wraps around the address space
/// and the regions are sorted ascending by base and do not overlap, as the
/// boot protocol guarantees.
pub open spec fn regions_wf(regions: Seq<Region>) -> bool {
    &&& forall|i: int| 0 <= i < regions.len() ==> (#[trigger] regions[i]).end() <= u64::MAX
    &&& forall|i: int|
        0 <= i && i + 1 < regions.len() ==> (#[trigger] regions[i]).end() <= regions[i + 1].base
}

/// Total number of frames tracked: the highest region's end address,
/// in whole frames.
pub open spec fn total_frames(regions: Seq<Region>) -> int {
    regions.last().end() / FRAME_SIZE as int
}

/// Size of the frame bitmap in bytes: one bit per frame, rounded up.
pub open spec fn bitmap_bytes(regions: Seq<Region>) -> int {
    (total_frames(regions) + 7) / 8
}

/// Whether a region can hold the bitmap: usable and large enough.
pub open spec fn fits_bitmap(r: Region, bytes: int) -> bool {
    r.is_usable() && r.len >= bytes
}

/// Bit `i` of the word `w`, counting from the least significant bit.
pub open spec fn nth_bit(w: u32, i: u32) -> bool {
    (w >> i) & 1u32 == 1u32
}

/// A word whose `b` lowest bits are ones and whose other bits are zeros.
pub open spec fn low_mask(b: u32) -> u32 {
    if b >= 32 {
        u32::MAX
    } else {
        ((1u32 << b) - 1) as u32
    }
}

/// The frames that hold `bytes` bytes of bitmap storage placed at
/// physical address `base`.
pub open spec fn bitmap_frames(base: u64, bytes: int, f: int) -> bool {
    base as int / FRAME_SIZE as int <= f < (base + bytes + FRAME_SIZE - 1) / FRAME_SIZE as int
}

/// Which frames are marked used immediately after initialization: frame 0,
/// the frames occupied by the bitmap itself, and every frame touched by a
/// non-usable region.
pub open spec fn init_used(regions: Seq<Region>, bmp_base: u64, f: int) -> bool {
    ||| f == 0
    ||| bitmap_frames(bmp_base, bitmap_bytes(regions), f)
    ||| exists|i: int|
        0 <= i < regions.len() && !(#[trigger] regions[i]).is_usable() && regions[i].covers_frame(
            f,
        )
}

/// Failures of physical memory management that are fatal at boot.
#[derive(Clone, Copy, Debug, PartialEq, Eq, Structural)]
pub enum PmmError {
    /// No usable region is large enough to hold the frame bitmap.
    NoBitmapSpace,
}

pub struct SystemFrameAllocator {
    /// The bitmap words; bit `i` of word `w` describes frame `w * 32 + i`.
    bitmap: Vec<u32>,
    /// Number of frames tracked, up to the highest physical address reported.
    frame_count: u64,
    /// Physical address where the bitmap itself was placed.
    bitmap_base: u64,
    /// Size of the bitmap in bytes.
    bitmap_size: u64,
}

impl SystemFrameAllocator {
    /// Number of bits the bitmap can hold; at least `frames()`, and every
    /// bit past `frames()` is permanently set.
    pub closed spec fn capacity(self) -> int {
        self.bitmap@.len() * 32 as int
    }

    /// Number of frames tracked, up to the highest physical address reported.
    pub closed spec fn frames(self) -> u64 {
        self.frame_count
    }

    /// Physical address where the bitmap itself was placed.
    pub closed spec fn spec_bitmap_base(self) -> u64 {
        self.bitmap_base
    }

    /// Size of the bitmap in bytes.
    pub closed spec fn spec_bitmap_size(self) -> u64 {
        self.bitmap_size
    }

    /// Whether frame `f` is currently allocated or permanently unusable.
    pub closed spec fn frame_used(self, f: int) -> bool {
        nth_bit(self.bitmap@[f / 32], (f % 32) as u32)
    }

    /// Structural invariant: the bitmap covers exactly the tracked frames
    /// (rounded up to a whole word), frame addresses fit in 64 bits and frame
    /// indices in usize, and the padding bits past the last tracked frame
    /// stay set so that they are never handed out.
    pub closed spec fn wf(self) -> bool {
        &&& self.bitmap@.len() == (self.frame_count + 31) / 32
        &&& self.frame_count <= u64::MAX / FRAME_SIZE
        &&& self.frame_count + 31 <= usize::MAX
        &&& forall|f: int| self.frame_count <= f < self.capacity() ==> self.frame_used(f)
    }

    /// The tracked frames fit inside the bitmap, and frame indices fit in
    /// usize; exposed for callers of `mark_frame` and `is_frame_used`.
    pub proof fn lemma_frames_fit(self)
        requires
            self.wf(),
        ensures
            self.frames() <= self.capacity(),
            self.capacity() <= usize::MAX,
    {
        assert(self.capacity() <= self.frames() + 31 && self.frames() <= self.capacity())
            by (nonlinear_arith)
            requires
                self.capacity() == ((self.frames() + 31) as int / 32) * 32,
        ;
    }

    /// There is at least one free frame.
    pub open spec fn has_free_frame(self) -> bool {
        exists|f: int| 0 <= f < self.frames() && !self.frame_used(f)
    }

    /// How one successful or failed `allocate` call changes the allocator.
    pub open spec fn alloc_transition(pre: Self, post: Self, r: Option<u64>) -> bool {
        match r {
            Some(addr) => {
                let f = addr as int / FRAME_SIZE as int;
                &&& addr == f * FRAME_SIZE
                &&& 0 <= f < pre.frames()
                &&& !pre.frame_used(f)
                &&& forall|g: int| 0 <= g < f ==> pre.frame_used(g)
                &&& post.frame_used(f)
                &&& forall|g: int|
                    0 <= g < pre.capacity() && g != f ==> post.frame_used(g) == pre.frame_used(g)
                &&& Self::same_shape(pre, post)
            },
            None => {
                &&& post == pre
                &&& forall|f: int| 0 <= f < pre.frames() ==> pre.frame_used(f)
            },
        }
    }

    /// How one `deallocate` call changes the allocator.
    pub open spec fn dealloc_transition(pre: Self, post: Self, addr: u64) -> bool {
        let f = addr as int / FRAME_SIZE as int;
        &&& !post.frame_used(f)
        &&& forall|g: int|
            0 <= g < pre.capacity() && g != f ==> post.frame_used(g) == pre.frame_used(g)
        &&& Self::same_shape(pre, post)
    }

    /// The set of used frames only grew: nothing was freed.
    pub open spec fn grows(pre: Self, post: Self) -> bool {
        &&& Self::same_shape(pre, post)
        &&& forall|f: int| 0 <= f < pre.capacity() && pre.frame_used(f) ==> post.frame_used(f)
    }

    /// The bookkeeping fields never change after initialization.
    pub open spec fn same_shape(pre: Self, post: Self) -> bool {
        &&& post.frames() == pre.frames()
        &&& post.spec_bitmap_base() == pre.spec_bitmap_base()
        &&& post.spec_bitmap_size() == pre.spec_bitmap_size()
        &&& post.capacity() == pre.capacity()
        &&& post.wf() == pre.wf()
    }

    /// Build the frame allocator from the boot memory map.
    ///
    /// Computes the total frame count from the highest region's end address,
    /// places the bitmap in the first usable region large enough to hold it,
    /// clears it, then marks frame 0, the bitmap's own frames, and every
    /// frame of a non-usable region as used. Fails when no usable region can
    /// hold the bitmap, which is unrecoverable at boot.
    #[verifier::rlimit(60)]
    pub fn new(regions: &Vec<Region>) -> (r: Result<Self, PmmError>)
        requires
            regions@.len() > 0,
            regions_wf(regions@),
            total_frames(regions@) >= 1,
            total_frames(regions@) + 31 <= usize::MAX,
        ensures
            match r {
                Ok(a) => {
                    &&& a.wf()
                    &&& a.frames() == total_frames(regions@)
                    &&& a.spec_bitmap_size() == bitmap_bytes(regions@)
                    &&& exists|j: int|
                        {
                            &&& 0 <= j < regions@.len()
                            &&& #[trigger] fits_bitmap(regions@[j], a.spec_bitmap_size() as int)
                            &&& a.spec_bitmap_base() == regions@[j].base
                            &&& forall|i: int|
                                0 <= i < j ==> !fits_bitmap(
                                    #[trigger] regions@[i],
                                    a.spec_bitmap_size() as int,
                                )
                        }
                    &&& forall|f: int|
                        0 <= f < a.frames() ==> (#[trigger] a.frame_used(f) <==> init_used(
                            regions@,
                            a.spec_bitmap_base(),
                            f,
                        ))
                },
                Err(e) => {
                    &&& e == PmmError::NoBitmapSpace
                    &&& forall|i: int|
                        0 <= i < regions@.len() ==> !fits_bitmap(
                            #[trigger] regions@[i],
                            bitmap_bytes(regions@),
                        )
                },
            },
    {
        let n = regions.len();
        let last = &regions[n - 1];
        let mem_size_bytes = last.base + last.len;
        let frames: u64 = mem_size_bytes / FRAME_SIZE;
        let bmp_bytes: u64 = (frames + 7) / 8;

        // Select the first usable region large enough to hold the bitmap.
        let mut chosen: u64 = 0;
        let mut found: bool = false;
        let mut i: usize = 0;
        while i < n && !found
            invariant
                n == regions@.len(),
                0 <= i <= n,
                bmp_bytes == bitmap_bytes(regions@),
                !found ==> forall|k: int|
                    0 <= k < i ==> !fits_bitmap(#[trigger] regions@[k], bmp_bytes as int),
                found ==> {
                    &&& i < n
                    &&& fits_bitmap(regions@[i as int], bmp_bytes as int)
                    &&& chosen == regions@[i as int].base
                    &&& forall|k: int|
                        0 <= k < i ==> !fits_bitmap(#[trigger] regions@[k], bmp_bytes as int)
                },
            decreases n - i + if found {
                0int
            } else {
                1int
            },
        {
            let r = &regions[i];
            if r.kind == RegionKind::Usable && r.len >= bmp_bytes {
                chosen = r.base;
                found = true;
            } else {
                i += 1;
            }
        }
        if !found {
            return Err(PmmError::NoBitmapSpace);
        }
        let ghost chosen_idx: int = i as int;

        let words: usize = ((frames + 31) / 32) as usize;
        let bitmap: Vec<u32> = vec![0u32; words];
        let mut allocator = SystemFrameAllocator {
            bitmap,
            frame_count: frames,
            bitmap_base: chosen,
            bitmap_size: bmp_bytes,
        };

        allocator.clear_bitmap();

        // Bits past the last tracked frame must never be handed out.
        proof {
            assert((words as int) * 32 <= frames + 31 && frames <= (words as int) * 32)
                by (nonlinear_arith)
                requires
                    words == (frames + 31) as int / 32,
            ;
        }
        let capacity: u64 = (words as u64) * 32;
        let mut f: u64 = frames;
        while f < capacity
            invariant
                allocator.capacity() == capacity,
                capacity <= usize::MAX,
                frames <= f <= capacity,
                allocator.frame_count == frames,
                allocator.bitmap_base == chosen,
                allocator.bitmap_size == bmp_bytes,
                allocator.bitmap@.len() == words,
                forall|g: int| frames <= g < f ==> allocator.frame_used(g),
                forall|g: int| 0 <= g < frames ==> !allocator.frame_used(g),
            decreases capacity - f,
        {
            allocator.set_bit(f as usize, true);
            f += 1;
        }
        assert(allocator.wf());

        // Frame 0 is always reserved per the boot protocol.
        allocator.mark_frame(0, true);

        // Mark the frames occupied by the bitmap itself.
        allocator.mark_contiguous_frames(chosen, chosen + bmp_bytes, true);
        assert(forall|g: int|
            0 <= g < frames ==> (#[trigger] allocator.frame_used(g) <==> (g == 0 || bitmap_frames(
                chosen,
                bmp_bytes as int,
                g,
            ))));

        // Mark every frame of a non-usable region.
        allocator.mark_nonusable_regions(regions);

        proof {
            assert(fits_bitmap(regions@[chosen_idx], bmp_bytes as int));
            assert forall|g: int| 0 <= g < allocator.frames() implies (
            #[trigger] allocator.frame_used(g) <==> init_used(
                regions@,
                allocator.spec_bitmap_base(),
                g,
            )) by {}
        }
        Ok(allocator)
    }

    /// Mark every frame touched by a non-usable region as used.
    fn mark_nonusable_regions(&mut self, regions: &Vec<Region>)
        requires
            old(self).wf(),
            regions_wf(regions@),
        ensures
            Self::same_shape(*old(self), *final (self)),
            final (self).wf(),
            forall|g: int|
                0 <= g < final (self).frames() ==> (#[trigger] final (self).frame_used(g) <==> (old(
                    self,
                ).frame_used(g) || exists|i: int|
                    0 <= i < regions@.len() && !(#[trigger] regions@[i]).is_usable()
                        && regions@[i].covers_frame(g))),
    {
        let n = regions.len();
        let mut k: usize = 0;
        while k < n
            invariant
                n == regions@.len(),
                0 <= k <= n,
                regions_wf(regions@),
                self.wf(),
                Self::same_shape(*old(self), *self),
                forall|g: int|
                    0 <= g < self.frames() ==> (#[trigger] self.frame_used(g) <==> (old(
                        self,
                    ).frame_used(g) || exists|i: int|
                        0 <= i < k && !(#[trigger] regions@[i]).is_usable()
                            && regions@[i].covers_frame(g))),
            decreases n - k,
        {
            let r = &regions[k];
            let ghost prev = *self;
            if !(r.kind == RegionKind::Usable) {
                self.mark_contiguous_frames(r.base, r.base + r.len, true);
            }
            proof {
                assert forall|g: int| 0 <= g < self.frames() implies (
                #[trigger] self.frame_used(g) <==> (old(self).frame_used(g) || exists|i: int|
                    0 <= i < k + 1 && !(#[trigger] regions@[i]).is_usable()
                        && regions@[i].covers_frame(g))) by {
                    if regions@[k as int].is_usable() {
                        assert(self.frame_used(g) == prev.frame_used(g));
                    } else {
                        if regions@[k as int].covers_frame(g) {
                            assert(self.frame_used(g));
                        } else {
                            assert(self.frame_used(g) == prev.frame_used(g));
                        }
                    }
                }
            }
            k += 1;
        }
    }

    /// Reset every bit of the bitmap to clear.
    pub fn clear_bitmap(&mut self)
        ensures
            final (self).capacity() == old(self).capacity(),
            forall|f: int| 0 <= f < final (self).capacity() ==> !final (self).frame_used(f),
            final (self).frames() == old(self).frames(),
            final (self).spec_bitmap_base() == old(self).spec_bitmap_base(),
            final (self).spec_bitmap_size() == old(self).spec_bitmap_size(),
    {
        let n = self.bitmap.len();
        let mut i: usize = 0;
        while i < n
            invariant
                n == self.bitmap@.len(),
                0 <= i <= n,
                self.frame_count == old(self).frame_count,
                self.bitmap_base == old(self).bitmap_base,
                self.bitmap_size == old(self).bitmap_size,
                forall|w: int| 0 <= w < i ==> self.bitmap@[w] == 0u32,
            decreases n - i,
        {
            let slot = vstd::std_specs::vec::vec_index_mut(&mut self.bitmap, i);
            *slot = 0u32;
            i += 1;
        }
        proof {
            assert forall|f: int| 0 <= f < self.capacity() implies !self.frame_used(f) by {
                lemma_zero_bit((f % 32) as u32);
                assert(self.bitmap@[f / 32] == 0u32);
            }
        }
    }

    /// Set or clear a single bit of the bitmap; internal form that may also
    /// touch the padding bits past the last tracked frame.
    fn set_bit(&mut self, frame: usize, allocated: bool)
        requires
            frame < old(self).capacity(),
        ensures
            final (self).frame_used(frame as int) == allocated,
            forall|g: int|
                0 <= g < final (self).capacity() && g != frame ==> final (self).frame_used(g) == old(
                    self,
                ).frame_used(g),
            final (self).capacity() == old(self).capacity(),
            final (self).bitmap@.len() == old(self).bitmap@.len(),
            final (self).frame_count == old(self).frame_count,
            final (self).bitmap_base == old(self).bitmap_base,
            final (self).bitmap_size == old(self).bitmap_size,
    {
        proof {
            assert(frame as int / 32 < self.bitmap@.len() && frame as int % 32 < 32)
                by (nonlinear_arith)
                requires
                    0 <= frame < self.bitmap@.len() * 32,
            ;
        }
        let chunk: usize = frame / 32;
        let bit: u32 = (frame % 32) as u32;
        let w: u32 = self.bitmap[chunk];
        let w2: u32 = if allocated {
            proof {
                lemma_set_bit(w, bit);
            }
            w | (1u32 << bit)
        } else {
            proof {
                lemma_clear_bit(w, bit);
            }
            w & !(1u32 << bit)
        };
        let slot = vstd::std_specs::vec::vec_index_mut(&mut self.bitmap, chunk);
        *slot = w2;
        proof {
            assert forall|g: int|
                0 <= g < self.capacity() && g != frame implies self.frame_used(g) == old(
                self,
            ).frame_used(g) by {
                if g / 32 == chunk {
                    assert(g % 32 != frame as int % 32);
                } else {
                    assert(self.bitmap@[g / 32] == old(self).bitmap@[g / 32]);
                }
            }
        }
    }

    /// Mark a frame with the status indicated by `allocated`.
    pub fn mark_frame(&mut self, frame: usize, allocated: bool)
        requires
            frame < old(self).frames(),
            old(self).wf(),
        ensures
            final (self).frame_used(frame as int) == allocated,
            forall|g: int|
                0 <= g < final (self).capacity() && g != frame ==> final (self).frame_used(g) == old(
                    self,
                ).frame_used(g),
            Self::same_shape(*old(self), *final (self)),
            final (self).wf(),
    {
        proof {
            self.lemma_frames_fit();
        }
        self.set_bit(frame, allocated);
    }

    /// Mark every frame touched by the physical byte range `[base, end)`
    /// with the status indicated by `allocated`. Frames past the last
    /// tracked frame are permanently unusable already and are left alone.
    pub fn mark_contiguous_frames(&mut self, base: u64, end: u64, allocated: bool)
        requires
            base <= end,
            old(self).wf(),
        ensures
            forall|g: int|
                0 <= g < final (self).frames() ==> final (self).frame_used(g) == (if base as int
                    / FRAME_SIZE as int <= g < (end + FRAME_SIZE - 1) / FRAME_SIZE as int {
                    allocated
                } else {
                    old(self).frame_used(g)
                }),
            Self::same_shape(*old(self), *final (self)),
            final (self).wf(),
    {
        let first: u64 = base / FRAME_SIZE;
        let endf: u64 = end / FRAME_SIZE + if end % FRAME_SIZE == 0 {
            0
        } else {
            1
        };
        assert(endf == (end + FRAME_SIZE - 1) / FRAME_SIZE as int);
        let stop: u64 = if endf <= self.frame_count {
            endf
        } else {
            self.frame_count
        };
        let start: u64 = if first <= stop {
            first
        } else {
            stop
        };
        let mut frame: u64 = start;
        while frame < stop
            invariant
                old(self).wf(),
                self.wf(),
                start <= frame <= stop,
                stop <= self.frames(),
                first == base as int / FRAME_SIZE as int,
                start == if first <= stop {
                    first as int
                } else {
                    stop as int
                },
                Self::same_shape(*old(self), *self),
                forall|g: int|
                    0 <= g < self.frames() ==> self.frame_used(g) == (if first <= g < frame {
                        allocated
                    } else {
                        old(self).frame_used(g)
                    }),
            decreases stop - frame,
        {
            self.mark_frame(frame as usize, allocated);
            frame += 1;
        }
    }

    /// Check if a frame is used. Any bit of the bitmap can be inspected,
    /// whether or not it belongs to a tracked frame.
    pub fn is_frame_used(&self, frame: usize) -> (r: bool)
        requires
            frame < self.capacity(),
        ensures
            r == self.frame_used(frame as int),
    {
        proof {
            assert(frame as int / 32 < self.bitmap@.len() && frame as int % 32 < 32)
                by (nonlinear_arith)
                requires
                    0 <= frame < self.bitmap@.len() * 32,
            ;
        }
        let chunk: usize = frame / 32;
        let bit: u32 = (frame % 32) as u32;
        proof {
            lemma_test_bit(self.bitmap@[chunk as int], bit);
        }
        (self.bitmap[chunk] & (1u32 << bit)) != 0
    }

    /// Allocate a frame: find the lowest clear bit by scanning for a word
    /// that is not all ones, mark it allocated, and return its physical
    /// address. Returns `None` when every frame is taken.
    pub fn allocate(&mut self) -> (r: Option<u64>)
        requires
            old(self).wf(),
        ensures
            Self::alloc_transition(*old(self), *final (self), r),
            r is Some <==> old(self).has_free_frame(),
            final (self).wf(),
    {
        proof {
            self.lemma_frames_fit();
        }
        let n = self.bitmap.len();
        let mut chunk: usize = 0;
        while chunk < n && self.bitmap[chunk] == u32::MAX
            invariant
                self == old(self),
                n == self.bitmap@.len(),
                0 <= chunk <= n,
                forall|w: int| 0 <= w < chunk ==> self.bitmap@[w] == u32::MAX,
            decreases n - chunk,
        {
            chunk += 1;
        }
        if chunk == n {
            proof {
                assert forall|f: int| 0 <= f < self.frame_count implies self.frame_used(f) by {
                    assert(0 <= f / 32 < chunk && 0 <= f % 32 < 32) by (nonlinear_arith)
                        requires
                            0 <= f < self.frame_count,
                            self.frame_count <= chunk * 32,
                    ;
                    assert(self.bitmap@[f / 32] == u32::MAX);
                    lemma_max_bit((f % 32) as u32);
                }
            }
            return None;
        }

        let w: u32 = self.bitmap[chunk];
        proof {
            assert(w & low_mask(0u32) == low_mask(0u32)) by (bit_vector);
        }
        let mut bit: u32 = 0;
        while bit < 32 && (w & (1u32 << bit)) != 0
            invariant
                0 <= bit <= 32,
                self == old(self),
                chunk < self.bitmap@.len(),
                w == self.bitmap@[chunk as int],
                w & low_mask(bit) == low_mask(bit),
            decreases 32 - bit,
        {
            proof {
                lemma_mask_step(w, bit);
            }
            bit += 1;
        }
        if bit == 32 {
            proof {
                lemma_all_ones(w);
            }
            assert(false);
        }
        proof {
            lemma_test_bit(w, bit);
        }

        let first_free: u64 = (chunk as u64) * 32 + (bit as u64);
        proof {
            assert(first_free as int / 32 == chunk && first_free as int % 32 == bit)
                by (nonlinear_arith)
                requires
                    first_free == chunk * 32 + bit,
                    0 <= bit < 32,
                    chunk >= 0,
            ;
            assert(!self.frame_used(first_free as int));
            assert(first_free < self.frame_count) by {
                if first_free >= self.frame_count {
                    assert(chunk * 32 + 32 <= self.capacity()) by (nonlinear_arith)
                        requires
                            chunk < self.bitmap@.len(),
                            self.capacity() == self.bitmap@.len() * 32,
                    ;
                    assert(self.frame_used(first_free as int));
                }
            }
            assert forall|g: int| 0 <= g < first_free implies self.frame_used(g) by {
                if g / 32 < chunk {
                    assert(self.bitmap@[g / 32] == u32::MAX);
                    lemma_max_bit((g % 32) as u32);
                } else {
                    assert(g / 32 == chunk && g % 32 < bit) by (nonlinear_arith)
                        requires
                            0 <= g < first_free,
                            first_free == chunk * 32 + bit,
                            g / 32 >= chunk,
                            0 <= bit < 32,
                    ;
                    lemma_mask_bit(w, (g % 32) as u32, bit);
                }
            }
        }
        self.mark_frame(first_free as usize, true);
        Some(first_free * FRAME_SIZE)
    }

    /// Number of frames tracked, up to the highest physical address
    /// reported by the boot map.
    pub fn frame_count(&self) -> (r: u64)
        ensures
            r == self.frames(),
    {
        self.frame_count
    }

    /// Physical address where the bitmap itself was placed.
    pub fn bitmap_base_addr(&self) -> (r: u64)
        ensures
            r == self.spec_bitmap_base(),
    {
        self.bitmap_base
    }

    /// Size of the bitmap in bytes.
    pub fn bitmap_byte_size(&self) -> (r: u64)
        ensures
            r == self.spec_bitmap_size(),
    {
        self.bitmap_size
    }

    /// Deallocate the frame starting at physical address `frame_addr`.
    /// Freeing a frame that was never allocated is a caller error and out of
    /// contract.
    pub fn deallocate(&mut self, frame_addr: u64)
        requires
            old(self).wf(),
            (frame_addr as int / FRAME_SIZE as int) < old(self).frames(),
            old(self).frame_used(frame_addr as int / FRAME_SIZE as int),
        ensures
            Self::dealloc_transition(*old(self), *final (self), frame_addr),
            final (self).wf(),
    {
        let frame = frame_addr / FRAME_SIZE;
        self.mark_frame(frame as usize, false);
    }
}

/// Bitmap coverage: immediately after initialization, every frame of a
/// region not marked usable - Reserved or Reclaimable - has its bit set.
/// The hypothesis on `a` is what `SystemFrameAllocator::new` establishes.
pub proof fn lemma_bitmap_coverage(
    regions: Seq<Region>,
    a: SystemFrameAllocator,
    i: int,
    f: int,
)
    requires
        forall|g: int|
            0 <= g < a.frames() ==> (#[trigger] a.frame_used(g) <==> init_used(
                regions,
                a.spec_bitmap_base(),
                g,
            )),
        0 <= i < regions.len(),
        !regions[i].is_usable(),
        regions[i].covers_frame(f),
        0 <= f < a.frames(),
    ensures
        a.frame_used(f),
{
    assert(init_used(regions, a.spec_bitmap_base(), f));
}

/// Any two successful allocations return distinct frames, and each returned
/// frame's bit was clear immediately before that call and set immediately
/// after.
pub proof fn lemma_allocation_exclusivity(
    s0: SystemFrameAllocator,
    s1: SystemFrameAllocator,
    s2: SystemFrameAllocator,
    a1: u64,
    a2: u64,
)
    requires
        s0.wf(),
        SystemFrameAllocator::alloc_transition(s0, s1, Some(a1)),
        SystemFrameAllocator::alloc_transition(s1, s2, Some(a2)),
    ensures
        a1 != a2,
        !s0.frame_used(a1 as int / FRAME_SIZE as int),
        s1.frame_used(a1 as int / FRAME_SIZE as int),
        !s1.frame_used(a2 as int / FRAME_SIZE as int),
        s2.frame_used(a2 as int / FRAME_SIZE as int),
{
    let f1 = a1 as int / FRAME_SIZE as int;
    let f2 = a2 as int / FRAME_SIZE as int;
    s0.lemma_frames_fit();
    assert(s1.frame_used(f1) && !s1.frame_used(f2));
}

/// Allocating, deallocating the same frame, then allocating again with no
/// intervening calls returns the same frame address: the lowest-free-bit
/// policy is deterministic.
pub proof fn lemma_round_trip(
    s0: SystemFrameAllocator,
    s1: SystemFrameAllocator,
    s2: SystemFrameAllocator,
    s3: SystemFrameAllocator,
    a: u64,
    r: Option<u64>,
)
    requires
        s0.wf(),
        SystemFrameAllocator::alloc_transition(s0, s1, Some(a)),
        SystemFrameAllocator::dealloc_transition(s1, s2, a),
        SystemFrameAllocator::alloc_transition(s2, s3, r),
    ensures
        r == Some(a),
{
    let f = a as int / FRAME_SIZE as int;
    s0.lemma_frames_fit();
    assert forall|g: int| 0 <= g < s2.capacity() implies s2.frame_used(g) == s0.frame_used(g) by {
        if g != f {
            assert(s1.frame_used(g) == s0.frame_used(g));
        }
    }
    assert(!s2.frame_used(f));
    assert(s2.has_free_frame());
    let a2 = r.unwrap();
    let f2 = a2 as int / FRAME_SIZE as int;
    if f2 < f {
        assert(s2.frame_used(f2) == s0.frame_used(f2));
        assert(s0.frame_used(f2));
    }
    if f < f2 {
        assert(s2.frame_used(f));
    }
    assert(f2 == f);
    assert(a2 == f2 * FRAME_SIZE && a == f * FRAME_SIZE);
}

/// Bit `b` set in `w | (1 << b)`; all other bits unchanged.
proof fn lemma_set_bit(w: u32, b: u32)
    by (bit_vector)
    requires
        b < 32,
    ensures
        forall|j: u32| j < 32 ==> #[trigger] nth_bit(w | (1u32 << b), j) == (j == b || nth_bit(w, j)),
{
}

/// Bit `b` clear in `w & !(1 << b)`; all other bits unchanged.
proof fn lemma_clear_bit(w: u32, b: u32)
    by (bit_vector)
    requires
        b < 32,
    ensures
        forall|j: u32|
            j < 32 ==> #[trigger] nth_bit(w & !(1u32 << b), j) == (j != b && nth_bit(w, j)),
{
}

/// Masking with a single bit agrees with `nth_bit`.
proof fn lemma_test_bit(w: u32, b: u32)
    by (bit_vector)
    requires
        b < 32,
    ensures
        (w & (1u32 << b) != 0) == nth_bit(w, b),
{
}

/// Every bit of the all-ones word is set.
proof fn lemma_max_bit(j: u32)
    by (bit_vector)
    requires
        j < 32,
    ensures
        nth_bit(u32::MAX, j),
{
}

/// No bit of the zero word is set.
proof fn lemma_zero_bit(j: u32)
    by (bit_vector)
    ensures
        !nth_bit(0u32, j),
{
}

/// A set bit extends the run of low one-bits by one.
proof fn lemma_mask_step(w: u32, b: u32)
    by (bit_vector)
    requires
        b < 32,
        w & low_mask(b) == low_mask(b),
        w & (1u32 << b) != 0,
    ensures
        w & low_mask((b + 1) as u32) == low_mask((b + 1) as u32),
{
}

/// Inside a run of low one-bits, every bit is set.
proof fn lemma_mask_bit(w: u32, j: u32, b: u32)
    by (bit_vector)
    requires
        j < b,
        b <= 32,
        w & low_mask(b) == low_mask(b),
    ensures
        nth_bit(w, j),
{
}

/// A word whose 32 lowest bits are all ones is the all-ones word.
proof fn lemma_all_ones(w: u32)
    by (bit_vector)
    requires
        w & low_mask(32) == low_mask(32),
    ensures
        w == u32::MAX,
{
}

/// Number of free frames among the first `n` tracked frames.
pub open spec fn count_free_below(s: SystemFrameAllocator, n: int) -> int
    decreases n,
{
    if n <= 0 {
        0
    } else {
        count_free_below(s, n - 1) + if s.frame_used(n - 1) {
            0int
        } else {
            1int
        }
    }
}

/// Number of free frames the allocator can still hand out.
pub open spec fn free_count(s: SystemFrameAllocator) -> int {
    count_free_below(s, s.frames() as int)
}

/// Flipping one bit from free to used lowers the count below `n` by one
/// when the bit lies below `n`.
proof fn lemma_count_flip(
    pre: SystemFrameAllocator,
    post: SystemFrameAllocator,
    f: int,
    n: int,
)
    requires
        forall|g: int| 0 <= g < n && g != f ==> post.frame_used(g) == pre.frame_used(g),
        0 <= f,
        !pre.frame_used(f),
        post.frame_used(f),
    ensures
        count_free_below(post, n) == count_free_below(pre, n) - (if f < n {
            1int
        } else {
            0int
        }),
    decreases n,
{
    if n > 0 {
        lemma_count_flip(pre, post, f, n - 1);
    }
}

/// A successful allocation consumes exactly one free frame.
pub proof fn lemma_alloc_count(
    pre: SystemFrameAllocator,
    post: SystemFrameAllocator,
    a: u64,
)
    requires
        pre.wf(),
        SystemFrameAllocator::alloc_transition(pre, post, Some(a)),
    ensures
        free_count(post) == free_count(pre) - 1,
{
    pre.lemma_frames_fit();
    lemma_count_flip(pre, post, a as int / FRAME_SIZE as int, pre.frames() as int);
}

/// A deallocation returns exactly one free frame.
pub proof fn lemma_dealloc_count(
    pre: SystemFrameAllocator,
    post: SystemFrameAllocator,
    a: u64,
)
    requires
        pre.wf(),
        pre.frame_used(a as int / FRAME_SIZE as int),
        (a as int / FRAME_SIZE as int) < pre.frames(),
        SystemFrameAllocator::dealloc_transition(pre, post, a),
    ensures
        free_count(post) == free_count(pre) + 1,
{
    pre.lemma_frames_fit();
    lemma_count_flip(post, pre, a as int / FRAME_SIZE as int, pre.frames() as int);
}

/// When no frame is freed, the free count cannot rise.
proof fn lemma_grows_count_below(pre: SystemFrameAllocator, post: SystemFrameAllocator, n: int)
    requires
        SystemFrameAllocator::grows(pre, post),
        n <= pre.capacity(),
    ensures
        count_free_below(post, n) <= count_free_below(pre, n),
    decreases n,
{
    if n > 0 {
        lemma_grows_count_below(pre, post, n - 1);
    }
}

/// When no frame is freed, the free count cannot rise.
pub proof fn lemma_grows_count(pre: SystemFrameAllocator, post: SystemFrameAllocator)
    requires
        pre.wf(),
        SystemFrameAllocator::grows(pre, post),
    ensures
        free_count(post) <= free_count(pre),
{
    pre.lemma_frames_fit();
    lemma_grows_count_below(pre, post, pre.frames() as int);
}

/// There is a free frame below `n` exactly when the count below `n` is
/// positive.
proof fn lemma_count_pos_below(s: SystemFrameAllocator, n: int)
    requires
        n >= 0,
    ensures
        (count_free_below(s, n) > 0) <==> exists|f: int| 0 <= f < n && !s.frame_used(f),
        count_free_below(s, n) >= 0,
    decreases n,
{
    if n > 0 {
        lemma_count_pos_below(s, n - 1);
        if !s.frame_used(n - 1) {
            assert(0 <= n - 1 < n && !s.frame_used(n - 1));
        }
    }
}

/// The allocator has a free frame exactly when the free count is positive.
pub proof fn lemma_free_count_pos(s: SystemFrameAllocator)
    ensures
        s.has_free_frame() <==> free_count(s) > 0,
        free_count(s) >= 0,
{
    lemma_count_pos_below(s, s.frames() as int);
}

} // verus!
