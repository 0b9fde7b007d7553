use vstd::prelude::*;

use vstd::arithmetic::div_mod::{
    lemma_div_by_multiple, lemma_div_is_ordered, lemma_fundamental_div_mod,
    lemma_mod_multiples_basic,
};
use vstd::arithmetic::mul::{lemma_mul_inequality, lemma_mul_is_commutative};

use crate::region::{regions_wf, sorted_by_start, FirmwareKind, RawRegion, FRAME_SIZE};

verus! {

/// Largest frame number whose successor is still addressable:
/// `(MAX_FRAME + 1) * FRAME_SIZE - 1 == u64::MAX`.
pub const MAX_FRAME: u64 = 0xF_FFFF_FFFF_FFFF;

/// Whether region `r` offers frame number `f`: `r` is allocatable, the
/// whole frame `[f * FRAME_SIZE, (f + 1) * FRAME_SIZE)` lies inside `r` (a
/// frame that would straddle the region's end could reach into memory the
/// firmware never granted), and the cursor can still move past the frame
/// (so the topmost frame of the address space is never offered).
pub open spec fn region_has_frame(r: RawRegion, f: int) -> bool {
    &&& r.kind == FirmwareKind::Usable
    &&& r.start <= f * FRAME_SIZE
    &&& f * FRAME_SIZE + FRAME_SIZE <= r.start + r.len
    &&& f < MAX_FRAME
}

/// Whether some region of `s` offers frame number `f`.
pub open spec fn frame_available(s: Seq<RawRegion>, f: int) -> bool {
    exists|i: int| 0 <= i < s.len() && #[trigger] region_has_frame(s[i], f)
}

/// Forward-only physical frame allocator: a single monotonically increasing
/// frame cursor over the sorted firmware memory map. A frame once yielded is
/// never yielded again; nothing is ever freed.
pub struct FrameAllocator {
    /// The firmware memory map, sorted by ascending start address.
    pub regions: Vec<RawRegion>,
    /// Number of the next frame the cursor may consider.
    pub next_frame: u64,
}

/// What one `allocate_frame` call does to the allocator: the map is left
/// untouched; on success the returned address starts the first frame at or
/// past the cursor that lies wholly inside a `Usable` region, and the
/// cursor moves just past it; failure means no such frame exists at all.
pub open spec fn allocate_spec(pre: FrameAllocator, post: FrameAllocator, r: Option<u64>) -> bool {
    &&& post.regions == pre.regions
    &&& match r {
        Some(addr) => {
            let f = addr as int / FRAME_SIZE as int;
            &&& addr % FRAME_SIZE == 0
            &&& addr == f * FRAME_SIZE
            &&& f >= pre.next_frame
            &&& frame_available(pre.regions@, f)
            &&& forall|g: int| pre.next_frame <= g < f ==> !frame_available(pre.regions@, g)
            &&& post.next_frame == f + 1
        },
        None => {
            &&& post == pre
            &&& forall|g: int| g >= pre.next_frame ==> !frame_available(pre.regions@, g)
        },
    }
}

/// The first frame-aligned address of the frame that lies wholly past byte
/// address `addr`.
pub fn first_frame_addr_after(addr: u64) -> (r: u64)
    requires
        addr < MAX_FRAME * FRAME_SIZE,
    ensures
        r == (addr as int / FRAME_SIZE as int + 1) * FRAME_SIZE,
        r % FRAME_SIZE == 0,
        addr < r,
{
    let q = addr / FRAME_SIZE;
    proof {
        lemma_fundamental_div_mod(addr as int, FRAME_SIZE as int);
        lemma_div_is_ordered(addr as int, MAX_FRAME * FRAME_SIZE - 1, FRAME_SIZE as int);
        lemma_div_by_multiple(MAX_FRAME as int, FRAME_SIZE as int);
        assert(((MAX_FRAME * FRAME_SIZE - 1) as int) / (FRAME_SIZE as int) < (MAX_FRAME as int)) by {
            lemma_fundamental_div_mod(MAX_FRAME * FRAME_SIZE - 1, FRAME_SIZE as int);
            lemma_mul_is_commutative(MAX_FRAME as int, FRAME_SIZE as int);
        }
        lemma_mod_multiples_basic(q as int + 1, FRAME_SIZE as int);
    }
    (q + 1) * FRAME_SIZE
}

impl FrameAllocator {
    /// The allocator's structural invariant.
    pub open spec fn wf(self) -> bool {
        &&& sorted_by_start(self.regions@)
        &&& regions_wf(self.regions@)
        &&& self.next_frame <= MAX_FRAME
    }

    /// The byte address of the cursor: everything below it is spoken for.
    pub open spec fn cursor_addr(self) -> int {
        self.next_frame * FRAME_SIZE
    }

    /// Builds an allocator whose cursor starts at the frame with the given
    /// start address.
    pub fn new_starting_at(start_addr: u64, regions: Vec<RawRegion>) -> (r: Self)
        requires
            sorted_by_start(regions@),
            regions_wf(regions@),
            start_addr % FRAME_SIZE == 0,
        ensures
            r.wf(),
            r.regions == regions,
            r.cursor_addr() == start_addr,
    {
        let f = start_addr / FRAME_SIZE;
        proof {
            lemma_fundamental_div_mod(start_addr as int, FRAME_SIZE as int);
            lemma_mul_is_commutative(f as int, FRAME_SIZE as int);
            assert(f <= MAX_FRAME) by {
                lemma_div_is_ordered(start_addr as int, u64::MAX as int, FRAME_SIZE as int);
                assert(u64::MAX as int / FRAME_SIZE as int == MAX_FRAME);
            }
        }
        FrameAllocator { regions, next_frame: f }
    }

    /// Builds an allocator whose cursor starts at the first frame, leaving
    /// frame zero unclaimed so no allocation can ever carry address zero.
    pub fn new(regions: Vec<RawRegion>) -> (r: Self)
        requires
            sorted_by_start(regions@),
            regions_wf(regions@),
        ensures
            r.wf(),
            r.regions == regions,
            r.cursor_addr() == FRAME_SIZE,
    {
        Self::new_starting_at(FRAME_SIZE, regions)
    }

    /// The cursor's byte address.
    pub fn next_free_addr(&self) -> (r: u64)
        requires
            self.wf(),
        ensures
            r == self.cursor_addr(),
    {
        proof {
            lemma_mul_inequality(self.next_frame as int, MAX_FRAME as int, FRAME_SIZE as int);
        }
        self.next_frame * FRAME_SIZE
    }

    /// One past the largest byte address any firmware region reports.
    pub fn max_phys_addr(&self) -> (r: u64)
        requires
            self.wf(),
            self.regions.len() > 0,
        ensures
            forall|i: int| 0 <= i < self.regions@.len() ==> self.regions@[i].end() <= r,
            exists|i: int| 0 <= i < self.regions@.len() && self.regions@[i].end() == r,
    {
        let n = self.regions.len();
        let first = self.regions[0];
        let mut best: u64 = first.start + first.len;
        let mut i: usize = 1;
        while i < n
            invariant
                1 <= i <= n == self.regions.len(),
                regions_wf(self.regions@),
                forall|j: int| 0 <= j < i ==> self.regions@[j].end() <= best,
                exists|j: int| 0 <= j < i && self.regions@[j].end() == best,
            decreases n - i,
        {
            let r = self.regions[i];
            let e = r.start + r.len;
            if e > best {
                best = e;
            }
            i += 1;
        }
        best
    }

    /// Yields the first frame at or past the cursor that lies wholly
    /// inside a `Usable` region and advances the cursor past it, skipping
    /// non-`Usable` regions entirely. Returns `None` only when no such
    /// frame remains anywhere past the cursor: physical memory is
    /// exhausted, which is fatal during boot.
    pub fn allocate_frame(&mut self) -> (r: Option<u64>)
        requires
            old(self).wf(),
        ensures
            final(self).wf(),
            allocate_spec(*old(self), *final(self), r),
    {
        let n = self.regions.len();
        let mut i: usize = 0;
        while i < n
            invariant
                *self == *old(self),
                old(self).wf(),
                i <= n == self.regions.len(),
                forall|j: int, g: int|
                    0 <= j < i && g >= self.next_frame ==> !#[trigger] region_has_frame(
                        self.regions@[j],
                        g,
                    ),
            decreases n - i,
        {
            let r = self.regions[i];
            if matches!(r.kind, FirmwareKind::Usable) {
                let end: u64 = r.start + r.len;
                let lo: u64 = r.start / FRAME_SIZE + if r.start % FRAME_SIZE != 0 {
                    1
                } else {
                    0
                };
                let f: u64 = if lo > self.next_frame {
                    lo
                } else {
                    self.next_frame
                };
                // frames below `cap` end at or before the region's end
                let cap: u64 = end / FRAME_SIZE;
                proof {
                    lemma_fundamental_div_mod(r.start as int, FRAME_SIZE as int);
                    lemma_fundamental_div_mod(end as int, FRAME_SIZE as int);
                    // the frame just below `lo` starts below the region
                    lemma_mul_is_commutative(lo as int, FRAME_SIZE as int);
                    assert((lo - 1) * FRAME_SIZE < r.start <= lo * FRAME_SIZE) by {
                        lemma_mul_is_commutative(r.start as int / FRAME_SIZE as int, FRAME_SIZE as int);
                    }
                    assert(cap * FRAME_SIZE <= end) by {
                        lemma_mul_is_commutative(cap as int, FRAME_SIZE as int);
                    }
                }
                if f < cap && f < MAX_FRAME {
                    let ghost pre = *self;
                    proof {
                        lemma_mul_inequality(f as int + 1, cap as int, FRAME_SIZE as int);
                        assert((f as int + 1) * FRAME_SIZE == f as int * FRAME_SIZE
                            + FRAME_SIZE) by (nonlinear_arith);
                        lemma_mul_inequality(lo as int, f as int, FRAME_SIZE as int);
                        lemma_mod_multiples_basic(f as int, FRAME_SIZE as int);
                        lemma_div_by_multiple(f as int, FRAME_SIZE as int);
                        assert(region_has_frame(self.regions@[i as int], f as int));
                        assert forall|g: int| self.next_frame <= g < f implies !frame_available(
                            self.regions@,
                            g,
                        ) by {
                            assert(g < lo);
                            lemma_mul_inequality(g, lo - 1, FRAME_SIZE as int);
                            assert(g * FRAME_SIZE < r.start);
                            assert forall|j: int| 0 <= j < self.regions@.len() implies !#[trigger] region_has_frame(
                                self.regions@[j],
                                g,
                            ) by {
                                if j >= i {
                                    assert(self.regions@[i as int].start <= self.regions@[j].start);
                                }
                            }
                        }
                    }
                    let addr: u64 = f * FRAME_SIZE;
                    self.next_frame = f + 1;
                    assert(frame_available(pre.regions@, f as int));
                    return Some(addr);
                }
                proof {
                    assert forall|g: int| g >= self.next_frame implies !region_has_frame(
                        self.regions@[i as int],
                        g,
                    ) by {
                        if region_has_frame(self.regions@[i as int], g) {
                            assert(g >= lo) by {
                                if g < lo {
                                    lemma_mul_inequality(g, lo - 1, FRAME_SIZE as int);
                                }
                            }
                            assert(g < cap) by {
                                assert((g + 1) * FRAME_SIZE == g * FRAME_SIZE
                                    + FRAME_SIZE) by (nonlinear_arith);
                                lemma_div_is_ordered((g + 1) * FRAME_SIZE, end as int, FRAME_SIZE as int);
                                lemma_div_by_multiple(g + 1, FRAME_SIZE as int);
                            }
                            assert(g < MAX_FRAME);
                            assert(false);
                        }
                    }
                }
            } else {
                proof {
                    assert forall|g: int| g >= self.next_frame implies !region_has_frame(
                        self.regions@[i as int],
                        g,
                    ) by {}
                }
            }
            i += 1;
        }
        None
    }
}

/// Law: the allocator is monotonic. Across any two successive successful
/// allocations the second frame lies wholly past the first — every yielded
/// address is at least the cursor it was yielded under, and no frame is ever
/// yielded twice.
pub proof fn lemma_allocate_monotonic(
    s0: FrameAllocator,
    s1: FrameAllocator,
    s2: FrameAllocator,
    a1: u64,
    a2: u64,
)
    requires
        allocate_spec(s0, s1, Some(a1)),
        allocate_spec(s1, s2, Some(a2)),
    ensures
        a1 as int >= s0.cursor_addr(),
        a2 as int >= s1.cursor_addr(),
        a1 + FRAME_SIZE <= a2,
{
    let f1 = a1 as int / FRAME_SIZE as int;
    let f2 = a2 as int / FRAME_SIZE as int;
    lemma_mul_inequality(s0.next_frame as int, f1, FRAME_SIZE as int);
    lemma_mul_is_commutative(s0.next_frame as int, FRAME_SIZE as int);
    lemma_mul_inequality(s1.next_frame as int, f2, FRAME_SIZE as int);
    lemma_mul_is_commutative(s1.next_frame as int, FRAME_SIZE as int);
    assert((f1 + 1) * FRAME_SIZE == f1 * FRAME_SIZE + FRAME_SIZE) by {
        lemma_mul_is_commutative(f1 + 1, FRAME_SIZE as int);
        lemma_mul_is_commutative(f1, FRAME_SIZE as int);
    }
}

} // verus!
