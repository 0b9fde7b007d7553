use vstd::prelude::*;

use crate::frame_allocator::FrameAllocator;
use crate::region::{
    disjoint_sorted, regions_wf, sorted_by_start, usable_covered, CarveOut, FinalRegion,
    FirmwareKind, Halt, OutputKind, RawRegion, FRAME_SIZE,
};

verus! {

/// Whether an optional carve-out contains address `a`.
pub open spec fn opt_contains(c: Option<CarveOut>, a: int) -> bool {
    match c {
        Some(cc) => cc.contains(a),
        None => false,
    }
}

/// Whether address `a` is spoken for: inside the bootloader-internal
/// carve-out `[0, boot_end)`, the kernel image, or the ramdisk.
pub open spec fn reserved_addr(
    boot_end: int,
    kernel: CarveOut,
    ramdisk: Option<CarveOut>,
    a: int,
) -> bool {
    a < boot_end || kernel.contains(a) || opt_contains(ramdisk, a)
}

/// Whether address `a` belongs in the final map at all: every address of a
/// `Usable` firmware region does, and so does all of `[0, boot_end)`,
/// claimed for the boot flow unconditionally so that no valid mapping can
/// ever carry a null-equivalent address.
pub open spec fn covered_addr(regions: Seq<RawRegion>, boot_end: int, a: int) -> bool {
    a < boot_end || usable_covered(regions, a)
}

/// The classification address `a` must carry in the final map.
pub open spec fn kind_at(
    boot_end: int,
    kernel: CarveOut,
    ramdisk: Option<CarveOut>,
    a: int,
) -> OutputKind {
    if reserved_addr(boot_end, kernel, ramdisk, a) {
        OutputKind::Bootloader
    } else {
        OutputKind::Usable
    }
}

/// The final map's shape: regions non-empty, ascending, mutually
/// non-overlapping, and adjacent regions of one kind merged into one.
pub open spec fn canonical(out: Seq<FinalRegion>) -> bool {
    &&& forall|i: int| 0 <= i < out.len() ==> out[i].start < out[i].end
    &&& forall|i: int| 0 <= i < out.len() - 1 ==> out[i].end <= out[i + 1].start
    &&& forall|i: int|
        0 <= i < out.len() - 1 ==> !(out[i].end == out[i + 1].start && out[i].kind == out[i
            + 1].kind)
}

/// Whether address `a` lies in some region of `out`.
pub open spec fn in_output(out: Seq<FinalRegion>, a: int) -> bool {
    exists|i: int| 0 <= i < out.len() && (#[trigger] out[i]).start <= a < out[i].end
}

/// Every region of `out` carries the classification its addresses demand.
pub open spec fn kinds_ok(
    out: Seq<FinalRegion>,
    boot_end: int,
    kernel: CarveOut,
    ramdisk: Option<CarveOut>,
) -> bool {
    forall|i: int, a: int|
        #![trigger out[i], kind_at(boot_end, kernel, ramdisk, a)]
        0 <= i < out.len() && out[i].start <= a < out[i].end ==> out[i].kind == kind_at(
            boot_end,
            kernel,
            ramdisk,
            a,
        )
}

/// `out` is the final memory map for the given inputs: canonical, covering
/// exactly the owed addresses, each with its demanded classification.
pub open spec fn map_matches(
    out: Seq<FinalRegion>,
    regions: Seq<RawRegion>,
    boot_end: int,
    kernel: CarveOut,
    ramdisk: Option<CarveOut>,
) -> bool {
    &&& canonical(out)
    &&& forall|a: int|
        #![trigger in_output(out, a)]
        #![trigger covered_addr(regions, boot_end, a)]
        0 <= a ==> (in_output(out, a) <==> covered_addr(regions, boot_end, a))
    &&& kinds_ok(out, boot_end, kernel, ramdisk)
}

/// `out` is the finished part of a map under construction: canonical,
/// wholly below the frontier `w`, and correct for every address below `w`.
pub open spec fn matches_below(
    out: Seq<FinalRegion>,
    regions: Seq<RawRegion>,
    boot_end: int,
    kernel: CarveOut,
    ramdisk: Option<CarveOut>,
    w: int,
) -> bool {
    &&& canonical(out)
    &&& forall|i: int| 0 <= i < out.len() ==> (#[trigger] out[i]).end <= w
    &&& forall|a: int|
        #![trigger in_output(out, a)]
        #![trigger covered_addr(regions, boot_end, a)]
        0 <= a < w ==> (in_output(out, a) <==> covered_addr(regions, boot_end, a))
    &&& kinds_ok(out, boot_end, kernel, ramdisk)
}

/// The kernel-image and ramdisk carve-outs never overlap.
pub open spec fn carves_disjoint(kernel: CarveOut, ramdisk: Option<CarveOut>) -> bool {
    match ramdisk {
        Some(c) => kernel.end <= c.start || c.end <= kernel.start,
        None => true,
    }
}

/// Index of a region of `out` that contains address `a`.
spec fn region_index(out: Seq<FinalRegion>, a: int) -> int {
    choose|i: int| 0 <= i < out.len() && (#[trigger] out[i]).start <= a < out[i].end
}

/// In a canonical map, earlier regions end before later regions begin.
proof fn lemma_canonical_order(out: Seq<FinalRegion>, i: int, j: int)
    requires
        canonical(out),
        0 <= i < j < out.len(),
    ensures
        out[i].end <= out[j].start,
    decreases j - i,
{
    if i + 1 < j {
        lemma_canonical_order(out, i + 1, j);
    }
}

/// Any map that matches the same inputs must spend at least `j + 1` regions
/// on the addresses up to and including the start of `out`'s region `j`.
proof fn lemma_marker_index(
    s: Seq<FinalRegion>,
    out: Seq<FinalRegion>,
    regions: Seq<RawRegion>,
    boot_end: int,
    kernel: CarveOut,
    ramdisk: Option<CarveOut>,
    w: int,
    j: int,
)
    requires
        matches_below(out, regions, boot_end, kernel, ramdisk, w),
        map_matches(s, regions, boot_end, kernel, ramdisk),
        0 <= j < out.len(),
    ensures
        ({
            let i = region_index(s, out[j].start as int);
            j <= i < s.len() && s[i].start <= out[j].start < s[i].end
        }),
    decreases j,
{
    let m = out[j].start as int;
    assert(in_output(out, m));
    assert(0 <= m < w);
    assert(covered_addr(regions, boot_end, m));
    assert(in_output(s, m));
    let i2 = region_index(s, m);
    assert(0 <= i2 < s.len() && s[i2].start <= m < s[i2].end);
    if j > 0 {
        lemma_marker_index(s, out, regions, boot_end, kernel, ramdisk, w, j - 1);
        let m1 = out[j - 1].start as int;
        let i1 = region_index(s, m1);
        assert(m1 < m) by {
            lemma_canonical_order(out, j - 1, j);
        }
        if i2 < i1 {
            lemma_canonical_order(s, i2, i1);
            assert(false);
        }
        if i2 == i1 {
            // one region of `s` would span both markers, yet between them the
            // map has a hole or a change of classification
            if out[j - 1].end < m {
                let c = out[j - 1].end as int;
                assert(s[i2].start <= c < s[i2].end);
                assert(in_output(s, c));
                assert(covered_addr(regions, boot_end, c));
                assert(!in_output(out, c)) by {
                    if in_output(out, c) {
                        let t = region_index(out, c);
                        assert(0 <= t < out.len() && out[t].start <= c < out[t].end);
                        if t < j - 1 {
                            lemma_canonical_order(out, t, j - 1);
                        }
                        if t > j - 1 {
                            lemma_canonical_order(out, j - 1, t);
                            if t > j {
                                lemma_canonical_order(out, j, t);
                            }
                        }
                        assert(false);
                    }
                }
                assert(false);
            } else {
                assert(out[j - 1].end == m);
                assert(out[j - 1].kind != out[j].kind);
                assert(out[j - 1].kind == kind_at(boot_end, kernel, ramdisk, m - 1));
                assert(out[j].kind == kind_at(boot_end, kernel, ramdisk, m));
                assert(s[i2].start <= m - 1 < s[i2].end);
                assert(s[i2].kind == kind_at(boot_end, kernel, ramdisk, m - 1));
                assert(s[i2].kind == kind_at(boot_end, kernel, ramdisk, m));
                assert(false);
            }
        }
    }
}

/// If a finished prefix already holds `out.len()` regions and one more,
/// differently-classified or separated, covered address still waits at
/// `a0`, then any matching map needs strictly more than `out.len()`
/// regions.
proof fn lemma_capacity_exceeded(
    s: Seq<FinalRegion>,
    out: Seq<FinalRegion>,
    regions: Seq<RawRegion>,
    boot_end: int,
    kernel: CarveOut,
    ramdisk: Option<CarveOut>,
    w: int,
    a0: int,
)
    requires
        matches_below(out, regions, boot_end, kernel, ramdisk, w),
        map_matches(s, regions, boot_end, kernel, ramdisk),
        0 <= a0,
        w <= a0,
        covered_addr(regions, boot_end, a0),
        forall|a: int| w <= a < a0 ==> !covered_addr(regions, boot_end, a),
        out.len() > 0 ==> !(out[out.len() - 1].end == a0 && out[out.len() - 1].kind == kind_at(
            boot_end,
            kernel,
            ramdisk,
            a0,
        )),
    ensures
        s.len() > out.len(),
{
    assert(in_output(s, a0));
    let is = region_index(s, a0);
    assert(0 <= is < s.len() && s[is].start <= a0 < s[is].end);
    if out.len() > 0 {
        let j = out.len() - 1;
        lemma_marker_index(s, out, regions, boot_end, kernel, ramdisk, w, j);
        let m1 = out[j].start as int;
        let i1 = region_index(s, m1);
        assert(m1 < out[j].end <= w <= a0);
        if is < i1 {
            lemma_canonical_order(s, is, i1);
            assert(false);
        }
        if is == i1 {
            if out[j].end < a0 {
                let c = out[j].end as int;
                assert(s[is].start <= c < s[is].end);
                assert(in_output(s, c));
                assert(covered_addr(regions, boot_end, c));
                if c < w {
                    assert(!in_output(out, c)) by {
                        if in_output(out, c) {
                            let t = region_index(out, c);
                            assert(0 <= t < out.len() && out[t].start <= c < out[t].end);
                            if t < j {
                                lemma_canonical_order(out, t, j);
                            }
                            assert(false);
                        }
                    }
                }
                assert(false);
            } else {
                assert(out[j].end == a0);
                assert(out[j].kind != kind_at(boot_end, kernel, ramdisk, a0));
                assert(out[j].kind == kind_at(boot_end, kernel, ramdisk, a0 - 1));
                assert(s[is].start <= a0 - 1 < s[is].end);
                assert(s[is].kind == kind_at(boot_end, kernel, ramdisk, a0 - 1));
                assert(s[is].kind == kind_at(boot_end, kernel, ramdisk, a0));
                assert(false);
            }
        }
        assert(is >= i1 + 1 >= out.len());
    }
}

/// Appends the covered span `[start, end)` of classification `kind` to the
/// map under construction, merging it into the last region when the two are
/// adjacent and alike. Fails exactly when the finished map cannot fit in
/// `max_regions` regions.
fn push_region(
    out: &mut Vec<FinalRegion>,
    start: u64,
    end: u64,
    kind: OutputKind,
    max_regions: usize,
    Ghost(regions): Ghost<Seq<RawRegion>>,
    Ghost(boot_end): Ghost<int>,
    Ghost(kernel): Ghost<CarveOut>,
    Ghost(ramdisk): Ghost<Option<CarveOut>>,
    Ghost(w): Ghost<int>,
) -> (r: Result<(), Halt>)
    requires
        old(out)@.len() <= max_regions,
        matches_below(old(out)@, regions, boot_end, kernel, ramdisk, w),
        0 <= w,
        start < end ==> w <= start,
        start < end ==> forall|a: int| w <= a < start ==> !covered_addr(regions, boot_end, a),
        forall|a: int| start <= a < end ==> covered_addr(regions, boot_end, a),
        forall|a: int| start <= a < end ==> kind_at(boot_end, kernel, ramdisk, a) == kind,
    ensures
        r is Ok ==> {
            &&& final(out)@.len() <= max_regions
            &&& matches_below(
                final(out)@,
                regions,
                boot_end,
                kernel,
                ramdisk,
                if start < end {
                    end as int
                } else {
                    w
                },
            )
            &&& old(out)@.len() > 0 ==> final(out)@.len() > 0 && final(out)@[0].start == old(
                out)@[0].start && final(out)@[0].kind == old(out)@[0].kind
            &&& (old(out)@.len() == 0 && start < end) ==> final(out)@.len() > 0 && final(
                out)@[0].start == start && final(out)@[0].kind == kind
            &&& (old(out)@.len() == 0 && start >= end) ==> final(out)@.len() == 0
        },
        r is Err ==> forall|s: Seq<FinalRegion>|
            map_matches(s, regions, boot_end, kernel, ramdisk) ==> s.len() > max_regions,
{
    if start >= end {
        return Ok(());
    }
    let n = out.len();
    if n > 0 {
        let last = out[n - 1];
        if last.end == start && last.kind == kind {
            let merged = FinalRegion { start: last.start, end, kind };
            out.set(n - 1, merged);
            proof {
                let new = out@;
                let prev = old(out)@;
                assert forall|a: int| 0 <= a < end as int implies (in_output(new, a)
                    <==> covered_addr(regions, boot_end, a)) by {
                    if a < last.start {
                        assert(in_output(new, a) <==> in_output(prev, a)) by {
                            if in_output(new, a) {
                                let t = region_index(new, a);
                                assert(0 <= t < new.len() && new[t].start <= a < new[t].end);
                                assert(prev[t].start <= a < prev[t].end || t == n - 1);
                                if t == n - 1 {
                                    assert(new[t].start == last.start);
                                    assert(false);
                                }
                                assert(in_output(prev, a));
                            }
                            if in_output(prev, a) {
                                let t = region_index(prev, a);
                                assert(0 <= t < prev.len() && prev[t].start <= a < prev[t].end);
                                assert(new[t].start <= a < new[t].end);
                                assert(in_output(new, a));
                            }
                        }
                    } else if a < start {
                        assert(new[n - 1].start <= a < new[n - 1].end);
                        assert(in_output(new, a));
                        assert(covered_addr(regions, boot_end, a)) by {
                            assert(prev[n - 1].start <= a < prev[n - 1].end);
                            assert(in_output(prev, a));
                        }
                    } else {
                        assert(new[n - 1].start <= a < new[n - 1].end);
                        assert(in_output(new, a));
                    }
                }
            }
            return Ok(());
        }
    }
    if n == max_regions {
        proof {
            assert forall|s: Seq<FinalRegion>|
                map_matches(s, regions, boot_end, kernel, ramdisk) implies s.len()
                > max_regions by {
                assert(kind_at(boot_end, kernel, ramdisk, start as int) == kind);
                lemma_capacity_exceeded(
                    s,
                    out@,
                    regions,
                    boot_end,
                    kernel,
                    ramdisk,
                    w,
                    start as int,
                );
            }
        }
        return Err(Halt);
    }
    let ghost prev = out@;
    out.push(FinalRegion { start, end, kind });
    proof {
        let new = out@;
        assert forall|a: int| 0 <= a < end as int implies (in_output(new, a) <==> covered_addr(
            regions,
            boot_end,
            a,
        )) by {
            if in_output(new, a) {
                let t = region_index(new, a);
                assert(0 <= t < new.len() && new[t].start <= a < new[t].end);
                if t < n {
                    assert(in_output(prev, a));
                    assert(a < w);
                }
            }
            if a < w {
                if in_output(prev, a) {
                    let t = region_index(prev, a);
                    assert(0 <= t < prev.len() && prev[t].start <= a < prev[t].end);
                    assert(new[t].start <= a < new[t].end);
                    assert(in_output(new, a));
                }
            } else if a >= start {
                assert(new[n as int].start <= a < new[n as int].end);
                assert(in_output(new, a));
            } else {
                assert(!covered_addr(regions, boot_end, a));
                assert(!in_output(new, a)) by {
                    if in_output(new, a) {
                        let t = region_index(new, a);
                        assert(0 <= t < new.len() && new[t].start <= a < new[t].end);
                        if t < n {
                            assert(new[t].end <= w);
                        }
                        assert(false);
                    }
                }
            }
        }
    }
    Ok(())
}

impl FrameAllocator {
    /// Builds the final, kernel-facing memory map. The map covers exactly
    /// the union of the `Usable` firmware regions together with
    /// `[0, cursor)` — everything the boot flow allocated, claimed as one
    /// carve-out from address zero — and classifies each address
    /// `Bootloader` when it lies below the cursor or inside the
    /// kernel-image or ramdisk carve-out, `Usable` otherwise. Adjacent
    /// regions of one kind are merged; the first region always starts at
    /// address zero and is tagged `Bootloader`. Fails exactly when the
    /// finished map needs more than `max_regions` regions: the caller's
    /// buffer is of fixed size, since no heap exists this early.
    #[verifier::rlimit(100)]
    pub fn construct_memory_map(
        self,
        max_regions: usize,
        kernel: CarveOut,
        ramdisk: Option<CarveOut>,
    ) -> (r: Result<Vec<FinalRegion>, Halt>)
        requires
            self.wf(),
            disjoint_sorted(self.regions@),
            self.next_frame >= 1,
            kernel.wf(),
            ramdisk matches Some(c) ==> c.wf(),
            carves_disjoint(kernel, ramdisk),
        ensures
            match r {
                Ok(out) => {
                    &&& out@.len() <= max_regions
                    &&& map_matches(out@, self.regions@, self.cursor_addr(), kernel, ramdisk)
                    &&& out@.len() > 0
                    &&& out@[0].start == 0
                    &&& out@[0].kind == OutputKind::Bootloader
                },
                Err(_) => forall|s: Seq<FinalRegion>|
                    map_matches(s, self.regions@, self.cursor_addr(), kernel, ramdisk)
                        ==> s.len() > max_regions,
            },
    {
        let boot_end_addr: u64 = self.next_free_addr();
        let ghost regions = self.regions@;
        let ghost boot_end: int = boot_end_addr as int;
        let ghost rd = ramdisk;
        proof {
            assert(boot_end >= FRAME_SIZE) by {
                vstd::arithmetic::mul::lemma_mul_inequality(
                    1,
                    self.next_frame as int,
                    FRAME_SIZE as int,
                );
            }
        }
        // the two named carve-outs, ordered by start; an absent ramdisk
        // becomes an empty range past every address
        let (c1, c2): (CarveOut, CarveOut) = match ramdisk {
            Some(c) => if c.start <= kernel.start {
                (c, kernel)
            } else {
                (kernel, c)
            },
            None => (kernel, CarveOut { start: u64::MAX, end: u64::MAX }),
        };
        proof {
            assert forall|a: int|
                (kernel.contains(a) || opt_contains(rd, a)) == (c1.contains(a) || c2.contains(
                    a,
                )) by {}
        }
        let mut out: Vec<FinalRegion> = Vec::new();
        let ghost mut w: int = 0;
        // address zero is always claimed: the boot flow's own allocations
        // are one carve-out from 0 up to the cursor
        if let Err(h) = push_region(
            &mut out,
            0,
            boot_end_addr,
            OutputKind::Bootloader,
            max_regions,
            Ghost(regions),
            Ghost(boot_end),
            Ghost(kernel),
            Ghost(rd),
            Ghost(w),
        ) {
            return Err(h);
        }
        proof {
            w = boot_end;
        }
        let n = self.regions.len();
        let mut i: usize = 0;
        while i < n
            invariant
                i <= n == self.regions.len(),
                regions == self.regions@,
                regions_wf(regions),
                sorted_by_start(regions),
                disjoint_sorted(regions),
                kernel.wf(),
                c1.wf(),
                c2.wf(),
                c1.start <= c2.start,
                forall|a: int|
                    (kernel.contains(a) || opt_contains(rd, a)) == (c1.contains(a)
                        || c2.contains(a)),
                out@.len() <= max_regions,
                matches_below(out@, regions, boot_end, kernel, rd, w),
                boot_end == boot_end_addr,
                boot_end == self.cursor_addr(),
                rd == ramdisk,
                boot_end <= w,
                forall|j: int|
                    0 <= j < i && (#[trigger] regions[j]).kind == FirmwareKind::Usable
                        && regions[j].len > 0 ==> regions[j].end() <= w,
                forall|j: int|
                    i <= j < regions.len() ==> w <= (#[trigger] regions[j]).start || w
                        <= boot_end,
                out@.len() > 0,
                out@[0].start == 0,
                out@[0].kind == OutputKind::Bootloader,
            decreases n - i,
        {
            let reg = self.regions[i];
            if matches!(reg.kind, FirmwareKind::Usable) && reg.len > 0 {
                let e_: u64 = reg.start + reg.len;
                let lo: u64 = if reg.start > boot_end_addr {
                    reg.start
                } else {
                    boot_end_addr
                };
                proof {
                    assert forall|a: int| w <= a < lo as int implies !covered_addr(
                        regions,
                        boot_end,
                        a,
                    ) by {
                        if usable_covered(regions, a) {
                            let j = choose|j: int|
                                0 <= j < regions.len() && regions[j].kind == FirmwareKind::Usable
                                    && #[trigger] regions[j].contains(a);
                            if j < i {
                                assert(regions[j].end() <= w);
                            } else if j > i {
                                assert(regions[i as int].end() <= regions[j].start);
                            }
                            assert(false);
                        }
                    }
                    assert forall|a: int| lo as int <= a < e_ as int implies covered_addr(
                        regions,
                        boot_end,
                        a,
                    ) by {
                        assert(regions[i as int].contains(a));
                        assert(usable_covered(regions, a));
                    }
                }
                // five clipped pieces tile the allocatable part of the
                // region: free space and carve-outs in ascending order
                let m1: u64 = if e_ < c1.start {
                    e_
                } else {
                    c1.start
                };
                if let Err(h) = push_region(
                    &mut out,
                    lo,
                    m1,
                    OutputKind::Usable,
                    max_regions,
                    Ghost(regions),
                    Ghost(boot_end),
                    Ghost(kernel),
                    Ghost(rd),
                    Ghost(w),
                ) {
                    return Err(h);
                }
                proof {
                    if lo < m1 {
                        w = m1 as int;
                    }
                }
                let b1s: u64 = if lo > c1.start {
                    lo
                } else {
                    c1.start
                };
                let b1e: u64 = if e_ < c1.end {
                    e_
                } else {
                    c1.end
                };
                if let Err(h) = push_region(
                    &mut out,
                    b1s,
                    b1e,
                    OutputKind::Bootloader,
                    max_regions,
                    Ghost(regions),
                    Ghost(boot_end),
                    Ghost(kernel),
                    Ghost(rd),
                    Ghost(w),
                ) {
                    return Err(h);
                }
                proof {
                    if b1s < b1e {
                        w = b1e as int;
                    }
                }
                let lo2: u64 = if lo > c1.end {
                    lo
                } else {
                    c1.end
                };
                let m3: u64 = if e_ < c2.start {
                    e_
                } else {
                    c2.start
                };
                if let Err(h) = push_region(
                    &mut out,
                    lo2,
                    m3,
                    OutputKind::Usable,
                    max_regions,
                    Ghost(regions),
                    Ghost(boot_end),
                    Ghost(kernel),
                    Ghost(rd),
                    Ghost(w),
                ) {
                    return Err(h);
                }
                proof {
                    if lo2 < m3 {
                        w = m3 as int;
                    }
                }
                let b2s: u64 = if lo2 > c2.start {
                    lo2
                } else {
                    c2.start
                };
                let b2e: u64 = if e_ < c2.end {
                    e_
                } else {
                    c2.end
                };
                if let Err(h) = push_region(
                    &mut out,
                    b2s,
                    b2e,
                    OutputKind::Bootloader,
                    max_regions,
                    Ghost(regions),
                    Ghost(boot_end),
                    Ghost(kernel),
                    Ghost(rd),
                    Ghost(w),
                ) {
                    return Err(h);
                }
                proof {
                    if b2s < b2e {
                        w = b2e as int;
                    }
                }
                let lo3: u64 = if lo2 > c2.end {
                    lo2
                } else {
                    c2.end
                };
                if let Err(h) = push_region(
                    &mut out,
                    lo3,
                    e_,
                    OutputKind::Usable,
                    max_regions,
                    Ghost(regions),
                    Ghost(boot_end),
                    Ghost(kernel),
                    Ghost(rd),
                    Ghost(w),
                ) {
                    return Err(h);
                }
                proof {
                    if lo3 < e_ {
                        w = e_ as int;
                    }
                    assert(e_ as int <= w);
                }
            }
            i += 1;
        }
        proof {
            assert forall|a: int| 0 <= a implies (in_output(out@, a) <==> covered_addr(
                regions,
                boot_end,
                a,
            )) by {
                if a >= w {
                    assert(!in_output(out@, a)) by {
                        if in_output(out@, a) {
                            let t = region_index(out@, a);
                            assert(0 <= t < out@.len() && out@[t].start <= a < out@[t].end);
                            assert(false);
                        }
                    }
                    assert(!covered_addr(regions, boot_end, a)) by {
                        if usable_covered(regions, a) {
                            let j = choose|j: int|
                                0 <= j < regions.len() && regions[j].kind == FirmwareKind::Usable
                                    && #[trigger] regions[j].contains(a);
                            assert(regions[j].len > 0);
                            assert(regions[j].end() <= w);
                            assert(false);
                        }
                    }
                }
            }
        }
        Ok(out)
    }
}

/// Two matching maps agree on their region at position `j`.
proof fn lemma_matching_prefix_equal(
    s1: Seq<FinalRegion>,
    s2: Seq<FinalRegion>,
    regions: Seq<RawRegion>,
    boot_end: int,
    kernel: CarveOut,
    ramdisk: Option<CarveOut>,
    j: int,
)
    requires
        map_matches(s1, regions, boot_end, kernel, ramdisk),
        map_matches(s2, regions, boot_end, kernel, ramdisk),
        0 <= j < s1.len(),
        j < s2.len(),
    ensures
        s1[j] == s2[j],
    decreases j,
{
    if j > 0 {
        lemma_matching_prefix_equal(s1, s2, regions, boot_end, kernel, ramdisk, j - 1);
    }
    let a1 = s1[j].start as int;
    let a2 = s2[j].start as int;
    // the region of s2 that holds s1[j]'s first address is s2[j] itself
    assert(in_output(s1, a1));
    assert(covered_addr(regions, boot_end, a1));
    assert(in_output(s2, a1));
    let i = region_index(s2, a1);
    assert(0 <= i < s2.len() && s2[i].start <= a1 < s2[i].end);
    assert(in_output(s2, a2));
    assert(covered_addr(regions, boot_end, a2));
    assert(in_output(s1, a2));
    let k = region_index(s1, a2);
    assert(0 <= k < s1.len() && s1[k].start <= a2 < s1[k].end);
    if i < j {
        if i < j - 1 {
            lemma_canonical_order(s2, i, j - 1);
        }
        assert(s2[i].end <= s2[j - 1].end);
        if j - 1 < j {
            lemma_canonical_order(s1, j - 1, j);
        }
        assert(false);
    }
    if k < j {
        if k < j - 1 {
            lemma_canonical_order(s1, k, j - 1);
        }
        assert(s1[k].end <= s1[j - 1].end);
        lemma_canonical_order(s2, j - 1, j);
        assert(false);
    }
    if i > j {
        lemma_canonical_order(s2, j, i);
        assert(s2[j].end <= a1);
        if k == j {
            assert(s1[j].start <= a2 < s2[j].end <= a1);
            assert(false);
        } else {
            assert(k > j);
            lemma_canonical_order(s1, j, k);
            assert(s1[j].end <= s1[k].start <= a2 < s2[j].end <= a1);
            assert(false);
        }
    }
    assert(i == j);
    assert(s2[j].start <= a1);
    if k > j {
        lemma_canonical_order(s1, j, k);
        assert(s1[j].end <= s1[k].start <= a2);
        assert(a2 <= a1 < s1[j].end);
        assert(false);
    }
    assert(k == j);
    assert(s1[j].start <= a2);
    assert(a1 == a2);
    // the ends agree: past the shorter region the longer one would span a
    // hole or a change of classification
    lemma_matching_end_at_least(s1, s2, regions, boot_end, kernel, ramdisk, j);
    lemma_matching_end_at_least(s2, s1, regions, boot_end, kernel, ramdisk, j);
    assert(s1[j].kind == kind_at(boot_end, kernel, ramdisk, a1));
    assert(s2[j].kind == kind_at(boot_end, kernel, ramdisk, a1));
}

/// With equal starts at position `j`, the region of `s1` ends no earlier
/// than the region of `s2`: otherwise the longer region would span a hole
/// or a change of classification.
proof fn lemma_matching_end_at_least(
    s1: Seq<FinalRegion>,
    s2: Seq<FinalRegion>,
    regions: Seq<RawRegion>,
    boot_end: int,
    kernel: CarveOut,
    ramdisk: Option<CarveOut>,
    j: int,
)
    requires
        map_matches(s1, regions, boot_end, kernel, ramdisk),
        map_matches(s2, regions, boot_end, kernel, ramdisk),
        0 <= j < s1.len(),
        j < s2.len(),
        s1[j].start == s2[j].start,
    ensures
        s1[j].end >= s2[j].end,
{
    if s1[j].end >= s2[j].end {
        return;
    }
    let c = s1[j].end as int;
    assert(s2[j].start <= c < s2[j].end);
    assert(in_output(s2, c));
    assert(covered_addr(regions, boot_end, c));
    assert(in_output(s1, c));
    let t = region_index(s1, c);
    assert(0 <= t < s1.len() && s1[t].start <= c < s1[t].end);
    if t < j {
        lemma_canonical_order(s1, t, j);
        assert(false);
    }
    if t == j {
        assert(false);
    }
    assert(t > j);
    lemma_canonical_order(s1, j, t);
    assert(s1[t].start == c);
    if t > j + 1 {
        lemma_canonical_order(s1, j + 1, t);
        assert(s1[j + 1].end <= s1[t].start);
        assert(s1[j + 1].start >= s1[j].end);
        assert(false);
    }
    // the longer region of s2 spans the kind change at the boundary
    assert(s1[j].end == s1[j + 1].start && s1[j].kind != s1[j + 1].kind);
    assert(s1[j].kind == kind_at(boot_end, kernel, ramdisk, c - 1));
    assert(s1[j + 1].kind == kind_at(boot_end, kernel, ramdisk, c));
    assert(s2[j].start <= c - 1 < s2[j].end);
    assert(s2[j].kind == kind_at(boot_end, kernel, ramdisk, c - 1));
    assert(s2[j].kind == kind_at(boot_end, kernel, ramdisk, c));
    assert(false);
}

/// Law: the final memory map is unique. Any two canonical maps that cover
/// exactly the owed addresses with the demanded classifications are equal
/// region for region, so construction is deterministic and the number of
/// regions the map needs is well-defined.
pub proof fn lemma_final_map_unique(
    s1: Seq<FinalRegion>,
    s2: Seq<FinalRegion>,
    regions: Seq<RawRegion>,
    boot_end: int,
    kernel: CarveOut,
    ramdisk: Option<CarveOut>,
)
    requires
        map_matches(s1, regions, boot_end, kernel, ramdisk),
        map_matches(s2, regions, boot_end, kernel, ramdisk),
    ensures
        s1 =~= s2,
{
    lemma_matching_same_len(s1, s2, regions, boot_end, kernel, ramdisk);
    lemma_matching_same_len(s2, s1, regions, boot_end, kernel, ramdisk);
    assert forall|j: int| 0 <= j < s1.len() implies s1[j] == s2[j] by {
        lemma_matching_prefix_equal(s1, s2, regions, boot_end, kernel, ramdisk, j);
    }
}

/// A matching map cannot be longer than another matching map.
proof fn lemma_matching_same_len(
    s1: Seq<FinalRegion>,
    s2: Seq<FinalRegion>,
    regions: Seq<RawRegion>,
    boot_end: int,
    kernel: CarveOut,
    ramdisk: Option<CarveOut>,
)
    requires
        map_matches(s1, regions, boot_end, kernel, ramdisk),
        map_matches(s2, regions, boot_end, kernel, ramdisk),
    ensures
        s2.len() <= s1.len(),
{
    if s1.len() < s2.len() {
        let j = s1.len() as int;
        let b = s2[j].start as int;
        assert(in_output(s2, b));
        assert(covered_addr(regions, boot_end, b));
        assert(in_output(s1, b));
        let k = region_index(s1, b);
        assert(0 <= k < s1.len() && s1[k].start <= b < s1[k].end);
        if j == 0 {
            assert(false);
        }
        lemma_matching_prefix_equal(s1, s2, regions, boot_end, kernel, ramdisk, j - 1);
        if k < j - 1 {
            lemma_canonical_order(s1, k, j - 1);
        }
        assert(s1[k].end <= s1[j - 1].end);
        lemma_canonical_order(s2, j - 1, j);
        assert(s2[j - 1].end <= b);
        assert(false);
    }
}

/// Law: under the conditions the final map is built for — when everything
/// the boot flow claimed below the cursor itself lies in `Usable` firmware
/// memory — the map's regions cover exactly the union of the `Usable`
/// firmware input, with no gap and no overlap.
pub proof fn lemma_union_is_usable_input(
    out: Seq<FinalRegion>,
    regions: Seq<RawRegion>,
    boot_end: int,
    kernel: CarveOut,
    ramdisk: Option<CarveOut>,
)
    requires
        map_matches(out, regions, boot_end, kernel, ramdisk),
        forall|a: int| 0 <= a < boot_end ==> usable_covered(regions, a),
    ensures
        forall|a: int| 0 <= a ==> (in_output(out, a) <==> usable_covered(regions, a)),
{
    assert forall|a: int| 0 <= a implies (in_output(out, a) <==> usable_covered(regions, a)) by {
        assert(in_output(out, a) <==> covered_addr(regions, boot_end, a));
    }
}

} // verus!
