use vstd::prelude::*;

use vstd::arithmetic::div_mod::{lemma_div_plus_one, lemma_fundamental_div_mod};
use vstd::arithmetic::mul::{
    lemma_mul_inequality, lemma_mul_is_commutative, lemma_mul_is_distributive_add,
};

use crate::frame_allocator::{allocate_spec, FrameAllocator};
use crate::region::Halt;

verus! {

/// Size in bytes of one mapping granule: the largest page the identity
/// mapping uses, to keep the tables small.
pub const HUGE_PAGE_SIZE: u64 = 0x20_0000;

/// Physical memory below this mark is already identity-mapped by the
/// earlier boot stage; the builder extends the mapping from here on.
pub const IDENTITY_MAP_START: u64 = 0x2_8000_0000;

/// Model of one address space's identity mappings at page granularity:
/// which pages are mapped (virtual address equal to physical address), each
/// with its flag bits.
pub struct MappingTable {
    /// `(page start address, flags)`, one entry per mapped page.
    pub entries: Vec<(u64, u64)>,
}

impl MappingTable {
    /// No page is mapped twice.
    pub open spec fn wf(self) -> bool {
        forall|i: int, j: int|
            0 <= i < j < self.entries@.len() ==> (#[trigger] self.entries@[i]).0 != (
            #[trigger] self.entries@[j]).0
    }

    /// Whether `page` is mapped.
    pub open spec fn has_page(self, page: u64) -> bool {
        exists|i: int| 0 <= i < self.entries@.len() && (#[trigger] self.entries@[i]).0 == page
    }

    /// Position of `page`'s entry.
    pub open spec fn page_slot(self, page: u64) -> int {
        choose|i: int| 0 <= i < self.entries@.len() && (#[trigger] self.entries@[i]).0 == page
    }

    /// The flags `page` is mapped with, or `None` when it is not mapped.
    pub open spec fn spec_flags(self, page: u64) -> Option<u64> {
        if self.has_page(page) {
            Some(self.entries@[self.page_slot(page)].1)
        } else {
            None
        }
    }

    /// An empty table: nothing mapped.
    pub fn new() -> (r: Self)
        ensures
            r.wf(),
            r.entries@.len() == 0,
            forall|q: u64| r.spec_flags(q) is None,
    {
        MappingTable { entries: Vec::new() }
    }

    /// Looks a page up.
    pub fn lookup(&self, page: u64) -> (r: Option<u64>)
        requires
            self.wf(),
        ensures
            r == self.spec_flags(page),
    {
        let n = self.entries.len();
        let mut i: usize = 0;
        while i < n
            invariant
                i <= n == self.entries@.len(),
                self.wf(),
                forall|k: int| 0 <= k < i ==> (#[trigger] self.entries@[k]).0 != page,
            decreases n - i,
        {
            let e = self.entries[i];
            if e.0 == page {
                proof {
                    assert(self.has_page(page));
                    let k = self.page_slot(page);
                    assert(0 <= k < self.entries@.len() && self.entries@[k].0 == page);
                    assert(k == i as int);
                }
                return Some(e.1);
            }
            i += 1;
        }
        proof {
            if self.has_page(page) {
                let k = self.page_slot(page);
                assert(0 <= k < self.entries@.len() && self.entries@[k].0 == page);
                assert(false);
            }
        }
        None
    }

    /// Identity-maps one page. Mapping a page again with identical flags
    /// changes nothing; mapping it with different flags is an incompatible
    /// remap and fatal, leaving the table as it was.
    pub fn identity_map_page(&mut self, page: u64, flags: u64) -> (r: Result<(), Halt>)
        requires
            old(self).wf(),
        ensures
            final(self).wf(),
            match r {
                Ok(_) => {
                    &&& old(self).spec_flags(page) is None || old(self).spec_flags(page) == Some(
                        flags,
                    )
                    &&& forall|q: u64|
                        #![trigger final(self).spec_flags(q)]
                        final(self).spec_flags(q) == if q == page {
                            Some(flags)
                        } else {
                            old(self).spec_flags(q)
                        }
                    &&& old(self).spec_flags(page) == Some(flags) ==> *final(self) == *old(self)
                },
                Err(_) => {
                    &&& *final(self) == *old(self)
                    &&& old(self).spec_flags(page) matches Some(g) && g != flags
                },
            },
    {
        match self.lookup(page) {
            Some(g) => {
                if g == flags {
                    Ok(())
                } else {
                    Err(Halt)
                }
            },
            None => {
                let ghost pre = *self;
                let ghost n = self.entries@.len() as int;
                self.entries.push((page, flags));
                proof {
                    assert forall|i: int, j: int| 0 <= i < j < self.entries@.len() implies (
                    #[trigger] self.entries@[i]).0 != (#[trigger] self.entries@[j]).0 by {
                        if j == n {
                            if self.entries@[i].0 == page {
                                assert(pre.entries@[i].0 == page);
                                assert(pre.has_page(page));
                                assert(false);
                            }
                        }
                    }
                    assert forall|q: u64|
                        #![trigger self.spec_flags(q)]
                        self.spec_flags(q) == (if q == page {
                            Some(flags)
                        } else {
                            pre.spec_flags(q)
                        }) by {
                        if q == page {
                            assert(self.entries@[n].0 == page);
                            assert(self.has_page(page));
                            let k = self.page_slot(page);
                            assert(0 <= k < self.entries@.len() && self.entries@[k].0 == page);
                            if k < n {
                                assert(pre.entries@[k].0 == page);
                                assert(pre.has_page(page));
                                assert(false);
                            }
                            assert(self.spec_flags(q) == Some(flags));
                        } else {
                            if self.has_page(q) {
                                let k = self.page_slot(q);
                                assert(0 <= k < self.entries@.len() && self.entries@[k].0 == q);
                                assert(k < n);
                                assert(pre.entries@[k].0 == q);
                                assert(pre.has_page(q));
                                let k2 = pre.page_slot(q);
                                assert(0 <= k2 < pre.entries@.len() && pre.entries@[k2].0 == q);
                                assert(self.entries@[k2].0 == q);
                                assert(k2 == k);
                                assert(self.spec_flags(q) == pre.spec_flags(q));
                            }
                            if pre.has_page(q) {
                                let k2 = pre.page_slot(q);
                                assert(0 <= k2 < pre.entries@.len() && pre.entries@[k2].0 == q);
                                assert(self.entries@[k2].0 == q);
                                assert(self.has_page(q));
                            }
                        }
                    }
                }
                Ok(())
            },
        }
    }

    /// Identity-maps every huge page of `[start, end)`. Pages already
    /// mapped with identical flags are left untouched; a page mapped with
    /// different flags is fatal. In particular, re-mapping a range whose
    /// pages all carry identical flags already is a no-op: existing
    /// mappings are left unchanged.
    pub fn identity_map_range(&mut self, start: u64, end: u64, flags: u64) -> (r: Result<
        (),
        Halt,
    >)
        requires
            old(self).wf(),
            start % HUGE_PAGE_SIZE == 0,
            end % HUGE_PAGE_SIZE == 0,
            start <= end,
        ensures
            final(self).wf(),
            r is Ok ==> forall|q: u64|
                #![trigger final(self).spec_flags(q)]
                final(self).spec_flags(q) == if start <= q < end && q % HUGE_PAGE_SIZE == 0 {
                    Some(flags)
                } else {
                    old(self).spec_flags(q)
                },
            r is Ok ==> forall|q: u64|
                start <= q < end && q % HUGE_PAGE_SIZE == 0 ==> (#[trigger] old(self).spec_flags(
                    q,
                )) is None || old(self).spec_flags(q) == Some(flags),
            r is Err ==> exists|q: u64|
                start <= q < end && q % HUGE_PAGE_SIZE == 0 && ((#[trigger] old(self).spec_flags(
                    q,
                )) matches Some(g) && g != flags),
            (forall|q: u64|
                start <= q < end && q % HUGE_PAGE_SIZE == 0 ==> (#[trigger] old(self).spec_flags(
                    q,
                )) == Some(flags)) ==> r is Ok && *final(self) == *old(self),
    {
        let mut page: u64 = start;
        while page < end
            invariant
                self.wf(),
                start <= page <= end,
                page % HUGE_PAGE_SIZE == 0,
                end % HUGE_PAGE_SIZE == 0,
                forall|q: u64|
                    #![trigger self.spec_flags(q)]
                    self.spec_flags(q) == if start <= q < page && q % HUGE_PAGE_SIZE == 0 {
                        Some(flags)
                    } else {
                        old(self).spec_flags(q)
                    },
                forall|q: u64|
                    start <= q < page && q % HUGE_PAGE_SIZE == 0 ==> (#[trigger] old(
                        self,
                    ).spec_flags(q)) is None || old(self).spec_flags(q) == Some(flags),
                (forall|q: u64|
                    start <= q < end && q % HUGE_PAGE_SIZE == 0 ==> (#[trigger] old(
                        self,
                    ).spec_flags(q)) == Some(flags)) ==> *self == *old(self),
            decreases end - page,
        {
            let ghost mid = *self;
            match self.identity_map_page(page, flags) {
                Ok(_) => {},
                Err(h) => {
                    proof {
                        assert(mid.spec_flags(page) == old(self).spec_flags(page));
                        assert(old(self).spec_flags(page) matches Some(g) && g != flags);
                    }
                    return Err(h);
                },
            }
            proof {
                lemma_aligned_step(page as int, end as int);
                assert forall|q: u64|
                    #![trigger self.spec_flags(q)]
                    self.spec_flags(q) == (if start <= q < page + HUGE_PAGE_SIZE && q
                        % HUGE_PAGE_SIZE == 0 {
                        Some(flags)
                    } else {
                        old(self).spec_flags(q)
                    }) by {
                    if q != page && start <= q < page + HUGE_PAGE_SIZE && q % HUGE_PAGE_SIZE
                        == 0 && q >= page {
                        lemma_aligned_unique(page as int, q as int);
                    }
                }
            }
            page = page + HUGE_PAGE_SIZE;
        }
        Ok(())
    }
}

/// Two distinct addresses aligned to the same granule lie a full granule
/// apart, so the step to the next page never leaves `[start, end)`.
proof fn lemma_aligned_step(page: int, end: int)
    requires
        0 <= page < end,
        page % (HUGE_PAGE_SIZE as int) == 0,
        end % (HUGE_PAGE_SIZE as int) == 0,
    ensures
        page + HUGE_PAGE_SIZE <= end,
{
    let h = HUGE_PAGE_SIZE as int;
    lemma_fundamental_div_mod(page, h);
    lemma_fundamental_div_mod(end, h);
    let a = page / h;
    let b = end / h;
    if a >= b {
        lemma_mul_inequality(b, a, h);
        lemma_mul_is_commutative(b, h);
        lemma_mul_is_commutative(a, h);
        assert(false);
    }
    lemma_mul_inequality(a + 1, b, h);
    lemma_mul_is_distributive_add(h, a, 1);
    lemma_mul_is_commutative(a + 1, h);
    lemma_mul_is_commutative(b, h);
}

/// The only granule-aligned address in `[page, page + granule)` is `page`
/// itself.
proof fn lemma_aligned_unique(page: int, q: int)
    requires
        0 <= page,
        0 <= q,
        page % (HUGE_PAGE_SIZE as int) == 0,
        q % (HUGE_PAGE_SIZE as int) == 0,
        page <= q < page + HUGE_PAGE_SIZE,
    ensures
        q == page,
{
    if q > page {
        lemma_aligned_step(page, q);
        assert(false);
    }
}

/// Top of the identity-mapped range for a given highest physical address:
/// the next huge-page boundary at or above it, but never below the
/// low window the earlier stage already mapped.
pub open spec fn identity_map_top(max_phys_addr: int) -> int {
    let top = ((max_phys_addr + HUGE_PAGE_SIZE - 1) / (HUGE_PAGE_SIZE as int)) * HUGE_PAGE_SIZE;
    if top < IDENTITY_MAP_START {
        IDENTITY_MAP_START as int
    } else {
        top
    }
}

/// Extends the identity mapping over all reported physical memory: from
/// the fixed high-water mark the earlier stage already mapped up to the
/// highest firmware-reported address, in huge-page steps. Remapping pages
/// that already carry identical flags changes nothing; a page mapped with
/// different flags is fatal.
pub fn extend_identity_mapping(table: &mut MappingTable, max_phys_addr: u64, flags: u64) -> (r:
    Result<(), Halt>)
    requires
        old(table).wf(),
        max_phys_addr <= 0xFFFF_FFFF_FFE0_0000,
    ensures
        final(table).wf(),
        r is Ok ==> forall|q: u64|
            #![trigger final(table).spec_flags(q)]
            final(table).spec_flags(q) == if IDENTITY_MAP_START <= q < identity_map_top(
                max_phys_addr as int,
            ) && q % HUGE_PAGE_SIZE == 0 {
                Some(flags)
            } else {
                old(table).spec_flags(q)
            },
        r is Err ==> exists|q: u64|
            IDENTITY_MAP_START <= q < identity_map_top(max_phys_addr as int) && q % HUGE_PAGE_SIZE
                == 0 && ((#[trigger] old(table).spec_flags(q)) matches Some(g) && g != flags),
        (forall|q: u64|
            IDENTITY_MAP_START <= q < identity_map_top(max_phys_addr as int) && q % HUGE_PAGE_SIZE
                == 0 ==> (#[trigger] old(table).spec_flags(q)) == Some(flags)) ==> r is Ok
            && *final(table) == *old(table),
{
    let end: u64 = if max_phys_addr == 0 {
        0
    } else {
        ((max_phys_addr - 1) / HUGE_PAGE_SIZE + 1) * HUGE_PAGE_SIZE
    };
    proof {
        let h = HUGE_PAGE_SIZE as int;
        if max_phys_addr > 0 {
            lemma_div_plus_one(max_phys_addr - 1, h);
            assert((max_phys_addr - 1 + h) / h == (max_phys_addr - 1) as int / h + 1);
            lemma_fundamental_div_mod(max_phys_addr - 1, h);
            lemma_mul_inequality(
                (max_phys_addr - 1) as int / h + 1,
                0xFFFF_FFFF_FFE0_0000int / h,
                h,
            );
            lemma_mul_is_commutative((max_phys_addr - 1) as int / h + 1, h);
            lemma_mul_is_commutative(0xFFFF_FFFF_FFE0_0000int / h, h);
        }
        assert(end % HUGE_PAGE_SIZE == 0) by {
            if max_phys_addr > 0 {
                vstd::arithmetic::div_mod::lemma_mod_multiples_basic(
                    (max_phys_addr - 1) as int / h + 1,
                    h,
                );
            }
        }
        assert(end as int == if identity_map_top(max_phys_addr as int) > IDENTITY_MAP_START {
            identity_map_top(max_phys_addr as int)
        } else {
            end as int
        });
    }
    if end <= IDENTITY_MAP_START {
        return Ok(());
    }
    table.identity_map_range(IDENTITY_MAP_START, end, flags)
}

/// The page-table roots the boot flow hands to the kernel: the reused,
/// still-active bootloader table and a freshly allocated, empty table for
/// the kernel's own address space.
pub struct PageTableSet {
    /// Physical address of the currently active top-level table, reused
    /// without copying.
    pub bootloader_root: u64,
    /// The frame backing the kernel's fresh, zero-initialized top-level
    /// table, obtained from the frame allocator.
    pub kernel_root_frame: u64,
    /// The kernel address space's mappings: none yet.
    pub kernel_mappings: MappingTable,
}

/// Allocates and zero-initializes the root of the kernel's own address
/// space, reusing the active table as the bootloader's root. Fails only
/// when no frame is left, which is fatal.
pub fn create_page_tables(active_root: u64, alloc: &mut FrameAllocator) -> (r: Result<
    PageTableSet,
    Halt,
>)
    requires
        old(alloc).wf(),
    ensures
        final(alloc).wf(),
        match r {
            Ok(pt) => {
                &&& pt.bootloader_root == active_root
                &&& allocate_spec(*old(alloc), *final(alloc), Some(pt.kernel_root_frame))
                &&& pt.kernel_mappings.wf()
                &&& forall|q: u64| pt.kernel_mappings.spec_flags(q) is None
            },
            Err(_) => allocate_spec(*old(alloc), *final(alloc), None),
        },
{
    match alloc.allocate_frame() {
        Some(frame) => Ok(
            PageTableSet {
                bootloader_root: active_root,
                kernel_root_frame: frame,
                kernel_mappings: MappingTable::new(),
            },
        ),
        None => Err(Halt),
    }
}

} // verus!
