use vstd::prelude::*;

verus! {

/// Size in bytes of a physical frame, the allocation granule.
pub const FRAME_SIZE: u64 = 4096;

/// The sole fatal outcome of any step of the boot flow. At this stage there is
/// no supervisor to recover to, so every error is terminal: the caller's only
/// course is to stop the machine.
#[derive(Clone, Copy, Debug, PartialEq, Eq, Structural)]
pub struct Halt;

/// Classification a firmware memory-map entry arrives with. Anything other
/// than `Usable` is never allocatable.
#[derive(Clone, Copy, Debug, PartialEq, Eq, Structural)]
pub enum FirmwareKind {
    Usable,
    Reserved,
    AcpiReclaimable,
    /// A firmware region type code with no named meaning here.
    UnknownBios(u32),
}

/// One raw firmware memory-map entry: the byte range `[start, start + len)`.
#[derive(Clone, Copy, Debug, PartialEq, Eq, Structural)]
pub struct RawRegion {
    pub start: u64,
    pub len: u64,
    pub kind: FirmwareKind,
}

impl RawRegion {
    /// Exclusive end of the region.
    pub open spec fn end(self) -> int {
        self.start + self.len
    }

    /// The region fits in the physical address space.
    pub open spec fn wf(self) -> bool {
        self.start + self.len <= u64::MAX
    }

    /// Whether byte address `a` lies inside the region.
    pub open spec fn contains(self, a: int) -> bool {
        self.start <= a < self.start + self.len
    }
}

/// Classification of a region of the final, kernel-facing memory map.
#[derive(Clone, Copy, Debug, PartialEq, Eq, Structural)]
pub enum OutputKind {
    /// Free for the kernel's own memory manager.
    Usable,
    /// Claimed by the boot flow: its internal allocations, the kernel image,
    /// or the ramdisk.
    Bootloader,
    /// Carried through from a firmware type code with no named meaning.
    UnknownBios(u32),
}

/// One region of the final memory map: `[start, end)`, `end` exclusive.
#[derive(Clone, Copy, Debug, PartialEq, Eq, Structural)]
pub struct FinalRegion {
    pub start: u64,
    pub end: u64,
    pub kind: OutputKind,
}

/// A byte range `[start, end)` reserved for a named consumer (the kernel
/// image or the ramdisk).
#[derive(Clone, Copy, Debug, PartialEq, Eq, Structural)]
pub struct CarveOut {
    pub start: u64,
    pub end: u64,
}

impl CarveOut {
    pub open spec fn wf(self) -> bool {
        self.start <= self.end
    }

    /// Whether byte address `a` lies inside the carve-out.
    pub open spec fn contains(self, a: int) -> bool {
        self.start <= a < self.end
    }
}

/// Validates a byte range handed down by the earlier boot stage (the
/// kernel image, or a ramdisk) and turns it into a carve-out. A zero start
/// is an unset field and a fatal configuration error; so is a zero or
/// overflowing length.
pub fn validate_carve_out(start: u64, len: u64) -> (r: Result<CarveOut, Halt>)
    ensures
        r is Ok <==> 0 < start && 0 < len && start + len <= u64::MAX,
        r matches Ok(c) ==> c.start == start && c.end == start + len,
{
    if start == 0 || len == 0 {
        return Err(Halt);
    }
    if len > u64::MAX - start {
        return Err(Halt);
    }
    Ok(CarveOut { start, end: start + len })
}

/// Regions ordered by ascending start address.
pub open spec fn sorted_by_start(s: Seq<RawRegion>) -> bool {
    forall|i: int, j: int| 0 <= i <= j < s.len() ==> s[i].start <= s[j].start
}

/// Every region fits in the physical address space.
pub open spec fn regions_wf(s: Seq<RawRegion>) -> bool {
    forall|i: int| 0 <= i < s.len() ==> s[i].wf()
}

/// Regions are sorted and mutually non-overlapping.
pub open spec fn disjoint_sorted(s: Seq<RawRegion>) -> bool {
    forall|i: int, j: int| 0 <= i < j < s.len() ==> s[i].end() <= s[j].start
}

/// Whether address `a` lies in some `Usable` firmware region.
pub open spec fn usable_covered(s: Seq<RawRegion>, a: int) -> bool {
    exists|i: int|
        0 <= i < s.len() && s[i].kind == FirmwareKind::Usable && #[trigger] s[i].contains(a)
}

} // verus!
