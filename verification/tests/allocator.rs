use early_boot::frame_allocator::{first_frame_addr_after, FrameAllocator};
use early_boot::normalize::normalize_memory_map;
use early_boot::region::{FirmwareKind, RawRegion};

#[test]
fn frames_are_monotonic_and_never_repeat() {
    let regions = vec![RawRegion {
        start: 0,
        len: 0x5000,
        kind: FirmwareKind::Usable,
    }];
    let mut allocator = FrameAllocator::new(regions);
    let mut last: Option<u64> = None;
    let mut seen = Vec::new();
    loop {
        let cursor = allocator.next_free_addr();
        match allocator.allocate_frame() {
            Some(addr) => {
                // every returned frame lies at or past the cursor it was
                // yielded under, and past every earlier frame
                assert!(addr >= cursor);
                if let Some(prev) = last {
                    assert!(addr >= prev + 0x1000);
                }
                assert!(!seen.contains(&addr));
                assert_eq!(addr % 0x1000, 0);
                seen.push(addr);
                last = Some(addr);
            }
            None => break,
        }
    }
    // frames 0x1000 .. 0x5000: frame zero is never yielded
    assert_eq!(seen, vec![0x1000, 0x2000, 0x3000, 0x4000]);
}

#[test]
fn allocation_skips_non_usable_regions() {
    let regions = vec![
        RawRegion {
            start: 0,
            len: 0x3000,
            kind: FirmwareKind::Reserved,
        },
        RawRegion {
            start: 0x3000,
            len: 0x2800,
            kind: FirmwareKind::Usable,
        },
    ];
    let mut allocator = FrameAllocator::new(regions);
    assert_eq!(allocator.allocate_frame(), Some(0x3000));
    assert_eq!(allocator.allocate_frame(), Some(0x4000));
    // the frame at 0x5000 would reach past the region's end (0x5800)
    assert_eq!(allocator.allocate_frame(), None);
}

#[test]
fn unaligned_region_start_rounds_up() {
    let regions = vec![RawRegion {
        start: 0x2123,
        len: 0x3000,
        kind: FirmwareKind::Usable,
    }];
    let mut allocator = FrameAllocator::new(regions);
    // only whole frames inside [0x2123, 0x5123) are offered: the frame at
    // 0x2000 starts outside, the one at 0x5000 would end outside
    assert_eq!(allocator.allocate_frame(), Some(0x3000));
    assert_eq!(allocator.allocate_frame(), Some(0x4000));
    assert_eq!(allocator.allocate_frame(), None);
}

#[test]
fn exhaustion_is_permanent() {
    let regions = vec![RawRegion {
        start: 0,
        len: 0x2000,
        kind: FirmwareKind::Usable,
    }];
    let mut allocator = FrameAllocator::new(regions);
    assert_eq!(allocator.allocate_frame(), Some(0x1000));
    assert_eq!(allocator.allocate_frame(), None);
    assert_eq!(allocator.allocate_frame(), None);
}

#[test]
fn starting_cursor_skips_carved_out_memory() {
    let regions = vec![RawRegion {
        start: 0,
        len: 0x100000,
        kind: FirmwareKind::Usable,
    }];
    // the kernel image ends inside frame 0x24000; the cursor starts past it
    let next_free = first_frame_addr_after(0x24000 + 0x567 - 1);
    assert_eq!(next_free, 0x25000);
    let mut allocator = FrameAllocator::new_starting_at(next_free, regions);
    assert_eq!(allocator.allocate_frame(), Some(0x25000));
}

#[test]
fn max_phys_addr_is_the_largest_region_end() {
    let mut regions = vec![
        RawRegion {
            start: 0x5000,
            len: 0x1000,
            kind: FirmwareKind::Reserved,
        },
        RawRegion {
            start: 0,
            len: 0x4000,
            kind: FirmwareKind::Usable,
        },
    ];
    normalize_memory_map(&mut regions).unwrap();
    assert_eq!(regions[0].start, 0);
    let allocator = FrameAllocator::new(regions);
    assert_eq!(allocator.max_phys_addr(), 0x6000);
}
