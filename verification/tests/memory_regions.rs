use early_boot::frame_allocator::FrameAllocator;
use early_boot::region::{CarveOut, FinalRegion, FirmwareKind, OutputKind, RawRegion};

const MAX_PHYS_ADDR: u64 = 0x7FFFFF;

fn create_single_test_region() -> Vec<RawRegion> {
    vec![RawRegion {
        start: 0,
        len: MAX_PHYS_ADDR,
        kind: FirmwareKind::Usable,
    }]
}

#[test]
fn test_kernel_and_ram_in_same_region() {
    let regions = create_single_test_region();
    let allocator = FrameAllocator::new(regions);

    let kernel_slice_start = 0x50000;
    let kernel_slice_len = 0x1000;
    let ramdisk_slice_start = 0x60000;
    let ramdisk_slice_len = 0x2000;

    let kernel = CarveOut {
        start: kernel_slice_start,
        end: kernel_slice_start + kernel_slice_len,
    };
    let ramdisk = Some(CarveOut {
        start: ramdisk_slice_start,
        end: ramdisk_slice_start + ramdisk_slice_len,
    });

    let kernel_regions = allocator
        .construct_memory_map(10, kernel, ramdisk)
        .unwrap();
    let mut kernel_regions = kernel_regions.iter();
    // first region is always claimed: no valid mapping may carry a
    // null-equivalent address
    assert_eq!(
        kernel_regions.next(),
        Some(&FinalRegion {
            start: 0,
            end: 0x1000,
            kind: OutputKind::Bootloader
        })
    );
    // usable memory before the kernel
    assert_eq!(
        kernel_regions.next(),
        Some(&FinalRegion {
            start: 0x1000,
            end: 0x50000,
            kind: OutputKind::Usable
        })
    );
    // kernel
    assert_eq!(
        kernel_regions.next(),
        Some(&FinalRegion {
            start: 0x50000,
            end: 0x51000,
            kind: OutputKind::Bootloader
        })
    );
    // usable memory between kernel and ramdisk
    assert_eq!(
        kernel_regions.next(),
        Some(&FinalRegion {
            start: 0x51000,
            end: 0x60000,
            kind: OutputKind::Usable
        })
    );
    // ramdisk
    assert_eq!(
        kernel_regions.next(),
        Some(&FinalRegion {
            start: 0x60000,
            end: 0x62000,
            kind: OutputKind::Bootloader
        })
    );
    // usable memory after the ramdisk
    assert_eq!(
        kernel_regions.next(),
        Some(&FinalRegion {
            start: 0x62000,
            end: MAX_PHYS_ADDR,
            kind: OutputKind::Usable
        })
    );
    assert_eq!(kernel_regions.next(), None);
}

#[test]
fn usable_regions_merge_without_ramdisk() {
    let regions = create_single_test_region();
    let allocator = FrameAllocator::new(regions);
    let kernel = CarveOut {
        start: 0x50000,
        end: 0x51000,
    };

    let map = allocator.construct_memory_map(10, kernel, None).unwrap();
    // the two usable regions that flanked the ramdisk merge into one
    assert_eq!(
        map,
        vec![
            FinalRegion {
                start: 0,
                end: 0x1000,
                kind: OutputKind::Bootloader
            },
            FinalRegion {
                start: 0x1000,
                end: 0x50000,
                kind: OutputKind::Usable
            },
            FinalRegion {
                start: 0x50000,
                end: 0x51000,
                kind: OutputKind::Bootloader
            },
            FinalRegion {
                start: 0x51000,
                end: MAX_PHYS_ADDR,
                kind: OutputKind::Usable
            },
        ]
    );
}

#[test]
fn first_region_claims_address_zero() {
    // the firmware map starts well above zero, and no allocation ever
    // touched address zero: the first region is still [0, cursor) Bootloader
    let regions = vec![RawRegion {
        start: 0x100000,
        len: 0x100000,
        kind: FirmwareKind::Usable,
    }];
    let allocator = FrameAllocator::new_starting_at(0x3000, regions);
    let kernel = CarveOut {
        start: 0x150000,
        end: 0x151000,
    };
    let map = allocator.construct_memory_map(10, kernel, None).unwrap();
    assert_eq!(map[0].start, 0);
    assert_eq!(map[0].end, 0x3000);
    assert_eq!(map[0].kind, OutputKind::Bootloader);
    assert_eq!(
        &map[1..],
        &[
            FinalRegion {
                start: 0x100000,
                end: 0x150000,
                kind: OutputKind::Usable
            },
            FinalRegion {
                start: 0x150000,
                end: 0x151000,
                kind: OutputKind::Bootloader
            },
            FinalRegion {
                start: 0x151000,
                end: 0x200000,
                kind: OutputKind::Usable
            },
        ]
    );
}

#[test]
fn non_usable_regions_are_not_emitted() {
    let regions = vec![
        RawRegion {
            start: 0,
            len: 0x8000,
            kind: FirmwareKind::Usable,
        },
        RawRegion {
            start: 0x8000,
            len: 0x1000,
            kind: FirmwareKind::Reserved,
        },
        RawRegion {
            start: 0x9000,
            len: 0x1000,
            kind: FirmwareKind::AcpiReclaimable,
        },
        RawRegion {
            start: 0xA000,
            len: 0x2000,
            kind: FirmwareKind::Usable,
        },
    ];
    let allocator = FrameAllocator::new(regions);
    let kernel = CarveOut {
        start: 0x2000,
        end: 0x3000,
    };
    let map = allocator.construct_memory_map(10, kernel, None).unwrap();
    assert_eq!(
        map,
        vec![
            FinalRegion {
                start: 0,
                end: 0x1000,
                kind: OutputKind::Bootloader
            },
            FinalRegion {
                start: 0x1000,
                end: 0x2000,
                kind: OutputKind::Usable
            },
            FinalRegion {
                start: 0x2000,
                end: 0x3000,
                kind: OutputKind::Bootloader
            },
            FinalRegion {
                start: 0x3000,
                end: 0x8000,
                kind: OutputKind::Usable
            },
            FinalRegion {
                start: 0xA000,
                end: 0xC000,
                kind: OutputKind::Usable
            },
        ]
    );
}

#[test]
fn kernel_inside_the_boot_carve_out_stays_bootloader() {
    // the real flow starts the cursor past the kernel image, so the kernel
    // already lies inside [0, cursor): one merged Bootloader region
    let regions = vec![RawRegion {
        start: 0,
        len: 0x100000,
        kind: FirmwareKind::Usable,
    }];
    let allocator = FrameAllocator::new_starting_at(0x42000, regions);
    let kernel = CarveOut {
        start: 0x40000,
        end: 0x42000,
    };
    let map = allocator.construct_memory_map(10, kernel, None).unwrap();
    assert_eq!(
        map,
        vec![
            FinalRegion {
                start: 0,
                end: 0x42000,
                kind: OutputKind::Bootloader
            },
            FinalRegion {
                start: 0x42000,
                end: 0x100000,
                kind: OutputKind::Usable
            },
        ]
    );
}

#[test]
fn kernel_straddling_the_cursor_merges_into_one_region() {
    let regions = vec![RawRegion {
        start: 0,
        len: 0x10000,
        kind: FirmwareKind::Usable,
    }];
    let allocator = FrameAllocator::new(regions);
    // starts below the cursor (0x1000), ends above it
    let kernel = CarveOut {
        start: 0x800,
        end: 0x1800,
    };
    let map = allocator.construct_memory_map(10, kernel, None).unwrap();
    assert_eq!(
        map,
        vec![
            FinalRegion {
                start: 0,
                end: 0x1800,
                kind: OutputKind::Bootloader
            },
            FinalRegion {
                start: 0x1800,
                end: 0x10000,
                kind: OutputKind::Usable
            },
        ]
    );
}

#[test]
fn too_small_buffer_fails_deterministically() {
    let regions = create_single_test_region();
    let kernel = CarveOut {
        start: 0x50000,
        end: 0x51000,
    };
    let ramdisk = Some(CarveOut {
        start: 0x60000,
        end: 0x62000,
    });

    // the same scenario needs six regions: five slots must fail, six fit
    let allocator = FrameAllocator::new(create_single_test_region());
    assert!(allocator.construct_memory_map(5, kernel, ramdisk).is_err());

    let allocator = FrameAllocator::new(regions);
    let map = allocator.construct_memory_map(6, kernel, ramdisk).unwrap();
    assert_eq!(map.len(), 6);
}
