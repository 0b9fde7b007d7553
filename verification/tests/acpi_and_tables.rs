use early_boot::acpi::find_rsdp;
use early_boot::frame_allocator::FrameAllocator;
use early_boot::page_table::{
    create_page_tables, extend_identity_mapping, MappingTable, HUGE_PAGE_SIZE,
    IDENTITY_MAP_START,
};
use early_boot::region::{FirmwareKind, RawRegion};

/// A 20-byte root-pointer structure with a valid checksum, placed at
/// `offset` of a zeroed window.
fn window_with_rsdp(len: usize, offset: usize) -> Vec<u8> {
    let mut w = vec![0u8; len];
    let sig = b"RSD PTR ";
    w[offset..offset + 8].copy_from_slice(sig);
    // a plausible payload: checksum, oem id, revision, address
    for (i, b) in [7u8, 66, 79, 79, 84, 83, 0, 1].iter().enumerate() {
        w[offset + 9 + i] = *b;
    }
    let sum: u32 = w[offset..offset + 20].iter().map(|b| *b as u32).sum();
    let fix = (256 - (sum % 256) as u8 as u32) as u8;
    w[offset + 8] = fix.wrapping_add(w[offset + 8]);
    let total: u32 = w[offset..offset + 20].iter().map(|b| *b as u32).sum();
    assert_eq!(total % 256, 0);
    w
}

#[test]
fn rsdp_is_found_at_its_aligned_offset() {
    let w = window_with_rsdp(0x400, 0x120);
    assert_eq!(find_rsdp(&w), Some(0x120));
}

#[test]
fn bad_checksum_means_absent_not_error() {
    let mut w = window_with_rsdp(0x400, 0x120);
    w[0x120 + 10] ^= 0xFF;
    assert_eq!(find_rsdp(&w), None);
}

#[test]
fn unaligned_signature_is_ignored() {
    // same bytes, shifted off the 16-byte grid
    let aligned = window_with_rsdp(0x400, 0x40);
    let mut w = vec![0u8; 0x400];
    w[0x48..0x48 + 20].copy_from_slice(&aligned[0x40..0x40 + 20]);
    assert_eq!(find_rsdp(&w), None);
}

#[test]
fn first_of_two_candidates_wins() {
    let mut w = window_with_rsdp(0x400, 0x200);
    let second = window_with_rsdp(0x400, 0x300);
    w[0x300..0x314].copy_from_slice(&second[0x300..0x314]);
    assert_eq!(find_rsdp(&w), Some(0x200));
}

#[test]
fn remapping_with_identical_flags_changes_nothing() {
    let mut t = MappingTable::new();
    let flags = 0b11;
    t.identity_map_range(IDENTITY_MAP_START, IDENTITY_MAP_START + 4 * HUGE_PAGE_SIZE, flags)
        .unwrap();
    let before = t.entries.clone();
    // idempotent retry: the same range with the same flags is a no-op
    t.identity_map_range(IDENTITY_MAP_START, IDENTITY_MAP_START + 4 * HUGE_PAGE_SIZE, flags)
        .unwrap();
    assert_eq!(t.entries, before);
    assert_eq!(t.entries.len(), 4);
    assert_eq!(t.lookup(IDENTITY_MAP_START), Some(flags));
    assert_eq!(t.lookup(IDENTITY_MAP_START + HUGE_PAGE_SIZE), Some(flags));
}

#[test]
fn incompatible_remap_is_fatal() {
    let mut t = MappingTable::new();
    t.identity_map_range(0, 2 * HUGE_PAGE_SIZE, 0b11).unwrap();
    assert!(t.identity_map_range(HUGE_PAGE_SIZE, 3 * HUGE_PAGE_SIZE, 0b01).is_err());
    // what was already mapped keeps its flags
    assert_eq!(t.lookup(0), Some(0b11));
    assert_eq!(t.lookup(HUGE_PAGE_SIZE), Some(0b11));
}

#[test]
fn identity_extension_covers_reported_memory() {
    let mut t = MappingTable::new();
    // memory ends half a page past an aligned mark: the last partial page
    // is still mapped
    let max_phys = IDENTITY_MAP_START + 2 * HUGE_PAGE_SIZE + HUGE_PAGE_SIZE / 2;
    extend_identity_mapping(&mut t, max_phys, 0b11).unwrap();
    assert_eq!(t.entries.len(), 3);
    assert_eq!(t.lookup(IDENTITY_MAP_START + 2 * HUGE_PAGE_SIZE), Some(0b11));
    assert_eq!(t.lookup(IDENTITY_MAP_START + 3 * HUGE_PAGE_SIZE), None);

    // memory that ends below the pre-mapped window needs nothing
    let mut small = MappingTable::new();
    extend_identity_mapping(&mut small, 0x1000_0000, 0b11).unwrap();
    assert_eq!(small.entries.len(), 0);
}

#[test]
fn extension_starts_at_the_premapped_ten_gigabyte_mark() {
    // the earlier stage identity-maps the first ten gigabytes; the
    // extension picks up exactly there
    assert_eq!(IDENTITY_MAP_START, 4096 * 512 * 512 * 10);
    assert_eq!(IDENTITY_MAP_START, 0x2_8000_0000);
    let mut t = MappingTable::new();
    extend_identity_mapping(&mut t, IDENTITY_MAP_START + 1, 0b11).unwrap();
    assert_eq!(t.entries, vec![(0x2_8000_0000, 0b11)]);
}

#[test]
fn kernel_root_comes_from_the_allocator() {
    let regions = vec![RawRegion {
        start: 0,
        len: 0x10000,
        kind: FirmwareKind::Usable,
    }];
    let mut allocator = FrameAllocator::new_starting_at(0x4000, regions);
    let pt = create_page_tables(0x7000, &mut allocator).unwrap();
    assert_eq!(pt.bootloader_root, 0x7000);
    assert_eq!(pt.kernel_root_frame, 0x4000);
    assert_eq!(pt.kernel_mappings.entries.len(), 0);
    // the root frame is spoken for: the next allocation lies past it
    assert_eq!(allocator.allocate_frame(), Some(0x5000));
}

#[test]
fn exhausted_allocator_fails_table_creation() {
    let regions = vec![RawRegion {
        start: 0,
        len: 0x1000,
        kind: FirmwareKind::Usable,
    }];
    let mut allocator = FrameAllocator::new(regions);
    assert!(create_page_tables(0x7000, &mut allocator).is_err());
}
