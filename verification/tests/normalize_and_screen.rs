use early_boot::normalize::{normalize_memory_map, sort_regions};
use early_boot::region::{FirmwareKind, RawRegion};
use early_boot::screen::{print_str, Writer};

#[test]
fn empty_memory_map_is_fatal_before_anything_else() {
    let mut empty: Vec<RawRegion> = Vec::new();
    assert!(normalize_memory_map(&mut empty).is_err());
    assert!(empty.is_empty());
}

#[test]
fn normalization_sorts_by_start_without_merging() {
    let mut regions = vec![
        RawRegion {
            start: 0x9000,
            len: 0x1000,
            kind: FirmwareKind::Usable,
        },
        RawRegion {
            start: 0x1000,
            len: 0x2000,
            kind: FirmwareKind::Reserved,
        },
        RawRegion {
            start: 0x3000,
            len: 0x6000,
            kind: FirmwareKind::Usable,
        },
    ];
    normalize_memory_map(&mut regions).unwrap();
    assert_eq!(regions.len(), 3);
    assert_eq!(regions[0].start, 0x1000);
    assert_eq!(regions[1].start, 0x3000);
    assert_eq!(regions[2].start, 0x9000);
    // adjacent regions stay separate: sorting never merges
    assert_eq!(regions[1].len, 0x6000);
    assert_eq!(regions[2].len, 0x1000);
}

#[test]
fn sorting_keeps_every_entry() {
    let mut regions = vec![
        RawRegion {
            start: 5,
            len: 1,
            kind: FirmwareKind::UnknownBios(42),
        },
        RawRegion {
            start: 5,
            len: 2,
            kind: FirmwareKind::Usable,
        },
        RawRegion {
            start: 1,
            len: 7,
            kind: FirmwareKind::Usable,
        },
    ];
    sort_regions(&mut regions);
    assert_eq!(regions[0].start, 1);
    // the sort is stable: the two equal-start entries keep their input order
    assert_eq!(
        regions[1],
        RawRegion {
            start: 5,
            len: 1,
            kind: FirmwareKind::UnknownBios(42)
        }
    );
    assert_eq!(
        regions[2],
        RawRegion {
            start: 5,
            len: 2,
            kind: FirmwareKind::Usable
        }
    );
}

#[test]
fn ascii_text_passes_through_with_crlf() {
    assert_eq!(print_str("Hi"), vec![72, 105]);
    // a line feed gains a carriage return
    assert_eq!(print_str("a\nb"), vec![97, 10, 13, 98]);
}

#[test]
fn non_ascii_characters_become_x() {
    assert_eq!(print_str("é"), vec![b'X']);
    assert_eq!(print_str("aé\n"), vec![b'a', b'X', 10, 13]);
}

#[test]
fn writer_accumulates_encoded_lines() {
    let mut w = Writer::new();
    w.write_str("ok\n");
    w.write_str("!");
    assert_eq!(w.buffer, vec![b'o', b'k', 10, 13, b'!']);
}
