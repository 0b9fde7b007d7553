use early_boot::region::{validate_carve_out, CarveOut};

#[test]
fn zero_start_is_a_fatal_configuration_error() {
    assert!(validate_carve_out(0, 0x1000).is_err());
}

#[test]
fn zero_length_is_rejected() {
    assert!(validate_carve_out(0x40000, 0).is_err());
}

#[test]
fn range_past_the_address_space_is_rejected() {
    assert!(validate_carve_out(u64::MAX - 0x10, 0x100).is_err());
}

#[test]
fn valid_range_becomes_a_carve_out() {
    assert_eq!(
        validate_carve_out(0x40000, 0x1000),
        Ok(CarveOut {
            start: 0x40000,
            end: 0x41000
        })
    );
}
