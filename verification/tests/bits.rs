use bit_templates::bits::{fits_in, read_bit, MAX_WIDTH};

#[test]
fn bit_zero_is_the_most_significant_bit() {
    assert!(read_bit(0b1000, 4, 0));
    assert!(!read_bit(0b1000, 4, 3));
    assert!(read_bit(0b0001, 4, 3));
    assert!(read_bit(1 << 63, 64, 0));
    assert!(read_bit(1, 64, 63));
    assert!(!read_bit(0b1000, 3, 0));
}

#[test]
fn a_value_fits_when_it_is_below_two_to_the_width() {
    assert!(fits_in(0, 0));
    assert!(!fits_in(1, 0));
    assert!(fits_in(255, 8));
    assert!(!fits_in(256, 8));
    assert!(fits_in(u64::MAX, 64));
    assert!(fits_in(u64::MAX, 1000));
    assert!(!fits_in(u64::MAX, 63));
    assert_eq!(MAX_WIDTH, 64);
}
