use bit_templates::error::TemplateError;
use bit_templates::splitter::split_fields;

#[test]
fn a_byte_is_split_into_four_pairs_of_bits() {
    assert_eq!(
        split_fields(0b11001010, &[(7, 6), (5, 4), (3, 2), (1, 0)]),
        Ok(vec![3, 0, 2, 2])
    );
}

#[test]
fn ranges_may_overlap_and_come_in_any_order() {
    assert_eq!(
        split_fields(0b1011_0110, &[(0, 0), (7, 0), (7, 7), (6, 1), (3, 3), (7, 4), (3, 0)]),
        Ok(vec![0, 0b1011_0110, 1, 0b01_1011, 0, 0b1011, 0b0110])
    );
}

#[test]
fn the_whole_byte_is_a_range() {
    for byte in 0..=255u8 {
        assert_eq!(split_fields(byte, &[(7, 0)]), Ok(vec![byte]));
    }
}

#[test]
fn every_range_of_every_byte_follows_the_formula() {
    for byte in 0..=255u8 {
        for high in 0..8u8 {
            for low in 0..=high {
                let expected = ((byte as u32 >> low) & ((1u32 << (high - low + 1)) - 1)) as u8;
                assert_eq!(split_fields(byte, &[(high, low)]), Ok(vec![expected]));
            }
        }
    }
}

#[test]
fn no_range_gives_no_value() {
    assert_eq!(split_fields(0xff, &[]), Ok(vec![]));
}

#[test]
fn a_high_bit_below_the_low_bit_is_invalid() {
    assert_eq!(split_fields(0xff, &[(3, 4)]), Err(TemplateError::InvalidRange));
    assert_eq!(split_fields(0xff, &[(7, 6), (0, 1)]), Err(TemplateError::InvalidRange));
}

#[test]
fn a_bit_above_the_byte_is_invalid() {
    assert_eq!(split_fields(0xff, &[(8, 0)]), Err(TemplateError::InvalidRange));
    assert_eq!(split_fields(0xff, &[(8, 8)]), Err(TemplateError::InvalidRange));
    assert_eq!(split_fields(0xff, &[(255, 0)]), Err(TemplateError::InvalidRange));
    assert_eq!(split_fields(0xff, &[(7, 6), (9, 8)]), Err(TemplateError::InvalidRange));
}
