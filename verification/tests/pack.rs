use bit_templates::error::TemplateError;
use bit_templates::field::Field;
use bit_templates::instruction::unpack_instructions;
use bit_templates::packer::{lookup, pack, pack_sequence};
use bit_templates::splitter::split_fields;
use bit_templates::template::{parse_template, Template};

fn template(text: &str) -> Template {
    let width = text.chars().filter(|c| *c != '_' && *c != ' ').count();
    parse_template(text, width).unwrap()
}

fn field(name: char, value: u64, width: usize) -> Field {
    Field { name, value, width }
}

#[test]
fn three_fields_are_packed_side_by_side() {
    let spec = template("aaaaaaaabbbbbbbbcc");
    let fields = [field('a', 0xab, 8), field('b', 0xcd, 8), field('c', 0b10, 2)];
    assert_eq!(pack(&spec, &fields), Ok((0xab << 10) | (0xcd << 2) | 0b10));
    assert_eq!(pack(&spec, &fields), Ok(0x2af36));
}

#[test]
fn a_field_wider_than_its_group_is_a_width_mismatch() {
    let spec = template("aaaaaaaabbbbbbbbcc");
    let wide = [field('a', 0xab, 8), field('b', 0xcd, 8), field('c', 0b110, 3)];
    assert_eq!(pack(&spec, &wide), Err(TemplateError::BitWidthMismatch));
    let overflowing = [field('a', 0xab, 8), field('b', 0xcd, 8), field('c', 0b110, 2)];
    assert_eq!(pack(&spec, &overflowing), Err(TemplateError::BitWidthMismatch));
}

#[test]
fn a_field_narrower_than_its_group_is_a_width_mismatch() {
    let spec = template("aaaa");
    assert_eq!(pack(&spec, &[field('a', 1, 3)]), Err(TemplateError::BitWidthMismatch));
    assert_eq!(pack(&spec, &[field('a', 1, 4)]), Ok(1));
}

#[test]
fn a_field_wider_than_a_word_is_a_width_mismatch() {
    let spec = template("aaaa");
    assert_eq!(pack(&spec, &[field('a', 1, 65)]), Err(TemplateError::BitWidthMismatch));
}

#[test]
fn a_group_without_a_value_is_an_unknown_name() {
    let spec = template("aabb");
    assert_eq!(pack(&spec, &[field('a', 1, 2)]), Err(TemplateError::UnknownCaptureName));
    assert_eq!(pack(&spec, &[]), Err(TemplateError::UnknownCaptureName));
}

#[test]
fn a_wildcard_cannot_be_packed() {
    let spec = template("aa?b");
    let fields = [field('a', 1, 2), field('b', 1, 1)];
    assert_eq!(pack(&spec, &fields), Err(TemplateError::MalformedTemplate));
}

#[test]
fn a_wildcard_is_reported_before_an_unknown_name_and_that_before_a_mismatch() {
    assert_eq!(
        pack(&template("a?b"), &[field('a', 1, 5)]),
        Err(TemplateError::MalformedTemplate)
    );
    assert_eq!(
        pack(&template("ab"), &[field('a', 1, 5)]),
        Err(TemplateError::UnknownCaptureName)
    );
}

#[test]
fn literals_are_emitted_as_written() {
    let spec = template("0011aaaabbbbaaaa");
    let fields = [field('a', 0xcd, 8), field('b', 0xf, 4)];
    assert_eq!(pack(&spec, &fields), Ok(0x3cfd));
    assert_eq!(pack(&template("1010"), &[]), Ok(0b1010));
    assert_eq!(pack(&template(""), &[]), Ok(0));
}

#[test]
fn bits_of_a_value_are_placed_from_left_to_right() {
    let spec = template("xyxy_xyxy");
    assert_eq!(pack(&spec, &[field('x', 0xf, 4), field('y', 0, 4)]), Ok(0xaa));
    assert_eq!(pack(&spec, &[field('x', 0b1000, 4), field('y', 0b0001, 4)]), Ok(0b1000_0001));
}

#[test]
fn values_that_the_template_does_not_name_are_ignored() {
    let spec = template("aa");
    let fields = [field('z', 9, 4), field('a', 2, 2), field('q', 0, 70)];
    assert_eq!(pack(&spec, &fields), Ok(2));
}

#[test]
fn the_first_field_of_a_name_is_its_value() {
    let fields = [field('a', 2, 2), field('b', 1, 1), field('a', 3, 2)];
    assert_eq!(lookup(&fields, 'a'), Some(field('a', 2, 2)));
    assert_eq!(lookup(&fields, 'b'), Some(field('b', 1, 1)));
    assert_eq!(lookup(&fields, 'c'), None);
    assert_eq!(pack(&template("aa"), &fields), Ok(2));
}

#[test]
fn a_full_word_can_be_packed() {
    let text = "w".repeat(64);
    let spec = parse_template(&text, 64).unwrap();
    assert_eq!(pack(&spec, &[field('w', u64::MAX, 64)]), Ok(u64::MAX));
    assert_eq!(pack(&spec, &[field('w', 0x8000_0000_0000_0001, 64)]), Ok(0x8000_0000_0000_0001));
}

#[test]
fn packing_and_matching_recover_the_fields() {
    let spec = template("01aa_bbba_cccc_c1ba");
    let fields = vec![field('a', 0b1011, 4), field('b', 0b0110, 4), field('c', 0b10101, 5)];
    let word = pack(&spec, &fields).unwrap();
    assert!(spec.matches(word));
    assert_eq!(spec.captures(word), fields);
}

#[test]
fn packing_and_matching_recover_every_value_of_a_small_template() {
    let spec = template("a1ba_0bab");
    for a in 0..8u64 {
        for b in 0..8u64 {
            let fields = vec![field('a', a, 3), field('b', b, 3)];
            let word = pack(&spec, &fields).unwrap();
            assert!(spec.matches(word));
            assert_eq!(spec.captures(word), fields);
        }
    }
}

#[test]
fn matching_and_packing_recover_the_word() {
    let spec = template("a1ba_0bab");
    for word in 0..256u64 {
        if spec.matches(word) {
            assert_eq!(pack(&spec, &spec.captures(word)), Ok(word));
        }
    }
}

#[test]
fn packing_and_splitting_recover_the_fields() {
    let spec = template("aabb_bccc");
    let fields = [field('a', 0b10, 2), field('b', 0b011, 3), field('c', 0b101, 3)];
    let word = pack(&spec, &fields).unwrap();
    assert_eq!(split_fields(word as u8, &[(7, 6), (5, 3), (2, 0)]), Ok(vec![0b10, 0b011, 0b101]));
}

#[test]
fn several_words_share_the_values() {
    let specs = [template("aaaa_bbbb"), template("bbbb_cccc")];
    let fields = [field('a', 0x1, 4), field('b', 0x23, 8), field('c', 0x4, 4)];
    assert_eq!(pack_sequence(&specs, &fields), Ok(vec![0x12, 0x34]));
}

#[test]
fn several_words_must_take_every_bit_of_a_value() {
    let specs = [template("aaaa_bbbb"), template("bbbb_cccc")];
    let short = [field('a', 0x1, 4), field('b', 0x23, 9), field('c', 0x4, 4)];
    assert_eq!(pack_sequence(&specs, &short), Err(TemplateError::BitWidthMismatch));
    let long = [field('a', 0x1, 4), field('b', 0x23, 7), field('c', 0x4, 4)];
    assert_eq!(pack_sequence(&specs, &long), Err(TemplateError::BitWidthMismatch));
    assert_eq!(pack(&specs[0], &[field('a', 0x1, 4), field('b', 0x23, 8)]), Err(TemplateError::BitWidthMismatch));
}

#[test]
fn several_words_report_errors_in_the_order_of_their_kind() {
    let fields = [field('a', 1, 9)];
    let specs = [template("ab"), template("a?")];
    assert_eq!(pack_sequence(&specs, &fields), Err(TemplateError::MalformedTemplate));
    let specs = [template("aa"), template("ab")];
    assert_eq!(pack_sequence(&specs, &fields), Err(TemplateError::UnknownCaptureName));
    let specs = [template("aa"), template("aa")];
    assert_eq!(pack_sequence(&specs, &fields), Err(TemplateError::BitWidthMismatch));
}

#[test]
fn no_template_gives_no_word() {
    assert_eq!(pack_sequence(&[], &[field('a', 1, 1)]), Ok(vec![]));
}

#[test]
fn one_template_in_a_sequence_packs_as_alone() {
    let spec = template("aaaaaaaabbbbbbbbcc");
    let fields = [field('a', 0xab, 8), field('b', 0xcd, 8), field('c', 0b10, 2)];
    let alone = pack(&spec, &fields).unwrap();
    assert_eq!(pack_sequence(&[spec], &fields), Ok(vec![alone]));
}

#[test]
fn four_instruction_words_from_carved_bytes() {
    let bytes: Vec<u8> = vec![0x9a, 0x3c, 0xf1, 0x07, 0xe2, 0x55, 0xb9, 0x6d, 0x80];
    let specs = [
        template("aaaaaaaabbbbbbbbcc"),
        template("ddddddeeeeeeeeffff"),
        template("gggghhhhhhhhiiiiii"),
        template("jjkkkkkkkkllllllll"),
    ];
    let fields = [
        field('a', bytes[0] as u64, 8),
        field('b', bytes[1] as u64, 8),
        field('c', (bytes[2] >> 6) as u64, 2),
        field('d', (bytes[2] & 0x3f) as u64, 6),
        field('e', bytes[3] as u64, 8),
        field('f', (bytes[4] >> 4) as u64, 4),
        field('g', (bytes[4] & 0x0f) as u64, 4),
        field('h', bytes[5] as u64, 8),
        field('i', (bytes[6] >> 2) as u64, 6),
        field('j', (bytes[6] & 0x03) as u64, 2),
        field('k', bytes[7] as u64, 8),
        field('l', bytes[8] as u64, 8),
    ];
    let words = pack_sequence(&specs, &fields).unwrap();
    let unpacked = unpack_instructions(bytes).unwrap();
    assert_eq!(words, unpacked.iter().map(|w| *w as u64).collect::<Vec<u64>>());
}

#[test]
fn four_instruction_words_from_whole_bytes() {
    let bytes: Vec<u8> = vec![0x9a, 0x3c, 0xf1, 0x07, 0xe2, 0x55, 0xb9, 0x6d, 0x80];
    let specs = [
        template("aaaaaaaabbbbbbbbcc"),
        template("ccccccddddddddeeee"),
        template("eeeeffffffffgggggg"),
        template("gghhhhhhhhiiiiiiii"),
    ];
    let fields: Vec<Field> = "abcdefghi"
        .chars()
        .zip(bytes.iter())
        .map(|(name, byte)| field(name, *byte as u64, 8))
        .collect();
    let words = pack_sequence(&specs, &fields).unwrap();
    let unpacked = unpack_instructions(bytes).unwrap();
    assert_eq!(words, unpacked.iter().map(|w| *w as u64).collect::<Vec<u64>>());
}
