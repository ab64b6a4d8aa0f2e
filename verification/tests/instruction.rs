use bit_templates::instruction::{decode_instruction, instruction_table, unpack_instructions, Instruction};
use bit_templates::matcher::select;

#[test]
fn nine_counting_bytes_unpack_to_four_words() {
    assert_eq!(
        unpack_instructions(vec![0, 1, 2, 3, 4, 5, 6, 7, 8]),
        Some([4, 8240, 65857, 132872])
    );
}

#[test]
fn words_are_eighteen_bit_slices_of_the_stream() {
    let bytes: Vec<u8> = vec![0x9a, 0x3c, 0xf1, 0x07, 0xe2, 0x55, 0xb9, 0x6d, 0x80];
    let mut stream: u128 = 0;
    for byte in &bytes {
        stream = (stream << 8) | *byte as u128;
    }
    let expected = [
        ((stream >> 54) & 0x3ffff) as u32,
        ((stream >> 36) & 0x3ffff) as u32,
        ((stream >> 18) & 0x3ffff) as u32,
        (stream & 0x3ffff) as u32,
    ];
    assert_eq!(unpack_instructions(bytes), Some(expected));
}

#[test]
fn bytes_after_the_ninth_are_not_read() {
    let short = vec![0xff, 0xfe, 0xfd, 0xfc, 0xfb, 0xfa, 0xf9, 0xf8, 0xf7];
    let mut long = short.clone();
    long.extend_from_slice(&[1, 2, 3]);
    assert_eq!(unpack_instructions(long), unpack_instructions(short));
}

#[test]
fn all_ones_unpack_to_all_ones() {
    assert_eq!(unpack_instructions(vec![0xff; 9]), Some([0x3ffff; 4]));
}

#[test]
fn an_op_is_decoded_with_its_operands() {
    assert_eq!(decode_instruction(0x17), Instruction::Op { o: 1, a: 1, b: 3 });
    assert_eq!(decode_instruction(0x00), Instruction::Op { o: 0, a: 0, b: 0 });
}

#[test]
fn a_val_is_preferred_to_invalid() {
    assert_eq!(decode_instruction(0x47), Instruction::Val { a: 1, i: 3 });
    assert_eq!(decode_instruction(0x5f), Instruction::Invalid);
    assert_eq!(decode_instruction(0x7f), Instruction::Invalid);
}

#[test]
fn loads_and_stores_are_decoded_with_their_operands() {
    assert_eq!(decode_instruction(0b10_01_10_11), Instruction::Ld { a: 2, b: 3, i: 1 });
    assert_eq!(decode_instruction(0xf7), Instruction::St { a: 1, b: 3, i: 3 });
}

#[test]
fn every_byte_decodes_by_its_top_bits() {
    for inst in 0..=255u8 {
        let second = (inst >> 4) & 3;
        let third = (inst >> 2) & 3;
        let fourth = inst & 3;
        let expected = match inst >> 6 {
            0 => Instruction::Op { o: second, a: third, b: fourth },
            1 if second == 0 => Instruction::Val { a: third, i: fourth },
            1 => Instruction::Invalid,
            2 => Instruction::Ld { a: third, b: fourth, i: second },
            _ => Instruction::St { a: third, b: fourth, i: second },
        };
        assert_eq!(decode_instruction(inst), expected);
    }
}

#[test]
fn the_table_has_a_template_for_every_byte() {
    let table = instruction_table();
    assert_eq!(table.len(), 5);
    let texts: Vec<String> = table.iter().map(|t| t.to_text()).collect();
    assert_eq!(texts, ["00ooaabb", "0100aaii", "01??????", "10iiaabb", "11iiaabb"]);
    for inst in 0..=255u64 {
        assert!(select(inst, &table).is_ok());
    }
}
