//! A small instruction set: instruction words of 18 bits packed in a stream
//! of bytes, and instructions of one byte decoded against their templates.

use crate::bits::{
    bit_at, bit_weight, bits_of, lemma_slice_value, lemma_value_of_bits_of, lemma_value_of_concat,
    value_of,
};
use crate::matcher::select;
use crate::template::{
    all_symbols, cleaned, group_value, is_separator, lemma_contiguous_group, lemma_literal_prefix,
    parse_template, parsed, symbol, template_matches, BitSpec, Template,
};
use vstd::arithmetic::div_mod::lemma_small_mod;
use vstd::arithmetic::power2::{lemma2_to64, lemma_pow2_adds, pow2};
use vstd::prelude::*;

verus! {

/// The number of bytes that hold four instruction words.
pub const GROUP_BYTES: usize = 9;

/// The bits of a sequence of bytes, one byte after the other, each byte
/// most significant bit first.
pub open spec fn stream_bits(bytes: Seq<u8>) -> Seq<bool> {
    Seq::new(8 * bytes.len(), |k: int| bit_at(bytes[k / 8] as nat, 8, k % 8))
}

/// Instruction word number `n` of a byte stream: the number written by the
/// bits `18 * n` to `18 * n + 17` of the stream.
pub open spec fn instruction_word(bytes: Seq<u8>, n: int) -> nat {
    value_of(stream_bits(bytes).subrange(18 * n, 18 * n + 18))
}

/// The number written by three runs of bits side by side.
proof fn lemma_value_of_three(high: Seq<bool>, middle: Seq<bool>, low: Seq<bool>)
    ensures
        value_of(high + middle + low) == (value_of(high) * pow2(middle.len()) + value_of(middle))
            * pow2(low.len()) + value_of(low),
{
    lemma_value_of_concat(high, middle);
    lemma_value_of_concat(high + middle, low);
}

/// An instruction word that starts `8 - kept` bits into the byte at `at`: it
/// holds the last `kept` bits of that byte, the whole byte after it, and the
/// first `10 - kept` bits of the byte after that. `keep`, `shift` and `drop`
/// are the powers of two that cut the first and the last of the three bytes.
proof fn lemma_word_of_three_bytes(
    bytes: Seq<u8>,
    n: int,
    at: int,
    kept: int,
    keep: nat,
    shift: nat,
    drop: nat,
)
    requires
        0 <= at,
        at + 2 < bytes.len(),
        2 <= kept <= 8,
        18 * n == 8 * at + (8 - kept),
        keep == pow2(kept as nat),
        shift == pow2((10 - kept) as nat),
        drop == pow2((kept - 2) as nat),
    ensures
        instruction_word(bytes, n) == ((bytes[at] as nat % keep) * 256 + bytes[at + 1] as nat)
            * shift + bytes[at + 2] as nat / drop,
{
    let first = bits_of(bytes[at] as nat, 8);
    let second = bits_of(bytes[at + 1] as nat, 8);
    let third = bits_of(bytes[at + 2] as nat, 8);
    let high = first.subrange(8 - kept, 8);
    let low = third.subrange(0, 10 - kept);
    let word = stream_bits(bytes).subrange(18 * n, 18 * n + 18);
    assert(word =~= high + second + low);
    lemma_value_of_three(high, second, low);
    lemma2_to64();
    lemma_slice_value(bytes[at] as nat, 8, 8 - kept, 8, 1, keep);
    lemma_slice_value(bytes[at + 2] as nat, 8, 0, 10 - kept, drop, shift);
    lemma_value_of_bits_of(bytes[at + 1] as nat, 8);
    let last: u8 = bytes[at + 2];
    lemma_pow2_adds((kept - 2) as nat, (10 - kept) as nat);
    assert(last as nat / drop < shift) by (nonlinear_arith)
        requires
            last < drop * shift,
            drop > 0,
    ;
    lemma_small_mod(last as nat / drop, shift);
}

/// The four instruction words of nine bytes, written with the bytes: each
/// word takes what the word before it left of a byte, a whole byte, and the
/// first bits of the next byte.
pub proof fn lemma_instruction_words(bytes: Seq<u8>)
    requires
        bytes.len() >= 9,
    ensures
        instruction_word(bytes, 0) == (bytes[0] * 256 + bytes[1]) * 4 + bytes[2] / 64,
        instruction_word(bytes, 1) == ((bytes[2] % 64) * 256 + bytes[3]) * 16 + bytes[4] / 16,
        instruction_word(bytes, 2) == ((bytes[4] % 16) * 256 + bytes[5]) * 64 + bytes[6] / 4,
        instruction_word(bytes, 3) == ((bytes[6] % 4) * 256 + bytes[7]) * 256 + bytes[8],
{
    lemma2_to64();
    lemma_word_of_three_bytes(bytes, 0, 0, 8, 256, 4, 64);
    lemma_word_of_three_bytes(bytes, 1, 2, 6, 64, 16, 16);
    lemma_word_of_three_bytes(bytes, 2, 4, 4, 16, 64, 4);
    lemma_word_of_three_bytes(bytes, 3, 6, 2, 4, 256, 1);
    let first: u8 = bytes[0];
    assert(first as nat % 256 == first as nat);
}

/// Unpacks the four 18-bit instruction words that the first nine bytes of
/// `bytes` hold: the 72 bits of the nine bytes, each byte most significant
/// bit first, cut into four words of 18 bits. Bytes after the ninth are not
/// read.
pub fn unpack_instructions(bytes: std::vec::Vec<u8>) -> (r: Option<[u32; 4]>)
    requires
        bytes@.len() >= GROUP_BYTES,
    ensures
        match r {
            Some(words) => forall|n: int|
                0 <= n < 4 ==> #[trigger] words[n] == instruction_word(bytes@, n),
            None => false,
        },
{
    let a = bytes[0];
    let b = bytes[1];
    let cd = bytes[2];
    let e = bytes[3];
    let fg = bytes[4];
    let h = bytes[5];
    let ij = bytes[6];
    let k = bytes[7];
    let l = bytes[8];
    let c = (cd & 0b11000000) >> 6;
    let d = cd & 0b00111111;
    let f = (fg & 0b11110000) >> 4;
    let g = fg & 0b00001111;
    let i = (ij & 0b11111100) >> 2;
    let j = ij & 0b00000011;
    let ins1: u32 = (a as u32) << 10 | (b as u32) << 2 | (c as u32);
    let ins2: u32 = (d as u32) << 12 | (e as u32) << 4 | (f as u32);
    let ins3: u32 = (g as u32) << 14 | (h as u32) << 6 | (i as u32);
    let ins4: u32 = (j as u32) << 16 | (k as u32) << 8 | (l as u32);
    proof {
        lemma2_to64();
        assert(ins1 == (a as u32 * 256 + b as u32) * 4 + (cd / 64) as u32) by (bit_vector)
            requires
                c == (cd & 0b11000000) >> 6,
                ins1 == (a as u32) << 10 | (b as u32) << 2 | (c as u32),
        ;
        assert(ins2 == ((cd % 64) as u32 * 256 + e as u32) * 16 + (fg / 16) as u32) by (bit_vector)
            requires
                d == cd & 0b00111111,
                f == (fg & 0b11110000) >> 4,
                ins2 == (d as u32) << 12 | (e as u32) << 4 | (f as u32),
        ;
        assert(ins3 == ((fg % 16) as u32 * 256 + h as u32) * 64 + (ij / 4) as u32) by (bit_vector)
            requires
                g == fg & 0b00001111,
                i == (ij & 0b11111100) >> 2,
                ins3 == (g as u32) << 14 | (h as u32) << 6 | (i as u32),
        ;
        assert(ins4 == ((ij % 4) as u32 * 256 + k as u32) * 256 + l as u32) by (bit_vector)
            requires
                j == ij & 0b00000011,
                ins4 == (j as u32) << 16 | (k as u32) << 8 | (l as u32),
        ;
        lemma_instruction_words(bytes@);
    }
    let words = [ins1, ins2, ins3, ins4];
    assert(words[0] == ins1 && words[1] == ins2 && words[2] == ins3 && words[3] == ins4);
    Some(words)
}

/// One instruction of the machine, with its operands.
#[derive(Clone, Copy, Debug, PartialEq, Eq, Structural)]
pub enum Instruction {
    /// An operation `o` on the registers `a` and `b`.
    Op { o: u8, a: u8, b: u8 },
    /// The value `i` for the register `a`.
    Val { a: u8, i: u8 },
    /// A word that is no instruction.
    Invalid,
    /// A load: registers `a` and `b`, variant `i`.
    Ld { a: u8, b: u8, i: u8 },
    /// A store: registers `a` and `b`, variant `i`.
    St { a: u8, b: u8, i: u8 },
}

/// The instruction that the byte `inst` stands for. The two top bits choose
/// the kind; of the words that start with `01`, only those that go on with
/// `00` are instructions.
pub open spec fn instruction_of(inst: u8) -> Instruction {
    let kind = inst / 64;
    let second = (inst / 16) % 4;
    let third = (inst / 4) % 4;
    let fourth = inst % 4;
    if kind == 0 {
        Instruction::Op { o: second, a: third, b: fourth }
    } else if kind == 1 {
        if second == 0 {
            Instruction::Val { a: third, i: fourth }
        } else {
            Instruction::Invalid
        }
    } else if kind == 2 {
        Instruction::Ld { a: third, b: fourth, i: second }
    } else {
        Instruction::St { a: third, b: fourth, i: second }
    }
}

/// The template of eight bits that `text` is the notation of.
pub open spec fn template_of(text: Seq<char>) -> Seq<BitSpec> {
    parsed(text, 8)->0
}

/// The templates of the instructions, in the order in which they are tried:
/// `Op`, `Val`, `Invalid`, `Ld` and `St`.
pub open spec fn instruction_templates() -> Seq<Seq<BitSpec>> {
    seq![
        template_of("00oo_aabb"@),
        template_of("0100_aaii"@),
        template_of("01??_????"@),
        template_of("10ii_aabb"@),
        template_of("11ii_aabb"@),
    ]
}

/// The template of a kind of instruction with three operands of two bits.
spec fn three_operands(upper: bool, lower: bool, first: char, second: char, third: char) -> Seq<BitSpec> {
    seq![
        BitSpec::Literal(upper),
        BitSpec::Literal(lower),
        BitSpec::Capture(first),
        BitSpec::Capture(first),
        BitSpec::Capture(second),
        BitSpec::Capture(second),
        BitSpec::Capture(third),
        BitSpec::Capture(third),
    ]
}

/// The template of `Val`.
spec fn val_bits() -> Seq<BitSpec> {
    seq![
        BitSpec::Literal(false),
        BitSpec::Literal(true),
        BitSpec::Literal(false),
        BitSpec::Literal(false),
        BitSpec::Capture('a'),
        BitSpec::Capture('a'),
        BitSpec::Capture('i'),
        BitSpec::Capture('i'),
    ]
}

/// The template of `Invalid`.
spec fn invalid_bits() -> Seq<BitSpec> {
    seq![
        BitSpec::Literal(false),
        BitSpec::Literal(true),
        BitSpec::Wildcard,
        BitSpec::Wildcard,
        BitSpec::Wildcard,
        BitSpec::Wildcard,
        BitSpec::Wildcard,
        BitSpec::Wildcard,
    ]
}

/// What the five texts of the instruction templates parse to.
proof fn lemma_instruction_templates()
    ensures
        parsed("00oo_aabb"@, 8) == Some(three_operands(false, false, 'o', 'a', 'b')),
        parsed("0100_aaii"@, 8) == Some(val_bits()),
        parsed("01??_????"@, 8) == Some(invalid_bits()),
        parsed("10ii_aabb"@, 8) == Some(three_operands(true, false, 'i', 'a', 'b')),
        parsed("11ii_aabb"@, 8) == Some(three_operands(true, true, 'i', 'a', 'b')),
{
    reveal_strlit("00oo_aabb");
    reveal_strlit("0100_aaii");
    reveal_strlit("01??_????");
    reveal_strlit("10ii_aabb");
    reveal_strlit("11ii_aabb");
    lemma_text_of_eight("00oo_aabb"@, three_operands(false, false, 'o', 'a', 'b'));
    lemma_text_of_eight("0100_aaii"@, val_bits());
    lemma_text_of_eight("01??_????"@, invalid_bits());
    lemma_text_of_eight("10ii_aabb"@, three_operands(true, false, 'i', 'a', 'b'));
    lemma_text_of_eight("11ii_aabb"@, three_operands(true, true, 'i', 'a', 'b'));
}

/// A text of two groups of four symbols with a separator between them
/// parses to the eight bits that its symbols mean.
proof fn lemma_text_of_eight(text: Seq<char>, bits: Seq<BitSpec>)
    requires
        text.len() == 9,
        bits.len() == 8,
        text[4] == '_',
        forall|i: int| 0 <= i < 4 ==> symbol(text[i]) == Some(bits[i]),
        forall|i: int| 4 <= i < 8 ==> symbol(text[i + 1]) == Some(bits[i]),
        forall|i: int| 0 <= i < 9 && i != 4 ==> !is_separator(text[i]),
    ensures
        parsed(text, 8) == Some(bits),
{
    let symbols = text.take(4) + text.skip(5);
    assert(cleaned(text) =~= symbols) by {
        reveal_with_fuel(cleaned, 10);
    }
    assert forall|i: int| 0 <= i < symbols.len() implies symbol(symbols[i]) == Some(bits[i]) by {
        if i >= 4 {
            assert(symbols[i] == text[i + 1]);
        }
    }
    assert(all_symbols(symbols));
    assert(symbols.map_values(|c: char| symbol(c)->0) =~= bits);
}

/// What a template with three operands of two bits matches and captures.
proof fn lemma_three_operands(
    value: nat,
    upper: bool,
    lower: bool,
    first: char,
    second: char,
    third: char,
)
    requires
        value < 256,
        first != second,
        first != third,
        second != third,
    ensures
        template_matches(three_operands(upper, lower, first, second, third), value) <==> value / 64
            == 2 * bit_weight(upper) + bit_weight(lower),
        group_value(three_operands(upper, lower, first, second, third), value, first) == (value / 16)
            % 4,
        group_value(three_operands(upper, lower, first, second, third), value, second) == (value / 4)
            % 4,
        group_value(three_operands(upper, lower, first, second, third), value, third) == value % 4,
{
    let bits = three_operands(upper, lower, first, second, third);
    lemma2_to64();
    assert(value_of(seq![upper, lower]) == 2 * bit_weight(upper) + bit_weight(lower)) by {
        reveal_with_fuel(value_of, 3);
    }
    lemma_literal_prefix(bits, value, seq![upper, lower], 64);
    lemma_contiguous_group(bits, value, first, 2, 4, 16, 4);
    lemma_contiguous_group(bits, value, second, 4, 6, 4, 4);
    lemma_contiguous_group(bits, value, third, 6, 8, 1, 4);
}

/// What the template of `Val` matches and captures.
proof fn lemma_val(value: nat)
    requires
        value < 256,
    ensures
        template_matches(val_bits(), value) <==> value / 16 == 4,
        group_value(val_bits(), value, 'a') == (value / 4) % 4,
        group_value(val_bits(), value, 'i') == value % 4,
{
    lemma2_to64();
    assert(value_of(seq![false, true, false, false]) == 4) by {
        reveal_with_fuel(value_of, 5);
    }
    lemma_literal_prefix(val_bits(), value, seq![false, true, false, false], 16);
    lemma_contiguous_group(val_bits(), value, 'a', 4, 6, 4, 4);
    lemma_contiguous_group(val_bits(), value, 'i', 6, 8, 1, 4);
}

/// What the template of `Invalid` matches.
proof fn lemma_invalid(value: nat)
    requires
        value < 256,
    ensures
        template_matches(invalid_bits(), value) <==> value / 64 == 1,
{
    lemma2_to64();
    assert(value_of(seq![false, true]) == 1) by {
        reveal_with_fuel(value_of, 3);
    }
    lemma_literal_prefix(invalid_bits(), value, seq![false, true], 64);
}

/// Builds the templates of the instructions, in the order in which they are
/// tried.
pub fn instruction_table() -> (table: Vec<Template>)
    ensures
        table@.len() == 5,
        forall|k: int| 0 <= k < 5 ==> (#[trigger] table@[k])@ == instruction_templates()[k],
{
    proof {
        lemma_instruction_templates();
    }
    let mut table: Vec<Template> = Vec::new();
    match parse_template("00oo_aabb", 8) {
        Ok(t) => table.push(t),
        Err(_) => {},
    }
    match parse_template("0100_aaii", 8) {
        Ok(t) => table.push(t),
        Err(_) => {},
    }
    match parse_template("01??_????", 8) {
        Ok(t) => table.push(t),
        Err(_) => {},
    }
    match parse_template("10ii_aabb", 8) {
        Ok(t) => table.push(t),
        Err(_) => {},
    }
    match parse_template("11ii_aabb", 8) {
        Ok(t) => table.push(t),
        Err(_) => {},
    }
    table
}

/// Decodes the byte `inst` against the templates of the instructions: the
/// first template that the byte matches tells the kind of the instruction,
/// and its capture groups are the operands.
pub fn decode_instruction(inst: u8) -> (r: Instruction)
    ensures
        r == instruction_of(inst),
{
    let table = instruction_table();
    let value = inst as u64;
    proof {
        lemma_instruction_templates();
        lemma_three_operands(value as nat, false, false, 'o', 'a', 'b');
        lemma_val(value as nat);
        lemma_invalid(value as nat);
        lemma_three_operands(value as nat, true, false, 'i', 'a', 'b');
        lemma_three_operands(value as nat, true, true, 'i', 'a', 'b');
    }
    match select(value, table.as_slice()) {
        Ok(index) => {
            proof {
                let tried = table@.take(index as int);
                assert forall|j: int| 0 <= j < index implies !template_matches(
                    table@[j]@,
                    value as nat,
                ) by {
                    assert(tried[j] == table@[j]);
                }
            }
            let chosen = &table[index];
            proof {
                assert(table@[0]@ == three_operands(false, false, 'o', 'a', 'b'));
                assert(table@[1]@ == val_bits());
                assert(table@[2]@ == invalid_bits());
                assert(table@[3]@ == three_operands(true, false, 'i', 'a', 'b'));
                assert(table@[4]@ == three_operands(true, true, 'i', 'a', 'b'));
            }
            if index == 0 {
                Instruction::Op {
                    o: chosen.capture(value, 'o').value as u8,
                    a: chosen.capture(value, 'a').value as u8,
                    b: chosen.capture(value, 'b').value as u8,
                }
            } else if index == 1 {
                Instruction::Val {
                    a: chosen.capture(value, 'a').value as u8,
                    i: chosen.capture(value, 'i').value as u8,
                }
            } else if index == 2 {
                Instruction::Invalid
            } else if index == 3 {
                Instruction::Ld {
                    a: chosen.capture(value, 'a').value as u8,
                    b: chosen.capture(value, 'b').value as u8,
                    i: chosen.capture(value, 'i').value as u8,
                }
            } else {
                Instruction::St {
                    a: chosen.capture(value, 'a').value as u8,
                    b: chosen.capture(value, 'b').value as u8,
                    i: chosen.capture(value, 'i').value as u8,
                }
            }
        },
        Err(_) => {
            proof {
                assert(!template_matches(table@[0]@, value as nat));
                assert(!template_matches(table@[2]@, value as nat));
                assert(!template_matches(table@[3]@, value as nat));
                assert(!template_matches(table@[4]@, value as nat));
            }
            Instruction::Invalid
        },
    }
}

} // verus!
