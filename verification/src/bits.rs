//! The mathematical model shared by the whole crate: an unsigned number seen
//! as a sequence of bits, most significant bit first.

use vstd::arithmetic::div_mod::{lemma_div_denominator, lemma_mod_breakdown, lemma_small_mod};
use vstd::arithmetic::power2::{
    lemma2_to64, lemma_pow2_adds, lemma_pow2_pos, lemma_pow2_strictly_increases, lemma_pow2_unfold,
    pow2,
};
use vstd::bits::lemma_u64_shr_is_div;
use vstd::prelude::*;

verus! {

/// The number of bits of the widest word that the engine works on.
pub const MAX_WIDTH: usize = 64;

/// Bit `i` of `value` read as a word of `width` bits, where bit 0 is the most
/// significant one.
pub open spec fn bit_at(value: nat, width: nat, i: int) -> bool {
    (value / pow2((width - 1 - i) as nat)) % 2 == 1
}

/// The `width` low bits of `value`, most significant first.
pub open spec fn bits_of(value: nat, width: nat) -> Seq<bool> {
    Seq::new(width, |i: int| bit_at(value, width, i))
}

/// The number that a bit in a word stands for: 1 when set, 0 when clear.
pub open spec fn bit_weight(b: bool) -> nat {
    if b {
        1
    } else {
        0
    }
}

/// The unsigned number written by `bits`, most significant bit first.
pub open spec fn value_of(bits: Seq<bool>) -> nat
    decreases bits.len(),
{
    if bits.len() == 0 {
        0
    } else {
        2 * value_of(bits.drop_last()) + bit_weight(bits.last())
    }
}

/// Whether `value` can be written with `width` bits.
pub open spec fn fits(value: nat, width: nat) -> bool {
    value < pow2(width)
}

/// Dropping the last bit of a word halves the number.
pub proof fn lemma_bits_of_unfold(value: nat, width: nat)
    requires
        width > 0,
    ensures
        bits_of(value, width) == bits_of(value / 2, (width - 1) as nat).push(value % 2 == 1),
{
    let w1 = (width - 1) as nat;
    let lhs = bits_of(value, width);
    let rhs = bits_of(value / 2, w1).push(value % 2 == 1);
    assert forall|i: int| 0 <= i < width implies lhs[i] == rhs[i] by {
        if i == width - 1 {
            lemma2_to64();
            assert(value / pow2(0) == value);
        } else {
            let e = (w1 - 1 - i) as nat;
            lemma_pow2_pos(e);
            lemma_pow2_unfold(e + 1);
            lemma_div_denominator(value as int, 2, pow2(e) as int);
            assert((width - 1 - i) as nat == e + 1);
            assert(value / pow2(e + 1) == (value / 2) / pow2(e));
        }
    }
    assert(lhs =~= rhs);
}

/// A word of `n` bits writes a number below two to the `n`.
pub proof fn lemma_value_of_bound(bits: Seq<bool>)
    ensures
        fits(value_of(bits), bits.len()),
    decreases bits.len(),
{
    if bits.len() == 0 {
        lemma2_to64();
    } else {
        lemma_value_of_bound(bits.drop_last());
        lemma_pow2_unfold(bits.len());
    }
}

/// Writing a number with `width` bits and reading the bits back keeps the
/// number when it fits, and its remainder modulo two to the `width` when it
/// does not.
pub proof fn lemma_value_of_bits_of(value: nat, width: nat)
    ensures
        value_of(bits_of(value, width)) == value % pow2(width),
        fits(value, width) ==> value_of(bits_of(value, width)) == value,
    decreases width,
{
    lemma_pow2_pos(width);
    if width == 0 {
        lemma2_to64();
    } else {
        let w1 = (width - 1) as nat;
        lemma_bits_of_unfold(value, width);
        let low = bits_of(value / 2, w1);
        assert(low.push(value % 2 == 1).drop_last() =~= low);
        lemma_value_of_bits_of(value / 2, w1);
        lemma_pow2_unfold(width);
        lemma_pow2_pos(w1);
        lemma_mod_breakdown(value as int, 2, pow2(w1) as int);
    }
    if fits(value, width) {
        lemma_small_mod(value, pow2(width));
    }
}

/// Reading a word as a number and writing the number with as many bits
/// gives the word back.
pub proof fn lemma_bits_of_value_of(bits: Seq<bool>)
    ensures
        bits_of(value_of(bits), bits.len()) == bits,
    decreases bits.len(),
{
    if bits.len() == 0 {
        assert(bits_of(value_of(bits), 0) =~= bits);
    } else {
        let front = bits.drop_last();
        lemma_bits_of_value_of(front);
        lemma_bits_of_unfold(value_of(bits), bits.len());
        assert(value_of(bits) / 2 == value_of(front));
        assert((value_of(bits) % 2 == 1) == bits.last());
        assert(front.push(bits.last()) =~= bits);
    }
}

/// The number written by two words side by side: the left word is shifted
/// left by the length of the right one.
pub proof fn lemma_value_of_concat(left: Seq<bool>, right: Seq<bool>)
    ensures
        value_of(left + right) == value_of(left) * pow2(right.len()) + value_of(right),
    decreases right.len(),
{
    if right.len() == 0 {
        lemma2_to64();
        assert(left + right =~= left);
    } else {
        let r1 = right.drop_last();
        lemma_value_of_concat(left, r1);
        assert((left + right).drop_last() =~= left + r1);
        lemma_pow2_unfold(right.len());
        assert(value_of(left) * pow2(right.len()) == 2 * (value_of(left) * pow2(r1.len())))
            by (nonlinear_arith)
            requires
                pow2(right.len()) == 2 * pow2(r1.len()),
        ;
    }
}

/// A run of bits of a word is the low bits of the number shifted right by
/// what lies to the right of the run.
pub proof fn lemma_bits_of_slice(value: nat, width: nat, from: int, to: int)
    requires
        0 <= from <= to <= width,
    ensures
        bits_of(value, width).subrange(from, to) == bits_of(
            value / pow2((width - to) as nat),
            (to - from) as nat,
        ),
        value_of(bits_of(value, width).subrange(from, to)) == (value / pow2((width - to) as nat))
            % pow2((to - from) as nat),
{
    let below = (width - to) as nat;
    let count = (to - from) as nat;
    let run = bits_of(value, width).subrange(from, to);
    let low = bits_of(value / pow2(below), count);
    lemma_pow2_pos(below);
    assert forall|i: int| 0 <= i < count implies run[i] == low[i] by {
        let e = (count - 1 - i) as nat;
        lemma_pow2_pos(e);
        lemma_pow2_adds(below, e);
        lemma_div_denominator(value as int, pow2(below) as int, pow2(e) as int);
        assert((width - 1 - (from + i)) as nat == below + e);
    }
    assert(run =~= low);
    lemma_value_of_bits_of(value / pow2(below), count);
}

/// The number written by a run of bits of a word, with the two powers of
/// two named: `divisor` is two to the number of bits to the right of the
/// run, `modulus` two to the length of the run.
pub proof fn lemma_slice_value(
    value: nat,
    width: nat,
    from: int,
    to: int,
    divisor: nat,
    modulus: nat,
)
    requires
        0 <= from <= to <= width,
        divisor == pow2((width - to) as nat),
        modulus == pow2((to - from) as nat),
    ensures
        value_of(bits_of(value, width).subrange(from, to)) == (value / divisor) % modulus,
{
    lemma_bits_of_slice(value, width, from, to);
}

/// Two to the `e` does not decrease when `e` grows.
pub proof fn lemma_pow2_monotonic(e1: nat, e2: nat)
    requires
        e1 <= e2,
    ensures
        pow2(e1) <= pow2(e2),
{
    if e1 < e2 {
        lemma_pow2_strictly_increases(e1, e2);
    }
}

/// Reads bit `i` of `value` as a word of `width` bits, bit 0 being the most
/// significant one.
pub fn read_bit(value: u64, width: usize, i: usize) -> (b: bool)
    requires
        i < width <= MAX_WIDTH,
    ensures
        b == bit_at(value as nat, width as nat, i as int),
{
    let shift: u64 = (width - 1 - i) as u64;
    proof {
        lemma_u64_shr_is_div(value, shift);
    }
    (value >> shift) % 2 == 1
}

/// Tells whether `value` can be written with `width` bits.
pub fn fits_in(value: u64, width: usize) -> (b: bool)
    ensures
        b == fits(value as nat, width as nat),
{
    if width >= 64 {
        proof {
            lemma2_to64();
            lemma_pow2_monotonic(64, width as nat);
        }
        true
    } else {
        let shift: u64 = width as u64;
        proof {
            lemma_u64_shr_is_div(value, shift);
            lemma_pow2_pos(width as nat);
            let d = pow2(width as nat) as int;
            let v = value as int;
            assert((v / d == 0) == (v < d)) by (nonlinear_arith)
                requires
                    0 <= v,
                    0 < d,
            ;
        }
        value >> shift == 0
    }
}

} // verus!
