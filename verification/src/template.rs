//! Templates: what each bit position of a word must be or is called, and the
//! text notation they are written in.

use crate::bits::{
    bit_at, bits_of, fits, fits_in, lemma_bits_of_slice, lemma_bits_of_value_of,
    lemma_pow2_monotonic, lemma_value_of_bound, read_bit, value_of, MAX_WIDTH,
};
use crate::error::TemplateError;
use crate::field::Field;
use vstd::arithmetic::div_mod::lemma_small_mod;
use vstd::arithmetic::power2::{
    lemma2_to64, lemma_pow2_adds, lemma_pow2_pos, lemma_pow2_unfold, pow2,
};
use vstd::prelude::*;
use vstd::std_specs::cmp::PartialEqSpecImpl;
use vstd::std_specs::iter::IteratorSpec;
use vstd::string::*;

verus! {

/// What a template says of one bit position.
#[derive(Clone, Copy, Debug, PartialEq, Eq, Structural)]
pub enum BitSpec {
    /// The bit must have this value.
    Literal(bool),
    /// The bit may have either value and belongs to no group.
    Wildcard,
    /// The bit may have either value and belongs to the group of this name.
    Capture(char),
}

/// Whether `c` only groups the bits of a template text for the reader.
pub open spec fn is_separator(c: char) -> bool {
    c == '_' || c == ' '
}

/// Whether `c` can name a capture group: an ASCII letter.
pub open spec fn is_capture_name(c: char) -> bool {
    ('a' <= c && c <= 'z') || ('A' <= c && c <= 'Z')
}

/// The meaning of one symbol of a template text, if it has one.
pub open spec fn symbol(c: char) -> Option<BitSpec> {
    if c == '0' {
        Some(BitSpec::Literal(false))
    } else if c == '1' {
        Some(BitSpec::Literal(true))
    } else if c == '?' {
        Some(BitSpec::Wildcard)
    } else if is_capture_name(c) {
        Some(BitSpec::Capture(c))
    } else {
        None
    }
}

/// The symbol that `symbol` reads back as `bit`.
pub open spec fn symbol_of(bit: BitSpec) -> char {
    match bit {
        BitSpec::Literal(false) => '0',
        BitSpec::Literal(true) => '1',
        BitSpec::Wildcard => '?',
        BitSpec::Capture(name) => name,
    }
}

/// `text` without its separators.
pub open spec fn cleaned(text: Seq<char>) -> Seq<char>
    decreases text.len(),
{
    if text.len() == 0 {
        Seq::empty()
    } else if is_separator(text.last()) {
        cleaned(text.drop_last())
    } else {
        cleaned(text.drop_last()).push(text.last())
    }
}

/// Whether every symbol of `symbols` has a meaning.
pub open spec fn all_symbols(symbols: Seq<char>) -> bool {
    forall|i: int| 0 <= i < symbols.len() ==> (#[trigger] symbol(symbols[i])) is Some
}

/// What a template text of `width` bits means, if it is well formed: the
/// text without separators has `width` symbols, each with a meaning, and
/// `width` is at most `MAX_WIDTH`.
pub open spec fn parsed(text: Seq<char>, width: nat) -> Option<Seq<BitSpec>> {
    let symbols = cleaned(text);
    if symbols.len() == width && width <= MAX_WIDTH && all_symbols(symbols) {
        Some(symbols.map_values(|c: char| symbol(c)->0))
    } else {
        None
    }
}

/// The text of a template in canonical form: one symbol per bit and no
/// separator.
pub open spec fn rendered(bits: Seq<BitSpec>) -> Seq<char> {
    bits.map_values(|bit: BitSpec| symbol_of(bit))
}

/// What holds of the bits of every template: they fit in a word, and every
/// group is named by a letter.
pub open spec fn well_formed(bits: Seq<BitSpec>) -> bool {
    &&& bits.len() <= MAX_WIDTH
    &&& forall|i: int|
        0 <= i < bits.len() ==> (#[trigger] bits[i] matches BitSpec::Capture(name)
            ==> is_capture_name(name))
}

/// Whether a word of value `value` matches the template `bits`: the value
/// fits in the width of the template and has every literal bit as written.
pub open spec fn template_matches(bits: Seq<BitSpec>, value: nat) -> bool {
    &&& fits(value, bits.len())
    &&& forall|i: int|
        0 <= i < bits.len() ==> (#[trigger] bits[i] matches BitSpec::Literal(b) ==> bit_at(
            value,
            bits.len(),
            i,
        ) == b)
}

/// The capture group `name` of a template: the positions that carry the
/// name, in template order.
pub open spec fn group_positions(bits: Seq<BitSpec>, name: char) -> Seq<int>
    decreases bits.len(),
{
    if bits.len() == 0 {
        Seq::empty()
    } else if bits.last() == BitSpec::Capture(name) {
        group_positions(bits.drop_last(), name).push(bits.len() - 1)
    } else {
        group_positions(bits.drop_last(), name)
    }
}

/// The number of bits of the group `name`.
pub open spec fn group_width(bits: Seq<BitSpec>, name: char) -> nat {
    group_positions(bits, name).len()
}

/// The bits of `word` at the positions of the group `name`, in template
/// order.
pub open spec fn group_bits(bits: Seq<BitSpec>, word: Seq<bool>, name: char) -> Seq<bool> {
    group_positions(bits, name).map_values(|p: int| word[p])
}

/// The value of the group `name` in a word of value `value`: the bits of the
/// group read as an unsigned number.
pub open spec fn group_value(bits: Seq<BitSpec>, value: nat, name: char) -> nat {
    value_of(group_bits(bits, bits_of(value, bits.len()), name))
}

/// The names of the groups of a template, in the order in which they first
/// appear.
pub open spec fn group_names(bits: Seq<BitSpec>) -> Seq<char>
    decreases bits.len(),
{
    if bits.len() == 0 {
        Seq::empty()
    } else {
        let earlier = group_names(bits.drop_last());
        match bits.last() {
            BitSpec::Capture(name) => if earlier.contains(name) {
                earlier
            } else {
                earlier.push(name)
            },
            _ => earlier,
        }
    }
}

/// The field that a template captures from a word for the group `name`.
pub open spec fn captured_field(bits: Seq<BitSpec>, value: nat, name: char) -> Field {
    Field {
        name,
        value: group_value(bits, value, name) as u64,
        width: group_width(bits, name) as usize,
    }
}

/// What a template captures from a word: one field for each group, in the
/// order in which the groups first appear.
pub open spec fn captured_fields(bits: Seq<BitSpec>, value: nat) -> Seq<Field> {
    group_names(bits).map_values(|name: char| captured_field(bits, value, name))
}

/// Cleaning a prefix of a text gives a prefix of the cleaned text.
pub proof fn lemma_cleaned_prefix(text: Seq<char>, n: int)
    requires
        0 <= n <= text.len(),
    ensures
        cleaned(text.take(n)).len() <= cleaned(text).len(),
        forall|i: int|
            0 <= i < cleaned(text.take(n)).len() ==> cleaned(text.take(n))[i] == cleaned(text)[i],
    decreases text.len(),
{
    if n == text.len() {
        assert(text.take(n) =~= text);
    } else {
        assert(text.drop_last().take(n) =~= text.take(n));
        lemma_cleaned_prefix(text.drop_last(), n);
    }
}

/// How the bits of a group grow with the template: the last position adds
/// its bit when it carries the name, and nothing otherwise.
pub proof fn lemma_group_bits_unfold(bits: Seq<BitSpec>, word: Seq<bool>, name: char)
    requires
        bits.len() > 0,
    ensures
        group_bits(bits, word, name) == if bits.last() == BitSpec::Capture(name) {
            group_bits(bits.drop_last(), word, name).push(word[bits.len() - 1])
        } else {
            group_bits(bits.drop_last(), word, name)
        },
{
    if bits.last() == BitSpec::Capture(name) {
        assert(group_bits(bits, word, name) =~= group_bits(bits.drop_last(), word, name).push(
            word[bits.len() - 1],
        ));
    }
}

/// The positions of a group are exactly the positions that carry its name,
/// each once and in increasing order.
pub proof fn lemma_group_positions(bits: Seq<BitSpec>, name: char)
    ensures
        group_width(bits, name) <= bits.len(),
        forall|k: int|
            0 <= k < group_width(bits, name) ==> {
                let p = #[trigger] group_positions(bits, name)[k];
                0 <= p < bits.len() && bits[p] == BitSpec::Capture(name)
            },
        forall|j: int, k: int|
            0 <= j < k < group_width(bits, name) ==> group_positions(bits, name)[j]
                < group_positions(bits, name)[k],
        forall|p: int|
            0 <= p < bits.len() && #[trigger] bits[p] == BitSpec::Capture(name)
                ==> group_positions(bits, name).contains(p),
    decreases bits.len(),
{
    if bits.len() > 0 {
        let front = bits.drop_last();
        lemma_group_positions(front, name);
        let here = group_positions(bits, name);
        let before = group_positions(front, name);
        assert forall|p: int|
            0 <= p < bits.len() && #[trigger] bits[p] == BitSpec::Capture(name) implies here.contains(
            p,
        ) by {
            if p == bits.len() - 1 {
                assert(here[here.len() - 1] == p);
            } else {
                assert(front[p] == bits[p]);
                let k = choose|k: int| 0 <= k < before.len() && before[k] == p;
                assert(here[k] == p);
            }
        }
    }
}

/// A text without separators is clean already.
pub proof fn lemma_cleaned_without_separators(text: Seq<char>)
    requires
        forall|i: int| 0 <= i < text.len() ==> !is_separator(#[trigger] text[i]),
    ensures
        cleaned(text) == text,
    decreases text.len(),
{
    if text.len() > 0 {
        lemma_cleaned_without_separators(text.drop_last());
        assert(text.drop_last().push(text.last()) =~= text);
    }
}

/// Parsing the canonical text of a template gives the template back.
pub proof fn lemma_render_then_parse(bits: Seq<BitSpec>)
    requires
        well_formed(bits),
    ensures
        parsed(rendered(bits), bits.len()) == Some(bits),
{
    let text = rendered(bits);
    assert forall|i: int| 0 <= i < text.len() implies !is_separator(#[trigger] text[i])
        && symbol(text[i]) == Some(bits[i]) by {
        let bit = bits[i];
        assert(text[i] == symbol_of(bit));
    }
    lemma_cleaned_without_separators(text);
    assert(all_symbols(text));
    assert(text.map_values(|c: char| symbol(c)->0) =~= bits);
}

/// What a text parses to is well formed, and its canonical text parses to
/// the same template: the notation loses nothing but the separators.
pub proof fn lemma_parse_round_trip(text: Seq<char>, width: nat)
    requires
        parsed(text, width) is Some,
    ensures
        well_formed(parsed(text, width)->0),
        parsed(rendered(parsed(text, width)->0), width) == parsed(text, width),
{
    let bits = parsed(text, width)->0;
    let symbols = cleaned(text);
    assert forall|i: int| 0 <= i < bits.len() implies (#[trigger] bits[i] matches BitSpec::Capture(
        name,
    ) ==> is_capture_name(name)) by {
        assert(symbol(symbols[i]) is Some);
    }
    lemma_render_then_parse(bits);
}

/// The names of the groups are the names that some position carries, each
/// once.
pub proof fn lemma_group_names(bits: Seq<BitSpec>)
    ensures
        group_names(bits).no_duplicates(),
        forall|name: char|
            #[trigger] group_names(bits).contains(name) <==> group_width(bits, name) > 0,
    decreases bits.len(),
{
    if bits.len() > 0 {
        let front = bits.drop_last();
        let earlier = group_names(front);
        let names = group_names(bits);
        lemma_group_names(front);
        assert forall|name: char| #[trigger] names.contains(name) <==> group_width(bits, name)
            > 0 by {
            if bits.last() == BitSpec::Capture(name) {
                if !earlier.contains(name) {
                    assert(names[names.len() - 1] == name);
                }
            } else if earlier.contains(name) {
                let k = choose|k: int| 0 <= k < earlier.len() && earlier[k] == name;
                assert(names[k] == name);
            } else if names.contains(name) {
                let k = choose|k: int| 0 <= k < names.len() && names[k] == name;
                if k < earlier.len() {
                    assert(earlier[k] == name);
                }
            }
        }
        assert forall|j: int, k: int| 0 <= j < k < names.len() implies names[j] != names[k] by {
            if k == earlier.len() {
                assert(earlier[j] == names[j]);
            }
        }
    }
}

/// The value of a group of `k` bits is below two to the `k`.
pub proof fn lemma_group_value_bound(bits: Seq<BitSpec>, value: nat, name: char)
    ensures
        fits(group_value(bits, value, name), group_width(bits, name)),
{
    lemma_value_of_bound(group_bits(bits, bits_of(value, bits.len()), name));
}

/// The bits that a prefix of a template gives to a group are the first bits
/// of the group.
pub proof fn lemma_group_bits_prefix(bits: Seq<BitSpec>, word: Seq<bool>, name: char, m: int)
    requires
        0 <= m <= bits.len(),
    ensures
        group_width(bits.take(m), name) <= group_width(bits, name),
        group_bits(bits.take(m), word, name) == group_bits(bits, word, name).take(
            group_width(bits.take(m), name) as int,
        ),
    decreases bits.len() - m,
{
    if m == bits.len() {
        assert(bits.take(m) =~= bits);
        assert(group_bits(bits, word, name).take(group_width(bits, name) as int) =~= group_bits(
            bits,
            word,
            name,
        ));
    } else {
        lemma_group_bits_prefix(bits, word, name, m + 1);
        assert(bits.take(m + 1).drop_last() =~= bits.take(m));
        lemma_group_bits_unfold(bits.take(m + 1), word, name);
        let longer = group_bits(bits.take(m + 1), word, name);
        let shorter = group_bits(bits.take(m), word, name);
        let whole = group_bits(bits, word, name);
        assert(shorter =~= whole.take(shorter.len() as int)) by {
            assert(longer == whole.take(longer.len() as int));
            assert forall|k: int| 0 <= k < shorter.len() implies shorter[k] == whole[k] by {
                assert(longer[k] == shorter[k]);
            }
        }
    }
}

/// A group whose positions are the run from `from` up to `to` holds that run
/// of the bits of the word: its value is the word shifted right by what
/// lies to the right of the run, cut to the length of the run.
pub proof fn lemma_contiguous_group(
    bits: Seq<BitSpec>,
    value: nat,
    name: char,
    from: int,
    to: int,
    divisor: nat,
    modulus: nat,
)
    requires
        0 <= from <= to <= bits.len(),
        forall|i: int| from <= i < to ==> bits[i] == BitSpec::Capture(name),
        forall|i: int|
            0 <= i < bits.len() && !(from <= i < to) ==> bits[i] != BitSpec::Capture(name),
        divisor == pow2((bits.len() - to) as nat),
        modulus == pow2((to - from) as nat),
    ensures
        group_width(bits, name) == to - from,
        group_bits(bits, bits_of(value, bits.len()), name) == bits_of(value, bits.len()).subrange(
            from,
            to,
        ),
        group_value(bits, value, name) == (value / divisor) % modulus,
{
    lemma_run_positions(bits, name, from, to, bits.len() as int);
    assert(bits.take(bits.len() as int) =~= bits);
    let word = bits_of(value, bits.len());
    assert(group_bits(bits, word, name) =~= word.subrange(from, to));
    lemma_bits_of_slice(value, bits.len(), from, to);
}

/// The positions that the first `m` bits of a template give to a group
/// whose positions are the run from `from` up to `to`.
proof fn lemma_run_positions(bits: Seq<BitSpec>, name: char, from: int, to: int, m: int)
    requires
        0 <= from <= to <= bits.len(),
        0 <= m <= bits.len(),
        forall|i: int| from <= i < to ==> bits[i] == BitSpec::Capture(name),
        forall|i: int|
            0 <= i < bits.len() && !(from <= i < to) ==> bits[i] != BitSpec::Capture(name),
    ensures
        group_positions(bits.take(m), name) == Seq::new(
            (if m <= from {
                0
            } else if m >= to {
                to - from
            } else {
                m - from
            }) as nat,
            |k: int| from + k,
        ),
    decreases m,
{
    if m == 0 {
        assert(group_positions(bits.take(0), name) =~= Seq::new(0, |k: int| from + k));
    } else {
        lemma_run_positions(bits, name, from, to, m - 1);
        assert(bits.take(m).drop_last() =~= bits.take(m - 1));
        let before = group_positions(bits.take(m - 1), name);
        if from <= m - 1 < to {
            assert(before.push(m - 1) =~= Seq::new((m - from) as nat, |k: int| from + k));
        }
    }
}

/// A template that starts with literal bits and has no other literal bit
/// matches the values that fit and start with those bits: shifted right by
/// the number of bits that follow the literals, the value is the number that
/// the literals write.
pub proof fn lemma_literal_prefix(
    bits: Seq<BitSpec>,
    value: nat,
    prefix: Seq<bool>,
    divisor: nat,
)
    requires
        prefix.len() <= bits.len(),
        forall|i: int| 0 <= i < prefix.len() ==> bits[i] == BitSpec::Literal(prefix[i]),
        forall|i: int| prefix.len() <= i < bits.len() ==> !(bits[i] is Literal),
        divisor == pow2((bits.len() - prefix.len()) as nat),
    ensures
        template_matches(bits, value) <==> fits(value, bits.len()) && value / divisor == value_of(
            prefix,
        ),
{
    let width = bits.len();
    let k = prefix.len() as int;
    let word = bits_of(value, width);
    let top = word.subrange(0, k);
    lemma_bits_of_slice(value, width, 0, k);
    lemma_bits_of_value_of(prefix);
    lemma_value_of_bound(prefix);
    if fits(value, width) {
        lemma_pow2_adds((width - k) as nat, k as nat);
        lemma_pow2_pos((width - k) as nat);
        let d = pow2((width - k) as nat) as int;
        let n = pow2(k as nat) as int;
        let v = value as int;
        assert(v / d < n) by (nonlinear_arith)
            requires
                0 <= v < d * n,
                d > 0,
        ;
        lemma_small_mod((v / d) as nat, n as nat);
        if template_matches(bits, value) {
            assert forall|i: int| 0 <= i < k implies top[i] == prefix[i] by {
                assert(bits[i] == BitSpec::Literal(prefix[i]));
            }
            assert(top =~= prefix);
        }
        if value / divisor == value_of(prefix) {
            assert(top == prefix);
            assert forall|i: int| 0 <= i < width implies (#[trigger] bits[i] matches BitSpec::Literal(
                b,
            ) ==> bit_at(value, width, i) == b) by {
                if i < k {
                    assert(top[i] == word[i]);
                }
            }
        }
    }
}

/// A fixed-width sequence of bit specifiers, most significant bit first.
#[derive(Debug)]
pub struct Template {
    bits: Vec<BitSpec>,
}

impl View for Template {
    type V = Seq<BitSpec>;

    closed spec fn view(&self) -> Seq<BitSpec> {
        self.bits@
    }
}

impl Clone for Template {
    /// A template with the same bits.
    fn clone(&self) -> (copy: Self)
        ensures
            copy@ == self@,
    {
        proof {
            use_type_invariant(self);
        }
        let mut bits: Vec<BitSpec> = Vec::new();
        let mut i: usize = 0;
        while i < self.bits.len()
            invariant
                i <= self.bits@.len(),
                bits@ == self.bits@.take(i as int),
            decreases self.bits@.len() - i,
        {
            bits.push(self.bits[i]);
            proof {
                assert(self.bits@.take(i + 1) =~= self.bits@.take(i as int).push(self.bits@[i as int]));
            }
            i += 1;
        }
        proof {
            assert(self.bits@.take(i as int) =~= self.bits@);
        }
        Template { bits }
    }
}

impl PartialEq for Template {
    /// Two templates are equal when they have the same bits.
    fn eq(&self, other: &Self) -> (same: bool) {
        if self.bits.len() != other.bits.len() {
            return false;
        }
        let mut i: usize = 0;
        while i < self.bits.len()
            invariant
                i <= self.bits@.len(),
                self.bits@.len() == other.bits@.len(),
                forall|k: int| 0 <= k < i ==> self.bits@[k] == other.bits@[k],
            decreases self.bits@.len() - i,
        {
            if self.bits[i] != other.bits[i] {
                return false;
            }
            i += 1;
        }
        proof {
            assert(self.bits@ =~= other.bits@);
        }
        true
    }
}

impl Eq for Template {

}

impl PartialEqSpecImpl for Template {
    open spec fn obeys_eq_spec() -> bool {
        true
    }

    open spec fn eq_spec(&self, other: &Self) -> bool {
        self@ == other@
    }
}

impl Template {
    #[verifier::type_invariant]
    spec fn type_inv(&self) -> bool {
        well_formed(self.bits@)
    }

    /// The number of bits of the template.
    pub fn width(&self) -> (w: usize)
        ensures
            w == self@.len(),
            w <= MAX_WIDTH,
            well_formed(self@),
    {
        proof {
            use_type_invariant(self);
        }
        self.bits.len()
    }

    /// The specifier of bit `i`, counted from the most significant bit.
    pub fn bit(&self, i: usize) -> (b: BitSpec)
        requires
            i < self@.len(),
        ensures
            b == self@[i as int],
    {
        self.bits[i]
    }

    /// Tells whether `value` matches the template: it fits in the width of
    /// the template, and each literal bit of the template is the bit of
    /// `value` at that position. Wildcards and capture groups accept any bit.
    pub fn matches(&self, value: u64) -> (m: bool)
        ensures
            m == template_matches(self@, value as nat),
    {
        proof {
            use_type_invariant(self);
        }
        let width = self.bits.len();
        if !fits_in(value, width) {
            return false;
        }
        let mut i: usize = 0;
        while i < width
            invariant
                i <= width,
                width == self.bits@.len(),
                width <= 64,
                forall|j: int|
                    0 <= j < i ==> (#[trigger] self.bits@[j] matches BitSpec::Literal(b) ==> bit_at(
                        value as nat,
                        width as nat,
                        j,
                    ) == b),
            decreases width - i,
        {
            match self.bits[i] {
                BitSpec::Literal(b) => {
                    if read_bit(value, width, i) != b {
                        return false;
                    }
                },
                _ => {},
            }
            i += 1;
        }
        true
    }

    /// Extracts the capture group `name` from `value`: the bits of `value`
    /// at the positions of the group, in template order, as an unsigned
    /// number. A group of `k` bits gives a value below two to the `k`; a
    /// name that the template does not hold gives the empty group, of value
    /// 0 and width 0.
    pub fn capture(&self, value: u64, name: char) -> (field: Field)
        ensures
            field.name == name,
            field.width == group_width(self@, name),
            field.value == group_value(self@, value as nat, name),
            fits(field.value as nat, field.width as nat),
    {
        proof {
            use_type_invariant(self);
        }
        let width = self.bits.len();
        let ghost word = bits_of(value as nat, width as nat);
        let mut acc: u64 = 0;
        let mut taken: usize = 0;
        let mut i: usize = 0;
        while i < width
            invariant
                i <= width,
                width == self.bits@.len(),
                width <= 64,
                word == bits_of(value as nat, width as nat),
                taken <= i,
                taken == group_width(self.bits@.take(i as int), name),
                acc == value_of(group_bits(self.bits@.take(i as int), word, name)),
            decreases width - i,
        {
            let ghost before = self.bits@.take(i as int);
            let ghost upto = self.bits@.take(i + 1);
            proof {
                assert(upto.drop_last() =~= before);
                lemma_group_bits_unfold(upto, word, name);
                lemma_value_of_bound(group_bits(before, word, name));
                lemma_pow2_monotonic((taken + 1) as nat, 64);
                lemma_pow2_unfold((taken + 1) as nat);
                lemma2_to64();
            }
            match self.bits[i] {
                BitSpec::Capture(c) => {
                    if c == name {
                        let b = read_bit(value, width, i);
                        assert(group_bits(upto, word, name).drop_last() =~= group_bits(
                            before,
                            word,
                            name,
                        ));
                        acc = 2 * acc + (if b {
                            1
                        } else {
                            0
                        });
                        taken += 1;
                    }
                },
                _ => {},
            }
            i += 1;
        }
        proof {
            assert(self.bits@.take(width as int) =~= self.bits@);
            lemma_value_of_bound(group_bits(self.bits@, word, name));
        }
        Field { name, value: acc, width: taken }
    }

    /// The number of bits of the capture group `name`.
    pub fn width_of(&self, name: char) -> (w: usize)
        ensures
            w == group_width(self@, name),
            w <= self@.len() <= MAX_WIDTH,
    {
        proof {
            use_type_invariant(self);
            lemma_group_positions(self@, name);
        }
        self.capture(0, name).width
    }

    /// The names of the capture groups, in the order in which they first
    /// appear in the template.
    pub fn capture_names(&self) -> (names: Vec<char>)
        ensures
            names@ == group_names(self@),
    {
        let width = self.bits.len();
        let mut names: Vec<char> = Vec::new();
        let mut i: usize = 0;
        while i < width
            invariant
                i <= width,
                width == self.bits@.len(),
                names@ == group_names(self.bits@.take(i as int)),
            decreases width - i,
        {
            proof {
                assert(self.bits@.take(i + 1).drop_last() =~= self.bits@.take(i as int));
            }
            match self.bits[i] {
                BitSpec::Capture(name) => {
                    if !holds_name(&names, name) {
                        names.push(name);
                    }
                },
                _ => {},
            }
            i += 1;
        }
        proof {
            assert(self.bits@.take(width as int) =~= self.bits@);
        }
        names
    }

    /// Extracts every capture group from `value`: one field for each group,
    /// in the order in which the groups first appear in the template.
    pub fn captures(&self, value: u64) -> (fields: Vec<Field>)
        ensures
            fields@ == captured_fields(self@, value as nat),
    {
        let names = self.capture_names();
        let mut fields: Vec<Field> = Vec::new();
        let mut k: usize = 0;
        while k < names.len()
            invariant
                k <= names@.len(),
                names@ == group_names(self@),
                fields@ == captured_fields(self@, value as nat).take(k as int),
            decreases names@.len() - k,
        {
            let field = self.capture(value, names[k]);
            fields.push(field);
            proof {
                let all = captured_fields(self@, value as nat);
                assert(all[k as int] == field);
                assert(all.take(k + 1) =~= all.take(k as int).push(field));
            }
            k += 1;
        }
        proof {
            let all = captured_fields(self@, value as nat);
            assert(all.take(k as int) =~= all);
        }
        fields
    }

    /// The text of the template in canonical form: one symbol per bit, most
    /// significant bit first, and no separator.
    pub fn to_text(&self) -> (text: String)
        ensures
            text@ == rendered(self@),
    {
        let width = self.bits.len();
        let mut text = String::new();
        let mut i: usize = 0;
        while i < width
            invariant
                i <= width,
                width == self.bits@.len(),
                text@ == rendered(self.bits@.take(i as int)),
            decreases width - i,
        {
            let c = write_symbol(self.bits[i]);
            text.push(c);
            proof {
                assert(rendered(self.bits@.take(i + 1)) =~= rendered(self.bits@.take(i as int)).push(
                    c,
                ));
            }
            i += 1;
        }
        proof {
            assert(self.bits@.take(width as int) =~= self.bits@);
        }
        text
    }
}

/// `String::push` of the standard library, which appends one character to
/// the end of the string: the new text is taken to be the old text followed
/// by that character.
pub assume_specification[ String::push ](text: &mut String, c: char)
    ensures
        final(text)@ == old(text)@.push(c),
;

/// Tells whether `names` holds `name`.
fn holds_name(names: &Vec<char>, name: char) -> (found: bool)
    ensures
        found == names@.contains(name),
{
    let mut i: usize = 0;
    while i < names.len()
        invariant
            i <= names@.len(),
            forall|j: int| 0 <= j < i ==> names@[j] != name,
        decreases names@.len() - i,
    {
        if names[i] == name {
            return true;
        }
        i += 1;
    }
    false
}

/// Writes the symbol of one bit specifier.
fn write_symbol(bit: BitSpec) -> (c: char)
    ensures
        c == symbol_of(bit),
{
    match bit {
        BitSpec::Literal(false) => '0',
        BitSpec::Literal(true) => '1',
        BitSpec::Wildcard => '?',
        BitSpec::Capture(name) => name,
    }
}

/// Reads what one symbol of a template text means.
fn read_symbol(c: char) -> (r: Option<BitSpec>)
    ensures
        r == symbol(c),
{
    if c == '0' {
        Some(BitSpec::Literal(false))
    } else if c == '1' {
        Some(BitSpec::Literal(true))
    } else if c == '?' {
        Some(BitSpec::Wildcard)
    } else if ('a' <= c && c <= 'z') || ('A' <= c && c <= 'Z') {
        Some(BitSpec::Capture(c))
    } else {
        None
    }
}

/// Parses the text of a template of `width` bits.
///
/// The text is read most significant bit first. `_` and spaces are skipped;
/// `0` and `1` are literal bits, `?` is a wildcard and a letter names a
/// capture group. The text is refused when a symbol has no meaning, when the
/// number of symbols is not `width`, or when `width` is above `MAX_WIDTH`.
pub fn parse_template(text: &str, width: usize) -> (r: Result<Template, TemplateError>)
    ensures
        match parsed(text@, width as nat) {
            Some(bits) => r matches Ok(t) && t@ == bits,
            None => r == Err::<Template, TemplateError>(TemplateError::MalformedTemplate),
        },
{
    let mut bits: Vec<BitSpec> = Vec::new();
    let mut chars = text.chars();
    let ghost mut seen: int = 0;
    loop
        invariant
            0 <= seen <= text@.len(),
            chars.remaining() == text@.skip(seen),
            bits@.len() <= width,
            all_symbols(cleaned(text@.take(seen))),
            bits@ == cleaned(text@.take(seen)).map_values(|c: char| symbol(c)->0),
        ensures
            seen == text@.len(),
        decreases text@.len() - seen,
    {
        match chars.next() {
            None => {
                break;
            },
            Some(c) => {
                proof {
                    assert(text@.take(seen + 1).drop_last() =~= text@.take(seen));
                    assert(text@.take(seen + 1).last() == c);
                    seen = seen + 1;
                    lemma_cleaned_prefix(text@, seen);
                }
                if c == '_' || c == ' ' {
                } else {
                    let ghost at = bits@.len() as int;
                    assert(cleaned(text@.take(seen))[at] == c);
                    match read_symbol(c) {
                        None => {
                            assert(symbol(cleaned(text@)[at]) is None);
                            return Err(TemplateError::MalformedTemplate);
                        },
                        Some(bit) => {
                            if bits.len() >= width {
                                return Err(TemplateError::MalformedTemplate);
                            }
                            bits.push(bit);
                        },
                    }
                }
            },
        }
    }
    assert(text@.take(seen) =~= text@);
    if bits.len() != width || width > MAX_WIDTH {
        return Err(TemplateError::MalformedTemplate);
    }
    proof {
        assert forall|i: int| 0 <= i < bits@.len() implies (#[trigger] bits@[i] matches BitSpec::Capture(
            name,
        ) ==> is_capture_name(name)) by {
            assert(symbol(cleaned(text@)[i]) is Some);
        }
    }
    Ok(Template { bits })
}

} // verus!
