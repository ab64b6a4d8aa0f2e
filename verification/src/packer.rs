//! The packer: builds fixed-width words from named field values, placing the
//! bits of each value where a packing template carries its name.

use crate::bits::{
    bit_at, bits_of, fits, fits_in, lemma_bits_of_value_of, lemma_pow2_monotonic,
    lemma_value_of_bits_of, lemma_value_of_bound, read_bit, value_of, MAX_WIDTH,
};
use crate::error::TemplateError;
use crate::field::Field;
use crate::template::{
    captured_field, group_bits, group_value, group_width, lemma_group_bits_prefix,
    lemma_group_bits_unfold, lemma_group_positions, template_matches, well_formed, BitSpec,
    Template,
};
use vstd::arithmetic::power2::{lemma2_to64, lemma_pow2_unfold};
use vstd::prelude::*;
use vstd::slice::slice_subrange;

verus! {

/// The mapping that a list of fields stands for: each name goes to the
/// first field of the list that has it.
pub open spec fn values_of(fields: Seq<Field>) -> Map<char, Field>
    decreases fields.len(),
{
    if fields.len() == 0 {
        Map::empty()
    } else {
        values_of(fields.drop_first()).insert(fields.first().name, fields.first())
    }
}

/// Whether a field can be packed: its width is at most `MAX_WIDTH` and its
/// value fits in its width.
pub open spec fn field_valid(field: Field) -> bool {
    field.width <= MAX_WIDTH && fits(field.value as nat, field.width as nat)
}

/// Whether every bit of a template is determined: it has no wildcard.
pub open spec fn fully_determined(bits: Seq<BitSpec>) -> bool {
    !bits.contains(BitSpec::Wildcard)
}

/// Whether `values` has a value for every group of the template.
pub open spec fn all_known(bits: Seq<BitSpec>, values: Map<char, Field>) -> bool {
    forall|i: int|
        0 <= i < bits.len() ==> (#[trigger] bits[i] matches BitSpec::Capture(name)
            ==> values.dom().contains(name))
}

/// The views of a list of templates.
pub open spec fn views_of(specs: Seq<Template>) -> Seq<Seq<BitSpec>> {
    specs.map_values(|t: Template| t@)
}

/// The number of bits that the templates of `specs` take together from the
/// value of `name`.
pub open spec fn consumed(specs: Seq<Seq<BitSpec>>, name: char) -> nat
    decreases specs.len(),
{
    if specs.len() == 0 {
        0
    } else {
        consumed(specs.drop_last(), name) + group_width(specs.last(), name)
    }
}

/// Whether the value of each group of `bits` is valid and has exactly as many
/// bits as the templates of `specs` take from it together.
pub open spec fn widths_agree(
    specs: Seq<Seq<BitSpec>>,
    bits: Seq<BitSpec>,
    values: Map<char, Field>,
) -> bool {
    forall|i: int|
        0 <= i < bits.len() ==> (#[trigger] bits[i] matches BitSpec::Capture(name) ==> field_valid(
            values[name],
        ) && values[name].width == consumed(specs, name))
}

/// Bit `i` of the word packed after `bits`, when the templates of `earlier`
/// were packed before it: a literal gives its bit, and a position of a
/// group gives the next bit of the value of that group that no earlier
/// position has taken, most significant bit first.
pub open spec fn packed_bit(
    earlier: Seq<Seq<BitSpec>>,
    bits: Seq<BitSpec>,
    values: Map<char, Field>,
    i: int,
) -> bool {
    match bits[i] {
        BitSpec::Literal(b) => b,
        BitSpec::Capture(name) => bit_at(
            values[name].value as nat,
            values[name].width as nat,
            (consumed(earlier, name) + group_width(bits.take(i), name)) as int,
        ),
        BitSpec::Wildcard => false,
    }
}

/// The bits of the word packed after `bits`, when the templates of `earlier`
/// were packed before it.
pub open spec fn packed_bits(
    earlier: Seq<Seq<BitSpec>>,
    bits: Seq<BitSpec>,
    values: Map<char, Field>,
) -> Seq<bool> {
    Seq::new(bits.len(), |i: int| packed_bit(earlier, bits, values, i))
}

/// What packing `values` after the single template `bits` gives.
pub open spec fn packed(bits: Seq<BitSpec>, values: Map<char, Field>) -> Result<
    nat,
    TemplateError,
> {
    if !fully_determined(bits) {
        Err(TemplateError::MalformedTemplate)
    } else if !all_known(bits, values) {
        Err(TemplateError::UnknownCaptureName)
    } else if !widths_agree(seq![bits], bits, values) {
        Err(TemplateError::BitWidthMismatch)
    } else {
        Ok(value_of(packed_bits(Seq::empty(), bits, values)))
    }
}

/// What packing `values` after the templates of `specs` in turn gives: one
/// word for each template, each template going on in every value where the
/// templates before it stopped.
pub open spec fn packed_sequence(specs: Seq<Seq<BitSpec>>, values: Map<char, Field>) -> Result<
    Seq<nat>,
    TemplateError,
> {
    if !(forall|j: int| 0 <= j < specs.len() ==> fully_determined(#[trigger] specs[j])) {
        Err(TemplateError::MalformedTemplate)
    } else if !(forall|j: int| 0 <= j < specs.len() ==> all_known(#[trigger] specs[j], values)) {
        Err(TemplateError::UnknownCaptureName)
    } else if !(forall|j: int|
        0 <= j < specs.len() ==> widths_agree(specs, #[trigger] specs[j], values)) {
        Err(TemplateError::BitWidthMismatch)
    } else {
        Ok(Seq::new(specs.len(), |j: int| value_of(packed_bits(specs.take(j), specs[j], values))))
    }
}

/// The value of a name is the first field of the list that has the name.
pub proof fn lemma_values_of_first(fields: Seq<Field>, name: char, j: int)
    requires
        0 <= j < fields.len(),
        fields[j].name == name,
        forall|k: int| 0 <= k < j ==> fields[k].name != name,
    ensures
        values_of(fields).dom().contains(name),
        values_of(fields)[name] == fields[j],
    decreases fields.len(),
{
    if j > 0 {
        let rest = fields.drop_first();
        assert forall|k: int| 0 <= k < j - 1 implies rest[k].name != name by {
            assert(rest[k] == fields[k + 1]);
        }
        lemma_values_of_first(rest, name, j - 1);
    }
}

/// A name that no field of the list has gets no value.
pub proof fn lemma_values_of_absent(fields: Seq<Field>, name: char)
    requires
        forall|k: int| 0 <= k < fields.len() ==> fields[k].name != name,
    ensures
        !values_of(fields).dom().contains(name),
    decreases fields.len(),
{
    if fields.len() > 0 {
        let rest = fields.drop_first();
        assert forall|k: int| 0 <= k < rest.len() implies rest[k].name != name by {
            assert(rest[k] == fields[k + 1]);
        }
        lemma_values_of_absent(rest, name);
    }
}

/// Looks up the value given for `name`: the first field of `fields` that has
/// the name.
pub fn lookup(fields: &[Field], name: char) -> (r: Option<Field>)
    ensures
        r == if values_of(fields@).dom().contains(name) {
            Some(values_of(fields@)[name])
        } else {
            None
        },
{
    let mut i: usize = 0;
    while i < fields.len()
        invariant
            i <= fields@.len(),
            forall|k: int| 0 <= k < i ==> fields@[k].name != name,
        decreases fields@.len() - i,
    {
        if fields[i].name == name {
            proof {
                lemma_values_of_first(fields@, name, i as int);
            }
            return Some(fields[i]);
        }
        i += 1;
    }
    proof {
        lemma_values_of_absent(fields@, name);
    }
    None
}

/// A prefix of a template holds no more positions of a group than the whole
/// template, and fewer when the group goes on at the end of the prefix.
pub proof fn lemma_group_width_prefix(bits: Seq<BitSpec>, name: char, m: int)
    requires
        0 <= m <= bits.len(),
    ensures
        group_width(bits.take(m), name) <= group_width(bits, name),
        m < bits.len() && bits[m] == BitSpec::Capture(name) ==> group_width(bits.take(m), name)
            < group_width(bits, name),
    decreases bits.len() - m,
{
    if m == bits.len() {
        assert(bits.take(m) =~= bits);
    } else {
        assert(bits.take(m + 1).drop_last() =~= bits.take(m));
        lemma_group_width_prefix(bits, name, m + 1);
    }
}

/// Templates packed one after the other take from a value what each of them
/// takes.
pub proof fn lemma_consumed_concat(left: Seq<Seq<BitSpec>>, right: Seq<Seq<BitSpec>>, name: char)
    ensures
        consumed(left + right, name) == consumed(left, name) + consumed(right, name),
    decreases right.len(),
{
    if right.len() == 0 {
        assert(left + right =~= left);
    } else {
        assert((left + right).drop_last() =~= left + right.drop_last());
        lemma_consumed_concat(left, right.drop_last(), name);
    }
}

/// A single template takes from a value the bits of its group.
pub proof fn lemma_consumed_single(bits: Seq<BitSpec>, name: char)
    ensures
        consumed(seq![bits], name) == group_width(bits, name),
{
    assert(seq![bits].drop_last() =~= Seq::<Seq<BitSpec>>::empty());
    assert(consumed(seq![bits].drop_last(), name) == 0);
}

/// Counts the positions of the group `name` among the first `upto` bits of
/// `spec`.
fn count_before(spec: &Template, name: char, upto: usize) -> (n: usize)
    requires
        upto <= spec@.len(),
    ensures
        n == group_width(spec@.take(upto as int), name),
        n <= upto,
{
    let mut n: usize = 0;
    let mut i: usize = 0;
    while i < upto
        invariant
            i <= upto <= spec@.len(),
            n <= i,
            n == group_width(spec@.take(i as int), name),
        decreases upto - i,
    {
        proof {
            assert(spec@.take(i + 1).drop_last() =~= spec@.take(i as int));
        }
        match spec.bit(i) {
            BitSpec::Capture(c) => {
                if c == name {
                    n += 1;
                }
            },
            _ => {},
        }
        i += 1;
    }
    n
}

/// Counts the bits that the templates of `specs` take together from the
/// value of `name`.
fn consumed_by(specs: &[Template], name: char) -> (n: u128)
    ensures
        n == consumed(views_of(specs@), name),
        n <= 64 * specs@.len(),
        n <= 64 * usize::MAX,
{
    let ghost views = views_of(specs@);
    let mut n: u128 = 0;
    let mut j: usize = 0;
    while j < specs.len()
        invariant
            j <= specs@.len(),
            views == views_of(specs@),
            n == consumed(views.take(j as int), name),
            n <= 64 * j,
        decreases specs@.len() - j,
    {
        proof {
            assert(views.take(j + 1).drop_last() =~= views.take(j as int));
            assert(views.take(j + 1).last() == specs@[j as int]@);
        }
        n = n + specs[j].width_of(name) as u128;
        j += 1;
    }
    proof {
        assert(views.take(j as int) =~= views);
    }
    n
}

/// Tells whether `spec` has no wildcard.
fn determined(spec: &Template) -> (b: bool)
    ensures
        b == fully_determined(spec@),
{
    let width = spec.width();
    let mut i: usize = 0;
    while i < width
        invariant
            i <= width,
            width == spec@.len(),
            forall|k: int| 0 <= k < i ==> spec@[k] != BitSpec::Wildcard,
        decreases width - i,
    {
        match spec.bit(i) {
            BitSpec::Wildcard => {
                return false;
            },
            _ => {},
        }
        i += 1;
    }
    true
}

/// Tells whether `fields` gives a value for every group of `spec`.
fn knows(spec: &Template, fields: &[Field]) -> (b: bool)
    ensures
        b == all_known(spec@, values_of(fields@)),
{
    let width = spec.width();
    let mut i: usize = 0;
    while i < width
        invariant
            i <= width,
            width == spec@.len(),
            forall|k: int|
                0 <= k < i ==> (#[trigger] spec@[k] matches BitSpec::Capture(name) ==> values_of(
                    fields@,
                ).dom().contains(name)),
        decreases width - i,
    {
        match spec.bit(i) {
            BitSpec::Capture(name) => {
                if lookup(fields, name).is_none() {
                    return false;
                }
            },
            _ => {},
        }
        i += 1;
    }
    true
}

/// Tells whether the value of each group of `spec` is valid and has exactly
/// as many bits as `earlier`, `spec` and `later` take from it together.
fn agrees(earlier: &[Template], spec: &Template, later: &[Template], fields: &[Field]) -> (b: bool)
    requires
        all_known(spec@, values_of(fields@)),
    ensures
        b == widths_agree(
            views_of(earlier@) + seq![spec@] + views_of(later@),
            spec@,
            values_of(fields@),
        ),
{
    let ghost all = views_of(earlier@) + seq![spec@] + views_of(later@);
    let ghost values = values_of(fields@);
    let width = spec.width();
    let mut i: usize = 0;
    while i < width
        invariant
            i <= width,
            width == spec@.len(),
            all == views_of(earlier@) + seq![spec@] + views_of(later@),
            values == values_of(fields@),
            all_known(spec@, values),
            forall|k: int|
                0 <= k < i ==> (#[trigger] spec@[k] matches BitSpec::Capture(name) ==> field_valid(
                    values[name],
                ) && values[name].width == consumed(all, name)),
        decreases width - i,
    {
        match spec.bit(i) {
            BitSpec::Capture(name) => {
                proof {
                    lemma_consumed_concat(views_of(earlier@) + seq![spec@], views_of(later@), name);
                    lemma_consumed_concat(views_of(earlier@), seq![spec@], name);
                    lemma_consumed_single(spec@, name);
                }
                match lookup(fields, name) {
                    Some(field) => {
                        let total = consumed_by(earlier, name) + spec.width_of(name) as u128
                            + consumed_by(later, name);
                        if field.width > MAX_WIDTH || !fits_in(field.value, field.width) || field.width as u128
                            != total {
                            return false;
                        }
                    },
                    None => {},
                }
            },
            _ => {},
        }
        i += 1;
    }
    true
}

/// Builds the word packed after `spec`, when the templates of `earlier`
/// were packed before it.
fn assemble(earlier: &[Template], spec: &Template, fields: &[Field]) -> (word: u64)
    requires
        fully_determined(spec@),
        all_known(spec@, values_of(fields@)),
        forall|i: int|
            0 <= i < spec@.len() ==> (#[trigger] spec@[i] matches BitSpec::Capture(name)
                ==> field_valid(values_of(fields@)[name]) && consumed(views_of(earlier@), name)
                + group_width(spec@, name) <= values_of(fields@)[name].width),
    ensures
        word == value_of(packed_bits(views_of(earlier@), spec@, values_of(fields@))),
{
    let ghost before = views_of(earlier@);
    let ghost values = values_of(fields@);
    let ghost target = packed_bits(before, spec@, values);
    let width = spec.width();
    let mut acc: u64 = 0;
    let mut i: usize = 0;
    while i < width
        invariant
            i <= width,
            width == spec@.len(),
            width <= 64,
            before == views_of(earlier@),
            values == values_of(fields@),
            target == packed_bits(before, spec@, values),
            fully_determined(spec@),
            all_known(spec@, values),
            forall|i: int|
                0 <= i < spec@.len() ==> (#[trigger] spec@[i] matches BitSpec::Capture(name)
                    ==> field_valid(values[name]) && consumed(before, name) + group_width(
                    spec@,
                    name,
                ) <= values[name].width),
            acc == value_of(target.take(i as int)),
        decreases width - i,
    {
        let b = match spec.bit(i) {
            BitSpec::Literal(b) => b,
            BitSpec::Capture(name) => {
                proof {
                    lemma_group_width_prefix(spec@, name, i as int);
                }
                match lookup(fields, name) {
                    Some(field) => {
                        let skip = consumed_by(earlier, name);
                        let rank = count_before(spec, name, i);
                        read_bit(field.value, field.width, skip as usize + rank)
                    },
                    None => false,
                }
            },
            BitSpec::Wildcard => false,
        };
        proof {
            assert(b == target[i as int]);
            assert(target.take(i + 1).drop_last() =~= target.take(i as int));
            lemma_value_of_bound(target.take(i as int));
            lemma_pow2_monotonic((i + 1) as nat, 64);
            lemma_pow2_unfold((i + 1) as nat);
            lemma2_to64();
        }
        acc = 2 * acc + (if b {
            1
        } else {
            0
        });
        i += 1;
    }
    proof {
        assert(target.take(width as int) =~= target);
    }
    acc
}

/// Packs the values of `fields` into one word after the packing template
/// `spec`.
///
/// Each literal position of `spec` gives its bit. The positions of a group
/// are filled, from left to right, with the bits of the value of that name,
/// most significant bit first. Packing is refused with `MalformedTemplate`
/// when `spec` has a wildcard; failing that, with `UnknownCaptureName` when
/// `spec` has a group for which `fields` has no value; failing that, with
/// `BitWidthMismatch` when the value of a group does not fit in its width,
/// or when its width is not the number of positions of the group.
pub fn pack(spec: &Template, fields: &[Field]) -> (r: Result<u64, TemplateError>)
    ensures
        match packed(spec@, values_of(fields@)) {
            Ok(word) => r == Ok::<u64, TemplateError>(word as u64),
            Err(e) => r == Err::<u64, TemplateError>(e),
        },
{
    if !determined(spec) {
        return Err(TemplateError::MalformedTemplate);
    }
    if !knows(spec, fields) {
        return Err(TemplateError::UnknownCaptureName);
    }
    let none: Vec<Template> = Vec::new();
    let width = spec.width();
    proof {
        assert(views_of(none@) + seq![spec@] + views_of(none@) =~= seq![spec@]);
        assert(views_of(none@) =~= Seq::<Seq<BitSpec>>::empty());
    }
    if !agrees(none.as_slice(), spec, none.as_slice(), fields) {
        return Err(TemplateError::BitWidthMismatch);
    }
    proof {
        assert forall|i: int| 0 <= i < spec@.len() implies (#[trigger] spec@[i] matches BitSpec::Capture(
            name,
        ) ==> consumed(views_of(none@), name) + group_width(spec@, name) <= values_of(
            fields@,
        )[name].width) by {
            if let BitSpec::Capture(name) = spec@[i] {
                lemma_consumed_single(spec@, name);
            }
        }
        lemma_value_of_bound(packed_bits(Seq::empty(), spec@, values_of(fields@)));
        lemma_pow2_monotonic(spec@.len(), 64);
        lemma2_to64();
    }
    Ok(assemble(none.as_slice(), spec, fields))
}

/// Whether `packed` holds the words `words`, in order.
pub open spec fn same_words(packed: Seq<u64>, words: Seq<nat>) -> bool {
    &&& packed.len() == words.len()
    &&& forall|j: int| 0 <= j < words.len() ==> #[trigger] packed[j] == words[j]
}

/// Packs the values of `fields` into several words, one after each packing
/// template of `specs`, in order.
///
/// The templates share the values: each template goes on in every value
/// where the templates before it stopped, so that together they split the
/// bits of each value among the words. Packing is refused with
/// `MalformedTemplate` when a template has a wildcard; failing that, with
/// `UnknownCaptureName` when a template has a group for which `fields` has
/// no value; failing that, with `BitWidthMismatch` when the value of a group
/// does not fit in its width, or when its width is not the number of
/// positions that the group has in all the templates together.
pub fn pack_sequence(specs: &[Template], fields: &[Field]) -> (r: Result<Vec<u64>, TemplateError>)
    ensures
        match packed_sequence(views_of(specs@), values_of(fields@)) {
            Ok(words) => r matches Ok(packed) && same_words(packed@, words),
            Err(e) => r matches Err(refusal) && refusal == e,
        },
{
    let ghost views = views_of(specs@);
    let ghost values = values_of(fields@);
    let count = specs.len();
    let mut j: usize = 0;
    while j < count
        invariant
            j <= count,
            count == specs@.len(),
            views == views_of(specs@),
            forall|k: int| 0 <= k < j ==> fully_determined(#[trigger] views[k]),
        decreases count - j,
    {
        assert(views[j as int] == specs@[j as int]@);
        if !determined(&specs[j]) {
            return Err(TemplateError::MalformedTemplate);
        }
        j += 1;
    }
    j = 0;
    while j < count
        invariant
            j <= count,
            count == specs@.len(),
            views == views_of(specs@),
            values == values_of(fields@),
            forall|k: int| 0 <= k < count ==> fully_determined(#[trigger] views[k]),
            forall|k: int| 0 <= k < j ==> all_known(#[trigger] views[k], values),
        decreases count - j,
    {
        assert(views[j as int] == specs@[j as int]@);
        if !knows(&specs[j], fields) {
            return Err(TemplateError::UnknownCaptureName);
        }
        j += 1;
    }
    j = 0;
    while j < count
        invariant
            j <= count,
            count == specs@.len(),
            views == views_of(specs@),
            values == values_of(fields@),
            forall|k: int| 0 <= k < count ==> fully_determined(#[trigger] views[k]),
            forall|k: int| 0 <= k < count ==> all_known(#[trigger] views[k], values),
            forall|k: int| 0 <= k < j ==> widths_agree(views, #[trigger] views[k], values),
        decreases count - j,
    {
        assert(views[j as int] == specs@[j as int]@);
        let earlier = slice_subrange(specs, 0, j);
        let later = slice_subrange(specs, j + 1, count);
        proof {
            assert(views_of(earlier@) + seq![specs@[j as int]@] + views_of(later@) =~= views);
        }
        if !agrees(earlier, &specs[j], later, fields) {
            return Err(TemplateError::BitWidthMismatch);
        }
        j += 1;
    }
    let mut words: Vec<u64> = Vec::new();
    j = 0;
    while j < count
        invariant
            j <= count,
            count == specs@.len(),
            views == views_of(specs@),
            values == values_of(fields@),
            forall|k: int| 0 <= k < count ==> fully_determined(#[trigger] views[k]),
            forall|k: int| 0 <= k < count ==> all_known(#[trigger] views[k], values),
            forall|k: int| 0 <= k < count ==> widths_agree(views, #[trigger] views[k], values),
            words@.len() == j,
            forall|k: int|
                0 <= k < j ==> #[trigger] words@[k] == value_of(
                    packed_bits(views.take(k), views[k], values),
                ),
        decreases count - j,
    {
        assert(views[j as int] == specs@[j as int]@);
        let earlier = slice_subrange(specs, 0, j);
        proof {
            let bits = views[j as int];
            assert(views_of(earlier@) =~= views.take(j as int));
            assert(views.take(j as int) + seq![bits] + views.skip(j + 1) =~= views);
            assert forall|i: int| 0 <= i < bits.len() implies (#[trigger] bits[i] matches BitSpec::Capture(
                name,
            ) ==> consumed(views.take(j as int), name) + group_width(bits, name)
                <= values[name].width) by {
                if let BitSpec::Capture(name) = bits[i] {
                    lemma_consumed_concat(views.take(j as int) + seq![bits], views.skip(j + 1), name);
                    lemma_consumed_concat(views.take(j as int), seq![bits], name);
                    lemma_consumed_single(bits, name);
                }
            }
        }
        let word = assemble(earlier, &specs[j], fields);
        words.push(word);
        j += 1;
    }
    Ok(words)
}

/// The word packed after a template matches the template.
pub proof fn lemma_packed_word_matches(
    earlier: Seq<Seq<BitSpec>>,
    bits: Seq<BitSpec>,
    values: Map<char, Field>,
)
    ensures
        template_matches(bits, value_of(packed_bits(earlier, bits, values))),
{
    let word = packed_bits(earlier, bits, values);
    lemma_value_of_bound(word);
    lemma_bits_of_value_of(word);
    assert forall|i: int| 0 <= i < bits.len() implies (#[trigger] bits[i] matches BitSpec::Literal(b)
        ==> bit_at(value_of(word), bits.len(), i) == b) by {
        assert(bits_of(value_of(word), bits.len())[i] == word[i]);
    }
}

/// In the word packed after a template, each group holds the bits of its
/// value that the template took: those that follow the bits taken by the
/// templates packed before it.
pub proof fn lemma_packed_word_group(
    earlier: Seq<Seq<BitSpec>>,
    bits: Seq<BitSpec>,
    values: Map<char, Field>,
    name: char,
)
    requires
        consumed(earlier, name) + group_width(bits, name) <= values[name].width,
    ensures
        group_bits(bits, packed_bits(earlier, bits, values), name) == bits_of(
            values[name].value as nat,
            values[name].width as nat,
        ).subrange(
            consumed(earlier, name) as int,
            (consumed(earlier, name) + group_width(bits, name)) as int,
        ),
{
    lemma_packed_prefix_group(earlier, bits, values, name, bits.len() as int);
    assert(bits.take(bits.len() as int) =~= bits);
}

/// The statement of `lemma_packed_word_group` for the first `m` positions of
/// the template.
proof fn lemma_packed_prefix_group(
    earlier: Seq<Seq<BitSpec>>,
    bits: Seq<BitSpec>,
    values: Map<char, Field>,
    name: char,
    m: int,
)
    requires
        0 <= m <= bits.len(),
        consumed(earlier, name) + group_width(bits, name) <= values[name].width,
    ensures
        group_bits(bits.take(m), packed_bits(earlier, bits, values), name) == bits_of(
            values[name].value as nat,
            values[name].width as nat,
        ).subrange(
            consumed(earlier, name) as int,
            (consumed(earlier, name) + group_width(bits.take(m), name)) as int,
        ),
    decreases m,
{
    let word = packed_bits(earlier, bits, values);
    let source = bits_of(values[name].value as nat, values[name].width as nat);
    let skip = consumed(earlier, name) as int;
    if m == 0 {
        assert(group_bits(bits.take(0), word, name) =~= source.subrange(skip, skip));
    } else {
        let before = bits.take(m - 1);
        let upto = bits.take(m);
        lemma_packed_prefix_group(earlier, bits, values, name, m - 1);
        lemma_group_width_prefix(bits, name, m - 1);
        assert(upto.drop_last() =~= before);
        lemma_group_bits_unfold(upto, word, name);
        if bits[m - 1] == BitSpec::Capture(name) {
            let rank = group_width(before, name) as int;
            assert(word[m - 1] == source[skip + rank]);
            assert(source.subrange(skip, skip + rank).push(source[skip + rank]) =~= source.subrange(
                skip,
                skip + rank + 1,
            ));
        }
    }
}

/// Packing and then matching recovers the values: the word that `pack`
/// builds after a template matches the template, and each group of the
/// template captures from it the value that was packed, with its width.
pub proof fn lemma_pack_round_trip(bits: Seq<BitSpec>, values: Map<char, Field>)
    requires
        packed(bits, values) is Ok,
    ensures
        template_matches(bits, packed(bits, values)->Ok_0),
        forall|i: int|
            0 <= i < bits.len() ==> (#[trigger] bits[i] matches BitSpec::Capture(name) ==> {
                &&& group_value(bits, packed(bits, values)->Ok_0, name) == values[name].value
                &&& group_width(bits, name) == values[name].width
            }),
{
    let none = Seq::<Seq<BitSpec>>::empty();
    let word = packed_bits(none, bits, values);
    lemma_packed_word_matches(none, bits, values);
    lemma_bits_of_value_of(word);
    assert forall|i: int| 0 <= i < bits.len() implies (#[trigger] bits[i] matches BitSpec::Capture(
        name,
    ) ==> {
        &&& group_value(bits, value_of(word), name) == values[name].value
        &&& group_width(bits, name) == values[name].width
    }) by {
        if let BitSpec::Capture(name) = bits[i] {
            let field = values[name];
            let source = bits_of(field.value as nat, field.width as nat);
            lemma_consumed_single(bits, name);
            lemma_packed_word_group(none, bits, values, name);
            assert(source.subrange(0, field.width as int) =~= source);
            lemma_value_of_bits_of(field.value as nat, field.width as nat);
        }
    }
}

/// Matching and then packing recovers the word: when a word matches a
/// template without wildcards, packing what the template captures from the
/// word gives the word back.
pub proof fn lemma_capture_then_pack(bits: Seq<BitSpec>, value: nat, values: Map<char, Field>)
    requires
        well_formed(bits),
        fully_determined(bits),
        template_matches(bits, value),
        forall|i: int|
            0 <= i < bits.len() ==> (#[trigger] bits[i] matches BitSpec::Capture(name)
                ==> values.dom().contains(name) && values[name] == captured_field(
                bits,
                value,
                name,
            )),
    ensures
        packed(bits, values) == Ok::<nat, TemplateError>(value),
{
    let none = Seq::<Seq<BitSpec>>::empty();
    let word = bits_of(value, bits.len());
    let built = packed_bits(none, bits, values);
    lemma2_to64();
    lemma_pow2_monotonic(bits.len(), 64);
    assert forall|i: int| 0 <= i < bits.len() implies (#[trigger] bits[i] matches BitSpec::Capture(
        name,
    ) ==> field_valid(values[name]) && values[name].width == consumed(seq![bits], name)
        && built[i] == word[i]) by {
        if let BitSpec::Capture(name) = bits[i] {
            let group = group_bits(bits, word, name);
            lemma_consumed_single(bits, name);
            lemma_group_positions(bits, name);
            lemma_value_of_bound(group);
            lemma_pow2_monotonic(group.len(), 64);
            lemma_bits_of_value_of(group);
            lemma_group_bits_prefix(bits, word, name, i);
            lemma_group_bits_prefix(bits, word, name, i + 1);
            assert(bits.take(i + 1).drop_last() =~= bits.take(i));
            lemma_group_bits_unfold(bits.take(i + 1), word, name);
            let rank = group_width(bits.take(i), name) as int;
            assert(group_bits(bits.take(i + 1), word, name)[rank] == word[i]);
            assert(group[rank] == word[i]);
            assert(consumed(none, name) == 0);
        }
    }
    assert(built =~= word) by {
        assert forall|i: int| 0 <= i < bits.len() implies built[i] == word[i] by {
            match bits[i] {
                BitSpec::Literal(b) => {},
                BitSpec::Capture(name) => {},
                BitSpec::Wildcard => {
                    assert(bits.contains(BitSpec::Wildcard));
                },
            }
        }
    }
    lemma_value_of_bits_of(value, bits.len());
}

/// Packing after one template is packing after a sequence of that template
/// alone.
pub proof fn lemma_pack_is_sequence_of_one(bits: Seq<BitSpec>, values: Map<char, Field>)
    ensures
        match packed(bits, values) {
            Ok(word) => packed_sequence(seq![bits], values) == Ok::<Seq<nat>, TemplateError>(
                seq![word],
            ),
            Err(e) => packed_sequence(seq![bits], values) == Err::<Seq<nat>, TemplateError>(e),
        },
{
    let specs = seq![bits];
    assert(specs[0] == bits);
    if packed(bits, values) is Ok {
        assert(specs.take(0) =~= Seq::<Seq<BitSpec>>::empty());
        assert(Seq::new(
            specs.len(),
            |j: int| value_of(packed_bits(specs.take(j), specs[j], values)),
        ) =~= seq![packed(bits, values)->Ok_0]);
    }
}

/// Every word of a packed sequence matches its template, and each group of
/// the template captures from it the bits of its value that the template
/// took: those that follow the bits taken by the templates before it.
pub proof fn lemma_pack_sequence_round_trip(
    specs: Seq<Seq<BitSpec>>,
    values: Map<char, Field>,
    j: int,
)
    requires
        packed_sequence(specs, values) is Ok,
        0 <= j < specs.len(),
    ensures
        template_matches(specs[j], packed_sequence(specs, values)->Ok_0[j]),
        forall|i: int|
            0 <= i < specs[j].len() ==> (#[trigger] specs[j][i] matches BitSpec::Capture(name)
                ==> group_value(specs[j], packed_sequence(specs, values)->Ok_0[j], name)
                == value_of(
                bits_of(values[name].value as nat, values[name].width as nat).subrange(
                    consumed(specs.take(j), name) as int,
                    (consumed(specs.take(j), name) + group_width(specs[j], name)) as int,
                ),
            )),
{
    let earlier = specs.take(j);
    let bits = specs[j];
    let built = packed_bits(earlier, bits, values);
    lemma_packed_word_matches(earlier, bits, values);
    lemma_bits_of_value_of(built);
    assert(widths_agree(specs, bits, values));
    assert forall|i: int| 0 <= i < bits.len() implies (#[trigger] bits[i] matches BitSpec::Capture(
        name,
    ) ==> group_value(bits, value_of(built), name) == value_of(
        bits_of(values[name].value as nat, values[name].width as nat).subrange(
            consumed(earlier, name) as int,
            (consumed(earlier, name) + group_width(bits, name)) as int,
        ),
    )) by {
        if let BitSpec::Capture(name) = bits[i] {
            assert(earlier + seq![bits] + specs.skip(j + 1) =~= specs);
            lemma_consumed_concat(earlier + seq![bits], specs.skip(j + 1), name);
            lemma_consumed_concat(earlier, seq![bits], name);
            lemma_consumed_single(bits, name);
            lemma_packed_word_group(earlier, bits, values, name);
        }
    }
}

} // verus!
