//! The matcher: first-match-wins decoding of a value against an ordered list
//! of templates.

use crate::error::TemplateError;
use crate::field::Field;
use crate::template::{captured_fields, template_matches, Template};
use vstd::prelude::*;

verus! {

/// Whether no template of `table` matches `value`.
pub open spec fn none_matches(table: Seq<Template>, value: nat) -> bool {
    forall|j: int| 0 <= j < table.len() ==> !template_matches((#[trigger] table[j])@, value)
}

/// Whether decoding `value` against `table` selects the template at `i`:
/// it matches, and no template before it does.
pub open spec fn selects(table: Seq<Template>, value: nat, i: int) -> bool {
    &&& 0 <= i < table.len()
    &&& template_matches(table[i]@, value)
    &&& none_matches(table.take(i), value)
}

/// The templates of a decode table, without their handlers.
pub open spec fn templates_of<H>(table: Seq<(Template, H)>) -> Seq<Template> {
    table.map_values(|entry: (Template, H)| entry.0)
}

/// Whether `out` is what the handler of `entry` can return for the fields
/// that the template of `entry` captures from `value`.
pub open spec fn handled_by<R, H: Fn(Vec<Field>) -> R>(
    entry: (Template, H),
    value: nat,
    out: R,
) -> bool {
    exists|fields: Vec<Field>|
        fields@ == captured_fields(entry.0@, value) && #[trigger] call_ensures(
            entry.1,
            (fields,),
            out,
        )
}

/// Finds the first template of `table` that `value` matches, and reports
/// `NoTemplateMatched` when there is none.
pub fn select(value: u64, table: &[Template]) -> (r: Result<usize, TemplateError>)
    ensures
        match r {
            Ok(i) => selects(table@, value as nat, i as int),
            Err(e) => e == TemplateError::NoTemplateMatched && none_matches(table@, value as nat),
        },
{
    let mut i: usize = 0;
    while i < table.len()
        invariant
            i <= table@.len(),
            none_matches(table@.take(i as int), value as nat),
        decreases table@.len() - i,
    {
        if table[i].matches(value) {
            return Ok(i);
        }
        proof {
            let next = table@.take(i + 1);
            assert forall|j: int| 0 <= j < next.len() implies !template_matches(
                (#[trigger] next[j])@,
                value as nat,
            ) by {
                if j < i {
                    assert(table@.take(i as int)[j] == next[j]);
                }
            }
        }
        i += 1;
    }
    proof {
        assert(table@.take(i as int) =~= table@);
    }
    Err(TemplateError::NoTemplateMatched)
}

/// Decodes `value` against a priority-ordered table of templates and
/// handlers.
///
/// The first template that `value` matches is selected; its capture groups
/// are extracted, in the order in which they first appear in the template,
/// and handed to the handler of that template, whose result is returned.
/// When no template matches, no handler is called and `NoTemplateMatched` is
/// reported.
pub fn decode<R, H: Fn(Vec<Field>) -> R>(value: u64, table: &Vec<(Template, H)>) -> (r: Result<
    R,
    TemplateError,
>)
    requires
        forall|i: int, fields: Vec<Field>|
            selects(templates_of(table@), value as nat, i) && fields@ == captured_fields(
                table@[i].0@,
                value as nat,
            ) ==> call_requires(table@[i].1, (fields,)),
    ensures
        match r {
            Ok(out) => exists|i: int|
                selects(templates_of(table@), value as nat, i) && #[trigger] handled_by(
                    table@[i],
                    value as nat,
                    out,
                ),
            Err(e) => e == TemplateError::NoTemplateMatched && none_matches(
                templates_of(table@),
                value as nat,
            ),
        },
{
    let ghost templates = templates_of(table@);
    let mut i: usize = 0;
    while i < table.len()
        invariant
            i <= table@.len(),
            templates == templates_of(table@),
            none_matches(templates.take(i as int), value as nat),
            forall|i: int, fields: Vec<Field>|
                selects(templates, value as nat, i) && fields@ == captured_fields(
                    table@[i].0@,
                    value as nat,
                ) ==> call_requires(table@[i].1, (fields,)),
        decreases table@.len() - i,
    {
        let entry = &table[i];
        if entry.0.matches(value) {
            let fields = entry.0.captures(value);
            proof {
                assert(templates[i as int] == table@[i as int].0);
                assert(selects(templates, value as nat, i as int));
            }
            let out = (entry.1)(fields);
            let r: Result<R, TemplateError> = Ok(out);
            assert(handled_by(table@[i as int], value as nat, r->Ok_0));
            return r;
        }
        proof {
            let next = templates.take(i + 1);
            assert forall|j: int| 0 <= j < next.len() implies !template_matches(
                (#[trigger] next[j])@,
                value as nat,
            ) by {
                if j < i {
                    assert(templates.take(i as int)[j] == next[j]);
                }
            }
        }
        i += 1;
    }
    proof {
        assert(templates.take(i as int) =~= templates);
    }
    Err(TemplateError::NoTemplateMatched)
}

/// At most one template is selected.
pub proof fn lemma_selection_is_unique(table: Seq<Template>, value: nat, i: int)
    requires
        selects(table, value, i),
    ensures
        forall|k: int| selects(table, value, k) ==> k == i,
        !none_matches(table, value),
{
    assert forall|k: int| selects(table, value, k) implies k == i by {
        if k < i {
            assert(table.take(i)[k] == table[k]);
        } else if i < k {
            assert(table.take(k)[i] == table[i]);
        }
    }
}

/// Where no template matches, none is selected.
pub proof fn lemma_no_match_selects_nothing(table: Seq<Template>, value: nat)
    requires
        none_matches(table, value),
    ensures
        forall|k: int| !selects(table, value, k),
{
}

/// A value that matches exactly one template of the table selects that
/// template, wherever the templates that do not match stand in the table.
pub proof fn lemma_only_match_is_selected(table: Seq<Template>, value: nat, i: int)
    requires
        0 <= i < table.len(),
        template_matches(table[i]@, value),
        forall|j: int| 0 <= j < table.len() && j != i ==> !template_matches(table[j]@, value),
    ensures
        selects(table, value, i),
{
    assert forall|j: int| 0 <= j < table.take(i).len() implies !template_matches(
        (#[trigger] table.take(i)[j])@,
        value,
    ) by {
        assert(table.take(i)[j] == table[j]);
    }
}

/// Reordering a table in which exactly one template matches a value does not
/// change which template the value selects: if `shuffled` holds the
/// templates of `table` in the order given by `order`, the only match of
/// `table` is selected in `shuffled` at the place to which `order` moved it.
pub proof fn lemma_selection_ignores_order(
    table: Seq<Template>,
    shuffled: Seq<Template>,
    order: Seq<int>,
    value: nat,
    i: int,
    k: int,
)
    requires
        shuffled.len() == table.len(),
        order.len() == table.len(),
        forall|j: int| 0 <= j < order.len() ==> 0 <= #[trigger] order[j] < table.len(),
        forall|j: int| 0 <= j < order.len() ==> #[trigger] shuffled[j] == table[order[j]],
        forall|j: int, l: int| 0 <= j < l < order.len() ==> order[j] != order[l],
        0 <= k < order.len(),
        order[k] == i,
        template_matches(table[i]@, value),
        forall|j: int| 0 <= j < table.len() && j != i ==> !template_matches(table[j]@, value),
    ensures
        selects(shuffled, value, k),
        shuffled[k] == table[i],
{
    assert forall|j: int| 0 <= j < shuffled.len() && j != k implies !template_matches(
        shuffled[j]@,
        value,
    ) by {
        assert(order[j] != order[k]);
    }
    lemma_only_match_is_selected(shuffled, value, k);
}

} // verus!
