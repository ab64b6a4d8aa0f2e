use bit_templates::error::TemplateError;
use bit_templates::field::Field;
use bit_templates::matcher::{decode, select};
use bit_templates::template::{parse_template, BitSpec, Template};

fn template(text: &str, width: usize) -> Template {
    parse_template(text, width).unwrap()
}

fn field(name: char, value: u64, width: usize) -> Field {
    Field { name, value, width }
}

#[test]
fn op_template_rejects_wrong_leading_bits() {
    let t = template("00oo_aabb", 8);
    assert!(!t.matches(0xf7));
}

#[test]
fn op_template_captures_three_groups() {
    let t = template("00oo_aabb", 8);
    assert!(t.matches(0x17));
    assert_eq!(
        t.captures(0x17),
        vec![field('o', 1, 2), field('a', 1, 2), field('b', 3, 2)]
    );
}

#[test]
fn first_matching_template_wins() {
    let table = vec![template("0100_aaii", 8), template("01??_????", 8)];
    assert_eq!(select(0x47, &table), Ok(0));
    assert_eq!(table[0].captures(0x47), vec![field('a', 1, 2), field('i', 3, 2)]);
}

#[test]
fn wildcard_template_is_the_fallback() {
    let table = vec![template("0100_aaii", 8), template("01??_????", 8)];
    assert_eq!(select(0x5f, &table), Ok(1));
    assert_eq!(table[1].captures(0x5f), vec![]);
}

#[test]
fn no_template_matched_is_reported() {
    let table = vec![template("0100_aaii", 8), template("01??_????", 8)];
    assert_eq!(select(0x80, &table), Err(TemplateError::NoTemplateMatched));
    assert_eq!(select(0x80, &[]), Err(TemplateError::NoTemplateMatched));
}

#[test]
fn decode_hands_the_fields_to_the_handler() {
    type Handler = fn(Vec<Field>) -> String;
    let val: Handler = |f| format!("Val {}, {}", f[0].value, f[1].value);
    let invalid: Handler = |_| format!("Invalid");
    let table = vec![(template("0100_aaii", 8), val), (template("01??_????", 8), invalid)];
    assert_eq!(decode(0x47, &table), Ok(String::from("Val 1, 3")));
    assert_eq!(decode(0x5f, &table), Ok(String::from("Invalid")));
    assert_eq!(decode(0xc0, &table), Err(TemplateError::NoTemplateMatched));
}

#[test]
fn bit_specifiers_are_read_most_significant_first() {
    let t = template("01?x", 4);
    assert_eq!(t.width(), 4);
    assert_eq!(t.bit(0), BitSpec::Literal(false));
    assert_eq!(t.bit(1), BitSpec::Literal(true));
    assert_eq!(t.bit(2), BitSpec::Wildcard);
    assert_eq!(t.bit(3), BitSpec::Capture('x'));
}

#[test]
fn the_only_match_is_selected_in_any_order() {
    let texts = ["00oo_aabb", "0100_aaii", "10ii_aabb", "11ii_aabb"];
    let orders: [[usize; 4]; 6] = [
        [0, 1, 2, 3],
        [3, 2, 1, 0],
        [1, 0, 3, 2],
        [2, 3, 0, 1],
        [1, 2, 3, 0],
        [3, 0, 1, 2],
    ];
    for value in [0x17u64, 0x47, 0x9b, 0xf7] {
        let mut selected = Vec::new();
        for order in orders {
            let table: Vec<Template> = order.iter().map(|k| template(texts[*k], 8)).collect();
            let matching: Vec<usize> = (0..4).filter(|j| table[*j].matches(value)).collect();
            assert_eq!(matching.len(), 1);
            let chosen = select(value, &table).unwrap();
            assert_eq!(chosen, matching[0]);
            selected.push(table[chosen].clone());
        }
        assert!(selected.iter().all(|t| *t == selected[0]));
    }
}

#[test]
fn the_handler_of_an_earlier_template_hides_a_later_match() {
    type Handler = fn(Vec<Field>) -> u64;
    let first: Handler = |f| 100 + f[0].value;
    let second: Handler = |f| 200 + f[0].value;
    let table = vec![(template("aaaa_0000", 8), first), (template("bbbb_????", 8), second)];
    assert_eq!(decode(0x70, &table), Ok(107));
    assert_eq!(decode(0x71, &table), Ok(207));
}
