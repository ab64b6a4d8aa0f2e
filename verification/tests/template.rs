use bit_templates::error::TemplateError;
use bit_templates::field::Field;
use bit_templates::template::{parse_template, BitSpec};

fn refused(text: &str, width: usize) -> bool {
    matches!(parse_template(text, width), Err(TemplateError::MalformedTemplate))
}

#[test]
fn separators_do_not_count_towards_the_width() {
    let plain = parse_template("00ooaabb", 8).unwrap();
    let grouped = parse_template("00_oo aa__bb ", 8).unwrap();
    assert_eq!(plain.width(), 8);
    assert_eq!(grouped.width(), 8);
    for i in 0..8 {
        assert_eq!(plain.bit(i), grouped.bit(i));
    }
}

#[test]
fn wrong_width_is_malformed() {
    assert!(refused("00oo_aabb", 7));
    assert!(refused("00oo_aabb", 9));
    assert!(refused("", 1));
    assert!(refused("____", 4));
}

#[test]
fn unsupported_symbol_is_malformed() {
    assert!(refused("00oo-aabb", 8));
    assert!(refused("0000_0002", 8));
    assert!(refused("0000_000*", 8));
    assert!(refused("0000\t0000", 8));
    assert!(refused("0000_000\u{e9}", 8));
}

#[test]
fn an_unsupported_symbol_after_the_last_bit_is_malformed() {
    assert!(refused("0000_0000!", 8));
}

#[test]
fn templates_wider_than_a_word_are_malformed() {
    let text = "?".repeat(65);
    assert!(refused(&text, 65));
    let text = "?".repeat(64);
    assert_eq!(parse_template(&text, 64).unwrap().width(), 64);
}

#[test]
fn the_empty_template_matches_only_zero() {
    let t = parse_template("", 0).unwrap();
    assert_eq!(t.width(), 0);
    assert!(t.matches(0));
    assert!(!t.matches(1));
    assert_eq!(t.captures(0), vec![]);
}

#[test]
fn upper_case_letters_name_groups_of_their_own() {
    let t = parse_template("aAaA", 4).unwrap();
    assert_eq!(t.bit(0), BitSpec::Capture('a'));
    assert_eq!(t.bit(1), BitSpec::Capture('A'));
    assert_eq!(t.capture_names(), vec!['a', 'A']);
    assert_eq!(t.capture(0b1011, 'a').value, 0b11);
    assert_eq!(t.capture(0b1011, 'A').value, 0b01);
}

#[test]
fn canonical_text_has_one_symbol_per_bit() {
    let t = parse_template("01?? _aAzZ", 8).unwrap();
    assert_eq!(t.to_text(), "01??aAzZ");
}

#[test]
fn canonical_text_parses_to_the_same_template() {
    for text in ["00oo_aabb", "0100_aaii", "01??_????", "a?b?c?d?1 0", ""] {
        let width = text.chars().filter(|c| *c != '_' && *c != ' ').count();
        let t = parse_template(text, width).unwrap();
        let again = parse_template(&t.to_text(), width).unwrap();
        assert_eq!(again, t);
        assert_eq!(again.to_text(), t.to_text());
    }
}

#[test]
fn a_value_that_does_not_fit_matches_nothing() {
    let t = parse_template("????", 4).unwrap();
    assert!(t.matches(0));
    assert!(t.matches(15));
    assert!(!t.matches(16));
    assert!(!t.matches(u64::MAX));
}

#[test]
fn literals_are_compared_bit_by_bit() {
    let t = parse_template("1?0?", 4).unwrap();
    let matching: Vec<u64> = (0..16).filter(|v| t.matches(*v)).collect();
    assert_eq!(matching, vec![0b1000, 0b1001, 0b1100, 0b1101]);
}

#[test]
fn a_group_may_be_split_over_the_template() {
    let t = parse_template("aabbaabb", 8).unwrap();
    let fields = t.captures(0b0111_1001);
    assert_eq!(
        fields,
        vec![
            Field { name: 'a', value: 0b0110, width: 4 },
            Field { name: 'b', value: 0b1101, width: 4 },
        ]
    );
}

#[test]
fn groups_come_in_the_order_of_their_first_bit() {
    let t = parse_template("z0az_yyaz", 8).unwrap();
    assert_eq!(t.capture_names(), vec!['z', 'a', 'y']);
    let names: Vec<char> = t.captures(0).iter().map(|f| f.name).collect();
    assert_eq!(names, vec!['z', 'a', 'y']);
}

#[test]
fn a_captured_value_is_below_two_to_its_width() {
    let t = parse_template("aaab_bbbb", 8).unwrap();
    for value in 0..256u64 {
        for field in t.captures(value) {
            assert!(field.value < (1 << field.width));
        }
        assert_eq!(t.capture(value, 'a').value, value >> 5);
        assert_eq!(t.capture(value, 'b').value, value & 0x1f);
    }
}

#[test]
fn a_name_without_a_group_captures_nothing() {
    let t = parse_template("aaaa", 4).unwrap();
    assert_eq!(t.capture(0b1111, 'b'), Field { name: 'b', value: 0, width: 0 });
    assert_eq!(t.width_of('b'), 0);
    assert_eq!(t.width_of('a'), 4);
}

#[test]
fn a_group_of_the_whole_word_captures_the_word() {
    let text = "w".repeat(64);
    let t = parse_template(&text, 64).unwrap();
    assert!(t.matches(u64::MAX));
    assert_eq!(
        t.capture(0xdead_beef_0123_4567, 'w'),
        Field { name: 'w', value: 0xdead_beef_0123_4567, width: 64 }
    );
}

#[test]
fn templates_are_equal_when_their_bits_are() {
    let t = parse_template("01?a_bbAa", 8).unwrap();
    assert_eq!(t, parse_template("01 ?a bb Aa", 8).unwrap());
    assert_eq!(t, t.clone());
    assert_ne!(t, parse_template("01?a_bbAA", 8).unwrap());
    assert_ne!(t, parse_template("01?a_bbA", 7).unwrap());
    assert_ne!(t, parse_template("01?a_bbAa0", 9).unwrap());
    assert_eq!(parse_template("", 0).unwrap(), parse_template("_ _", 0).unwrap());
}
