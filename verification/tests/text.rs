//! Texts, names and s-expressions.

use konnect::names::{precedes, NameSet};
use konnect::netlist::PadMap;
use konnect::sexp::{parse_sexp, Malformed, SexpNode};
use konnect::text::{
    decimal_text, find, indent_at, join_texts, same_text, skip_white, skip_white_back, to_chars,
    to_text, whitespace,
};

#[test]
fn decimal_numbers_have_no_leading_zeros() {
    assert_eq!(decimal_text(0), "0");
    assert_eq!(decimal_text(10), "10");
    assert_eq!(decimal_text(u64::MAX), "18446744073709551615");
}

#[test]
fn strings_go_through_characters_unchanged() {
    let text = "a µ \"Ω\"\n";
    let chars = to_chars(text);
    assert_eq!(chars.len(), 8);
    assert_eq!(to_text(&chars), text);
    assert!(same_text(text, &to_text(&chars)));
    assert!(!same_text("a", "ab"));
}

#[test]
fn searching_finds_the_first_occurrence() {
    let s = to_chars("abcabc");
    let pat = to_chars("bc");
    assert_eq!(find(&s, 0, 6, &pat), Some(1));
    assert_eq!(find(&s, 2, 6, &pat), Some(4));
    assert_eq!(find(&s, 2, 5, &pat), None);
}

#[test]
fn indentation_is_leading_white_space_only() {
    let s = to_chars("x\n\t  (pad (net))");
    assert_eq!(indent_at(&s, 10), "\t  ");
    assert_eq!(indent_at(&s, 1), "");
    assert_eq!(skip_white(&s, 1, s.len()), 5);
    assert_eq!(skip_white_back(&s, 0, 5), 1);
    assert!(whitespace('\u{3000}') && whitespace('\u{85}') && !whitespace('\u{200b}'));
}

#[test]
fn white_space_is_what_std_takes_it_for() {
    for code in 0u32..0x11_0000 {
        if let Some(c) = char::from_u32(code) {
            assert_eq!(whitespace(c), c.is_whitespace(), "{code:#x}");
        }
    }
}

#[test]
fn names_are_sorted_and_unique() {
    let mut set = NameSet::default();
    for name in ["b", "a", "b", "", "aa", "Ω", "Z"] {
        set.insert(name.to_string());
    }
    assert_eq!(set.len(), 6);
    assert!(set.contains("aa") && !set.contains("c"));
    let mut other = NameSet::new();
    other.insert("a".to_string());
    assert_eq!(set.difference(&other), vec!["", "Z", "aa", "b", "Ω"]);
    let mut sorted = vec!["b", "a", "", "aa", "Ω", "Z"];
    sorted.sort();
    assert_eq!(set.into_list(), sorted);
    assert!(precedes("a", "aa") && precedes("Z", "a") && !precedes("a", "a"));
}

#[test]
fn a_later_net_overrides_an_earlier_one() {
    let mut pads = PadMap::new();
    pads.insert(("U1".to_string(), "1".to_string()), "A".to_string());
    pads.insert(("U1".to_string(), "1".to_string()), "B".to_string());
    assert_eq!(
        pads.get(&("U1".to_string(), "1".to_string())).map(String::as_str),
        Some("B")
    );
    assert_eq!(pads.get(&("U1".to_string(), "2".to_string())), None);
}

#[test]
fn texts_are_joined_with_a_separator() {
    let list = vec!["a".to_string(), "b".to_string(), "".to_string()];
    assert_eq!(join_texts(&list, "; "), "a; b; ");
    assert_eq!(join_texts(&[], "; "), "");
}

#[test]
fn expressions_are_atoms_strings_and_lists() {
    let tree = parse_sexp(" (a \"x\\\"\\n\\\\\" (b 1.5) (b two) ()) \n").unwrap();
    let items = match &tree {
        SexpNode::List(items) => items,
        other => panic!("{other:?}"),
    };
    assert_eq!(items.len(), 5);
    assert_eq!(items[1].as_str(), Some("x\"\n\\"));
    assert_eq!(tree.find_str("b"), Some("1.5"));
    assert_eq!(tree.find_all("b").len(), 2);
    assert!(tree.find("c").is_none());
    assert!(items[4].find("b").is_none());
    assert!(tree.as_str().is_none());
}

#[test]
fn what_is_not_one_expression_is_malformed() {
    for text in ["", "  ", "(a", ")", "(a))", "(a) b", "\"open", "\"open\\"] {
        assert_eq!(parse_sexp(text).unwrap_err(), Malformed, "{text}");
    }
    assert_eq!(parse_sexp("atom").unwrap().as_str(), Some("atom"));
    assert_eq!(parse_sexp("\"\\t\\r\"").unwrap().as_str(), Some("\t\r"));
}
