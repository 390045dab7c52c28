use hybrid_dict::render::{holds_space, write_decimal, write_entry, write_indented, write_key};
use hybrid_dict::{BorrowedKey, Dict};

#[test]
fn decimal_of_numbers() {
    let mut out = String::from("n=");
    write_decimal(&mut out, 0);
    out.push(' ');
    write_decimal(&mut out, 7);
    out.push(' ');
    write_decimal(&mut out, 10);
    out.push(' ');
    write_decimal(&mut out, 907);
    out.push(' ');
    write_decimal(&mut out, u64::MAX);
    assert_eq!(out, "n=0 7 10 907 18446744073709551615");
}

#[test]
fn space_is_found_anywhere_in_a_text() {
    assert!(!holds_space(""));
    assert!(!holds_space("twenty"));
    assert!(!holds_space("a\tb\u{a0}c"));
    assert!(holds_space(" "));
    assert!(holds_space(" a"));
    assert!(holds_space("a "));
    assert!(holds_space("sp ace"));
}

#[test]
fn keys_are_quoted_only_with_a_space() {
    let mut out = String::new();
    write_key(&mut out, BorrowedKey::Num(42));
    out.push('|');
    write_key(&mut out, BorrowedKey::Str("bare"));
    out.push('|');
    write_key(&mut out, BorrowedKey::Str("with space"));
    out.push('|');
    write_key(&mut out, BorrowedKey::Str(""));
    assert_eq!(out, "42|bare|\"with space\"|");
}

#[test]
fn indentation_starts_every_line() {
    let mut out = String::from(">");
    write_indented(&mut out, "a\nbc\n\nd");
    assert_eq!(out, ">    a\n    bc\n    \n    d");
    let mut out = String::from(">");
    write_indented(&mut out, "");
    assert_eq!(out, ">");
    let mut out = String::new();
    write_indented(&mut out, "x,\n");
    assert_eq!(out, "    x,\n");
}

#[test]
fn entries_in_both_forms() {
    let mut out = String::new();
    write_entry(&mut out, BorrowedKey::Num(1), "v", false, true);
    write_entry(&mut out, BorrowedKey::Str("k"), "w", false, false);
    assert_eq!(out, "1=v, k=w");
    let mut out = String::new();
    write_entry(&mut out, BorrowedKey::Num(1), "v", true, true);
    write_entry(&mut out, BorrowedKey::Str("k k"), "[\n    w,\n]", true, false);
    assert_eq!(out, "    1 = v,\n    \"k k\" = [\n        w,\n    ],\n");
}

#[test]
fn render_uses_the_given_value_texts() {
    let mut dict = Dict::new();
    dict.insert("b", ());
    dict.insert(5, ());
    dict.insert("a", ());
    let texts = vec![String::from("five"), String::from("A"), String::from("B")];
    assert_eq!(dict.render(&texts, false), "(5=five, a=A, b=B)");
    assert_eq!(dict.render(&texts, true), "(\n    5 = five,\n    a = A,\n    b = B,\n)");
}

#[test]
fn single_entry_renders_like_a_tuple_of_one() {
    let mut dict = Dict::new();
    dict.push("only");
    assert_eq!(dict.debug_text(false), "(0=\"only\",)");
    assert_eq!(dict.debug_text(false), format!("{:?}", ("only",)).replace("(", "(0="));
    assert_eq!(dict.debug_text(true), "(\n    0 = \"only\",\n)");
}

#[test]
fn pretty_form_indents_nested_values() {
    let mut dict = Dict::new();
    dict.push(vec![1, 2]);
    dict.insert("t", vec![]);
    assert_eq!(dict.debug_text(false), "(0=[1, 2], t=[])");
    assert_eq!(
        dict.debug_text(true),
        "(\n    0 = [\n        1,\n        2,\n    ],\n    t = [],\n)",
    );
}

#[test]
fn pretty_form_matches_the_pretty_form_of_a_tuple() {
    let mut dict = Dict::new();
    dict.push(Some(3));
    dict.push(None);
    let tuple = format!("{:#?}", (Some(3), None::<i32>));
    let expected = tuple.replace("    Some", "    0 = Some").replace("    None", "    1 = None");
    assert_eq!(dict.debug_text(true), expected);
}
