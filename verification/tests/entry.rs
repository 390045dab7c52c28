use hybrid_dict::{Span, Spanned, SpannedEntry};

#[test]
fn entry_keeps_both_spans() {
    let entry = SpannedEntry::new(Span::new(1, 4), Spanned::new("v", Span::new(6, 9)));
    assert_eq!(entry.key, Span { start: 1, end: 4 });
    assert_eq!(entry.val.span, Span { start: 6, end: 9 });
    assert_eq!(entry.val.v, "v");
}

#[test]
fn entry_from_value_shares_the_span() {
    let entry = SpannedEntry::val(Spanned::new(5, Span::new(2, 3)));
    assert_eq!(entry.key, Span::new(2, 3));
    assert_eq!(entry.val.span, Span::new(2, 3));
    assert_eq!(entry.val.v, 5);
}

#[test]
fn entry_as_ref_borrows_the_value() {
    let entry = SpannedEntry::new(Span::new(0, 1), Spanned::new(String::from("x"), Span::new(2, 3)));
    let borrowed = entry.as_ref();
    assert_eq!(borrowed.key, entry.key);
    assert_eq!(borrowed.val.span, entry.val.span);
    assert_eq!(borrowed.val.v, &entry.val.v);
}

#[test]
fn entry_map_changes_only_the_value() {
    let entry = SpannedEntry::new(Span::new(0, 1), Spanned::new(20, Span::new(2, 3)));
    let mapped = entry.map(|v| v + 1);
    assert_eq!(mapped.key, Span::new(0, 1));
    assert_eq!(mapped.val.span, Span::new(2, 3));
    assert_eq!(mapped.val.v, 21);
}

#[test]
fn spanned_map_and_as_ref() {
    let spanned = Spanned::new(2, Span::new(7, 8));
    assert_eq!(spanned.as_ref().v, &2);
    let mapped = spanned.map(|v| v * 2);
    assert_eq!(mapped, Spanned::new(4, Span::new(7, 8)));
}

#[test]
fn entry_text_from_given_parts() {
    assert_eq!(SpannedEntry::<u8>::render("<1-4>", "\"v\"", false), "\"v\"");
    assert_eq!(SpannedEntry::<u8>::render("<1-4>", "\"v\"", true), "key<1-4> \"v\"");
    assert_eq!(SpannedEntry::<u8>::render("", "", true), "key ");
    assert_eq!(SpannedEntry::<u8>::render("", "", false), "");
}

#[test]
fn entry_debug_text_shows_the_key_span_only_in_pretty_form() {
    let entry = SpannedEntry::new(Span::new(1, 4), Spanned::new(7, Span::new(6, 9)));
    let compact = entry.debug_text(false);
    assert_eq!(compact, format!("{:?}", entry.val));
    let pretty = entry.debug_text(true);
    assert_eq!(pretty, format!("key{:#?} {:#?}", entry.key, entry.val));
}

#[test]
fn entry_clone_is_equal() {
    let entry = SpannedEntry::new(Span::new(1, 4), Spanned::new(String::from("v"), Span::new(6, 9)));
    assert!(entry.clone() == entry);
    let other = SpannedEntry::val(Spanned::new(String::from("v"), Span::new(6, 9)));
    assert!(other != entry);
}
