use hybrid_dict::order::{place_of, Place};
use hybrid_dict::{BorrowedKey, OwnedKey};

#[test]
fn owned_keys_from_plain_values() {
    assert_eq!(OwnedKey::from(3), OwnedKey::Num(3));
    assert_eq!(OwnedKey::from("s"), OwnedKey::Str(String::from("s")));
    assert_eq!(OwnedKey::from(String::from("t")), OwnedKey::Str(String::from("t")));
    assert_eq!(OwnedKey::from(BorrowedKey::Num(9)), OwnedKey::Num(9));
    assert_eq!(OwnedKey::from(BorrowedKey::Str("u")), OwnedKey::Str(String::from("u")));
}

#[test]
fn borrowed_keys_from_plain_values() {
    let owned = String::from("own");
    assert_eq!(BorrowedKey::from(3), BorrowedKey::Num(3));
    assert_eq!(BorrowedKey::from("s"), BorrowedKey::Str("s"));
    assert_eq!(BorrowedKey::from(&owned), BorrowedKey::Str("own"));
}

#[test]
fn number_and_string_keys_are_never_equal() {
    assert_ne!(OwnedKey::from(10), OwnedKey::from("10"));
    assert_ne!(BorrowedKey::from(10), BorrowedKey::from("10"));
}

#[test]
fn texts_are_placed_by_their_bytes() {
    assert_eq!(place_of("", ""), Place::Same);
    assert_eq!(place_of("abc", "abc"), Place::Same);
    assert_eq!(place_of("", "a"), Place::Before);
    assert_eq!(place_of("a", ""), Place::After);
    assert_eq!(place_of("ab", "abc"), Place::Before);
    assert_eq!(place_of("abd", "abc"), Place::After);
    assert_eq!(place_of("Z", "a"), Place::Before);
    assert_eq!(place_of("10", "9"), Place::Before);
    assert_eq!(place_of("z", "é"), Place::Before);
    assert_eq!(place_of("\u{ffff}", "\u{10000}"), Place::Before);
}

#[test]
fn placing_agrees_with_the_order_of_strings() {
    let texts = ["", " ", "a", "a ", "aa", "b", "é", "日本", "\u{10ffff}", "~"];
    for a in texts {
        for b in texts {
            let expected = if a < b {
                Place::Before
            } else if a == b {
                Place::Same
            } else {
                Place::After
            };
            assert_eq!(place_of(a, b), expected);
        }
    }
}
