use hybrid_dict::{BorrowedKey, Dict, OwnedKey};

#[test]
fn test_dict_different_key_types_dont_interfere() {
    let mut dict = Dict::new();
    dict.insert(10, "hello");
    dict.insert("twenty", "there");
    assert_eq!(dict.len(), 2);
    assert_eq!(dict[10], "hello");
    assert_eq!(dict["twenty"], "there");
}

#[test]
fn test_dict_push_skips_already_inserted_keys() {
    let mut dict = Dict::new();
    dict.insert(2, "2");
    dict.push("0");
    dict.insert(3, "3");
    dict.push("1");
    dict.push("4");
    assert_eq!(dict.len(), 5);
    assert_eq!(dict[0], "0");
    assert_eq!(dict[1], "1");
    assert_eq!(dict[2], "2");
    assert_eq!(dict[3], "3");
    assert_eq!(dict[4], "4");
}

#[test]
fn test_dict_push_remove_push_reuses_index() {
    let mut dict = Dict::new();
    dict.push("0");
    dict.push("1");
    dict.push("2");
    dict.remove(1);
    dict.push("a");
    dict.push("3");
    assert_eq!(dict.len(), 4);
    assert_eq!(dict[0], "0");
    assert_eq!(dict[1], "a");
    assert_eq!(dict[2], "2");
    assert_eq!(dict[3], "3");
}

#[test]
fn test_dict_first_and_last_are_correct() {
    let mut dict = Dict::new();
    assert_eq!(dict.first(), None);
    assert_eq!(dict.last(), None);
    dict.insert(4, "hi");
    dict.insert("string", "hi");
    assert_eq!(dict.first(), Some((4, &"hi")));
    assert_eq!(dict.last(), Some((4, &"hi")));
    dict.insert(2, "bye");
    assert_eq!(dict.first(), Some((2, &"bye")));
    assert_eq!(dict.last(), Some((4, &"hi")));
}

#[test]
fn test_dict_format_debug() {
    let mut dict = Dict::new();
    assert_eq!(dict.debug_text(false), "()");
    assert_eq!(dict.debug_text(true), "()");

    dict.insert(10, "hello");
    dict.insert("twenty", "there");
    dict.insert("sp ace", "quotes");
    assert_eq!(
        dict.debug_text(false),
        r#"(10="hello", "sp ace"="quotes", twenty="there")"#,
    );
    assert_eq!(dict.debug_text(true).lines().collect::<Vec<_>>(), [
        "(",
        r#"    10 = "hello","#,
        r#"    "sp ace" = "quotes","#,
        r#"    twenty = "there","#,
        ")",
    ]);
}

#[test]
fn numeral_like_string_key_is_distinct_from_number_key() {
    let mut dict = Dict::new();
    dict.insert(10, "number");
    dict.insert("10", "string");
    assert_eq!(dict.len(), 2);
    assert_eq!(dict.get(10), Some(&"number"));
    assert_eq!(dict.get("10"), Some(&"string"));
    assert_eq!(dict.remove("10"), Some("string"));
    assert_eq!(dict.get(10), Some(&"number"));
    assert_eq!(dict.get("10"), None);
}

#[test]
fn new_dict_is_empty() {
    let dict: Dict<u8> = Dict::new();
    assert_eq!(dict.len(), 0);
    assert!(dict.is_empty());
    assert_eq!(dict.iter(), vec![]);
    let other: Dict<u8> = Dict::default();
    assert!(other.is_empty());
    assert!(dict == other);
}

#[test]
fn insert_overwrites_without_growing() {
    let mut dict = Dict::new();
    dict.insert(7, 1);
    dict.insert("k", 2);
    dict.insert(7, 3);
    dict.insert("k", 4);
    assert_eq!(dict.len(), 2);
    assert!(!dict.is_empty());
    assert_eq!(dict.get(7), Some(&3));
    assert_eq!(dict.get("k"), Some(&4));
}

#[test]
fn get_of_missing_key_is_none() {
    let mut dict = Dict::new();
    dict.insert(1, 'a');
    dict.insert("one", 'b');
    assert_eq!(dict.get(0), None);
    assert_eq!(dict.get(2), None);
    assert_eq!(dict.get("on"), None);
    assert_eq!(dict.get("one "), None);
    assert_eq!(dict.get(&String::from("one")), Some(&'b'));
}

#[test]
fn get_mut_changes_the_value_in_place() {
    let mut dict = Dict::new();
    dict.insert(3, 30);
    dict.insert("x", 40);
    *dict.get_mut(3).unwrap() += 1;
    *dict.get_mut("x").unwrap() += 2;
    assert!(dict.get_mut(4).is_none());
    assert!(dict.get_mut("y").is_none());
    assert_eq!(dict.get(3), Some(&31));
    assert_eq!(dict.get("x"), Some(&42));
    assert_eq!(dict.len(), 2);
}

#[test]
fn remove_returns_the_stored_value() {
    let mut dict = Dict::new();
    dict.insert(5, "five");
    dict.insert("five", "text");
    assert_eq!(dict.remove(5), Some("five"));
    assert_eq!(dict.len(), 1);
    assert_eq!(dict.remove(5), None);
    assert_eq!(dict.len(), 1);
    assert_eq!(dict.remove("five"), Some("text"));
    assert_eq!(dict.remove("five"), None);
    assert_eq!(dict.len(), 0);
}

#[test]
fn remove_of_missing_key_leaves_the_dict_unchanged() {
    let mut dict = Dict::new();
    dict.push("a");
    dict.insert("s", "b");
    let before = dict.clone();
    assert_eq!(dict.remove(9), None);
    assert_eq!(dict.remove("t"), None);
    assert_eq!(dict.len(), 2);
    assert!(dict == before);
}

#[test]
fn push_on_empty_dict_starts_at_zero() {
    let mut dict = Dict::new();
    dict.push('a');
    dict.push('b');
    assert_eq!(dict.nums(), vec![(&0, &'a'), (&1, &'b')]);
}

#[test]
fn push_fills_the_lowest_gap_first() {
    let mut dict = Dict::new();
    dict.insert(0, "zero");
    dict.insert(1, "one");
    dict.insert(3, "three");
    dict.push("gap");
    dict.push("end");
    assert_eq!(
        dict.nums(),
        vec![(&0, &"zero"), (&1, &"one"), (&2, &"gap"), (&3, &"three"), (&4, &"end")],
    );
}

#[test]
fn push_after_removing_an_absent_low_key_still_finds_the_lowest_free_key() {
    let mut dict = Dict::new();
    dict.push("a");
    dict.push("b");
    dict.push("c");
    assert_eq!(dict.remove(7), None);
    assert_eq!(dict.remove(0), Some("a"));
    assert_eq!(dict.remove(2), Some("c"));
    dict.push("x");
    dict.push("y");
    dict.push("z");
    assert_eq!(dict.nums(), vec![(&0, &"x"), (&1, &"b"), (&2, &"y"), (&3, &"z")]);
}

#[test]
fn push_does_not_touch_string_keys() {
    let mut dict = Dict::new();
    dict.insert("0", "text");
    dict.push("first");
    assert_eq!(dict.get(0), Some(&"first"));
    assert_eq!(dict.get("0"), Some(&"text"));
}

#[test]
fn insert_at_highest_key_keeps_working() {
    let mut dict = Dict::new();
    dict.insert(u64::MAX, "top");
    dict.push("bottom");
    assert_eq!(dict.first(), Some((0, &"bottom")));
    assert_eq!(dict.last(), Some((u64::MAX, &"top")));
}

#[test]
fn first_and_last_ignore_string_keys() {
    let mut dict = Dict::new();
    dict.insert("a", 1);
    dict.insert("z", 2);
    assert_eq!(dict.first(), None);
    assert_eq!(dict.last(), None);
    dict.insert(8, 3);
    dict.insert("m", 4);
    assert_eq!(dict.first(), Some((8, &3)));
    assert_eq!(dict.last(), Some((8, &3)));
}

#[test]
fn iter_lists_numbers_then_strings_in_order() {
    let mut dict = Dict::new();
    dict.insert("pear", 1);
    dict.insert(20, 2);
    dict.insert("apple", 3);
    dict.insert(3, 4);
    dict.insert("Zed", 5);
    assert_eq!(
        dict.iter(),
        vec![
            (BorrowedKey::Num(3), &4),
            (BorrowedKey::Num(20), &2),
            (BorrowedKey::Str("Zed"), &5),
            (BorrowedKey::Str("apple"), &3),
            (BorrowedKey::Str("pear"), &1),
        ],
    );
    assert_eq!(dict.values(), vec![&4, &2, &5, &3, &1]);
    assert_eq!(dict.nums(), vec![(&3, &4), (&20, &2)]);
    assert_eq!(
        dict.strs(),
        vec![
            (&String::from("Zed"), &5),
            (&String::from("apple"), &3),
            (&String::from("pear"), &1),
        ],
    );
}

#[test]
fn owned_listings_keep_the_order() {
    let mut dict = Dict::new();
    dict.insert("b", 1);
    dict.insert(9, 2);
    dict.insert("a", 3);
    dict.insert(1, 4);
    assert_eq!(
        dict.clone().into_iter(),
        vec![
            (OwnedKey::Num(1), 4),
            (OwnedKey::Num(9), 2),
            (OwnedKey::Str(String::from("a")), 3),
            (OwnedKey::Str(String::from("b")), 1),
        ],
    );
    assert_eq!(dict.clone().into_values(), vec![4, 2, 3, 1]);
    assert_eq!(dict.clone().into_nums(), vec![(1, 4), (9, 2)]);
    assert_eq!(dict.into_strs(), vec![(String::from("a"), 3), (String::from("b"), 1)]);
}

#[test]
fn string_keys_are_ordered_by_their_bytes() {
    let mut dict = Dict::new();
    dict.insert("é", 1);
    dict.insert("z", 2);
    dict.insert("", 3);
    dict.insert("zz", 4);
    dict.insert("\u{10000}", 5);
    dict.insert("\u{ffff}", 6);
    assert_eq!(dict.values(), vec![&3, &2, &4, &1, &6, &5]);
}

#[test]
fn equality_does_not_depend_on_insertion_order() {
    let mut a = Dict::new();
    a.insert(1, "one");
    a.insert("k", "key");
    a.insert(0, "zero");
    a.insert("j", "jay");
    let mut b = Dict::new();
    b.insert("j", "jay");
    b.insert(0, "zero");
    b.insert("k", "key");
    b.insert(1, "one");
    assert!(a == b);
    b.insert(1, "uno");
    assert!(a != b);
}

#[test]
fn dicts_with_different_keys_or_sizes_differ() {
    let mut a = Dict::new();
    a.insert(1, 0);
    let mut b = Dict::new();
    b.insert("1", 0);
    assert!(a != b);
    b.insert(1, 0);
    assert!(a != b);
    a.insert("1", 0);
    assert!(a == b);
    a.insert(2, 0);
    b.insert("2", 0);
    assert!(a != b);
}

#[test]
fn clone_holds_the_same_entries_and_goes_its_own_way() {
    let mut dict = Dict::new();
    dict.push(String::from("a"));
    dict.insert("k", String::from("b"));
    dict.push(String::from("c"));
    let mut copy = dict.clone();
    assert!(copy == dict);
    assert_eq!(copy.len(), 3);
    copy.push(String::from("d"));
    dict.remove(0);
    dict.push(String::from("e"));
    assert_eq!(copy.get(2), Some(&String::from("d")));
    assert_eq!(copy.get(0), Some(&String::from("a")));
    assert_eq!(dict.get(0), Some(&String::from("e")));
    assert_eq!(dict.get(2), None);
}

#[test]
fn insert_at_the_lowest_free_key_lets_push_go_on_above() {
    let mut dict = Dict::new();
    dict.insert(0, 'a');
    dict.insert(1, 'b');
    dict.push('c');
    dict.insert(4, 'e');
    dict.insert(3, 'd');
    dict.push('f');
    assert_eq!(
        dict.nums(),
        vec![(&0, &'a'), (&1, &'b'), (&2, &'c'), (&3, &'d'), (&4, &'e'), (&5, &'f')],
    );
}

#[test]
fn many_pushes_and_removals_agree_with_a_plain_scan() {
    let mut dict = Dict::new();
    let mut taken = vec![false; 512];
    let mut seed: u64 = 12345;
    for _ in 0..400 {
        seed = seed.wrapping_mul(6364136223846793005).wrapping_add(1442695040888963407);
        let pick = (seed >> 33) % 48;
        match (seed >> 20) % 3 {
            0 => {
                let free = taken.iter().position(|t| !t).unwrap();
                dict.push(free);
                taken[free] = true;
                assert_eq!(dict.get(free as u64), Some(&free));
            }
            1 => {
                dict.insert(pick, pick as usize);
                taken[pick as usize] = true;
            }
            _ => {
                let removed = dict.remove(pick);
                assert_eq!(removed.is_some(), taken[pick as usize]);
                taken[pick as usize] = false;
            }
        }
        assert_eq!(dict.len(), taken.iter().filter(|t| **t).count());
    }
    let keys: Vec<u64> = dict.nums().into_iter().map(|(k, _)| *k).collect();
    let expected: Vec<u64> = (0..512).filter(|k| taken[*k as usize]).collect();
    assert_eq!(keys, expected);
}
