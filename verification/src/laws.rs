//! What holds of every dictionary, proved from the contracts of its methods.
//!
//! Each law takes the dictionaries before and after the calls it speaks of,
//! related as the methods' contracts relate them.

use vstd::prelude::*;
use vstd::std_specs::cmp::PartialEqSpec;
use crate::dict::Dict;
use crate::key::{key_lt, Key};
use crate::listing::{lemma_canonical, lemma_lookup, lemma_size, position};
use crate::render::rendering;

verus! {

/// The keys of a dictionary are finitely many, as many as it lists entries,
/// and each entry listed is an entry of the map.
pub proof fn law_listing_matches_map<V>(dict: Dict<V>)
    requires
        dict.wf(),
    ensures
        dict@.dom().finite(),
        dict@.len() == dict.entries().len(),
        forall|i: int|
            0 <= i < dict.entries().len() ==> dict@.contains_key(
                (#[trigger] dict.entries()[i]).0,
            ) && dict@[dict.entries()[i].0] == dict.entries()[i].1,
        forall|key: Key| #[trigger]
            dict@.contains_key(key) ==> exists|i: int|
                0 <= i < dict.entries().len() && (#[trigger] dict.entries()[i]).0 == key,
{
    lemma_size(dict.entries());
    assert forall|i: int| 0 <= i < dict.entries().len() implies dict@.contains_key(
        (#[trigger] dict.entries()[i]).0,
    ) && dict@[dict.entries()[i].0] == dict.entries()[i].1 by {
        lemma_lookup(dict.entries(), i);
    }
}

/// A number key and a string key never collide, whatever the string spells:
/// a value inserted under the one and a value inserted under the other are
/// two entries, and each key finds its own value.
pub proof fn law_key_spaces_are_independent<V>(
    before: Dict<V>,
    between: Dict<V>,
    after: Dict<V>,
    num: u64,
    text: Seq<char>,
    v1: V,
    v2: V,
)
    requires
        before.wf(),
        between.wf(),
        after.wf(),
        between@ == before@.insert(Key::Num(num), v1),
        after@ == between@.insert(Key::Str(text), v2),
    ensures
        Key::Num(num) != Key::Str(text),
        after@[Key::Num(num)] == v1,
        after@[Key::Str(text)] == v2,
        before@ == Map::<Key, V>::empty() ==> after@.len() == 2,
{
    law_listing_matches_map(before);
    law_listing_matches_map(between);
    law_listing_matches_map(after);
}

/// `lowest_free` never points past a free number: every number below it is
/// a key, so it is at most the lowest free number.
pub proof fn law_lowest_free_is_not_too_high<V>(dict: Dict<V>, free: u64)
    requires
        dict.wf(),
        !dict@.contains_key(Key::Num(free)),
    ensures
        dict.lowest_free() <= free,
        forall|num: u64| num < dict.lowest_free() ==> #[trigger] dict@.contains_key(Key::Num(num)),
{
    assert forall|num: u64| num < dict.lowest_free() implies #[trigger] dict@.contains_key(
        Key::Num(num),
    ) by {
        assert(dict.entries()[num as int].0 == Key::Num(num));
        lemma_lookup(dict.entries(), num as int);
    }
}

/// A dictionary that can still grow has a lowest free number, so `push` has
/// a key to insert at.
pub proof fn law_a_free_number_exists<V>(dict: Dict<V>)
    requires
        dict.wf(),
        dict.entries().len() < usize::MAX,
    ensures
        dict.is_first_free(dict.first_free()),
        dict.lowest_free() <= dict.first_free() <= dict.num_count(),
{
    let free = lowest_gap(dict, 0);
    assert(dict.is_first_free(free));
    law_lowest_free_is_not_too_high(dict, dict.first_free());
}

/// The first place at or after `from` whose number key is not the number of
/// the place: the lowest free number, when every place before `from` holds
/// its own number.
proof fn lowest_gap<V>(dict: Dict<V>, from: int) -> (free: u64)
    requires
        dict.wf(),
        dict.entries().len() < usize::MAX,
        0 <= from <= dict.num_count(),
        forall|i: int| 0 <= i < from ==> (#[trigger] dict.entries()[i]).0 == Key::Num(i as u64),
    ensures
        dict.is_first_free(free),
        free <= dict.num_count(),
    decreases dict.num_count() - from,
{
    let e = dict.entries();
    if from < dict.num_count() && e[from].0 == Key::Num(from as u64) {
        lowest_gap(dict, from + 1)
    } else {
        let free = from as u64;
        assert forall|below: u64| below < free implies #[trigger] dict@.contains_key(
            Key::Num(below),
        ) by {
            assert(e[below as int].0 == Key::Num(below));
            lemma_lookup(e, below as int);
        }
        if dict@.contains_key(Key::Num(free)) {
            let at = position(e, Key::Num(free));
            assert(e[at].0 == Key::Num(free));
            if at < from {
                assert(e[at].0 == Key::Num(at as u64));
            } else if at > from {
                lemma_place_bounds_key(dict, from, at);
            }
        }
        free
    }
}

/// Where every place before `from` holds its own number, a number key at a
/// place after `from` is above `from`.
proof fn lemma_place_bounds_key<V>(dict: Dict<V>, from: int, at: int)
    requires
        dict.wf(),
        0 <= from < at < dict.num_count(),
        forall|i: int| 0 <= i < from ==> (#[trigger] dict.entries()[i]).0 == Key::Num(i as u64),
    ensures
        dict.entries()[at].0 is Num,
        dict.entries()[at].0->Num_0 > from,
        dict.entries()[from].0 is Num,
        dict.entries()[from].0->Num_0 >= from,
{
    let e = dict.entries();
    assert(e[at].0 is Num);
    assert(e[from].0 is Num);
    if from > 0 {
        assert(e[from - 1].0 == Key::Num((from - 1) as u64));
        assert(key_lt(e[from - 1].0, e[from].0));
    }
    assert(key_lt(e[from].0, e[at].0));
}

/// `push` never overwrites: the key it inserts at was free, so the
/// dictionary grows by one entry and every entry it had stays as it was.
pub proof fn law_push_adds_an_entry<V>(before: Dict<V>, after: Dict<V>, value: V)
    requires
        before.wf(),
        after.wf(),
        before.is_first_free(before.first_free()),
        after@ == before@.insert(Key::Num(before.first_free()), value),
    ensures
        after@.len() == before@.len() + 1,
        after@[Key::Num(before.first_free())] == value,
        forall|key: Key| #[trigger]
            before@.contains_key(key) ==> after@.contains_key(key) && after@[key] == before@[key],
{
    law_listing_matches_map(before);
    law_listing_matches_map(after);
}

/// Removing a number key frees it for `push`: afterwards the lowest free
/// number is the removed key, or the number that was free before if that is
/// lower.
pub proof fn law_push_reuses_a_removed_key<V>(before: Dict<V>, after: Dict<V>, num: u64)
    requires
        before.wf(),
        after.wf(),
        before.is_first_free(before.first_free()),
        before@.contains_key(Key::Num(num)),
        after@ == before@.remove(Key::Num(num)),
    ensures
        after.first_free() == if num < before.first_free() {
            num
        } else {
            before.first_free()
        },
{
    let free = if num < before.first_free() {
        num
    } else {
        before.first_free()
    };
    assert forall|below: u64| below < free implies #[trigger] after@.contains_key(
        Key::Num(below),
    ) by {
        assert(before@.contains_key(Key::Num(below)));
    }
    assert(after.is_first_free(free));
    after.lemma_first_free_unique(free);
}

/// Entries under string keys never change which number keys are the lowest
/// and the highest, nor whether there is a number key at all.
pub proof fn law_first_and_last_ignore_strings<V>(
    before: Dict<V>,
    after: Dict<V>,
    text: Seq<char>,
    num: u64,
)
    requires
        before.wf(),
        after.wf(),
        exists|value: V|
            after@ == before@.insert(Key::Str(text), value) || after@ == before@.remove(
                Key::Str(text),
            ),
    ensures
        after.has_no_nums() == before.has_no_nums(),
        after.is_lowest_num(num) == before.is_lowest_num(num),
        after.is_highest_num(num) == before.is_highest_num(num),
{
    assert forall|other: u64|
        #[trigger] after@.contains_key(Key::Num(other)) == before@.contains_key(
            Key::Num(other),
        ) by {}
    if before.has_no_nums() {
        assert forall|other: u64| !#[trigger] after@.contains_key(Key::Num(other)) by {
            assert(!before@.contains_key(Key::Num(other)));
        }
    }
    if after.has_no_nums() {
        assert forall|other: u64| !#[trigger] before@.contains_key(Key::Num(other)) by {
            assert(!after@.contains_key(Key::Num(other)));
        }
    }
    if before.is_lowest_num(num) {
        assert forall|other: u64| #[trigger] after@.contains_key(Key::Num(other)) implies num
            <= other by {
            assert(before@.contains_key(Key::Num(other)));
        }
    }
    if after.is_lowest_num(num) {
        assert forall|other: u64| #[trigger] before@.contains_key(Key::Num(other)) implies num
            <= other by {
            assert(after@.contains_key(Key::Num(other)));
        }
    }
    if before.is_highest_num(num) {
        assert forall|other: u64| #[trigger] after@.contains_key(Key::Num(other)) implies other
            <= num by {
            assert(before@.contains_key(Key::Num(other)));
        }
    }
    if after.is_highest_num(num) {
        assert forall|other: u64| #[trigger] before@.contains_key(Key::Num(other)) implies other
            <= num by {
            assert(after@.contains_key(Key::Num(other)));
        }
    }
}

/// The lowest and the highest number key are the first and the last of the
/// number entries, and with one number key both are that key.
pub proof fn law_first_and_last_bound_the_numbers<V>(dict: Dict<V>, low: u64, high: u64)
    requires
        dict.wf(),
        dict.is_lowest_num(low),
        dict.is_highest_num(high),
    ensures
        low <= high,
        dict.num_count() > 0,
        dict.entries()[0].0 == Key::Num(low),
        dict.entries()[dict.num_count() - 1].0 == Key::Num(high),
        dict.num_count() == 1 ==> low == high,
{
    let e = dict.entries();
    let n = dict.num_count() as int;
    let at_low = position(e, Key::Num(low));
    let at_high = position(e, Key::Num(high));
    assert(e[at_low].0 == Key::Num(low));
    assert(e[at_high].0 == Key::Num(high));
    assert(e[0].0 is Num);
    assert(e[n - 1].0 is Num);
    lemma_lookup(e, 0);
    lemma_lookup(e, n - 1);
    assert(dict@.contains_key(Key::Num(e[0].0->Num_0)));
    assert(dict@.contains_key(Key::Num(e[n - 1].0->Num_0)));
    if 0 < at_low {
        assert(key_lt(e[0].0, e[at_low].0));
    }
    if at_high < n - 1 {
        assert(key_lt(e[at_high].0, e[n - 1].0));
    }
}

/// The order in which a dictionary lists its entries is fixed by its keys
/// alone: two dictionaries that hold the same map list the same entries in
/// the same order, whatever the order in which they were filled.
pub proof fn law_listing_is_canonical<V>(a: Dict<V>, b: Dict<V>)
    requires
        a.wf(),
        b.wf(),
        a@ == b@,
    ensures
        a.entries() == b.entries(),
{
    lemma_canonical(a.entries(), b.entries());
}

/// Equality does not depend on the order of insertion: two dictionaries that
/// hold the same map are equal, where every value equals itself.
pub proof fn law_equality_is_canonical<V: PartialEq>(a: Dict<V>, b: Dict<V>)
    requires
        a.wf(),
        b.wf(),
        a@ == b@,
        forall|value: V| #[trigger] value.eq_spec(&value),
    ensures
        a.eq_spec(&b),
{
    law_listing_is_canonical(a, b);
}

/// Removing a key that is there takes one entry away, the one with that key;
/// removing a key that is not there changes nothing.
pub proof fn law_remove_takes_one_entry<V>(before: Dict<V>, after: Dict<V>, key: Key)
    requires
        before.wf(),
        after.wf(),
        after@ == before@.remove(key),
    ensures
        !after@.contains_key(key),
        before@.contains_key(key) ==> after@.len() == before@.len() - 1,
        !before@.contains_key(key) ==> after@ == before@ && after@.len() == before@.len()
            && after.entries() == before.entries(),
        forall|other: Key|
            other != key && #[trigger] before@.contains_key(other) ==> after@.contains_key(other)
                && after@[other] == before@[other],
{
    law_listing_matches_map(before);
    law_listing_matches_map(after);
    if !before@.contains_key(key) {
        assert(after@ =~= before@);
        law_listing_is_canonical(before, after);
    }
}

/// What was inserted under a key is what removing that key gives back, and
/// the removal undoes the insertion of a new key.
pub proof fn law_insert_then_remove<V>(before: Dict<V>, between: Dict<V>, key: Key, value: V)
    requires
        before.wf(),
        between.wf(),
        between@ == before@.insert(key, value),
    ensures
        between@.contains_key(key),
        between@[key] == value,
        !before@.contains_key(key) ==> between@.remove(key) == before@,
{
    if !before@.contains_key(key) {
        assert(between@.remove(key) =~= before@);
    }
}

/// A dictionary lists its number keys before its string keys, the numbers
/// ascending.
pub proof fn law_numbers_come_first<V>(dict: Dict<V>, i: int, j: int)
    requires
        dict.wf(),
        0 <= i < j < dict.entries().len(),
    ensures
        dict.entries()[j].0 is Num ==> dict.entries()[i].0 is Num,
        dict.entries()[i].0 is Num && dict.entries()[j].0 is Num ==> dict.entries()[i].0->Num_0
            < dict.entries()[j].0->Num_0,
        key_lt(dict.entries()[i].0, dict.entries()[j].0),
{
}

/// A dictionary without entries is written `()` in both forms.
pub proof fn law_empty_renders_as_parentheses(pretty: bool)
    ensures
        rendering(Seq::<(Key, Seq<char>)>::empty(), pretty) == seq!['(', ')'],
{
}

} // verus!
