//! Listings: sequences of entries in ascending key order, and the maps they
//! stand for.

use vstd::prelude::*;
use crate::key::{key_lt, Key};
use crate::order::{lemma_text_lt_transitive, lemma_text_lt_trichotomy};

verus! {

/// The keys of `s` strictly ascend.
pub open spec fn ascending<V>(s: Seq<(Key, V)>) -> bool {
    forall|i: int, j: int|
        #![trigger s[i], s[j]]
        0 <= i < j < s.len() ==> key_lt(s[i].0, s[j].0)
}

/// Some entry of `s` has the key `k`.
pub open spec fn has_key<V>(s: Seq<(Key, V)>, k: Key) -> bool {
    exists|i: int| 0 <= i < s.len() && (#[trigger] s[i]).0 == k
}

/// A place in `s` at which the key `k` stands, if there is one.
pub open spec fn position<V>(s: Seq<(Key, V)>, k: Key) -> int {
    choose|i: int| 0 <= i < s.len() && (#[trigger] s[i]).0 == k
}

/// The map that a listing stands for: each entry's key to its value.
pub open spec fn as_map<V>(s: Seq<(Key, V)>) -> Map<Key, V> {
    Map::new(|k: Key| has_key(s, k), |k: Key| s[position(s, k)].1)
}

/// No key comes before itself.
pub proof fn lemma_key_lt_irreflexive(a: Key)
    ensures
        !key_lt(a, a),
{
    match a {
        Key::Num(_) => {},
        Key::Str(s) => {
            lemma_text_lt_trichotomy(s, s);
        },
    }
}

/// The order of keys is transitive.
pub proof fn lemma_key_lt_transitive(a: Key, b: Key, c: Key)
    requires
        key_lt(a, b),
        key_lt(b, c),
    ensures
        key_lt(a, c),
{
    match (a, b, c) {
        (Key::Str(s), Key::Str(t), Key::Str(u)) => {
            lemma_text_lt_transitive(s, t, u);
        },
        _ => {},
    }
}

/// Of two different keys one comes before the other.
pub proof fn lemma_key_lt_total(a: Key, b: Key)
    requires
        a != b,
    ensures
        key_lt(a, b) || key_lt(b, a),
{
    match (a, b) {
        (Key::Str(s), Key::Str(t)) => {
            lemma_text_lt_trichotomy(s, t);
        },
        _ => {},
    }
}

/// In an ascending listing a key stands at one place only.
pub proof fn lemma_one_place<V>(s: Seq<(Key, V)>, i: int, j: int)
    requires
        ascending(s),
        0 <= i < s.len(),
        0 <= j < s.len(),
        s[i].0 == s[j].0,
    ensures
        i == j,
{
    lemma_key_lt_irreflexive(s[i].0);
}

/// The map of an ascending listing takes the key at each place to the value
/// at that place.
pub proof fn lemma_lookup<V>(s: Seq<(Key, V)>, i: int)
    requires
        ascending(s),
        0 <= i < s.len(),
    ensures
        as_map(s).contains_key(s[i].0),
        as_map(s)[s[i].0] == s[i].1,
{
    let k = s[i].0;
    assert(has_key(s, k));
    lemma_one_place(s, i, position(s, k));
}

/// A key that stands at no place of a listing is not in its map.
pub proof fn lemma_absent<V>(s: Seq<(Key, V)>, k: Key)
    requires
        forall|i: int| 0 <= i < s.len() ==> (#[trigger] s[i]).0 != k,
    ensures
        !as_map(s).contains_key(k),
{
}

/// Putting a new entry where its key belongs keeps the listing ascending and
/// adds the entry to its map.
pub proof fn lemma_insert<V>(s: Seq<(Key, V)>, p: int, k: Key, v: V)
    requires
        ascending(s),
        0 <= p <= s.len(),
        forall|i: int| 0 <= i < p ==> key_lt((#[trigger] s[i]).0, k),
        forall|i: int| p <= i < s.len() ==> key_lt(k, (#[trigger] s[i]).0),
    ensures
        ascending(s.insert(p, (k, v))),
        as_map(s.insert(p, (k, v))) == as_map(s).insert(k, v),
        !as_map(s).contains_key(k),
{
    let t = s.insert(p, (k, v));
    assert forall|i: int, j: int| 0 <= i < j < t.len() implies key_lt(
        (#[trigger] t[i]).0,
        (#[trigger] t[j]).0,
    ) by {
        let a = if i < p { i } else { i - 1 };
        let b = if j < p { j } else { j - 1 };
        if i != p && j != p {
            assert(t[i] == s[a] && t[j] == s[b]);
        } else if i == p {
            assert(t[j] == s[b]);
        } else {
            assert(t[i] == s[a]);
        }
    }
    assert forall|i: int| 0 <= i < s.len() implies (#[trigger] s[i]).0 != k by {
        lemma_key_lt_irreflexive(k);
    }
    lemma_absent(s, k);
    assert forall|q: Key| #[trigger] as_map(t).contains_key(q) == as_map(s).insert(
        k,
        v,
    ).contains_key(q) by {
        if has_key(t, q) {
            let i = position(t, q);
            if i != p {
                let a = if i < p { i } else { i - 1 };
                assert(s[a].0 == q);
            }
        }
        if has_key(s, q) {
            let a = position(s, q);
            let i = if a < p { a } else { a + 1 };
            assert(t[i].0 == q);
        }
        if q == k {
            assert(t[p].0 == q);
        }
    }
    assert forall|q: Key| #[trigger] as_map(t).contains_key(q) implies as_map(t)[q] == as_map(
        s,
    ).insert(k, v)[q] by {
        let i = position(t, q);
        lemma_lookup(t, i);
        if i != p {
            let a = if i < p { i } else { i - 1 };
            assert(s[a] == t[i]);
            lemma_lookup(s, a);
        }
    }
    assert(as_map(t) =~= as_map(s).insert(k, v));
}

/// Replacing the value at one place keeps the listing ascending and
/// overwrites that key in its map.
pub proof fn lemma_update<V>(s: Seq<(Key, V)>, p: int, v: V)
    requires
        ascending(s),
        0 <= p < s.len(),
    ensures
        ascending(s.update(p, (s[p].0, v))),
        as_map(s.update(p, (s[p].0, v))) == as_map(s).insert(s[p].0, v),
        as_map(s).contains_key(s[p].0),
{
    let k = s[p].0;
    let t = s.update(p, (k, v));
    assert forall|i: int, j: int| 0 <= i < j < t.len() implies key_lt(
        (#[trigger] t[i]).0,
        (#[trigger] t[j]).0,
    ) by {
        assert(t[i].0 == s[i].0 && t[j].0 == s[j].0);
    }
    lemma_lookup(s, p);
    assert forall|q: Key| #[trigger] as_map(t).contains_key(q) == as_map(s).insert(
        k,
        v,
    ).contains_key(q) by {
        if has_key(t, q) {
            let i = position(t, q);
            assert(s[i].0 == q);
        }
        if has_key(s, q) {
            let i = position(s, q);
            assert(t[i].0 == q);
        }
    }
    assert forall|q: Key| #[trigger] as_map(t).contains_key(q) implies as_map(t)[q] == as_map(
        s,
    ).insert(k, v)[q] by {
        let i = position(t, q);
        lemma_lookup(t, i);
        if i != p {
            assert(s[i] == t[i]);
            lemma_lookup(s, i);
        }
    }
    assert(as_map(t) =~= as_map(s).insert(k, v));
}

/// Taking the entry at one place out keeps the listing ascending and removes
/// that key from its map.
pub proof fn lemma_remove<V>(s: Seq<(Key, V)>, p: int)
    requires
        ascending(s),
        0 <= p < s.len(),
    ensures
        ascending(s.remove(p)),
        as_map(s.remove(p)) == as_map(s).remove(s[p].0),
{
    let k = s[p].0;
    let t = s.remove(p);
    assert forall|i: int, j: int| 0 <= i < j < t.len() implies key_lt(
        (#[trigger] t[i]).0,
        (#[trigger] t[j]).0,
    ) by {
        let a = if i < p { i } else { i + 1 };
        let b = if j < p { j } else { j + 1 };
        assert(t[i] == s[a] && t[j] == s[b]);
    }
    assert forall|q: Key| #[trigger] as_map(t).contains_key(q) == as_map(s).remove(
        k,
    ).contains_key(q) by {
        if has_key(t, q) {
            let i = position(t, q);
            let a = if i < p { i } else { i + 1 };
            assert(s[a] == t[i]);
            lemma_one_place(s, a, if q == k { p } else { a });
        }
        if has_key(s, q) && q != k {
            let a = position(s, q);
            let i = if a < p { a } else { a - 1 };
            assert(t[i] == s[a]);
        }
    }
    assert forall|q: Key| #[trigger] as_map(t).contains_key(q) implies as_map(t)[q] == as_map(
        s,
    ).remove(k)[q] by {
        let i = position(t, q);
        lemma_lookup(t, i);
        let a = if i < p { i } else { i + 1 };
        assert(s[a] == t[i]);
        lemma_lookup(s, a);
    }
    assert(as_map(t) =~= as_map(s).remove(k));
}

/// The map of an ascending listing is finite and has as many keys as the
/// listing has entries.
pub proof fn lemma_size<V>(s: Seq<(Key, V)>)
    requires
        ascending(s),
    ensures
        as_map(s).dom().finite(),
        as_map(s).len() == s.len(),
    decreases s.len(),
{
    if s.len() == 0 {
        assert(as_map(s) =~= Map::<Key, V>::empty());
    } else {
        let p = s.len() - 1;
        let t = s.remove(p);
        lemma_remove(s, p);
        lemma_size(t);
        lemma_lookup(s, p);
        assert(as_map(s) =~= as_map(t).insert(s[p].0, s[p].1));
    }
}

/// Two ascending listings of the same map are the same listing: the order
/// in which a map's entries are listed is fixed by the keys alone.
pub proof fn lemma_canonical<V>(s: Seq<(Key, V)>, t: Seq<(Key, V)>)
    requires
        ascending(s),
        ascending(t),
        as_map(s) == as_map(t),
    ensures
        s == t,
    decreases s.len(),
{
    lemma_size(s);
    lemma_size(t);
    if s.len() == 0 {
        assert(s =~= t);
    } else {
        let p = s.len() - 1;
        lemma_lookup(s, p);
        lemma_lookup(t, p);
        if s[p].0 != t[p].0 {
            lemma_key_lt_total(s[p].0, t[p].0);
            if key_lt(s[p].0, t[p].0) {
                assert(has_key(s, t[p].0));
                let i = position(s, t[p].0);
                if i < p {
                    lemma_key_lt_transitive(s[i].0, s[p].0, t[p].0);
                }
                lemma_key_lt_irreflexive(t[p].0);
            } else {
                assert(has_key(t, s[p].0));
                let i = position(t, s[p].0);
                if i < p {
                    lemma_key_lt_transitive(t[i].0, t[p].0, s[p].0);
                }
                lemma_key_lt_irreflexive(s[p].0);
            }
        }
        lemma_remove(s, p);
        lemma_remove(t, p);
        lemma_canonical(s.remove(p), t.remove(p));
        assert(s =~= s.remove(p).push(s[p]));
        assert(t =~= t.remove(p).push(t[p]));
    }
}

} // verus!
