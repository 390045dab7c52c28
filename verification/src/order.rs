//! The byte-wise lexicographic order of texts, by which string keys are kept.

use vstd::prelude::*;
use vstd::utf8::*;

verus! {

/// Where two texts stand relative to each other in the order.
#[derive(Debug, Copy, Clone, PartialEq, Eq)]
pub enum Place {
    Before,
    Same,
    After,
}

/// `a` and `b` agree on their first `k` bytes, and there `a` ends while `b`
/// goes on, or `a` holds the smaller byte.
pub open spec fn precedes_at(a: Seq<u8>, b: Seq<u8>, k: int) -> bool {
    &&& 0 <= k <= a.len()
    &&& k < b.len()
    &&& forall|j: int| 0 <= j < k ==> a[j] == b[j]
    &&& (k == a.len() || a[k] < b[k])
}

/// `a` comes strictly before `b` in the lexicographic order of byte strings.
pub open spec fn bytes_lt(a: Seq<u8>, b: Seq<u8>) -> bool {
    exists|k: int| precedes_at(a, b, k)
}

/// `s` comes strictly before `t` when both are encoded as UTF-8 and compared
/// byte by byte.
pub open spec fn text_lt(s: Seq<char>, t: Seq<char>) -> bool {
    bytes_lt(encode_utf8(s), encode_utf8(t))
}

/// No byte string comes before itself.
pub proof fn lemma_bytes_lt_irreflexive(a: Seq<u8>)
    ensures
        !bytes_lt(a, a),
{
}

/// Two byte strings are never each before the other.
pub proof fn lemma_bytes_lt_asymmetric(a: Seq<u8>, b: Seq<u8>)
    requires
        bytes_lt(a, b),
    ensures
        !bytes_lt(b, a),
{
    if bytes_lt(b, a) {
        let k1 = choose|k: int| precedes_at(a, b, k);
        let k2 = choose|k: int| precedes_at(b, a, k);
        if k1 < k2 {
            assert(b[k1] == a[k1]);
        } else if k2 < k1 {
            assert(a[k2] == b[k2]);
        }
    }
}

/// The order of byte strings is transitive.
pub proof fn lemma_bytes_lt_transitive(a: Seq<u8>, b: Seq<u8>, c: Seq<u8>)
    requires
        bytes_lt(a, b),
        bytes_lt(b, c),
    ensures
        bytes_lt(a, c),
{
    let k1 = choose|k: int| precedes_at(a, b, k);
    let k2 = choose|k: int| precedes_at(b, c, k);
    let k = if k1 <= k2 { k1 } else { k2 };
    assert(precedes_at(a, c, k));
}

/// Of two different byte strings one comes before the other.
pub proof fn lemma_bytes_lt_total(a: Seq<u8>, b: Seq<u8>)
    requires
        a != b,
    ensures
        bytes_lt(a, b) || bytes_lt(b, a),
    decreases a.len(),
{
    if a.len() == 0 {
        assert(b.len() > 0) by {
            if b.len() == 0 {
                assert(a =~= b);
            }
        }
        assert(precedes_at(a, b, 0));
    } else if b.len() == 0 {
        assert(precedes_at(b, a, 0));
    } else if a[0] < b[0] {
        assert(precedes_at(a, b, 0));
    } else if b[0] < a[0] {
        assert(precedes_at(b, a, 0));
    } else {
        let x = a.drop_first();
        let y = b.drop_first();
        assert(x != y) by {
            if x == y {
                assert(a =~= seq![a[0]] + x);
                assert(b =~= seq![b[0]] + y);
            }
        }
        lemma_bytes_lt_total(x, y);
        if bytes_lt(x, y) {
            let k = choose|k: int| precedes_at(x, y, k);
            assert forall|j: int| 0 <= j < k + 1 implies a[j] == b[j] by {
                if j > 0 {
                    assert(x[j - 1] == y[j - 1]);
                }
            }
            if k < x.len() {
                assert(x[k] == a[k + 1] && y[k] == b[k + 1]);
            }
            assert(precedes_at(a, b, k + 1));
        } else {
            let k = choose|k: int| precedes_at(y, x, k);
            assert forall|j: int| 0 <= j < k + 1 implies b[j] == a[j] by {
                if j > 0 {
                    assert(x[j - 1] == y[j - 1]);
                }
            }
            if k < y.len() {
                assert(x[k] == a[k + 1] && y[k] == b[k + 1]);
            }
            assert(precedes_at(b, a, k + 1));
        }
    }
}

/// Two texts with the same UTF-8 encoding are the same text.
pub proof fn lemma_encoding_injective(s: Seq<char>, t: Seq<char>)
    requires
        encode_utf8(s) == encode_utf8(t),
    ensures
        s == t,
{
    encode_utf8_decode_utf8(s);
    encode_utf8_decode_utf8(t);
}

/// The order of texts is strict and total: of two texts exactly one of
/// "before", "same" and "after" holds.
pub proof fn lemma_text_lt_trichotomy(s: Seq<char>, t: Seq<char>)
    ensures
        text_lt(s, t) || s == t || text_lt(t, s),
        !(text_lt(s, t) && s == t),
        !(text_lt(t, s) && s == t),
        !(text_lt(s, t) && text_lt(t, s)),
{
    let a = encode_utf8(s);
    let b = encode_utf8(t);
    lemma_bytes_lt_irreflexive(a);
    if bytes_lt(a, b) {
        lemma_bytes_lt_asymmetric(a, b);
    }
    if s != t {
        if a == b {
            lemma_encoding_injective(s, t);
        }
        lemma_bytes_lt_total(a, b);
    }
}

/// The order of texts is transitive.
pub proof fn lemma_text_lt_transitive(s: Seq<char>, t: Seq<char>, u: Seq<char>)
    requires
        text_lt(s, t),
        text_lt(t, u),
    ensures
        text_lt(s, u),
{
    lemma_bytes_lt_transitive(encode_utf8(s), encode_utf8(t), encode_utf8(u));
}

/// Places `a` relative to `b` in the byte-wise lexicographic order.
pub fn place_of(a: &str, b: &str) -> (place: Place)
    ensures
        (place is Before) == text_lt(a@, b@),
        (place is Same) == (a@ == b@),
        (place is After) == text_lt(b@, a@),
{
    let x = a.as_bytes();
    let y = b.as_bytes();
    proof {
        lemma_text_lt_trichotomy(a@, b@);
    }
    let mut i: usize = 0;
    while i < x.len() && i < y.len()
        invariant
            i <= x.len(),
            i <= y.len(),
            x@ == encode_utf8(a@),
            y@ == encode_utf8(b@),
            forall|j: int| 0 <= j < i ==> x@[j] == y@[j],
        decreases x.len() - i,
    {
        if x[i] < y[i] {
            assert(precedes_at(x@, y@, i as int));
            return Place::Before;
        }
        if x[i] > y[i] {
            assert(precedes_at(y@, x@, i as int));
            return Place::After;
        }
        i += 1;
    }
    if x.len() < y.len() {
        assert(precedes_at(x@, y@, i as int));
        Place::Before
    } else if x.len() > y.len() {
        assert(precedes_at(y@, x@, i as int));
        Place::After
    } else {
        assert(x@ =~= y@);
        proof {
            lemma_encoding_injective(a@, b@);
        }
        Place::Same
    }
}

} // verus!
