//! A key-value map that can also model array-like structures.

use vstd::prelude::*;
use vstd::std_specs::cmp::{PartialEqSpec, PartialEqSpecImpl};
use crate::key::{key_lt, BorrowedKey, Key, OwnedKey};
use crate::listing::{
    as_map, ascending, lemma_absent, lemma_insert, lemma_lookup, lemma_remove, lemma_size,
    lemma_update, position,
};
use crate::order::{lemma_text_lt_transitive, lemma_text_lt_trichotomy, place_of, text_lt, Place};

verus! {

/// A dictionary data structure, which maps from integers (`u64`) or strings to
/// a generic value type.
///
/// The dictionary can be used to model arrays by assigning values to successive
/// indices from `0..n`. The `push` method offers special support for this
/// pattern.
///
/// Both kinds of entries are kept in ascending key order. `lowest_free` is a
/// number below which every number key is taken; `push` starts its search for
/// a free key there.
pub struct Dict<V> {
    nums: Vec<(u64, V)>,
    strs: Vec<(String, V)>,
    lowest_free: u64,
}

impl<V> View for Dict<V> {
    type V = Map<Key, V>;

    /// The dictionary as a map from keys to values.
    open spec fn view(&self) -> Map<Key, V> {
        as_map(self.entries())
    }
}

impl<V> Dict<V> {
    /// The entries in the order in which the dictionary lists them: number
    /// keys first, then string keys.
    pub closed spec fn entries(&self) -> Seq<(Key, V)> {
        self.nums@.map_values(|e: (u64, V)| (Key::Num(e.0), e.1)) + self.strs@.map_values(
            |e: (String, V)| (Key::Str(e.0@), e.1),
        )
    }

    /// How many of the entries have a number key.
    pub closed spec fn num_count(&self) -> nat {
        self.nums@.len()
    }

    /// The number at which `push` starts to look for a free key.
    pub closed spec fn lowest_free(&self) -> u64 {
        self.lowest_free
    }

    /// What holds of every dictionary that the methods of this type produce.
    ///
    /// The entries ascend by key, number keys standing before string keys;
    /// their count fits a `usize`; and every number below `lowest_free` is a
    /// key, so that `lowest_free` never points past a free number.
    pub open spec fn wf(&self) -> bool {
        &&& ascending(self.entries())
        &&& self.num_count() <= self.entries().len() <= usize::MAX
        &&& forall|i: int|
            0 <= i < self.entries().len() ==> ((#[trigger] self.entries()[i]).0 is Num <==> i
                < self.num_count())
        &&& self.lowest_free() <= self.num_count()
        &&& forall|i: int|
            0 <= i < self.lowest_free() ==> (#[trigger] self.entries()[i]).0 == Key::Num(i as u64)
    }

    /// Create a new empty dictionary.
    pub fn new() -> (dict: Self)
        ensures
            dict.wf(),
            dict.entries() == Seq::<(Key, V)>::empty(),
            dict@ == Map::<Key, V>::empty(),
            dict.lowest_free() == 0,
    {
        let dict = Self { nums: Vec::new(), strs: Vec::new(), lowest_free: 0 };
        assert(dict.entries() =~= Seq::<(Key, V)>::empty());
        assert(dict@ =~= Map::<Key, V>::empty());
        dict
    }

    /// The total number of entries in the dictionary.
    pub fn len(&self) -> (count: usize)
        requires
            self.wf(),
        ensures
            count == self.entries().len(),
            count == self@.len(),
    {
        proof {
            lemma_size(self.entries());
        }
        self.nums.len() + self.strs.len()
    }

    /// Whether the dictionary contains no entries.
    pub fn is_empty(&self) -> (empty: bool)
        requires
            self.wf(),
        ensures
            empty == (self.entries().len() == 0),
            empty == (self@ == Map::<Key, V>::empty()),
    {
        proof {
            lemma_size(self.entries());
            if self.entries().len() == 0 {
                assert(self@ =~= Map::<Key, V>::empty());
            }
        }
        self.len() == 0
    }

    /// The place of the number key `num` among the number entries if it is
    /// there, else the place at which it belongs.
    fn find_num(&self, num: u64) -> (found: Result<usize, usize>)
        requires
            self.wf(),
        ensures
            match found {
                Ok(at) => at < self.nums@.len() && self.nums@[at as int].0 == num,
                Err(at) => {
                    &&& at <= self.nums@.len()
                    &&& forall|i: int| 0 <= i < at ==> (#[trigger] self.nums@[i]).0 < num
                    &&& forall|i: int|
                        at <= i < self.nums@.len() ==> num < (#[trigger] self.nums@[i]).0
                },
            },
    {
        proof {
            self.lemma_parts_ascend();
        }
        let mut lo: usize = 0;
        let mut hi: usize = self.nums.len();
        while lo < hi
            invariant
                lo <= hi <= self.nums@.len(),
                forall|i: int, j: int|
                    0 <= i < j < self.nums@.len() ==> (#[trigger] self.nums@[i]).0 < (
                    #[trigger] self.nums@[j]).0,
                forall|i: int| 0 <= i < lo ==> (#[trigger] self.nums@[i]).0 < num,
                forall|i: int| hi <= i < self.nums@.len() ==> num < (#[trigger] self.nums@[i]).0,
            decreases hi - lo,
        {
            let mid = lo + (hi - lo) / 2;
            let here = self.nums[mid].0;
            if here == num {
                return Ok(mid);
            } else if here < num {
                lo = mid + 1;
            } else {
                hi = mid;
            }
        }
        Err(lo)
    }

    /// The place of the string key `string` among the string entries if it is
    /// there, else the place at which it belongs.
    fn find_str(&self, string: &str) -> (found: Result<usize, usize>)
        requires
            self.wf(),
        ensures
            match found {
                Ok(at) => at < self.strs@.len() && self.strs@[at as int].0@ == string@,
                Err(at) => {
                    &&& at <= self.strs@.len()
                    &&& forall|i: int|
                        0 <= i < at ==> text_lt((#[trigger] self.strs@[i]).0@, string@)
                    &&& forall|i: int|
                        at <= i < self.strs@.len() ==> text_lt(
                            string@,
                            (#[trigger] self.strs@[i]).0@,
                        )
                },
            },
    {
        proof {
            self.lemma_parts_ascend();
        }
        let mut lo: usize = 0;
        let mut hi: usize = self.strs.len();
        while lo < hi
            invariant
                lo <= hi <= self.strs@.len(),
                forall|i: int, j: int|
                    0 <= i < j < self.strs@.len() ==> text_lt(
                        (#[trigger] self.strs@[i]).0@,
                        (#[trigger] self.strs@[j]).0@,
                    ),
                forall|i: int| 0 <= i < lo ==> text_lt((#[trigger] self.strs@[i]).0@, string@),
                forall|i: int|
                    hi <= i < self.strs@.len() ==> text_lt(string@, (#[trigger] self.strs@[i]).0@),
            decreases hi - lo,
        {
            let mid = lo + (hi - lo) / 2;
            match place_of(self.strs[mid].0.as_str(), string) {
                Place::Same => {
                    return Ok(mid);
                },
                Place::Before => {
                    assert forall|i: int| 0 <= i < mid + 1 implies text_lt(
                        (#[trigger] self.strs@[i]).0@,
                        string@,
                    ) by {
                        if i < mid {
                            lemma_text_lt_transitive(
                                self.strs@[i].0@,
                                self.strs@[mid as int].0@,
                                string@,
                            );
                        }
                    }
                    lo = mid + 1;
                },
                Place::After => {
                    assert forall|i: int| mid <= i < self.strs@.len() implies text_lt(
                        string@,
                        (#[trigger] self.strs@[i]).0@,
                    ) by {
                        if mid < i {
                            lemma_text_lt_transitive(
                                string@,
                                self.strs@[mid as int].0@,
                                self.strs@[i].0@,
                            );
                        }
                    }
                    hi = mid;
                },
            }
        }
        Err(lo)
    }

    /// Within each kind the keys ascend: the numbers by size, the strings in
    /// the order of texts.
    proof fn lemma_parts_ascend(&self)
        requires
            self.wf(),
        ensures
            forall|i: int, j: int|
                0 <= i < j < self.nums@.len() ==> (#[trigger] self.nums@[i]).0 < (
                #[trigger] self.nums@[j]).0,
            forall|i: int, j: int|
                0 <= i < j < self.strs@.len() ==> text_lt(
                    (#[trigger] self.strs@[i]).0@,
                    (#[trigger] self.strs@[j]).0@,
                ),
    {
        let e = self.entries();
        let n = self.nums@.len() as int;
        assert forall|i: int, j: int| 0 <= i < j < self.nums@.len() implies (
        #[trigger] self.nums@[i]).0 < (#[trigger] self.nums@[j]).0 by {
            assert(key_lt(e[i].0, e[j].0));
        }
        assert forall|i: int, j: int| 0 <= i < j < self.strs@.len() implies text_lt(
            (#[trigger] self.strs@[i]).0@,
            (#[trigger] self.strs@[j]).0@,
        ) by {
            assert(key_lt(e[n + i].0, e[n + j].0));
        }
    }

    /// Below `lowest_free` each number key stands at the place of its own
    /// number.
    proof fn lemma_prefix(&self)
        requires
            self.wf(),
        ensures
            self.lowest_free <= self.nums@.len(),
            forall|i: int| 0 <= i < self.lowest_free ==> (#[trigger] self.nums@[i]).0 == i,
    {
        assert forall|i: int| 0 <= i < self.lowest_free implies (#[trigger] self.nums@[i]).0
            == i by {
            assert(self.entries()[i].0 == Key::Num(i as u64));
        }
    }

    /// In ascending numbers each stands at or above its place.
    proof fn lemma_nums_at_least_place(&self, i: int)
        requires
            self.wf(),
            0 <= i < self.nums@.len(),
        ensures
            self.nums@[i].0 >= i,
        decreases i,
    {
        self.lemma_parts_ascend();
        if i > 0 {
            self.lemma_nums_at_least_place(i - 1);
        }
    }

    /// Where a number key stands or belongs, relative to `lowest_free`: a key
    /// below `lowest_free` stands at the place of its own number, `lowest_free`
    /// itself stands or belongs at that place, and any higher key above it.
    proof fn lemma_place_and_mark(&self, num: u64, at: int)
        requires
            self.wf(),
            0 <= at <= self.nums@.len(),
            forall|i: int| 0 <= i < at ==> (#[trigger] self.nums@[i]).0 < num,
            forall|i: int| at < i < self.nums@.len() ==> num < (#[trigger] self.nums@[i]).0,
            at < self.nums@.len() ==> num <= self.nums@[at].0,
        ensures
            num < self.lowest_free ==> at == num && self.nums@[at].0 == num,
            num == self.lowest_free ==> at == num,
            num > self.lowest_free ==> at >= self.lowest_free,
    {
        let mark = self.lowest_free as int;
        self.lemma_prefix();
        if num < mark {
            assert(self.nums@[num as int].0 == num);
        } else {
            if at < mark {
                assert(self.nums@[at].0 == at);
            }
            if mark == num && mark < at {
                self.lemma_nums_at_least_place(mark);
            }
        }
    }

    /// The lowest number that is not a key.
    pub open spec fn first_free(&self) -> u64 {
        choose|num: u64| self.is_first_free(num)
    }

    /// `num` is not a key, and every number below it is.
    pub open spec fn is_first_free(&self, num: u64) -> bool {
        &&& !self@.contains_key(Key::Num(num))
        &&& forall|below: u64| below < num ==> #[trigger] self@.contains_key(Key::Num(below))
    }

    /// At most one number is the lowest free one.
    pub proof fn lemma_first_free_unique(&self, num: u64)
        requires
            self.is_first_free(num),
        ensures
            self.first_free() == num,
    {
        let other = self.first_free();
        assert(self.is_first_free(other));
        if other < num {
            assert(self@.contains_key(Key::Num(other)));
        } else if num < other {
            assert(self@.contains_key(Key::Num(num)));
        }
    }

    /// Get a reference to the value with the given key.
    pub fn get<'a, K>(&self, key: K) -> (value: Option<&V>) where K: Into<BorrowedKey<'a>>
        requires
            self.wf(),
        ensures
            exists|k: BorrowedKey<'a>|
                {
                    &&& #[trigger] call_ensures(K::into, (key,), k)
                    &&& match value {
                        Some(v) => self@.contains_key(k@) && *v == self@[k@],
                        None => !self@.contains_key(k@),
                    }
                },
    {
        let k = key.into();
        assert(call_ensures(K::into, (key,), k));
        match k {
            BorrowedKey::Num(num) => match self.find_num(num) {
                Ok(at) => {
                    proof {
                        lemma_lookup(self.entries(), at as int);
                    }
                    Some(&self.nums[at].1)
                },
                Err(_) => {
                    proof {
                        lemma_absent(self.entries(), k@);
                    }
                    None
                },
            },
            BorrowedKey::Str(string) => match self.find_str(string) {
                Ok(at) => {
                    proof {
                        lemma_lookup(self.entries(), self.nums@.len() + at);
                    }
                    Some(&self.strs[at].1)
                },
                Err(_) => {
                    proof {
                        lemma_text_lt_trichotomy(string@, string@);
                        lemma_absent(self.entries(), k@);
                    }
                    None
                },
            },
        }
    }

    /// `after` is `self` with another value at place `at` of the number
    /// entries.
    spec fn num_value_replaced(&self, after: Self, at: int) -> bool {
        &&& after.nums@ == self.nums@.update(at, (self.nums@[at].0, after.nums@[at].1))
        &&& after.strs@ == self.strs@
        &&& after.lowest_free == self.lowest_free
    }

    /// `after` is `self` with another value at place `at` of the string
    /// entries.
    spec fn str_value_replaced(&self, after: Self, at: int) -> bool {
        &&& after.nums@ == self.nums@
        &&& after.strs@ == self.strs@.update(at, (self.strs@[at].0, after.strs@[at].1))
        &&& after.lowest_free == self.lowest_free
    }

    /// Replacing the value of a number entry overwrites that key and leaves
    /// the rest as it was.
    proof fn lemma_num_value_replaced(&self, at: int)
        requires
            self.wf(),
            0 <= at < self.nums@.len(),
        ensures
            forall|after: Self|
                #![trigger after.entries()]
                self.num_value_replaced(after, at) ==> {
                    &&& after.wf()
                    &&& after.entries().len() == self.entries().len()
                    &&& as_map(after.entries()) == self@.insert(
                        Key::Num(self.nums@[at].0),
                        after.nums@[at].1,
                    )
                },
    {
        assert forall|after: Self| self.num_value_replaced(after, at) implies {
            &&& after.wf()
            &&& after.entries().len() == self.entries().len()
            &&& as_map(#[trigger] after.entries()) == self@.insert(
                Key::Num(self.nums@[at].0),
                after.nums@[at].1,
            )
        } by {
            let value = after.nums@[at].1;
            lemma_update(self.entries(), at, value);
            assert(after.entries() =~= self.entries().update(
                at,
                (Key::Num(self.nums@[at].0), value),
            ));
        }
    }

    /// Replacing the value of a string entry overwrites that key and leaves
    /// the rest as it was.
    proof fn lemma_str_value_replaced(&self, at: int)
        requires
            self.wf(),
            0 <= at < self.strs@.len(),
        ensures
            forall|after: Self|
                #![trigger after.entries()]
                self.str_value_replaced(after, at) ==> {
                    &&& after.wf()
                    &&& after.entries().len() == self.entries().len()
                    &&& as_map(after.entries()) == self@.insert(
                        Key::Str(self.strs@[at].0@),
                        after.strs@[at].1,
                    )
                },
    {
        assert forall|after: Self| self.str_value_replaced(after, at) implies {
            &&& after.wf()
            &&& after.entries().len() == self.entries().len()
            &&& as_map(#[trigger] after.entries()) == self@.insert(
                Key::Str(self.strs@[at].0@),
                after.strs@[at].1,
            )
        } by {
            let value = after.strs@[at].1;
            let place = self.nums@.len() + at;
            lemma_update(self.entries(), place, value);
            assert(after.entries() =~= self.entries().update(
                place,
                (Key::Str(self.strs@[at].0@), value),
            ));
        }
    }

    /// Borrow the value with the given key mutably.
    ///
    /// Writing through the reference replaces the value of that key and
    /// nothing else.
    pub fn get_mut<'a, K>(&mut self, key: K) -> (value: Option<&mut V>) where
        K: Into<BorrowedKey<'a>>,
        requires
            old(self).wf(),
        ensures
            final(self).wf(),
            final(self).lowest_free() == old(self).lowest_free(),
            final(self).entries().len() == old(self).entries().len(),
            exists|k: BorrowedKey<'a>|
                {
                    &&& #[trigger] call_ensures(K::into, (key,), k)
                    &&& match value {
                        Some(v) => {
                            &&& old(self)@.contains_key(k@)
                            &&& *v == old(self)@[k@]
                            &&& final(self)@ == old(self)@.insert(k@, *final(v))
                        },
                        None => !old(self)@.contains_key(k@) && *final(self) == *old(self),
                    }
                },
    {
        let k = key.into();
        assert(call_ensures(K::into, (key,), k));
        match k {
            BorrowedKey::Num(num) => match self.find_num(num) {
                Ok(at) => {
                    proof {
                        lemma_lookup(self.entries(), at as int);
                        self.lemma_num_value_replaced(at as int);
                    }
                    let slot = &mut self.nums[at];
                    Some(&mut slot.1)
                },
                Err(_) => {
                    proof {
                        lemma_absent(self.entries(), k@);
                    }
                    None
                },
            },
            BorrowedKey::Str(string) => match self.find_str(string) {
                Ok(at) => {
                    proof {
                        lemma_lookup(self.entries(), self.nums@.len() + at);
                        self.lemma_str_value_replaced(at as int);
                    }
                    let slot = &mut self.strs[at];
                    Some(&mut slot.1)
                },
                Err(_) => {
                    proof {
                        lemma_text_lt_trichotomy(string@, string@);
                        lemma_absent(self.entries(), k@);
                    }
                    None
                },
            },
        }
    }

    /// Insert a value into the dictionary.
    ///
    /// A value that the key already had is replaced. A number key equal to
    /// `lowest_free` moves `lowest_free` up by one.
    pub fn insert<K>(&mut self, key: K, value: V) where K: Into<OwnedKey>
        requires
            old(self).wf(),
            old(self).entries().len() < usize::MAX,
        ensures
            final(self).wf(),
            exists|k: OwnedKey|
                {
                    &&& #[trigger] call_ensures(K::into, (key,), k)
                    &&& final(self)@ == old(self)@.insert(k@, value)
                    &&& final(self).entries().len() == if old(self)@.contains_key(k@) {
                        old(self).entries().len()
                    } else {
                        old(self).entries().len() + 1
                    }
                    &&& final(self).lowest_free() == if k@ == Key::Num(old(self).lowest_free()) {
                        old(self).lowest_free() + 1
                    } else {
                        old(self).lowest_free() as int
                    }
                },
    {
        let k = key.into();
        assert(call_ensures(K::into, (key,), k));
        match k {
            OwnedKey::Num(num) => {
                match self.find_num(num) {
                    Ok(at) => {
                        proof {
                            self.lemma_parts_ascend();
                            self.lemma_place_and_mark(num, at as int);
                            lemma_update(self.entries(), at as int, value);
                        }
                        self.nums[at].1 = value;
                        proof {
                            let before = old(self).entries();
                            assert(self.entries() =~= before.update(
                                at as int,
                                (Key::Num(num), value),
                            ));
                            assert forall|i: int| 0 <= i < self.entries().len() implies (
                            #[trigger] self.entries()[i]).0 == before[i].0 by {}
                        }
                    },
                    Err(at) => {
                        proof {
                            self.lemma_place_and_mark(num, at as int);
                            lemma_insert(self.entries(), at as int, Key::Num(num), value);
                        }
                        self.nums.insert(at, (num, value));
                        proof {
                            let before = old(self).entries();
                            assert(self.entries() =~= before.insert(
                                at as int,
                                (Key::Num(num), value),
                            ));
                            assert forall|i: int| 0 <= i < at implies (#[trigger] self.entries()[i])
                                == before[i] by {}
                        }
                    },
                }
                let ghost mid = *self;
                proof {
                    assert forall|i: int| 0 <= i < mid.lowest_free() implies (
                    #[trigger] mid.entries()[i]).0 == Key::Num(i as u64) by {
                        assert(old(self).entries()[i].0 == Key::Num(i as u64));
                    }
                }
                if self.lowest_free == num {
                    self.lowest_free += 1;
                }
                proof {
                    assert(self.entries() == mid.entries());
                    assert forall|i: int| 0 <= i < self.lowest_free() implies (
                    #[trigger] self.entries()[i]).0 == Key::Num(i as u64) by {
                        if i < mid.lowest_free() {
                            assert(mid.entries()[i].0 == Key::Num(i as u64));
                        }
                    }
                }
            },
            OwnedKey::Str(string) => {
                match self.find_str(string.as_str()) {
                    Ok(at) => {
                        proof {
                            lemma_update(self.entries(), self.nums@.len() + at, value);
                        }
                        self.strs[at].1 = value;
                        assert(self.entries() =~= old(self).entries().update(
                            old(self).nums@.len() + at,
                            (Key::Str(string@), value),
                        ));
                    },
                    Err(at) => {
                        proof {
                            lemma_insert(
                                self.entries(),
                                self.nums@.len() + at,
                                Key::Str(string@),
                                value,
                            );
                        }
                        self.strs.insert(at, (string, value));
                        assert(self.entries() =~= old(self).entries().insert(
                            old(self).nums@.len() + at,
                            (Key::Str(string@), value),
                        ));
                    },
                }
            },
        }
    }

    /// Remove the value with the given key from the dictionary.
    ///
    /// Removing a number key below `lowest_free` moves `lowest_free` down to
    /// it, whether or not the key was there.
    pub fn remove<'a, K>(&mut self, key: K) -> (removed: Option<V>) where K: Into<BorrowedKey<'a>>
        requires
            old(self).wf(),
        ensures
            final(self).wf(),
            exists|k: BorrowedKey<'a>|
                {
                    &&& #[trigger] call_ensures(K::into, (key,), k)
                    &&& final(self)@ == old(self)@.remove(k@)
                    &&& removed == if old(self)@.contains_key(k@) {
                        Some(old(self)@[k@])
                    } else {
                        None
                    }
                    &&& removed is None ==> final(self).entries() == old(self).entries()
                    &&& removed is Some ==> final(self).entries().len() == old(self).entries().len()
                        - 1
                    &&& final(self).lowest_free() == match k@ {
                        Key::Num(num) => if num < old(self).lowest_free() {
                            num
                        } else {
                            old(self).lowest_free()
                        },
                        Key::Str(_) => old(self).lowest_free(),
                    }
                },
    {
        let k = key.into();
        assert(call_ensures(K::into, (key,), k));
        match k {
            BorrowedKey::Num(num) => {
                if num < self.lowest_free {
                    self.lowest_free = num;
                }
                assert(self.wf());
                match self.find_num(num) {
                    Ok(at) => {
                        proof {
                            lemma_lookup(self.entries(), at as int);
                            lemma_remove(self.entries(), at as int);
                            self.lemma_parts_ascend();
                            self.lemma_place_and_mark(num, at as int);
                        }
                        let entry = self.nums.remove(at);
                        assert(self.entries() =~= old(self).entries().remove(at as int));
                        Some(entry.1)
                    },
                    Err(_) => {
                        proof {
                            lemma_absent(self.entries(), k@);
                            assert(self@ =~= self@.remove(k@));
                        }
                        None
                    },
                }
            },
            BorrowedKey::Str(string) => match self.find_str(string) {
                Ok(at) => {
                    proof {
                        lemma_lookup(self.entries(), self.nums@.len() + at);
                        lemma_remove(self.entries(), self.nums@.len() + at);
                    }
                    let entry = self.strs.remove(at);
                    assert(self.entries() =~= old(self).entries().remove(
                        old(self).nums@.len() + at,
                    ));
                    Some(entry.1)
                },
                Err(_) => {
                    proof {
                        lemma_text_lt_trichotomy(string@, string@);
                        lemma_absent(self.entries(), k@);
                        assert(self@ =~= self@.remove(k@));
                    }
                    None
                },
            },
        }
    }

    /// Append a value to the dictionary.
    ///
    /// This will associate the `value` with the lowest free number key (zero if
    /// there is no number key so far), and leave `lowest_free` just above it.
    pub fn push(&mut self, value: V)
        requires
            old(self).wf(),
            old(self).entries().len() < usize::MAX,
        ensures
            final(self).wf(),
            old(self).is_first_free(old(self).first_free()),
            final(self)@ == old(self)@.insert(Key::Num(old(self).first_free()), value),
            final(self).entries().len() == old(self).entries().len() + 1,
            final(self).lowest_free() == old(self).first_free() + 1,
    {
        proof {
            self.lemma_prefix();
        }
        let mut at: usize = self.lowest_free as usize;
        while at < self.nums.len() && self.nums[at].0 == at as u64
            invariant
                self.wf(),
                *self == *old(self),
                at <= self.nums@.len(),
                forall|i: int| 0 <= i < at ==> (#[trigger] self.nums@[i]).0 == i,
            decreases self.nums@.len() - at,
        {
            at += 1;
        }
        let num = at as u64;
        proof {
            self.lemma_parts_ascend();
            if at < self.nums@.len() {
                self.lemma_nums_at_least_place(at as int);
            }
            assert forall|i: int| at <= i < self.nums@.len() implies num < (
            #[trigger] self.nums@[i]).0 by {
                self.lemma_nums_at_least_place(i);
            }
            lemma_insert(self.entries(), at as int, Key::Num(num), value);
            assert forall|below: u64| below < num implies #[trigger] self@.contains_key(
                Key::Num(below),
            ) by {
                lemma_lookup(self.entries(), below as int);
            }
            self.lemma_first_free_unique(num);
        }
        self.nums.insert(at, (num, value));
        self.lowest_free = num + 1;
        assert(self.entries() =~= old(self).entries().insert(at as int, (Key::Num(num), value)));
    }

    /// No key of the dictionary is a number.
    pub open spec fn has_no_nums(&self) -> bool {
        forall|num: u64| !#[trigger] self@.contains_key(Key::Num(num))
    }

    /// `num` is the lowest number key of the dictionary.
    pub open spec fn is_lowest_num(&self, num: u64) -> bool {
        &&& self@.contains_key(Key::Num(num))
        &&& forall|other: u64| #[trigger] self@.contains_key(Key::Num(other)) ==> num <= other
    }

    /// `num` is the highest number key of the dictionary.
    pub open spec fn is_highest_num(&self, num: u64) -> bool {
        &&& self@.contains_key(Key::Num(num))
        &&& forall|other: u64| #[trigger] self@.contains_key(Key::Num(other)) ==> other <= num
    }

    /// The first number key-value pair (with lowest number).
    ///
    /// String keys play no part: with no number key there is no first pair.
    pub fn first(&self) -> (entry: Option<(u64, &V)>)
        requires
            self.wf(),
        ensures
            match entry {
                Some((num, value)) => {
                    &&& self.is_lowest_num(num)
                    &&& *value == self@[Key::Num(num)]
                    &&& self.entries()[0] == (Key::Num(num), *value)
                },
                None => self.has_no_nums(),
            },
    {
        proof {
            self.lemma_number_keys();
        }
        if self.nums.len() == 0 {
            None
        } else {
            proof {
                lemma_lookup(self.entries(), 0);
                self.lemma_parts_ascend();
            }
            let entry = &self.nums[0];
            Some((entry.0, &entry.1))
        }
    }

    /// The last number key-value pair (with highest number).
    ///
    /// String keys play no part: with no number key there is no last pair.
    pub fn last(&self) -> (entry: Option<(u64, &V)>)
        requires
            self.wf(),
        ensures
            match entry {
                Some((num, value)) => {
                    &&& self.is_highest_num(num)
                    &&& *value == self@[Key::Num(num)]
                    &&& self.entries()[self.num_count() - 1] == (Key::Num(num), *value)
                },
                None => self.has_no_nums(),
            },
    {
        proof {
            self.lemma_number_keys();
        }
        if self.nums.len() == 0 {
            None
        } else {
            proof {
                lemma_lookup(self.entries(), self.nums@.len() - 1);
                self.lemma_parts_ascend();
            }
            let entry = &self.nums[self.nums.len() - 1];
            Some((entry.0, &entry.1))
        }
    }

    /// Every number key of the map stands at some place of the number
    /// entries.
    proof fn lemma_number_keys(&self)
        requires
            self.wf(),
        ensures
            forall|num: u64| #[trigger]
                self@.contains_key(Key::Num(num)) ==> exists|i: int|
                    0 <= i < self.nums@.len() && (#[trigger] self.nums@[i]).0 == num,
    {
        assert forall|num: u64| #[trigger] self@.contains_key(Key::Num(num)) implies exists|i: int|
            0 <= i < self.nums@.len() && (#[trigger] self.nums@[i]).0 == num by {
            let i = position(self.entries(), Key::Num(num));
            assert(self.entries()[i].0 == Key::Num(num));
            assert(self.nums@[i].0 == num);
        }
    }

    /// All borrowed keys and values: the number entries in ascending order,
    /// then the string entries in the order of texts.
    pub fn iter(&self) -> (items: Vec<(BorrowedKey<'_>, &V)>)
        requires
            self.wf(),
        ensures
            items@.len() == self.entries().len(),
            forall|i: int|
                0 <= i < items@.len() ==> ((#[trigger] items@[i]).0@, *items@[i].1)
                    == self.entries()[i],
    {
        let mut items: Vec<(BorrowedKey<'_>, &V)> = Vec::new();
        let mut i: usize = 0;
        while i < self.nums.len()
            invariant
                i <= self.nums@.len(),
                items@.len() == i,
                forall|j: int|
                    0 <= j < i ==> ((#[trigger] items@[j]).0@, *items@[j].1) == self.entries()[j],
            decreases self.nums@.len() - i,
        {
            let entry = &self.nums[i];
            items.push((BorrowedKey::Num(entry.0), &entry.1));
            i += 1;
        }
        let mut i: usize = 0;
        while i < self.strs.len()
            invariant
                i <= self.strs@.len(),
                items@.len() == self.nums@.len() + i,
                forall|j: int|
                    0 <= j < self.nums@.len() + i ==> ((#[trigger] items@[j]).0@, *items@[j].1)
                        == self.entries()[j],
            decreases self.strs@.len() - i,
        {
            let entry = &self.strs[i];
            items.push((BorrowedKey::Str(entry.0.as_str()), &entry.1));
            i += 1;
        }
        items
    }

    /// All values in the dictionary, in the order of `iter`.
    pub fn values(&self) -> (items: Vec<&V>)
        requires
            self.wf(),
        ensures
            items@.len() == self.entries().len(),
            forall|i: int| 0 <= i < items@.len() ==> *(#[trigger] items@[i]) == self.entries()[i].1,
    {
        let mut items: Vec<&V> = Vec::new();
        let mut i: usize = 0;
        while i < self.nums.len()
            invariant
                i <= self.nums@.len(),
                items@.len() == i,
                forall|j: int| 0 <= j < i ==> *(#[trigger] items@[j]) == self.entries()[j].1,
            decreases self.nums@.len() - i,
        {
            items.push(&self.nums[i].1);
            i += 1;
        }
        let mut i: usize = 0;
        while i < self.strs.len()
            invariant
                i <= self.strs@.len(),
                items@.len() == self.nums@.len() + i,
                forall|j: int|
                    0 <= j < self.nums@.len() + i ==> *(#[trigger] items@[j]) == self.entries()[j].1,
            decreases self.strs@.len() - i,
        {
            items.push(&self.strs[i].1);
            i += 1;
        }
        items
    }

    /// The number key-value pairs, in ascending order.
    pub fn nums(&self) -> (items: Vec<(&u64, &V)>)
        requires
            self.wf(),
        ensures
            items@.len() == self.num_count(),
            forall|i: int|
                0 <= i < items@.len() ==> (Key::Num(*(#[trigger] items@[i]).0), *items@[i].1)
                    == self.entries()[i],
    {
        let mut items: Vec<(&u64, &V)> = Vec::new();
        let mut i: usize = 0;
        while i < self.nums.len()
            invariant
                i <= self.nums@.len(),
                items@.len() == i,
                forall|j: int|
                    0 <= j < i ==> (Key::Num(*(#[trigger] items@[j]).0), *items@[j].1)
                        == self.entries()[j],
            decreases self.nums@.len() - i,
        {
            let entry = &self.nums[i];
            items.push((&entry.0, &entry.1));
            i += 1;
        }
        items
    }

    /// The string key-value pairs, in the order of texts.
    pub fn strs(&self) -> (items: Vec<(&String, &V)>)
        requires
            self.wf(),
        ensures
            items@.len() == self.entries().len() - self.num_count(),
            forall|i: int|
                0 <= i < items@.len() ==> (Key::Str((#[trigger] items@[i]).0@), *items@[i].1)
                    == self.entries()[self.num_count() + i],
    {
        let mut items: Vec<(&String, &V)> = Vec::new();
        let mut i: usize = 0;
        while i < self.strs.len()
            invariant
                i <= self.strs@.len(),
                items@.len() == i,
                forall|j: int|
                    0 <= j < i ==> (Key::Str((#[trigger] items@[j]).0@), *items@[j].1)
                        == self.entries()[self.num_count() + j],
            decreases self.strs@.len() - i,
        {
            let entry = &self.strs[i];
            items.push((&entry.0, &entry.1));
            i += 1;
        }
        items
    }

    /// Move into the owned keys and values, in the order of `iter`.
    pub fn into_iter(self) -> (items: Vec<(OwnedKey, V)>)
        requires
            self.wf(),
        ensures
            items@.len() == self.entries().len(),
            forall|i: int|
                0 <= i < items@.len() ==> ((#[trigger] items@[i]).0@, items@[i].1)
                    == self.entries()[i],
    {
        let ghost all = self.entries();
        let ghost num_seq = self.nums@;
        let ghost str_seq = self.strs@;
        let mut items: Vec<(OwnedKey, V)> = Vec::new();
        for entry in it: self.nums
            invariant
                it.seq() == num_seq,
                items@.len() == it.index(),
                forall|j: int|
                    0 <= j < it.index() ==> ((#[trigger] items@[j]).0@, items@[j].1) == (
                        Key::Num(num_seq[j].0),
                        num_seq[j].1,
                    ),
        {
            items.push((OwnedKey::Num(entry.0), entry.1));
        }
        for entry in it: self.strs
            invariant
                it.seq() == str_seq,
                items@.len() == num_seq.len() + it.index(),
                forall|j: int|
                    0 <= j < num_seq.len() ==> ((#[trigger] items@[j]).0@, items@[j].1) == (
                        Key::Num(num_seq[j].0),
                        num_seq[j].1,
                    ),
                forall|j: int|
                    0 <= j < it.index() ==> ((#[trigger] items@[num_seq.len() + j]).0@, items@[
                        num_seq.len() + j].1) == (Key::Str(str_seq[j].0@), str_seq[j].1),
        {
            items.push((OwnedKey::Str(entry.0), entry.1));
        }
        assert forall|i: int| 0 <= i < items@.len() implies ((#[trigger] items@[i]).0@, items@[i].1)
            == all[i] by {
            if i >= num_seq.len() {
                let j = i - num_seq.len();
                assert(items@[num_seq.len() + j].1 == str_seq[j].1);
            }
        }
        items
    }
    /// Move into all values in the dictionary, in the order of `iter`.
    pub fn into_values(self) -> (items: Vec<V>)
        requires
            self.wf(),
        ensures
            items@.len() == self.entries().len(),
            forall|i: int| 0 <= i < items@.len() ==> #[trigger] items@[i] == self.entries()[i].1,
    {
        let ghost all = self.entries();
        let ghost num_seq = self.nums@;
        let ghost str_seq = self.strs@;
        let mut items: Vec<V> = Vec::new();
        for entry in it: self.nums
            invariant
                it.seq() == num_seq,
                items@.len() == it.index(),
                forall|j: int| 0 <= j < it.index() ==> #[trigger] items@[j] == num_seq[j].1,
        {
            items.push(entry.1);
        }
        for entry in it: self.strs
            invariant
                it.seq() == str_seq,
                items@.len() == num_seq.len() + it.index(),
                forall|j: int| 0 <= j < num_seq.len() ==> #[trigger] items@[j] == num_seq[j].1,
                forall|j: int|
                    0 <= j < it.index() ==> #[trigger] items@[num_seq.len() + j] == str_seq[j].1,
        {
            items.push(entry.1);
        }
        assert forall|i: int| 0 <= i < items@.len() implies #[trigger] items@[i] == all[i].1 by {
            if i >= num_seq.len() {
                let j = i - num_seq.len();
                assert(items@[num_seq.len() + j] == str_seq[j].1);
            }
        }
        items
    }

    /// Move into the number key-value pairs, in ascending order.
    pub fn into_nums(self) -> (items: Vec<(u64, V)>)
        requires
            self.wf(),
        ensures
            items@.len() == self.num_count(),
            forall|i: int|
                0 <= i < items@.len() ==> (Key::Num((#[trigger] items@[i]).0), items@[i].1)
                    == self.entries()[i],
    {
        self.nums
    }

    /// Move into the string key-value pairs, in the order of texts.
    pub fn into_strs(self) -> (items: Vec<(String, V)>)
        requires
            self.wf(),
        ensures
            items@.len() == self.entries().len() - self.num_count(),
            forall|i: int|
                0 <= i < items@.len() ==> (Key::Str((#[trigger] items@[i]).0@), items@[i].1)
                    == self.entries()[self.num_count() + i],
    {
        self.strs
    }
}

impl<'a, K, V> std::ops::Index<K> for Dict<V> where K: Into<BorrowedKey<'a>> {
    type Output = V;

    /// The value with the given key, which must be there.
    fn index(&self, index: K) -> (value: &V)
        ensures
            exists|k: BorrowedKey<'a>|
                {
                    &&& #[trigger] call_ensures(K::into, (index,), k)
                    &&& self@.contains_key(k@)
                    &&& *value == self@[k@]
                },
    {
        let found = self.get(index);
        proof {
            let k = choose|k: BorrowedKey<'a>|
                #[trigger] call_ensures(K::into, (index,), k) && match found {
                    Some(v) => self@.contains_key(k@) && *v == self@[k@],
                    None => !self@.contains_key(k@),
                };
            assert(self@.contains_key(k@));
        }
        found.expect("key not in dict")
    }
}

impl<'a, K, V> vstd::std_specs::core::IndexSpecImpl<K> for Dict<V> where K: Into<BorrowedKey<'a>> {
    /// The dictionary is well formed and holds the key, whatever `index`
    /// converts to.
    open spec fn index_req(&self, index: &K) -> bool {
        &&& self.wf()
        &&& forall|k: BorrowedKey<'a>| #[trigger]
            call_ensures(K::into, (*index,), k) ==> self@.contains_key(k@)
    }
}

impl<V> Default for Dict<V> {
    fn default() -> (dict: Self)
        ensures
            dict.wf(),
            dict.entries() == Seq::<(Key, V)>::empty(),
            dict@ == Map::<Key, V>::empty(),
            dict.lowest_free() == 0,
    {
        Self::new()
    }
}

impl<V: Eq> Eq for Dict<V> {

}

impl<V: PartialEq> PartialEq for Dict<V> {
    /// Whether both dictionaries list equal keys with equal values, entry by
    /// entry.
    fn eq(&self, other: &Self) -> (equal: bool) {
        let ghost a = self.entries();
        let ghost b = other.entries();
        let count = self.nums.len();
        if count != other.nums.len() || self.strs.len() != other.strs.len() {
            proof {
                if a.len() == b.len() {
                    let least = if count < other.nums@.len() {
                        count as int
                    } else {
                        other.nums@.len() as int
                    };
                    assert(a[least].0 != b[least].0);
                }
            }
            return false;
        }
        let mut i: usize = 0;
        while i < count
            invariant
                a == self.entries(),
                b == other.entries(),
                count == self.nums@.len(),
                count == other.nums@.len(),
                i <= count,
                V::obeys_eq_spec() ==> forall|j: int|
                    0 <= j < i ==> (#[trigger] a[j]).0 == b[j].0 && a[j].1.eq_spec(&b[j].1),
            decreases count - i,
        {
            if self.nums[i].0 != other.nums[i].0 || !self.nums[i].1.eq(&other.nums[i].1) {
                assert(V::obeys_eq_spec() ==> !(a[i as int].0 == b[i as int].0 && a[i as int].1.eq_spec(
                    &b[i as int].1,
                )));
                return false;
            }
            i += 1;
        }
        let mut i: usize = 0;
        while i < self.strs.len()
            invariant
                a == self.entries(),
                b == other.entries(),
                count == self.nums@.len(),
                count == other.nums@.len(),
                self.strs@.len() == other.strs@.len(),
                i <= self.strs@.len(),
                V::obeys_eq_spec() ==> forall|j: int|
                    0 <= j < count + i ==> (#[trigger] a[j]).0 == b[j].0 && a[j].1.eq_spec(
                        &b[j].1,
                    ),
            decreases self.strs@.len() - i,
        {
            if self.strs[i].0 != other.strs[i].0 || !self.strs[i].1.eq(&other.strs[i].1) {
                assert(V::obeys_eq_spec() ==> !(a[count + i].0 == b[count + i].0 && a[count
                    + i].1.eq_spec(&b[count + i].1)));
                return false;
            }
            i += 1;
        }
        true
    }
}

impl<V: PartialEq> PartialEqSpecImpl for Dict<V> {
    open spec fn obeys_eq_spec() -> bool {
        V::obeys_eq_spec()
    }

    /// Both dictionaries list equal keys with equal values, entry by entry.
    open spec fn eq_spec(&self, other: &Self) -> bool {
        &&& self.entries().len() == other.entries().len()
        &&& forall|i: int|
            0 <= i < self.entries().len() ==> (#[trigger] self.entries()[i]).0
                == other.entries()[i].0 && self.entries()[i].1.eq_spec(&other.entries()[i].1)
    }
}

impl<V: Clone> Clone for Dict<V> {
    /// A dictionary with the same keys, each with a clone of its value.
    fn clone(&self) -> (copy: Self)
        ensures
            copy.entries().len() == self.entries().len(),
            copy.num_count() == self.num_count(),
            copy.lowest_free() == self.lowest_free(),
            forall|i: int|
                0 <= i < self.entries().len() ==> (#[trigger] copy.entries()[i]).0
                    == self.entries()[i].0 && cloned::<V>(
                    self.entries()[i].1,
                    copy.entries()[i].1,
                ),
            self.wf() ==> copy.wf(),
    {
        let mut nums: Vec<(u64, V)> = Vec::new();
        let mut i: usize = 0;
        while i < self.nums.len()
            invariant
                i <= self.nums@.len(),
                nums@.len() == i,
                forall|j: int|
                    0 <= j < i ==> (#[trigger] nums@[j]).0 == self.nums@[j].0 && cloned::<V>(
                        self.nums@[j].1,
                        nums@[j].1,
                    ),
            decreases self.nums@.len() - i,
        {
            let entry = &self.nums[i];
            nums.push((entry.0, entry.1.clone()));
            i += 1;
        }
        let mut strs: Vec<(String, V)> = Vec::new();
        let mut i: usize = 0;
        while i < self.strs.len()
            invariant
                i <= self.strs@.len(),
                strs@.len() == i,
                forall|j: int|
                    0 <= j < i ==> (#[trigger] strs@[j]).0@ == self.strs@[j].0@ && cloned::<V>(
                        self.strs@[j].1,
                        strs@[j].1,
                    ),
            decreases self.strs@.len() - i,
        {
            let entry = &self.strs[i];
            strs.push((entry.0.clone(), entry.1.clone()));
            i += 1;
        }
        let copy = Self { nums, strs, lowest_free: self.lowest_free };
        proof {
            let a = self.entries();
            let b = copy.entries();
            assert forall|i: int| 0 <= i < a.len() implies (#[trigger] b[i]).0 == a[i].0
                && cloned::<V>(a[i].1, b[i].1) by {
                if i >= self.nums@.len() {
                    let j = i - self.nums@.len();
                    assert(strs@[j].0@ == self.strs@[j].0@);
                }
            }
            if self.wf() {
                assert forall|i: int, j: int| 0 <= i < j < b.len() implies key_lt(
                    (#[trigger] b[i]).0,
                    (#[trigger] b[j]).0,
                ) by {
                    assert(key_lt(a[i].0, a[j].0));
                }
                assert forall|i: int| 0 <= i < copy.lowest_free() implies (#[trigger] b[i]).0
                    == Key::Num(i as u64) by {
                    assert(a[i].0 == Key::Num(i as u64));
                }
                assert forall|i: int| 0 <= i < b.len() implies ((#[trigger] b[i]).0 is Num <==> i
                    < copy.num_count()) by {
                    assert(a[i].0 is Num <==> i < self.num_count());
                }
            }
        }
        copy
    }
}

} // verus!
