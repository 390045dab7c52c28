//! Dictionary keys, in owned and borrowed form, and their mathematical model.

use vstd::prelude::*;
use vstd::std_specs::convert::FromSpecImpl;
use crate::order::text_lt;

verus! {

/// The mathematical value of a dictionary key: a number or a text.
///
/// A number and a text are never equal, whatever the text spells.
pub enum Key {
    Num(u64),
    Str(Seq<char>),
}

/// The order in which a dictionary lists its keys: numbers ascending, then
/// texts in byte-wise lexicographic order.
pub open spec fn key_lt(a: Key, b: Key) -> bool {
    match (a, b) {
        (Key::Num(x), Key::Num(y)) => x < y,
        (Key::Num(_), Key::Str(_)) => true,
        (Key::Str(_), Key::Num(_)) => false,
        (Key::Str(s), Key::Str(t)) => text_lt(s, t),
    }
}

/// The owned variant of a dictionary key.
#[derive(Debug, Clone, Eq, PartialEq, Ord, PartialOrd)]
pub enum OwnedKey {
    Num(u64),
    Str(String),
}

impl View for OwnedKey {
    type V = Key;

    open spec fn view(&self) -> Key {
        match self {
            OwnedKey::Num(num) => Key::Num(*num),
            OwnedKey::Str(string) => Key::Str(string@),
        }
    }
}

/// The borrowed variant of a dictionary key.
#[derive(Debug, Copy, Clone, Eq, PartialEq, Ord, PartialOrd)]
pub enum BorrowedKey<'a> {
    Num(u64),
    Str(&'a str),
}

impl<'a> View for BorrowedKey<'a> {
    type V = Key;

    open spec fn view(&self) -> Key {
        match self {
            BorrowedKey::Num(num) => Key::Num(*num),
            BorrowedKey::Str(string) => Key::Str(string@),
        }
    }
}

impl<'a> From<BorrowedKey<'a>> for OwnedKey {
    fn from(key: BorrowedKey<'a>) -> (owned: Self)
        ensures
            owned@ == key@,
    {
        match key {
            BorrowedKey::Num(num) => Self::Num(num),
            BorrowedKey::Str(string) => Self::Str(string.to_owned()),
        }
    }
}

/// The conversion allocates a string, so `from` states its result over views.
impl<'a> FromSpecImpl<BorrowedKey<'a>> for OwnedKey {
    open spec fn obeys_from_spec() -> bool {
        false
    }

    open spec fn from_spec(key: BorrowedKey<'a>) -> Self {
        arbitrary()
    }
}

impl From<u64> for OwnedKey {
    fn from(num: u64) -> (owned: Self)
        ensures
            owned@ == Key::Num(num),
    {
        Self::Num(num)
    }
}

impl FromSpecImpl<u64> for OwnedKey {
    open spec fn obeys_from_spec() -> bool {
        true
    }

    open spec fn from_spec(num: u64) -> Self {
        OwnedKey::Num(num)
    }
}

impl From<String> for OwnedKey {
    fn from(string: String) -> (owned: Self)
        ensures
            owned@ == Key::Str(string@),
    {
        Self::Str(string)
    }
}

impl FromSpecImpl<String> for OwnedKey {
    open spec fn obeys_from_spec() -> bool {
        true
    }

    open spec fn from_spec(string: String) -> Self {
        OwnedKey::Str(string)
    }
}

impl From<&'static str> for OwnedKey {
    fn from(string: &'static str) -> (owned: Self)
        ensures
            owned@ == Key::Str(string@),
    {
        Self::Str(string.to_owned())
    }
}

/// The conversion allocates a string, so `from` states its result over views.
impl FromSpecImpl<&'static str> for OwnedKey {
    open spec fn obeys_from_spec() -> bool {
        false
    }

    open spec fn from_spec(string: &'static str) -> Self {
        arbitrary()
    }
}

impl From<u64> for BorrowedKey<'static> {
    fn from(num: u64) -> (borrowed: Self)
        ensures
            borrowed@ == Key::Num(num),
    {
        Self::Num(num)
    }
}

impl FromSpecImpl<u64> for BorrowedKey<'static> {
    open spec fn obeys_from_spec() -> bool {
        true
    }

    open spec fn from_spec(num: u64) -> Self {
        BorrowedKey::Num(num)
    }
}

impl<'a> From<&'a String> for BorrowedKey<'a> {
    fn from(string: &'a String) -> (borrowed: Self)
        ensures
            borrowed@ == Key::Str(string@),
    {
        Self::Str(string.as_str())
    }
}

/// The conversion reborrows the string as a slice, so `from` states its
/// result over views.
impl<'a> FromSpecImpl<&'a String> for BorrowedKey<'a> {
    open spec fn obeys_from_spec() -> bool {
        false
    }

    open spec fn from_spec(string: &'a String) -> Self {
        arbitrary()
    }
}

impl<'a> From<&'a str> for BorrowedKey<'a> {
    fn from(string: &'a str) -> (borrowed: Self)
        ensures
            borrowed@ == Key::Str(string@),
    {
        Self::Str(string)
    }
}

impl<'a> FromSpecImpl<&'a str> for BorrowedKey<'a> {
    open spec fn obeys_from_spec() -> bool {
        true
    }

    open spec fn from_spec(string: &'a str) -> Self {
        BorrowedKey::Str(string)
    }
}

} // verus!
