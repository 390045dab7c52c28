//! Dictionary entries that remember where they were written.

use std::fmt::Debug;
use vstd::prelude::*;
use vstd::string::StringExecFns;
use crate::text::{debug_compact, debug_pretty};
use crate::span::{Span, Spanned};

verus! {

/// How a spanned entry is written, given the text of its key's span and the
/// text of its spanned value: compactly the value alone, in the pretty form
/// the word `key`, the key's span, a space and the value.
pub open spec fn spanned_entry_text(key: Seq<char>, val: Seq<char>, pretty: bool) -> Seq<char> {
    if pretty {
        seq!['k', 'e', 'y'] + key + seq![' '] + val
    } else {
        val
    }
}

/// A dictionary entry which tracks key and value span.
#[derive(Clone, PartialEq)]
pub struct SpannedEntry<V> {
    pub key: Span,
    pub val: Spanned<V>,
}

impl<V> SpannedEntry<V> {
    /// Create a new entry.
    pub fn new(key: Span, val: Spanned<V>) -> (entry: Self)
        ensures
            entry == (SpannedEntry { key, val }),
    {
        Self { key, val }
    }

    /// Create an entry with the same span for key and value.
    pub fn val(val: Spanned<V>) -> (entry: Self)
        ensures
            entry == (SpannedEntry { key: val.span, val }),
    {
        Self { key: val.span, val }
    }

    /// Convert from `&SpannedEntry<T>` to `SpannedEntry<&T>`
    pub fn as_ref(&self) -> (entry: SpannedEntry<&V>)
        ensures
            entry.key == self.key,
            entry.val.span == self.val.span,
            *entry.val.v == self.val.v,
    {
        SpannedEntry { key: self.key, val: self.val.as_ref() }
    }

    /// Map the entry to a different value type.
    pub fn map<U>(self, f: impl FnOnce(V) -> U) -> (entry: SpannedEntry<U>)
        requires
            f.requires((self.val.v,)),
        ensures
            entry.key == self.key,
            entry.val.span == self.val.span,
            f.ensures((self.val.v,), entry.val.v),
    {
        SpannedEntry { key: self.key, val: self.val.map(f) }
    }

    /// The text form of an entry, given the text of its key's span and the
    /// text of its spanned value.
    pub fn render(key: &str, val: &str, pretty: bool) -> (text: String)
        ensures
            text@ == spanned_entry_text(key@, val@, pretty),
    {
        let mut text = String::new();
        if pretty {
            text.push('k');
            text.push('e');
            text.push('y');
            text.append(key);
            text.push(' ');
        }
        text.append(val);
        assert(text@ =~= spanned_entry_text(key@, val@, pretty));
        text
    }

    /// The text form of the entry, with the spans and the value written by
    /// their `Debug` impls: compactly, or in the pretty form.
    pub fn debug_text(&self, pretty: bool) -> (text: String) where V: Debug
        ensures
            exists|key: Seq<char>, val: Seq<char>| text@ == spanned_entry_text(key, val, pretty),
    {
        let text = if pretty {
            let key = debug_pretty(&self.key);
            let val = debug_pretty(&self.val);
            let text = Self::render(key.as_str(), val.as_str(), true);
            assert(text@ == spanned_entry_text(key@, val@, pretty));
            text
        } else {
            let val = debug_compact(&self.val);
            let text = Self::render("", val.as_str(), false);
            assert(text@ == spanned_entry_text(""@, val@, pretty));
            text
        };
        text
    }
}

} // verus!
