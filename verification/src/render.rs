//! The text form of a dictionary, for diagnostics.
//!
//! A dictionary is written as its entries between parentheses, each as
//! `key=value`: number keys in decimal, string keys bare unless they hold a
//! space, in which case they stand between double quotes. The compact form
//! separates entries by `", "`; the pretty form gives each entry lines of its
//! own, indented by four spaces and closed by a comma.

use std::fmt::Debug;
use vstd::prelude::*;
use vstd::string::StringExecFns;
use crate::dict::Dict;
use crate::key::{BorrowedKey, Key};
use crate::text::{debug_compact, debug_pretty};

verus! {

/// The character for a decimal digit.
pub open spec fn digit(d: nat) -> char {
    if d == 0 {
        '0'
    } else if d == 1 {
        '1'
    } else if d == 2 {
        '2'
    } else if d == 3 {
        '3'
    } else if d == 4 {
        '4'
    } else if d == 5 {
        '5'
    } else if d == 6 {
        '6'
    } else if d == 7 {
        '7'
    } else if d == 8 {
        '8'
    } else {
        '9'
    }
}

/// A number in decimal, without leading zeros.
pub open spec fn decimal(n: nat) -> Seq<char>
    decreases n,
{
    if n < 10 {
        seq![digit(n)]
    } else {
        decimal(n / 10).push(digit(n % 10))
    }
}

/// A key as it is written: a number in decimal, a text as it is, between
/// double quotes if it holds a space.
pub open spec fn key_text(key: Key) -> Seq<char> {
    match key {
        Key::Num(num) => decimal(num as nat),
        Key::Str(text) => if text.contains(' ') {
            seq!['"'] + text + seq!['"']
        } else {
            text
        },
    }
}

/// An entry as it is written: the key, an equals sign (with a space on each
/// side in the pretty form) and the value's text.
pub open spec fn entry_text(key: Key, value: Seq<char>, pretty: bool) -> Seq<char> {
    key_text(key) + (if pretty {
        seq![' ', '=', ' ']
    } else {
        seq!['=']
    }) + value
}

/// A text with four spaces put before the first character of each of its
/// lines.
pub open spec fn indented(text: Seq<char>) -> Seq<char>
    decreases text.len(),
{
    if text.len() == 0 {
        text
    } else {
        let front = text.drop_last();
        let pad = if front.len() == 0 || front.last() == '\n' {
            seq![' ', ' ', ' ', ' ']
        } else {
            Seq::<char>::empty()
        };
        indented(front) + pad + seq![text.last()]
    }
}

/// What one entry adds to the text. In the pretty form the entry is followed
/// by a comma and a line break, and all of it is indented; in the compact form
/// every entry but the first is preceded by a comma and a space.
pub open spec fn piece(key: Key, value: Seq<char>, pretty: bool, first: bool) -> Seq<char> {
    if pretty {
        indented(entry_text(key, value, true) + seq![',', '\n'])
    } else if first {
        entry_text(key, value, false)
    } else {
        seq![',', ' '] + entry_text(key, value, false)
    }
}

/// The pieces of all entries, one after the other.
pub open spec fn body(entries: Seq<(Key, Seq<char>)>, pretty: bool) -> Seq<char>
    decreases entries.len(),
{
    if entries.len() == 0 {
        Seq::<char>::empty()
    } else {
        body(entries.drop_last(), pretty) + piece(
            entries.last().0,
            entries.last().1,
            pretty,
            entries.len() == 1,
        )
    }
}

/// The text form of a listing of keys with the texts of their values.
///
/// No entries give `()`. The pretty form opens with a parenthesis and a line
/// break. The compact form of a single entry ends in a comma before the
/// closing parenthesis, as a tuple of one element does.
pub open spec fn rendering(entries: Seq<(Key, Seq<char>)>, pretty: bool) -> Seq<char> {
    if entries.len() == 0 {
        seq!['(', ')']
    } else if pretty {
        seq!['(', '\n'] + body(entries, true) + seq![')']
    } else if entries.len() == 1 {
        seq!['('] + body(entries, false) + seq![',', ')']
    } else {
        seq!['('] + body(entries, false) + seq![')']
    }
}

/// The character for the decimal digit `d`.
fn digit_char(d: u64) -> (c: char)
    requires
        d < 10,
    ensures
        c == digit(d as nat),
{
    if d == 0 {
        '0'
    } else if d == 1 {
        '1'
    } else if d == 2 {
        '2'
    } else if d == 3 {
        '3'
    } else if d == 4 {
        '4'
    } else if d == 5 {
        '5'
    } else if d == 6 {
        '6'
    } else if d == 7 {
        '7'
    } else if d == 8 {
        '8'
    } else {
        '9'
    }
}

/// Appends `num` in decimal to `out`.
pub fn write_decimal(out: &mut String, num: u64)
    ensures
        final(out)@ == old(out)@ + decimal(num as nat),
    decreases num,
{
    if num >= 10 {
        write_decimal(out, num / 10);
    }
    out.push(digit_char(num % 10));
}

/// Whether `text` holds a space.
pub fn holds_space(text: &str) -> (found: bool)
    ensures
        found == text@.contains(' '),
{
    let mut found = false;
    for c in it: text.chars()
        invariant
            it.seq() == text@,
            found == text@.take(it.index() as int).contains(' '),
    {
        proof {
            let i = it.index() as int;
            let upto = text@.take(i + 1);
            assert(upto =~= text@.take(i).push(c));
            if c == ' ' {
                assert(upto[i] == ' ');
            } else if upto.contains(' ') {
                let j = choose|j: int| 0 <= j < upto.len() && upto[j] == ' ';
                assert(text@.take(i)[j] == ' ');
            }
        }
        if c == ' ' {
            found = true;
        }
    }
    assert(text@.take(text@.len() as int) =~= text@);
    found
}

/// Appends `key` as it is written to `out`.
pub fn write_key(out: &mut String, key: BorrowedKey<'_>)
    ensures
        final(out)@ == old(out)@ + key_text(key@),
{
    match key {
        BorrowedKey::Num(num) => {
            write_decimal(out, num);
        },
        BorrowedKey::Str(text) => {
            if holds_space(text) {
                out.push('"');
                out.append(text);
                out.push('"');
                assert(out@ =~= old(out)@ + key_text(key@));
            } else {
                out.append(text);
            }
        },
    }
}

/// Appends `text` to `out` with four spaces before the first character of
/// each of its lines.
pub fn write_indented(out: &mut String, text: &str)
    ensures
        final(out)@ == old(out)@ + indented(text@),
{
    let mut fresh = true;
    for c in it: text.chars()
        invariant
            it.seq() == text@,
            fresh == (it.index() == 0 || text@[it.index() - 1] == '\n'),
            out@ == old(out)@ + indented(text@.take(it.index() as int)),
    {
        proof {
            let i = it.index() as int;
            let upto = text@.take(i + 1);
            assert(upto.drop_last() =~= text@.take(i));
            assert(upto.last() == c);
        }
        let ghost before = out@;
        if fresh {
            out.push(' ');
            out.push(' ');
            out.push(' ');
            out.push(' ');
        }
        out.push(c);
        fresh = c == '\n';
        proof {
            let i = it.index() as int;
            let pad = if i == 0 || text@[i - 1] == '\n' {
                seq![' ', ' ', ' ', ' ']
            } else {
                Seq::<char>::empty()
            };
            assert(out@ =~= before + pad + seq![c]);
            assert(out@ =~= old(out)@ + indented(text@.take(i + 1)));
        }
    }
    assert(text@.take(text@.len() as int) =~= text@);
}

/// Appends to `out` what one entry adds to the text form.
pub fn write_entry(out: &mut String, key: BorrowedKey<'_>, value: &str, pretty: bool, first: bool)
    ensures
        final(out)@ == old(out)@ + piece(key@, value@, pretty, first),
{
    if pretty {
        let mut entry = String::new();
        write_key(&mut entry, key);
        entry.push(' ');
        entry.push('=');
        entry.push(' ');
        entry.append(value);
        entry.push(',');
        entry.push('\n');
        assert(entry@ =~= entry_text(key@, value@, true) + seq![',', '\n']);
        write_indented(out, entry.as_str());
    } else {
        if !first {
            out.push(',');
            out.push(' ');
        }
        write_key(out, key);
        out.push('=');
        out.append(value);
        assert(out@ =~= old(out)@ + piece(key@, value@, false, first));
    }
}

impl<V> Dict<V> {
    /// The keys of the dictionary, each with the text at its place in
    /// `values`.
    pub open spec fn labelled(&self, values: Seq<Seq<char>>) -> Seq<(Key, Seq<char>)> {
        Seq::new(self.entries().len(), |i: int| (self.entries()[i].0, values[i]))
    }

    /// The text form of the dictionary, given the text of each value in the
    /// order of `iter`.
    pub fn render(&self, values: &Vec<String>, pretty: bool) -> (text: String)
        requires
            self.wf(),
            values@.len() == self.entries().len(),
        ensures
            text@ == rendering(self.labelled(values@.map_values(|s: String| s@)), pretty),
    {
        let ghost texts = values@.map_values(|s: String| s@);
        let ghost all = self.labelled(texts);
        let items = self.iter();
        let mut text = String::new();
        text.push('(');
        if pretty && items.len() > 0 {
            text.push('\n');
        }
        let ghost head = text@;
        let mut i: usize = 0;
        while i < items.len()
            invariant
                i <= items@.len(),
                items@.len() == all.len(),
                values@.len() == all.len(),
                texts == values@.map_values(|s: String| s@),
                forall|j: int| 0 <= j < all.len() ==> (#[trigger] all[j]) == ((items@[j]).0@, texts[j]),
                text@ == head + body(all.take(i as int), pretty),
            decreases items@.len() - i,
        {
            proof {
                let upto = all.take(i + 1);
                assert(upto.drop_last() =~= all.take(i as int));
                assert(upto.last() == all[i as int]);
            }
            write_entry(&mut text, items[i].0, values[i].as_str(), pretty, i == 0);
            i += 1;
        }
        assert(all.take(all.len() as int) =~= all);
        if !pretty && items.len() == 1 {
            text.push(',');
        }
        text.push(')');
        assert(text@ =~= rendering(all, pretty));
        text
    }

    /// The text form of the dictionary, with each value written by its
    /// `Debug` impl: compactly, or in the pretty form.
    pub fn debug_text(&self, pretty: bool) -> (text: String) where V: Debug
        requires
            self.wf(),
        ensures
            exists|values: Seq<Seq<char>>|
                values.len() == self.entries().len() && text@ == rendering(
                    #[trigger] self.labelled(values),
                    pretty,
                ),
    {
        let items = self.values();
        let mut values: Vec<String> = Vec::new();
        let mut i: usize = 0;
        while i < items.len()
            invariant
                i <= items@.len(),
                values@.len() == i,
            decreases items@.len() - i,
        {
            let value = if pretty {
                debug_pretty(items[i])
            } else {
                debug_compact(items[i])
            };
            values.push(value);
            i += 1;
        }
        let text = self.render(&values, pretty);
        assert(text@ == rendering(self.labelled(values@.map_values(|s: String| s@)), pretty));
        text
    }
}

} // verus!
