//! What the library takes from the standard library's text handling without
//! proof: each item here states, or leaves open, what a std function does.

use std::fmt::Debug;
use vstd::prelude::*;

verus! {

/// Specifies `String::push`: the character is appended to the text.
pub assume_specification[ String::push ](text: &mut String, c: char)
    ensures
        final(text)@ == old(text)@.push(c),
;

/// Calls `format!` with `{:?}`: the text that the value's `Debug` impl
/// writes in compact form. Nothing is claimed of that text.
#[verifier::external_body]
pub(crate) fn debug_compact<V: Debug>(value: &V) -> String {
    format!("{:?}", value)
}

/// Calls `format!` with `{:#?}`: the text that the value's `Debug` impl
/// writes in pretty form. Nothing is claimed of that text.
#[verifier::external_body]
pub(crate) fn debug_pretty<V: Debug>(value: &V) -> String {
    format!("{:#?}", value)
}

} // verus!
