//! A dictionary keyed by numbers and strings that doubles as an array.
//!
//! [`Dict`] maps `u64` numbers and strings to values. A number and a string
//! are different keys even where the string spells the number. The entries
//! are listed with the number keys first, ascending, and the string keys
//! after them in byte-wise lexicographic order. `push` appends like an array
//! does: it inserts at the lowest number that is not yet a key.
//!
//! Every function is verified against a contract over the dictionary's model:
//! its view as a map from [`key::Key`] to values, and the sequence
//! `entries()` in which it lists them.
//!
//! - [`key`]: owned and borrowed keys, their model and its order.
//! - [`order`]: the byte-wise lexicographic order of texts.
//! - [`listing`]: ascending sequences of entries and the maps they stand for.
//! - [`dict`]: the dictionary.
//! - [`render`]: the text form of a dictionary, for diagnostics.
//! - [`span`], [`entry`]: source spans and entries that carry them.
//! - [`laws`]: what holds of every dictionary, proved from the contracts.
//! - [`text`]: the standard library functions that are used without proof.

pub mod text;
pub mod order;
pub mod key;
pub mod listing;
pub mod dict;
pub mod render;
pub mod span;
pub mod entry;
pub mod laws;

pub use crate::dict::Dict;
pub use crate::entry::SpannedEntry;
pub use crate::key::{BorrowedKey, OwnedKey};
pub use crate::span::{Span, Spanned};
