//! Source locations, and values that carry one.

use vstd::prelude::*;

verus! {

/// A region of source text: the byte offsets at which it starts and ends.
#[derive(Debug, Copy, Clone, PartialEq, Eq, Structural)]
pub struct Span {
    /// Where the region starts.
    pub start: usize,
    /// Where the region ends.
    pub end: usize,
}

impl Span {
    /// Create a new span from start and end offsets.
    pub fn new(start: usize, end: usize) -> (span: Self)
        ensures
            span == (Span { start, end }),
    {
        Self { start, end }
    }
}

/// A value with the span it corresponds to in the source code.
#[derive(Debug, Copy, Clone, PartialEq, Eq)]
pub struct Spanned<V> {
    /// The value.
    pub v: V,
    /// The span of the value in the source.
    pub span: Span,
}

impl<V> Spanned<V> {
    /// Create a new instance from a value and its span.
    pub fn new(v: V, span: Span) -> (spanned: Self)
        ensures
            spanned == (Spanned { v, span }),
    {
        Self { v, span }
    }

    /// Convert from `&Spanned<V>` to `Spanned<&V>`.
    pub fn as_ref(&self) -> (spanned: Spanned<&V>)
        ensures
            *spanned.v == self.v,
            spanned.span == self.span,
    {
        Spanned { v: &self.v, span: self.span }
    }

    /// Map the value using a function while keeping the span.
    pub fn map<U, F: FnOnce(V) -> U>(self, f: F) -> (spanned: Spanned<U>)
        requires
            f.requires((self.v,)),
        ensures
            f.ensures((self.v,), spanned.v),
            spanned.span == self.span,
    {
        Spanned { v: f(self.v), span: self.span }
    }
}

} // verus!
