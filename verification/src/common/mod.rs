//! Source positions shared by every stage.

use std::sync::Arc;
use vstd::prelude::*;

verus! {

/// A half-open range `[start, end)` of character offsets into one source text.
#[derive(Clone, Copy, Debug, PartialEq, Eq, Hash, Structural)]
pub struct Span {
    pub start: usize,
    pub end: usize,
}

impl Span {
    /// The span from the first offset of `open` to the last offset of `close`.
    pub open spec fn cover(open: Span, close: Span) -> Span {
        Span { start: open.start, end: close.end }
    }

    pub fn new(start: usize, end: usize) -> (r: Span)
        ensures
            r == (Span { start, end }),
    {
        Span { start, end }
    }

    pub fn join(open: Span, close: Span) -> (r: Span)
        ensures
            r == Span::cover(open, close),
    {
        Span { start: open.start, end: close.end }
    }
}

/// A value together with the place it came from: its span and a shared
/// handle on the name of the source text.
#[derive(Clone, Debug, PartialEq, Eq, Hash)]
pub struct Spanned<T> {
    pub source: Arc<String>,
    pub x: T,
    pub span: Span,
}

impl<T> Spanned<T> {
    /// The offset of the first character.
    pub fn start(&self) -> (r: usize)
        ensures
            r == self.span.start,
    {
        self.span.start
    }

    /// The offset just past the last character.
    pub fn end(&self) -> (r: usize)
        ensures
            r == self.span.end,
    {
        self.span.end
    }

    /// The number of characters covered; an inverted span covers none.
    pub fn len(&self) -> (r: usize)
        ensures
            r == if self.span.start <= self.span.end {
                self.span.end - self.span.start
            } else {
                0
            },
    {
        if self.span.start <= self.span.end {
            self.span.end - self.span.start
        } else {
            0
        }
    }

    /// The handle on the name of the source text.
    pub fn source(&self) -> (r: &Arc<String>)
        ensures
            *r == self.source,
    {
        &self.source
    }
}

/// Another handle on the same shared value, made by `Arc::clone`: the
/// result points at the allocation of `a`, so it holds the same value.
#[verifier::external_body]
pub(crate) fn share<T>(a: &Arc<T>) -> (r: Arc<T>)
    ensures
        r == *a,
{
    Arc::clone(a)
}

/// Whether `name` reads `text`.
pub fn name_is(name: &Arc<String>, text: &str) -> (r: bool)
    ensures
        r == (name@ == text@),
{
    let t = String::from_str(text);
    **name == t
}

} // verus!
