use vstd::prelude::*;

verus! {

/// A half-open byte range `[start, end)` of the source buffer.
#[derive(Debug, Clone, Copy, PartialEq, Eq, Hash)]
pub struct Span {
    pub start: usize,
    pub end: usize,
}

impl Span {
    /// A span is well formed when it does not run backwards.
    pub open spec fn wf(self) -> bool {
        self.start <= self.end
    }

    /// `self` lies entirely inside `outer`.
    pub open spec fn within(self, outer: Span) -> bool {
        outer.start <= self.start && self.end <= outer.end
    }

    /// `self` ends no later than `next` begins.
    pub open spec fn precedes(self, next: Span) -> bool {
        self.end <= next.start
    }

    pub fn new(start: usize, end: usize) -> (r: Span)
        ensures
            r == (Span { start, end }),
    {
        Span { start, end }
    }

    pub fn len(&self) -> (r: usize)
        requires
            self.wf(),
        ensures
            r == self.end - self.start,
    {
        self.end - self.start
    }
}

/// The trivia (whitespace and comments) captured immediately before and
/// immediately after one significant token. The token's own text is the
/// range between the two.
#[derive(Debug, Clone, Copy, PartialEq, Eq, Hash)]
pub struct LiteralWhitespace {
    pub before: Span,
    pub after: Span,
}

impl LiteralWhitespace {
    /// The text of the token that this trivia surrounds.
    pub open spec fn token_span(self) -> Span {
        Span { start: self.before.end, end: self.after.start }
    }

    /// Before-trivia, token text and after-trivia follow one another without
    /// gaps, so that their concatenation is one contiguous piece of source.
    pub open spec fn wf(self) -> bool {
        &&& self.before.wf()
        &&& self.after.wf()
        &&& self.before.end <= self.after.start
    }

    /// The text of the token that this trivia surrounds.
    pub fn token_span_exec(&self) -> (r: Span)
        ensures
            r == self.token_span(),
    {
        Span::new(self.before.end, self.after.start)
    }

    /// Trivia of zero width standing at `at`, for a token that is missing.
    pub open spec fn zero_at(at: usize) -> LiteralWhitespace {
        LiteralWhitespace { before: Span { start: at, end: at }, after: Span { start: at, end: at } }
    }

    pub fn empty_at(at: usize) -> (r: LiteralWhitespace)
        ensures
            r == LiteralWhitespace::zero_at(at),
    {
        LiteralWhitespace { before: Span::new(at, at), after: Span::new(at, at) }
    }
}

} // verus!
