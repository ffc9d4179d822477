use vstd::prelude::*;

verus! {

/// The context of a span: the identifier of the source file it points into.
#[derive(Clone, Copy, Debug, Hash, PartialEq, Eq, Structural)]
pub struct Ctx(pub usize);

/// A range `start..end` inside the file named by `context`: byte offsets of
/// the UTF-8 text in what the lexer and parser hand out.
#[derive(Clone, Copy, Debug, Hash, PartialEq, Eq, Structural)]
pub struct Span {
    pub context: Ctx,
    pub start: usize,
    pub end: usize,
}

/// A value together with the span of source it came from.
#[derive(Clone, Copy, Debug, PartialEq, Eq)]
pub struct Spanned<T> {
    pub inner: T,
    pub span: Span,
}

impl Span {
    /// The empty span at offset 0 of file 0.
    pub fn default_span() -> (r: Span)
        ensures
            r == (Span { context: Ctx(0), start: 0, end: 0 }),
    {
        Span { context: Ctx(0), start: 0, end: 0 }
    }

    /// The span `start..end` in `context`.
    pub fn new(context: Ctx, start: usize, end: usize) -> (r: Span)
        ensures
            r == (Span { context, start, end }),
    {
        Span { context, start, end }
    }

    /// The parts of the span: its context, start and end.
    pub fn inner(&self) -> (r: (Ctx, usize, usize))
        ensures
            r == (self.context, self.start, self.end),
    {
        (self.context, self.start, self.end)
    }

    pub fn context(&self) -> (r: Ctx)
        ensures
            r == self.context,
    {
        self.context
    }

    pub fn start(&self) -> (r: usize)
        ensures
            r == self.start,
    {
        self.start
    }

    pub fn end(&self) -> (r: usize)
        ensures
            r == self.end,
    {
        self.end
    }

    pub open spec fn spec_union(self, other: Span) -> Span {
        Span {
            context: self.context,
            start: if self.start <= other.start { self.start } else { other.start },
            end: if self.end >= other.end { self.end } else { other.end },
        }
    }

    /// The smallest span that covers both spans, in the context of `self`.
    pub fn union(&self, other: &Span) -> (r: Span)
        ensures
            r == self.spec_union(*other),
    {
        Span {
            context: self.context,
            start: if self.start <= other.start { self.start } else { other.start },
            end: if self.end >= other.end { self.end } else { other.end },
        }
    }

    /// The empty span at the end of `self`.
    pub fn to_end(&self) -> (r: Span)
        ensures
            r == (Span { context: self.context, start: self.end, end: self.end }),
    {
        Span { context: self.context, start: self.end, end: self.end }
    }
}

impl<T> Spanned<T> {
    pub fn new(inner: T, span: Span) -> (r: Spanned<T>)
        ensures
            r.inner == inner,
            r.span == span,
    {
        Spanned { inner, span }
    }
}

} // verus!
