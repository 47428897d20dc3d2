//! Source spans and span-carrying values.

use vstd::prelude::*;

verus! {

/// A span of source code: a byte offset and a length.
///
/// Empty spans are allowed.
#[derive(Clone, Copy, Debug, PartialEq, Eq, Structural)]
pub struct Span {
    pub start: usize,
    pub len: usize,
}

impl Span {
    /// The exclusive end of the span, as a mathematical integer.
    pub open spec fn spec_end(&self) -> int {
        self.start + self.len
    }

    /// The span fits in the address space: its end does not overflow.
    pub open spec fn wf(&self) -> bool {
        self.start + self.len <= usize::MAX
    }

    /// Return a new span from the given start and length position.
    pub fn new(start: usize, len: usize) -> (r: Span)
        ensures
            r.start == start,
            r.len == len,
    {
        Span { start, len }
    }

    /// Return a new span from the given start (inclusive) and end (exclusive)
    /// position.
    pub fn new_end(start: usize, end: usize) -> (r: Span)
        requires
            start <= end,
        ensures
            r.start == start,
            r.spec_end() == end,
    {
        Span { start, len: end - start }
    }

    /// Creates a new span covering both of the given spans.
    pub fn join(&self, other: Span) -> (r: Span)
        requires
            self.wf(),
            other.wf(),
        ensures
            r.wf(),
            r.start == if self.start <= other.start {
                self.start as int
            } else {
                other.start as int
            },
            r.spec_end() == if self.spec_end() >= other.spec_end() {
                self.spec_end()
            } else {
                other.spec_end()
            },
    {
        let start = if self.start <= other.start {
            self.start
        } else {
            other.start
        };
        let a = (self.start - start) + self.len;
        let b = (other.start - start) + other.len;
        let len = if a >= b {
            a
        } else {
            b
        };
        Span { start, len }
    }

    /// Return the start of the span.
    pub fn start(&self) -> (r: usize)
        ensures
            r == self.start,
    {
        self.start
    }

    /// Return the length of the span.
    pub fn len(&self) -> (r: usize)
        ensures
            r == self.len,
    {
        self.len
    }

    /// Returns the end (exclusive) of the span.
    pub fn end(&self) -> (r: usize)
        requires
            self.wf(),
        ensures
            r == self.spec_end(),
    {
        self.start + self.len
    }

    /// Returns the bytes that this span references in the given source.
    pub fn as_str(&self, src: &Vec<u8>) -> (r: Vec<u8>)
        requires
            self.spec_end() <= src.len(),
        ensures
            r@ == src@.subrange(self.start as int, self.spec_end()),
    {
        let mut r: Vec<u8> = Vec::new();
        let mut i: usize = self.start;
        let end = self.start + self.len;
        while i < end
            invariant
                self.start <= i <= end,
                end == self.spec_end() <= src.len(),
                r@ == src@.subrange(self.start as int, i as int),
            decreases end - i,
        {
            r.push(src[i]);
            i = i + 1;
            assert(r@ =~= src@.subrange(self.start as int, i as int));
        }
        assert(r@ =~= src@.subrange(self.start as int, self.spec_end()));
        r
    }
}

/// A value paired with the span of source code it came from.
#[derive(Clone, Copy, Debug)]
pub struct Spanned<T> {
    pub value: T,
    pub span: Span,
}

impl<T> Spanned<T> {
    /// Pair a value with its span.
    pub fn new(value: T, span: Span) -> (r: Spanned<T>)
        ensures
            r.value == value,
            r.span == span,
    {
        Spanned { value, span }
    }
}

/// A copy of a byte vector with the same contents.
pub fn copy_bytes(v: &Vec<u8>) -> (r: Vec<u8>)
    ensures
        r@ == v@,
{
    let r = Span::new(0, v.len()).as_str(v);
    proof {
        assert(v@.subrange(0, v@.len() as int) =~= v@);
    }
    r
}

} // verus!
