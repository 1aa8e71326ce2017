use vstd::prelude::*;

verus! {

/// A region of the source text: `size` bytes starting at byte offset `start`.
#[derive(Copy, Clone, Debug)]
pub struct Span {
    pub start: usize,
    pub size: usize,
}

impl Default for Span {
    fn default() -> (s: Self)
        ensures
            s.start == 0,
            s.size == 0,
    {
        Span { start: 0, size: 0 }
    }
}

impl Span {
    /// The offset one past the last byte of the span.
    pub open spec fn end(self) -> int {
        self.start + self.size
    }

    pub fn new(start: usize, size: usize) -> (s: Self)
        ensures
            s.start == start,
            s.size == size,
    {
        Span { start, size }
    }

    /// Creates a span of size 0 at the end of the given span.
    pub fn after(value: Span) -> (s: Self)
        requires
            value.end() <= usize::MAX,
        ensures
            s.start == value.end(),
            s.size == 0,
    {
        Span { start: value.start + value.size, size: 0 }
    }

    /// Grows the span by `by` bytes and returns a copy of the grown span.
    pub fn extend(&mut self, by: usize) -> (s: Self)
        requires
            old(self).size + by <= usize::MAX,
        ensures
            final(self).start == old(self).start,
            final(self).size == old(self).size + by,
            s == *final(self),
    {
        self.size = self.size + by;
        *self
    }
}

} // verus!
