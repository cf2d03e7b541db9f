use vstd::prelude::*;

verus! {

/// The abstract value of a [`Span`]: a half-open byte range in one file.
pub struct SpanModel {
    pub start: usize,
    pub end: usize,
    pub file_id: usize,
}

/// A span object that represents a slice of text in a file.
#[derive(Debug, Default, Clone, Copy, PartialEq, Eq, Hash, Structural)]
pub struct Span {
    start: usize,
    end: usize,
    file_id: usize,
}

impl View for Span {
    type V = SpanModel;

    closed spec fn view(&self) -> SpanModel {
        SpanModel { start: self.start, end: self.end, file_id: self.file_id }
    }
}

impl Span {
    /// Creates a new Span object with explicit start and end positions.
    pub fn new(start: usize, end: usize, file_id: usize) -> (s: Self)
        requires
            start <= end,
        ensures
            s@ == (SpanModel { start, end, file_id }),
    {
        Self { start, end, file_id }
    }

    /// Creates a new Span object from a range.
    pub fn from_range(range: core::ops::Range<usize>, file_id: usize) -> (s: Self)
        ensures
            s@ == (SpanModel { start: range.start, end: range.end, file_id }),
    {
        Self { start: range.start, end: range.end, file_id }
    }

    /// Creates a new Span that goes from the start of s1 to the end of s2.
    ///
    /// s1.end and s2.start do not have to be the same.
    pub fn merge(s1: Span, s2: Span) -> (s: Self)
        requires
            s1@.file_id == s2@.file_id,
            s1@.start <= s2@.end,
        ensures
            s@ == (SpanModel { start: s1@.start, end: s2@.end, file_id: s1@.file_id }),
    {
        Self::new(s1.start, s2.end, s1.file_id)
    }

    /// Returns the range start..end
    pub fn range(&self) -> (r: core::ops::Range<usize>)
        ensures
            r.start == self@.start,
            r.end == self@.end,
    {
        self.start..self.end
    }

    /// Returns the start of the span
    pub fn start(&self) -> (r: usize)
        ensures
            r == self@.start,
    {
        self.start
    }

    /// Returns the end of the span
    pub fn end(&self) -> (r: usize)
        ensures
            r == self@.end,
    {
        self.end
    }

    /// Returns the file id of the span
    pub fn file_id(&self) -> (r: usize)
        ensures
            r == self@.file_id,
    {
        self.file_id
    }
}

} // verus!
