//! Byte spans, source identifiers and document URIs.
use vstd::prelude::*;

verus! {

/// Byte range `[start, end)` inside one file.
#[derive(Debug, Clone, Copy, PartialEq, Eq, Structural, Hash, PartialOrd, Ord)]
pub struct Span {
    /// Inclusive start byte offset.
    pub start: u32,
    /// Exclusive end byte offset.
    pub end: u32,
}

impl Span {
    /// `start <= end`: the span is a real range rather than an inverted one.
    pub open spec fn is_ordered(self) -> bool {
        self.start <= self.end
    }

    /// Number of bytes in an ordered span.
    pub open spec fn len_spec(self) -> int {
        self.end - self.start
    }

    /// Two spans share a byte, or one of them is empty and sits inside (or
    /// at an edge of) the other.
    pub open spec fn overlaps_spec(self, other: Span) -> bool {
        ||| (self.start < other.end && other.start < self.end)
        ||| (self.start == self.end && other.start <= self.start && self.start <= other.end)
        ||| (other.start == other.end && self.start <= other.start && other.start <= self.end)
    }

    /// `other` lies entirely inside `self` (edges included).
    pub open spec fn contains_spec(self, other: Span) -> bool {
        self.start <= other.start && other.end <= self.end
    }

    /// Creates a span. `end` must not be smaller than `start`.
    pub fn new(start: u32, end: u32) -> (r: Self)
        requires
            start <= end,
        ensures
            r.start == start,
            r.end == end,
    {
        Span { start, end }
    }

    /// Whether two spans share at least one byte. An empty span at a
    /// position inside `other` also counts as overlapping, so that cursor
    /// positions can be mapped.
    pub fn overlaps(self, other: Span) -> (r: bool)
        ensures
            r == self.overlaps_spec(other),
    {
        (self.start < other.end && other.start < self.end) || (self.start == self.end
            && other.start <= self.start && self.start <= other.end) || (other.start == other.end
            && self.start <= other.start && other.start <= self.end)
    }

    /// Whether `other` lies entirely inside this span.
    pub fn contains(self, other: Span) -> (r: bool)
        ensures
            r == self.contains_spec(other),
    {
        self.start <= other.start && other.end <= self.end
    }
}

/// Index into a source map's list of source files.
#[derive(Debug, Clone, Copy, PartialEq, Eq, Structural, Hash)]
pub struct SourceId(pub usize);

/// A span inside a specific source file.
#[derive(Debug, Clone, Copy, PartialEq, Eq, Structural, Hash)]
pub struct SourceSpan {
    /// Which source file.
    pub source: SourceId,
    /// Span inside that file.
    pub span: Span,
}

impl SourceSpan {
    /// Pairs a source id with a span.
    pub fn new(source: SourceId, span: Span) -> (r: Self)
        ensures
            r.source == source,
            r.span == span,
    {
        SourceSpan { source, span }
    }
}

/// A document URI as exchanged with editors and rust-analyzer, kept as a
/// plain string: only equality is ever needed.
#[derive(Debug, Clone, PartialEq, Eq, Hash, PartialOrd, Ord)]
pub struct Uri(String);

impl View for Uri {
    type V = Seq<char>;

    closed spec fn view(&self) -> Seq<char> {
        self.0@
    }
}

impl Uri {
    /// Wraps a URI string.
    pub fn new(uri: &str) -> (r: Self)
        ensures
            r@ == uri@,
    {
        Uri(uri.to_owned())
    }

    /// Wraps an owned URI string.
    pub fn from_string(uri: String) -> (r: Self)
        ensures
            r@ == uri@,
    {
        Uri(uri)
    }

    /// The URI as a string.
    pub fn as_str(&self) -> (r: &str)
        ensures
            r@ == self@,
    {
        self.0.as_str()
    }

    /// Whether two URIs are the same string.
    pub fn same(&self, other: &Uri) -> (r: bool)
        ensures
            r == (self@ == other@),
    {
        self.0 == other.0
    }

    /// A copy of this URI.
    pub fn duplicate(&self) -> (r: Uri)
        ensures
            r@ == self@,
    {
        Uri(self.0.clone())
    }
}

} // verus!
