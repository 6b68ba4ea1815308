//! Incremental construction of a [`SourceMap`], for codegen.
use vstd::prelude::*;

use crate::sorting::{lemma_insert_keeps_stable, lemma_stable_sort_is, stable_sort, stably_sorted};
use crate::source_map::{Mapping, MappingKind, SourceMap};
use crate::span::{SourceId, SourceSpan, Span, Uri};

verus! {

/// Errors [`SourceMapBuilder::try_with_mapping`] rejects a mapping for.
#[derive(Debug, Clone, PartialEq, Eq, Structural)]
pub enum BuildError {
    /// The generated span's `end` is before its `start`.
    InvertedGeneratedSpan { start: u32, end: u32 },
    /// A source span's `end` is before its `start`.
    InvertedSourceSpan { start: u32, end: u32 },
    /// A source span referenced a [`SourceId`] that was never registered.
    UnknownSourceId { index: usize, registered: usize },
}

/// The error a single source span is rejected for, given how many sources
/// are registered: an inverted span first, then an unknown id.
pub open spec fn source_error(s: SourceSpan, registered: usize) -> Option<BuildError> {
    if s.span.start > s.span.end {
        Some(BuildError::InvertedSourceSpan { start: s.span.start, end: s.span.end })
    } else if s.source.0 >= registered {
        Some(BuildError::UnknownSourceId { index: s.source.0, registered })
    } else {
        None
    }
}

/// The error for the first rejected span of `ss`, if any.
pub open spec fn first_source_error(ss: Seq<SourceSpan>, registered: usize) -> Option<
    BuildError,
>
    decreases ss.len(),
{
    if ss.len() == 0 {
        None
    } else {
        match first_source_error(ss.drop_last(), registered) {
            Some(e) => Some(e),
            None => source_error(ss.last(), registered),
        }
    }
}

/// The sort key of a mapping: its generated start offset.
pub open spec fn generated_start() -> spec_fn(Mapping) -> int {
    |m: Mapping| m.generated.start as int
}

/// Builds a [`SourceMap`] incrementally while lowering one or more `.rsx`
/// files to Rust. Every `with_*` method consumes the builder and returns a
/// new one; [`SourceMapBuilder::finish`] sorts mappings by generated start.
#[derive(Debug, Clone)]
pub struct SourceMapBuilder {
    generated: Uri,
    sources: Vec<Uri>,
    mappings: Vec<Mapping>,
}

impl SourceMapBuilder {
    /// URI of the generated file being built.
    pub closed spec fn generated_uri(&self) -> Seq<char> {
        self.generated@
    }

    /// Registered source URIs, indexed by [`SourceId`].
    pub closed spec fn source_uris(&self) -> Seq<Uri> {
        self.sources@
    }

    /// Mappings added so far, in insertion order.
    pub closed spec fn pending(&self) -> Seq<Mapping> {
        self.mappings@
    }

    /// Starts a builder for the generated file at `generated`.
    pub fn new(generated: Uri) -> (r: Self)
        ensures
            r.generated_uri() == generated@,
            r.source_uris().len() == 0,
            r.pending().len() == 0,
    {
        SourceMapBuilder { generated, sources: Vec::new(), mappings: Vec::new() }
    }

    /// Registers a source file and returns the builder together with the
    /// [`SourceId`] to use for it. Each call appends a new id, even for a
    /// URI already registered.
    pub fn with_source(self, source: Uri) -> (r: (Self, SourceId))
        ensures
            r.1 == SourceId(self.source_uris().len() as usize),
            r.0.generated_uri() == self.generated_uri(),
            r.0.source_uris() == self.source_uris().push(source),
            r.0.pending() == self.pending(),
    {
        let id = SourceId(self.sources.len());
        let mut sources = self.sources;
        sources.push(source);
        (SourceMapBuilder { sources, ..self }, id)
    }

    /// Adds a mapping from a generated span to zero or more source spans.
    /// Rejects an inverted generated span, then (checking the sources in
    /// order) an inverted source span or an unregistered source id.
    pub fn try_with_mapping(
        self,
        generated: Span,
        sources: &[SourceSpan],
        kind: MappingKind,
        label: Option<String>,
    ) -> (r: Result<Self, BuildError>)
        ensures
            generated.start > generated.end ==> r == Err::<Self, BuildError>(
                BuildError::InvertedGeneratedSpan { start: generated.start, end: generated.end },
            ),
            generated.start <= generated.end ==> match first_source_error(
                sources@,
                self.source_uris().len() as usize,
            ) {
                Some(e) => r == Err::<Self, BuildError>(e),
                None => r matches Ok(b) && b.generated_uri() == self.generated_uri()
                    && b.source_uris() == self.source_uris() && b.pending().len()
                    == self.pending().len() + 1 && b.pending().drop_last() == self.pending() && ({
                    let m = b.pending().last();
                    m.generated == generated && m.sources@ == sources@ && m.kind == kind
                        && m.label == label
                }),
            },
    {
        if generated.start > generated.end {
            return Err(BuildError::InvertedGeneratedSpan { start: generated.start, end: generated.end });
        }
        let registered = self.sources.len();
        let mut copied: Vec<SourceSpan> = Vec::new();
        let n = sources.len();
        for i in 0..n
            invariant
                n == sources@.len(),
                registered == self.sources@.len(),
                copied@ == sources@.take(i as int),
                generated.start <= generated.end,
                registered == self.source_uris().len(),
                first_source_error(sources@.take(i as int), registered).is_none(),
        {
            let source = sources[i];
            assert(sources@.take(i + 1).drop_last() =~= sources@.take(i as int));
            if source.span.start > source.span.end {
                proof {
                    lemma_first_error_prefix(sources@, registered, i + 1);
                }
                return Err(
                    BuildError::InvertedSourceSpan { start: source.span.start, end: source.span.end },
                );
            }
            if source.source.0 >= registered {
                proof {
                    lemma_first_error_prefix(sources@, registered, i + 1);
                }
                return Err(BuildError::UnknownSourceId { index: source.source.0, registered });
            }
            copied.push(source);
            assert(copied@ =~= sources@.take(i + 1));
        }
        assert(sources@.take(n as int) =~= sources@);
        let mapping = Mapping { generated, sources: copied, kind, label };
        let mut mappings = self.mappings;
        mappings.push(mapping);
        let r = SourceMapBuilder { mappings, ..self };
        assert(r.pending().drop_last() =~= self.pending());
        Ok(r)
    }

    /// Finishes the builder into a [`SourceMap`], sorting mappings by
    /// generated start offset; mappings with equal starts keep their
    /// insertion order.
    pub fn finish(self) -> (r: SourceMap)
        ensures
            r.generated@ == self.generated_uri(),
            r.sources@ == self.source_uris(),
            stably_sorted(r.mappings@, self.pending(), generated_start()),
            r.mappings@ == stable_sort(self.pending(), generated_start()),
    {
        let ghost original = self.mappings@;
        let mut rest = self.mappings;
        let mut out: Vec<Mapping> = Vec::new();
        while rest.len() > 0
            invariant
                original.take(rest@.len() as int) == rest@,
                rest@.len() <= original.len(),
                stably_sorted(
                    out@,
                    original.subrange(rest@.len() as int, original.len() as int),
                    generated_start(),
                ),
            decreases rest@.len(),
        {
            let ghost before = rest@;
            let e = rest.pop().unwrap();
            let ghost i = rest@.len() as int;
            assert(original.take(i) =~= rest@) by {
                assert(before.drop_last() =~= rest@);
                assert(original.take(i) =~= original.take(i + 1).drop_last());
            }
            assert(original[i] == e) by {
                assert(original.take(i + 1)[i] == original[i]);
            }
            let ghost tail = original.subrange(i + 1, original.len() as int);
            let ghost new_tail = original.subrange(i, original.len() as int);
            assert(new_tail =~= seq![e] + tail);
            let mut p: usize = 0;
            while p < out.len() && out[p].generated.start < e.generated.start
                invariant
                    0 <= p <= out@.len(),
                    forall|k: int| 0 <= k < p ==> (#[trigger] out@[k]).generated.start
                        < e.generated.start,
                decreases out@.len() - p,
            {
                p = p + 1;
            }
            let ghost old_out = out@;
            out.insert(p, e);
            proof {
                lemma_insert_keeps_stable(old_out, tail, e, p as int, generated_start());
                assert(out@ =~= old_out.take(p as int).push(e) + old_out.skip(p as int));
            }
        }
        assert(original.subrange(0, original.len() as int) =~= original);
        proof {
            lemma_stable_sort_is(out@, original, generated_start());
        }
        SourceMap { generated: self.generated, sources: self.sources, mappings: out }
    }
}

/// Once a prefix has an error, the whole sequence reports that error; the
/// first error of a prefix one longer is the next span's own when the
/// shorter prefix had none.
proof fn lemma_first_error_prefix(ss: Seq<SourceSpan>, registered: usize, i: int)
    requires
        0 < i <= ss.len(),
        first_source_error(ss.take(i - 1), registered).is_none(),
        source_error(ss[i - 1], registered).is_some(),
    ensures
        first_source_error(ss, registered) == source_error(ss[i - 1], registered),
    decreases ss.len() - i,
{
    assert(ss.take(i).drop_last() =~= ss.take(i - 1));
    assert(first_source_error(ss.take(i), registered) == source_error(ss[i - 1], registered));
    lemma_first_error_extends(ss, registered, i);
}

proof fn lemma_first_error_extends(ss: Seq<SourceSpan>, registered: usize, i: int)
    requires
        0 <= i <= ss.len(),
        first_source_error(ss.take(i), registered).is_some(),
    ensures
        first_source_error(ss, registered) == first_source_error(ss.take(i), registered),
    decreases ss.len() - i,
{
    if i < ss.len() {
        assert(ss.take(i + 1).drop_last() =~= ss.take(i));
        lemma_first_error_extends(ss, registered, i + 1);
    } else {
        assert(ss.take(i) =~= ss);
    }
}

} // verus!
