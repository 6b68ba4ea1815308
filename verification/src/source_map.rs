//! Source maps between `.rsx` files and the Rust generated from them.
//!
//! The mapping is many-to-many: one source span may produce several
//! generated spans, and one generated span may come from several source
//! spans (an element name written once in Rust but appearing in both the
//! opening and the closing tag).
use vstd::prelude::*;

use crate::span::{SourceId, SourceSpan, Span, Uri};

verus! {

/// What kind of syntax a mapping entry describes.
#[derive(Debug, Clone, Copy, PartialEq, Eq, Structural)]
pub enum MappingKind {
    /// A Rust or component identifier.
    Identifier,
    /// A Rust expression island.
    Expression,
    /// A JSX attribute name.
    Attribute,
    /// JSX text content.
    Text,
    /// Anything else.
    Other,
}

/// One entry of a source map: a generated span and all source spans that
/// contributed to it.
#[derive(Debug, Clone, PartialEq, Eq)]
pub struct Mapping {
    /// Span inside the generated Rust file.
    pub generated: Span,
    /// Zero or more originating spans. Empty means "synthesized by codegen".
    pub sources: Vec<SourceSpan>,
    /// Classification of the mapped syntax.
    pub kind: MappingKind,
    /// Optional human-readable note, not interpreted by this crate.
    pub label: Option<String>,
}

impl Mapping {
    /// Creates a mapping with no label.
    pub fn new(generated: Span, sources: Vec<SourceSpan>, kind: MappingKind) -> (r: Self)
        ensures
            r.generated == generated,
            r.sources@ == sources@,
            r.kind == kind,
            r.label.is_none(),
    {
        Mapping { generated, sources, kind, label: None }
    }

    /// Returns the same mapping with `label` attached.
    pub fn with_label(self, label: &str) -> (r: Self)
        ensures
            r.generated == self.generated,
            r.sources@ == self.sources@,
            r.kind == self.kind,
            r.label is Some,
            r.label->0@ == label@,
    {
        Mapping { label: Some(label.to_owned()), ..self }
    }
}

/// Result of [`SourceMap::map_range`].
#[derive(Debug, Clone, PartialEq, Eq)]
pub struct Mapped {
    /// Source spans that apply to the queried generated span, in mapping
    /// order and deduplicated.
    pub sources: Vec<SourceSpan>,
    /// `true` only when no mapping intersects the generated span at all.
    pub unmapped: bool,
}

/// Source map for a single generated Rust file.
#[derive(Debug, Clone, PartialEq, Eq)]
pub struct SourceMap {
    /// URI of the generated Rust file.
    pub generated: Uri,
    /// URIs of the `.rsx` files that contributed, indexed by [`SourceId`].
    pub sources: Vec<Uri>,
    /// Mapping entries, in generated-span order.
    pub mappings: Vec<Mapping>,
}

/// Result of [`SourceMap::narrow`].
#[derive(Debug, Clone, Copy, PartialEq, Eq, Structural)]
pub enum NarrowOutcome {
    /// Narrowed to an exact sub-range of one source.
    Exact {
        /// Which source file the narrowed span belongs to.
        source: SourceId,
        /// The narrowed span within it.
        span: Span,
    },
    /// The one containing mapping has exactly one source, but the two spans
    /// differ in length: a proportional guess would be wrong, so the caller
    /// must report the query as unmapped.
    LengthMismatch,
    /// Zero or several sources, or no containing mapping at all.
    NotApplicable,
}

/// Identity of a source span for deduplication: the URI it resolves to
/// (or, failing that, its raw index) together with the span.
pub enum SourceKey {
    Resolved(Seq<char>, Span),
    Unresolved(usize, Span),
}

/// Strict overlap: a zero-width span never overlaps a non-empty one.
pub open spec fn overlaps_strict_spec(a: Span, b: Span) -> bool {
    a.start < b.end && b.start < a.end
}

/// The mappings of `ms` that satisfy `keep`, in order.
pub open spec fn keep_mappings(ms: Seq<Mapping>, keep: spec_fn(Mapping) -> bool) -> Seq<Mapping>
    decreases ms.len(),
{
    if ms.len() == 0 {
        seq![]
    } else {
        let rest = keep_mappings(ms.drop_last(), keep);
        if keep(ms.last()) {
            rest.push(ms.last())
        } else {
            rest
        }
    }
}

/// All source spans of `ms`, concatenated in mapping order.
pub open spec fn flatten_sources(ms: Seq<Mapping>) -> Seq<SourceSpan>
    decreases ms.len(),
{
    if ms.len() == 0 {
        seq![]
    } else {
        flatten_sources(ms.drop_last()) + ms.last().sources@
    }
}

/// The generated spans of `ms`, in mapping order.
pub open spec fn generated_spans(ms: Seq<Mapping>) -> Seq<Span>
    decreases ms.len(),
{
    if ms.len() == 0 {
        seq![]
    } else {
        generated_spans(ms.drop_last()).push(ms.last().generated)
    }
}

/// `m` has a source span in file `source` overlapping `span`.
pub open spec fn fed_by(m: Mapping, source: SourceId, span: Span) -> bool {
    exists|k: int|
        0 <= k < m.sources@.len() && (#[trigger] m.sources@[k]).source == source
            && m.sources@[k].span.overlaps_spec(span)
}

/// The dedup key of `s` against the source URI list `uris`.
pub open spec fn source_key(uris: Seq<Uri>, s: SourceSpan) -> SourceKey {
    if s.source.0 < uris.len() {
        SourceKey::Resolved(uris[s.source.0 as int]@, s.span)
    } else {
        SourceKey::Unresolved(s.source.0, s.span)
    }
}

/// `ss` with every span whose key already occurred earlier removed; the
/// first occurrence of each key is kept, in order.
pub open spec fn dedup_by_key(ss: Seq<SourceSpan>, uris: Seq<Uri>) -> Seq<SourceSpan>
    decreases ss.len(),
{
    if ss.len() == 0 {
        seq![]
    } else {
        let rest = dedup_by_key(ss.drop_last(), uris);
        if exists|j: int|
            0 <= j < ss.len() - 1 && source_key(uris, #[trigger] ss[j]) == source_key(
                uris,
                ss.last(),
            ) {
            rest
        } else {
            rest.push(ss.last())
        }
    }
}

/// Mappings whose generated span overlaps `q`.
pub open spec fn overlapping(q: Span) -> spec_fn(Mapping) -> bool {
    |m: Mapping| m.generated.overlaps_spec(q)
}

/// Mappings whose generated span contains `q`.
pub open spec fn containing(q: Span) -> spec_fn(Mapping) -> bool {
    |m: Mapping| m.generated.contains_spec(q)
}

/// Mappings whose generated span strictly overlaps `q`.
pub open spec fn overlapping_strictly(q: Span) -> spec_fn(Mapping) -> bool {
    |m: Mapping| overlaps_strict_spec(m.generated, q)
}

/// Mappings with a source span in file `source` that overlaps `span`.
pub open spec fn fed(source: SourceId, span: Span) -> spec_fn(Mapping) -> bool {
    |m: Mapping| fed_by(m, source, span)
}

/// Some mapping's generated span contains `q`.
pub open spec fn some_contains(ms: Seq<Mapping>, q: Span) -> bool {
    exists|i: int| 0 <= i < ms.len() && (#[trigger] ms[i]).generated.contains_spec(q)
}

/// The mappings that a reverse-mapping query for `q` uses: those whose
/// generated span contains `q` if there are any, else those that strictly
/// overlap it.
pub open spec fn range_matches(ms: Seq<Mapping>, q: Span) -> Seq<Mapping> {
    if some_contains(ms, q) {
        keep_mappings(ms, containing(q))
    } else {
        keep_mappings(ms, overlapping_strictly(q))
    }
}

/// Index of the first mapping whose generated span contains `q`.
pub open spec fn first_containing(ms: Seq<Mapping>, q: Span) -> Option<int>
    decreases ms.len(),
{
    if ms.len() == 0 {
        None
    } else {
        match first_containing(ms.drop_last(), q) {
            Some(i) => Some(i),
            None => if ms.last().generated.contains_spec(q) {
                Some(ms.len() - 1)
            } else {
                None
            },
        }
    }
}

/// Narrowing `q` cannot overflow: the first mapping containing it (if
/// any) has an ordered generated span and, when it has exactly one
/// source, an ordered source span.
pub open spec fn narrow_ok(ms: Seq<Mapping>, q: Span) -> bool {
    match first_containing(ms, q) {
        Some(i) => ms[i].generated.is_ordered() && (ms[i].sources@.len() == 1
            ==> ms[i].sources@[0].span.is_ordered()),
        None => true,
    }
}

/// `scale_offset` as arithmetic.
pub open spec fn scale_offset_spec(offset: u32, from: Span, to: Span) -> u32 {
    let delta: int = if offset >= from.start {
        offset - from.start
    } else {
        0
    };
    let from_len = from.end - from.start;
    let to_len = to.end - to.start;
    if from_len == 0 || to_len == 0 {
        to.start
    } else {
        let scaled = ((delta * to_len) / from_len) as u64;
        let clipped = if (scaled as u32) < to_len {
            scaled as u32 as int
        } else {
            to_len
        };
        (to.start + clipped) as u32
    }
}

/// What [`SourceMap::narrow`] answers for query `q` over mappings `ms`.
pub open spec fn narrow_spec(ms: Seq<Mapping>, q: Span) -> NarrowOutcome {
    match first_containing(ms, q) {
        None => NarrowOutcome::NotApplicable,
        Some(i) => {
            let m = ms[i];
            if m.sources@.len() != 1 {
                NarrowOutcome::NotApplicable
            } else {
                let s = m.sources@[0];
                if m.generated.len_spec() != s.span.len_spec() {
                    NarrowOutcome::LengthMismatch
                } else {
                    let start = scale_offset_spec(q.start, m.generated, s.span);
                    let end = if q.start == q.end {
                        start
                    } else {
                        let e = scale_offset_spec(q.end, m.generated, s.span);
                        if e >= start {
                            e
                        } else {
                            start
                        }
                    };
                    NarrowOutcome::Exact { source: s.source, span: Span { start, end } }
                }
            }
        },
    }
}

/// Translates `offset` (normally inside `from`) into the corresponding
/// offset inside `to`, proportionally to how far through `from` it is;
/// exact when the two spans have the same length, and clamped to `to`.
pub fn scale_offset(offset: u32, from: Span, to: Span) -> (r: u32)
    requires
        from.is_ordered(),
        to.is_ordered(),
    ensures
        r == scale_offset_spec(offset, from, to),
        to.start <= r <= to.end,
{
    let delta = offset.saturating_sub(from.start);
    let from_len = from.end - from.start;
    let to_len = to.end - to.start;
    if from_len == 0 || to_len == 0 {
        return to.start;
    }
    assert((delta as int) * (to_len as int) <= (u32::MAX as int) * (u32::MAX as int))
        by (nonlinear_arith)
        requires
            delta <= u32::MAX,
            to_len <= u32::MAX,
    ;
    let product = (delta as u64) * (to_len as u64);
    let scaled = product / (from_len as u64);
    let narrowed = scaled as u32;
    let clipped = if narrowed < to_len {
        narrowed
    } else {
        to_len
    };
    to.start + clipped
}

/// The length of `span`, in bytes.
pub fn span_len(span: Span) -> (r: u32)
    requires
        span.is_ordered(),
    ensures
        r == span.len_spec(),
{
    span.end - span.start
}

/// Strict overlap, as the reverse-mapping query uses it.
fn overlaps_strict(a: Span, b: Span) -> (r: bool)
    ensures
        r == overlaps_strict_spec(a, b),
{
    a.start < b.end && b.start < a.end
}

proof fn lemma_take_step<T>(s: Seq<T>, i: int)
    requires
        0 <= i < s.len(),
    ensures
        s.take(i + 1).drop_last() == s.take(i),
        s.take(i + 1).last() == s[i],
{
    assert(s.take(i + 1).drop_last() =~= s.take(i));
}

impl SourceMap {
    /// Creates an empty map for `generated` with the given source files.
    pub fn new(generated: Uri, sources: Vec<Uri>) -> (r: Self)
        ensures
            r.generated@ == generated@,
            r.sources@ == sources@,
            r.mappings@.len() == 0,
    {
        SourceMap { generated, sources, mappings: Vec::new() }
    }

    /// Returns the map with `mapping` appended.
    pub fn with_mapping(self, mapping: Mapping) -> (r: Self)
        ensures
            r.generated@ == self.generated@,
            r.sources@ == self.sources@,
            r.mappings@ == self.mappings@.push(mapping),
    {
        let mut mappings = self.mappings;
        mappings.push(mapping);
        SourceMap { mappings, ..self }
    }

    /// All source spans that contributed to a span of the generated file:
    /// the sources of every mapping whose generated span overlaps
    /// `generated`, in mapping order.
    pub fn to_source(&self, generated: Span) -> (r: Vec<SourceSpan>)
        ensures
            r@ == flatten_sources(keep_mappings(self.mappings@, overlapping(generated))),
    {
        let ghost keep = overlapping(generated);
        let mut out: Vec<SourceSpan> = Vec::new();
        let n = self.mappings.len();
        for i in 0..n
            invariant
                n == self.mappings@.len(),
                keep == overlapping(generated),
                out@ == flatten_sources(keep_mappings(self.mappings@.take(i as int), keep)),
        {
            proof {
                lemma_take_step(self.mappings@, i as int);
            }
            let m = &self.mappings[i];
            if m.generated.overlaps(generated) {
                let ghost before = out@;
                let k = m.sources.len();
                for j in 0..k
                    invariant
                        k == m.sources@.len(),
                        out@ == before + m.sources@.take(j as int),
                {
                    out.push(m.sources[j]);
                    assert(m.sources@.take(j + 1) =~= m.sources@.take(j as int).push(m.sources@[j as int]));
                }
                assert(m.sources@.take(k as int) =~= m.sources@);
                let ghost kept = keep_mappings(self.mappings@.take(i as int), keep);
                assert(keep_mappings(self.mappings@.take(i + 1), keep) == kept.push(*m));
                assert(kept.push(*m).drop_last() =~= kept);
            }
        }
        assert(self.mappings@.take(n as int) =~= self.mappings@);
        out
    }

    /// All generated spans that a span of source `source` contributed to.
    pub fn to_generated(&self, source: SourceId, span: Span) -> (r: Vec<Span>)
        ensures
            r@ == generated_spans(keep_mappings(self.mappings@, fed(source, span))),
    {
        let ghost keep = fed(source, span);
        let mut out: Vec<Span> = Vec::new();
        let n = self.mappings.len();
        for i in 0..n
            invariant
                n == self.mappings@.len(),
                keep == fed(source, span),
                out@ == generated_spans(keep_mappings(self.mappings@.take(i as int), keep)),
        {
            proof {
                lemma_take_step(self.mappings@, i as int);
            }
            let m = &self.mappings[i];
            let k = m.sources.len();
            let mut found = false;
            for j in 0..k
                invariant
                    k == m.sources@.len(),
                    found == exists|t: int|
                        0 <= t < j && (#[trigger] m.sources@[t]).source == source
                            && m.sources@[t].span.overlaps_spec(span),
            {
                let s = m.sources[j];
                if s.source == source && s.span.overlaps(span) {
                    found = true;
                }
            }
            let ghost kept = keep_mappings(self.mappings@.take(i as int), keep);
            assert(found == keep(*m));
            if found {
                out.push(m.generated);
                assert(keep_mappings(self.mappings@.take(i + 1), keep) == kept.push(*m));
                assert(kept.push(*m).drop_last() =~= kept);
            } else {
                assert(keep_mappings(self.mappings@.take(i + 1), keep) == kept);
            }
        }
        assert(self.mappings@.take(n as int) =~= self.mappings@);
        out
    }

    /// Resolves a [`SourceId`] to its URI.
    pub fn source_uri(&self, id: SourceId) -> (r: Option<&Uri>)
        ensures
            id.0 < self.sources@.len() ==> r == Some(&self.sources@[id.0 as int]),
            id.0 >= self.sources@.len() ==> r.is_none(),
    {
        if id.0 < self.sources.len() {
            Some(&self.sources[id.0])
        } else {
            None
        }
    }

    /// Whether two source spans have the same dedup key.
    fn same_key(&self, a: SourceSpan, b: SourceSpan) -> (r: bool)
        ensures
            r == (source_key(self.sources@, a) == source_key(self.sources@, b)),
    {
        match (self.source_uri(a.source), self.source_uri(b.source)) {
            (Some(ua), Some(ub)) => ua.same(ub) && a.span == b.span,
            (None, None) => a.source.0 == b.source.0 && a.span == b.span,
            _ => false,
        }
    }

    /// Appends `s` to `out` unless a span with the same dedup key is
    /// already there.
    fn push_unique(&self, out: &mut Vec<SourceSpan>, Ghost(all): Ghost<Seq<SourceSpan>>, s: SourceSpan)
        requires
            old(out)@ == dedup_by_key(all, self.sources@),
        ensures
            final(out)@ == dedup_by_key(all.push(s), self.sources@),
    {
        let ghost uris = self.sources@;
        proof {
            lemma_dedup_covers(all, uris);
        }
        let mut seen = false;
        let mut t: usize = 0;
        while t < out.len()
            invariant
                0 <= t <= out@.len(),
                uris == self.sources@,
                out@ == dedup_by_key(all, uris),
                seen == exists|u: int|
                    0 <= u < t && source_key(uris, #[trigger] out@[u]) == source_key(uris, s),
            decreases out@.len() - t,
        {
            if self.same_key(out[t], s) {
                seen = true;
            }
            t = t + 1;
        }
        let ghost next = all.push(s);
        assert(next.drop_last() =~= all);
        assert(next.last() == s);
        if !seen {
            assert(!(exists|u: int|
                0 <= u < next.len() - 1 && source_key(uris, #[trigger] next[u]) == source_key(
                    uris,
                    next.last(),
                ))) by {
                if exists|u: int|
                    0 <= u < next.len() - 1 && source_key(uris, #[trigger] next[u]) == source_key(
                        uris,
                        next.last(),
                    ) {
                    let u = choose|u: int|
                        0 <= u < next.len() - 1 && source_key(uris, #[trigger] next[u])
                            == source_key(uris, next.last());
                    assert(next[u] == all[u]);
                    let w = choose|w: int|
                        0 <= w < dedup_by_key(all, uris).len() && source_key(
                            uris,
                            #[trigger] dedup_by_key(all, uris)[w],
                        ) == source_key(uris, #[trigger] all[u]);
                    assert(source_key(uris, out@[w]) == source_key(uris, s));
                }
            }
            out.push(s);
        } else {
            assert(exists|u: int|
                0 <= u < next.len() - 1 && source_key(uris, #[trigger] next[u]) == source_key(
                    uris,
                    next.last(),
                )) by {
                let u = choose|u: int|
                    0 <= u < out@.len() && source_key(uris, #[trigger] out@[u]) == source_key(
                        uris,
                        s,
                    );
                let w = choose|w: int|
                    0 <= w < all.len() && #[trigger] all[w] == #[trigger] dedup_by_key(all, uris)[u];
                assert(next[w] == all[w]);
            }
        }
    }

    /// Reverse-maps a generated span: mappings whose generated span
    /// contains `generated` take precedence over ones that merely
    /// (strictly) overlap it. Source spans of every matching mapping are
    /// flattened in mapping order and deduplicated by resolved URI (or
    /// source index when it does not resolve) plus span.
    pub fn map_range(&self, generated: Span) -> (r: Mapped)
        ensures
            r.unmapped == (range_matches(self.mappings@, generated).len() == 0),
            r.sources@ == dedup_by_key(
                flatten_sources(range_matches(self.mappings@, generated)),
                self.sources@,
            ),
    {
        let n = self.mappings.len();
        let mut any_contains = false;
        for i in 0..n
            invariant
                n == self.mappings@.len(),
                any_contains == exists|t: int|
                    0 <= t < i && (#[trigger] self.mappings@[t]).generated.contains_spec(
                        generated,
                    ),
        {
            if self.mappings[i].generated.contains(generated) {
                any_contains = true;
            }
        }
        let ghost keep = if any_contains {
            containing(generated)
        } else {
            overlapping_strictly(generated)
        };
        assert(range_matches(self.mappings@, generated) == keep_mappings(self.mappings@, keep));
        let ghost uris = self.sources@;
        let mut any_matched = false;
        let mut out: Vec<SourceSpan> = Vec::new();
        for i in 0..n
            invariant
                n == self.mappings@.len(),
                uris == self.sources@,
                any_matched == (keep_mappings(self.mappings@.take(i as int), keep).len() > 0),
                out@ == dedup_by_key(
                    flatten_sources(keep_mappings(self.mappings@.take(i as int), keep)),
                    uris,
                ),
                keep == (if any_contains {
                    containing(generated)
                } else {
                    overlapping_strictly(generated)
                }),
        {
            proof {
                lemma_take_step(self.mappings@, i as int);
            }
            let m = &self.mappings[i];
            let hit = if any_contains {
                m.generated.contains(generated)
            } else {
                overlaps_strict(m.generated, generated)
            };
            let ghost kept = keep_mappings(self.mappings@.take(i as int), keep);
            assert(hit == keep(*m));
            if hit {
                let ghost flat_before = flatten_sources(kept);
                let k = m.sources.len();
                for j in 0..k
                    invariant
                        k == m.sources@.len(),
                        uris == self.sources@,
                        out@ == dedup_by_key(flat_before + m.sources@.take(j as int), uris),
                {
                    let s = m.sources[j];
                    self.push_unique(&mut out, Ghost(flat_before + m.sources@.take(j as int)), s);
                    assert(flat_before + m.sources@.take(j + 1) =~= (flat_before + m.sources@.take(
                        j as int,
                    )).push(s));
                }
                assert(m.sources@.take(k as int) =~= m.sources@);
                assert(keep_mappings(self.mappings@.take(i + 1), keep) == kept.push(*m));
                assert(kept.push(*m).drop_last() =~= kept);
                any_matched = true;
            } else {
                assert(keep_mappings(self.mappings@.take(i + 1), keep) == kept);
            }
        }
        assert(self.mappings@.take(n as int) =~= self.mappings@);
        Mapped { sources: out, unmapped: !any_matched }
    }

    /// Proportionally narrows a generated query span to the exact sub-range
    /// of the one source it came from, when the first mapping containing it
    /// has exactly one source of the same length.
    pub fn narrow(&self, query: Span) -> (r: NarrowOutcome)
        requires
            narrow_ok(self.mappings@, query),
        ensures
            r == narrow_spec(self.mappings@, query),
    {
        let n = self.mappings.len();
        let mut found: Option<usize> = None;
        let mut i: usize = 0;
        while i < n && found.is_none()
            invariant
                n == self.mappings@.len(),
                0 <= i <= n,
                found.is_none() ==> first_containing(self.mappings@.take(i as int), query).is_none(),
                found.is_some() ==> found.unwrap() < n && first_containing(self.mappings@, query)
                    == Some(found.unwrap() as int),
            decreases n - i,
        {
            proof {
                lemma_take_step(self.mappings@, i as int);
                lemma_first_containing_prefix(self.mappings@, query, i as int);
            }
            if self.mappings[i].generated.contains(query) {
                found = Some(i);
                proof {
                    lemma_first_containing_prefix(self.mappings@, query, i + 1);
                }
            }
            i = i + 1;
        }
        assert(self.mappings@.take(n as int) =~= self.mappings@);
        let idx = match found {
            None => return NarrowOutcome::NotApplicable,
            Some(idx) => idx,
        };
        let mapping = &self.mappings[idx];
        if mapping.sources.len() != 1 {
            return NarrowOutcome::NotApplicable;
        }
        let source = mapping.sources[0];
        if span_len(mapping.generated) != span_len(source.span) {
            return NarrowOutcome::LengthMismatch;
        }
        let start = scale_offset(query.start, mapping.generated, source.span);
        let end = if query.start == query.end {
            start
        } else {
            let e = scale_offset(query.end, mapping.generated, source.span);
            if e >= start {
                e
            } else {
                start
            }
        };
        NarrowOutcome::Exact { source: source.source, span: Span { start, end } }
    }
}

/// Every key of `ss` is the key of some kept span of its dedup, and every
/// kept span is an element of `ss`.
proof fn lemma_dedup_covers(ss: Seq<SourceSpan>, uris: Seq<Uri>)
    ensures
        forall|j: int|
            0 <= j < ss.len() ==> exists|w: int|
                0 <= w < dedup_by_key(ss, uris).len() && source_key(
                    uris,
                    #[trigger] dedup_by_key(ss, uris)[w],
                ) == source_key(uris, #[trigger] ss[j]),
        forall|u: int|
            0 <= u < dedup_by_key(ss, uris).len() ==> exists|w: int|
                0 <= w < ss.len() && #[trigger] ss[w] == #[trigger] dedup_by_key(ss, uris)[u],
    decreases ss.len(),
{
    if ss.len() > 0 {
        let prev = ss.drop_last();
        lemma_dedup_covers(prev, uris);
        let d = dedup_by_key(ss, uris);
        let dp = dedup_by_key(prev, uris);
        assert forall|j: int| 0 <= j < ss.len() implies exists|w: int|
            0 <= w < d.len() && source_key(uris, #[trigger] d[w]) == source_key(
                uris,
                #[trigger] ss[j],
            ) by {
            if j < ss.len() - 1 {
                assert(ss[j] == prev[j]);
                let w = choose|w: int|
                    0 <= w < dp.len() && source_key(uris, #[trigger] dp[w]) == source_key(
                        uris,
                        prev[j],
                    );
                assert(d[w] == dp[w]);
            } else {
                if exists|t: int|
                    0 <= t < ss.len() - 1 && source_key(uris, #[trigger] ss[t]) == source_key(
                        uris,
                        ss.last(),
                    ) {
                    let t = choose|t: int|
                        0 <= t < ss.len() - 1 && source_key(uris, #[trigger] ss[t]) == source_key(
                            uris,
                            ss.last(),
                        );
                    assert(ss[t] == prev[t]);
                    let w = choose|w: int|
                        0 <= w < dp.len() && source_key(uris, #[trigger] dp[w]) == source_key(
                            uris,
                            prev[t],
                        );
                    assert(d[w] == dp[w]);
                } else {
                    assert(d[d.len() - 1] == ss.last());
                }
            }
        }
        assert forall|u: int| 0 <= u < d.len() implies exists|w: int|
            0 <= w < ss.len() && #[trigger] ss[w] == #[trigger] d[u] by {
            if u < dp.len() {
                assert(d[u] == dp[u]);
                let w = choose|w: int| 0 <= w < prev.len() && #[trigger] prev[w] == #[trigger] dp[u];
                assert(ss[w] == prev[w]);
            } else {
                assert(d[u] == ss[ss.len() - 1]);
            }
        }
    }
}

/// The first containing mapping of a prefix, once found, is the first
/// containing mapping of the whole sequence.
proof fn lemma_first_containing_prefix(ms: Seq<Mapping>, q: Span, i: int)
    requires
        0 <= i <= ms.len(),
    ensures
        first_containing(ms.take(i), q) matches Some(k) ==> first_containing(ms, q) == Some(k),
        i < ms.len() ==> (first_containing(ms.take(i), q).is_none() ==> (first_containing(
            ms.take(i + 1),
            q,
        ) == if ms[i].generated.contains_spec(q) {
            Some(i)
        } else {
            None::<int>
        })),
        first_containing(ms.take(i), q) matches Some(k) ==> 0 <= k < i,
    decreases ms.len() - i,
{
    if i < ms.len() {
        lemma_take_step(ms, i);
        lemma_first_containing_prefix(ms, q, i + 1);
    } else {
        assert(ms.take(i) =~= ms);
    }
    lemma_first_containing_bounds(ms.take(i), q);
}

proof fn lemma_first_containing_bounds(ms: Seq<Mapping>, q: Span)
    ensures
        first_containing(ms, q) matches Some(k) ==> 0 <= k < ms.len(),
    decreases ms.len(),
{
    if ms.len() > 0 {
        lemma_first_containing_bounds(ms.drop_last(), q);
    }
}


/// Every span of every mapping is ordered: no start after its end.
pub open spec fn all_ordered(ms: Seq<Mapping>) -> bool {
    forall|i: int|
        #![trigger ms[i]]
        0 <= i < ms.len() ==> ms[i].generated.is_ordered() && forall|j: int|
            0 <= j < ms[i].sources@.len() ==> (#[trigger] ms[i].sources@[j]).span.is_ordered()
}

proof fn lemma_first_containing_in_range(ms: Seq<Mapping>, q: Span)
    ensures
        first_containing(ms, q) matches Some(i) ==> 0 <= i < ms.len(),
    decreases ms.len(),
{
    if ms.len() > 0 {
        lemma_first_containing_in_range(ms.drop_last(), q);
    }
}

/// A map whose spans are all ordered narrows any query safely.
pub proof fn lemma_ordered_narrow_ok(ms: Seq<Mapping>, q: Span)
    requires
        all_ordered(ms),
    ensures
        narrow_ok(ms, q),
{
    lemma_first_containing_in_range(ms, q);
    if let Some(i) = first_containing(ms, q) {
        assert(ms[i].generated.is_ordered());
        if ms[i].sources@.len() == 1 {
            assert(ms[i].sources@[0].span.is_ordered());
        }
    }
}

impl SourceMap {
    /// Whether every span of every mapping is ordered, as the builder and
    /// [`crate::json`] make them; the reverse-mapping functions need it.
    pub fn spans_ordered(&self) -> (r: bool)
        ensures
            r == all_ordered(self.mappings@),
    {
        for i in 0..self.mappings.len()
            invariant
                forall|k: int|
                    #![trigger self.mappings@[k]]
                    0 <= k < i ==> self.mappings@[k].generated.is_ordered() && forall|j: int|
                        0 <= j < self.mappings@[k].sources@.len() ==> (#[trigger] self.mappings@[k].sources@[j]).span.is_ordered(),
        {
            let m = &self.mappings[i];
            if m.generated.start > m.generated.end {
                return false;
            }
            for j in 0..m.sources.len()
                invariant
                    i < self.mappings@.len(),
                    *m == self.mappings@[i as int],
                    forall|l: int| 0 <= l < j ==> (#[trigger] m.sources@[l]).span.is_ordered(),
                    forall|k: int|
                        #![trigger self.mappings@[k]]
                        0 <= k < i ==> self.mappings@[k].generated.is_ordered() && forall|l: int|
                            0 <= l < self.mappings@[k].sources@.len() ==> (#[trigger] self.mappings@[k].sources@[l]).span.is_ordered(),
            {
                if m.sources[j].span.start > m.sources[j].span.end {
                    assert(!self.mappings@[i as int].sources@[j as int].span.is_ordered());
                    return false;
                }
            }
        }
        true
    }
}

/// Between two spans of the same length, scaling is exact: an offset
/// moves by its distance from the start, and scaling back returns it.
pub proof fn lemma_scale_offset_exact(offset: u32, from: Span, to: Span)
    requires
        from.is_ordered(),
        to.is_ordered(),
        from.end - from.start == to.end - to.start,
        from.start <= offset <= from.end,
    ensures
        scale_offset_spec(offset, from, to) == to.start + (offset - from.start),
        scale_offset_spec(scale_offset_spec(offset, from, to), to, from) == offset,
{
    let len: int = from.end - from.start;
    let delta: int = offset - from.start;
    if len > 0 {
        assert((delta * len) / len == delta) by (nonlinear_arith)
            requires
                len > 0,
                0 <= delta,
        ;
    } else {
        assert(offset == from.start);
    }
}


/// A mapping's contents as values: generated span, source spans, kind
/// and label.
pub open spec fn mapping_contents(m: Mapping) -> (Span, Seq<SourceSpan>, MappingKind, Option<Seq<char>>) {
    (
        m.generated,
        m.sources@,
        m.kind,
        match m.label {
            Some(l) => Some(l@),
            None => None,
        },
    )
}

/// A source map's contents as values: its generated URI, its source URIs
/// and its mappings.
pub open spec fn map_contents(m: SourceMap) -> (
    Seq<char>,
    Seq<Seq<char>>,
    Seq<(Span, Seq<SourceSpan>, MappingKind, Option<Seq<char>>)>,
) {
    (
        m.generated@,
        m.sources@.map_values(|u: Uri| u@),
        m.mappings@.map_values(|x: Mapping| mapping_contents(x)),
    )
}

fn same_source_spans(a: &Vec<SourceSpan>, b: &Vec<SourceSpan>) -> (r: bool)
    ensures
        r == (a@ == b@),
{
    if a.len() != b.len() {
        return false;
    }
    for i in 0..a.len()
        invariant
            a@.len() == b@.len(),
            forall|k: int| 0 <= k < i ==> a@[k] == b@[k],
    {
        if a[i] != b[i] {
            return false;
        }
    }
    assert(a@ =~= b@);
    true
}

fn same_mapping(a: &Mapping, b: &Mapping) -> (r: bool)
    ensures
        r == (mapping_contents(*a) == mapping_contents(*b)),
{
    let labels = match (&a.label, &b.label) {
        (Some(x), Some(y)) => crate::text::same_text(x.as_str(), y.as_str()),
        (None, None) => true,
        _ => false,
    };
    a.generated == b.generated && a.kind == b.kind && labels && same_source_spans(&a.sources, &b.sources)
}

fn same_uris(a: &Vec<Uri>, b: &Vec<Uri>) -> (r: bool)
    ensures
        r == (a@.map_values(|u: Uri| u@) == b@.map_values(|u: Uri| u@)),
{
    let ghost va = a@.map_values(|u: Uri| u@);
    let ghost vb = b@.map_values(|u: Uri| u@);
    if a.len() != b.len() {
        assert(va.len() != vb.len());
        return false;
    }
    for i in 0..a.len()
        invariant
            a@.len() == b@.len(),
            va == a@.map_values(|u: Uri| u@),
            vb == b@.map_values(|u: Uri| u@),
            forall|k: int| 0 <= k < i ==> va[k] == vb[k],
    {
        if !a[i].same(&b[i]) {
            assert(va[i as int] != vb[i as int]);
            return false;
        }
    }
    assert(va =~= vb);
    true
}

fn same_mappings(a: &Vec<Mapping>, b: &Vec<Mapping>) -> (r: bool)
    ensures
        r == (a@.map_values(|x: Mapping| mapping_contents(x)) == b@.map_values(|x: Mapping| mapping_contents(x))),
{
    let ghost va = a@.map_values(|x: Mapping| mapping_contents(x));
    let ghost vb = b@.map_values(|x: Mapping| mapping_contents(x));
    if a.len() != b.len() {
        assert(va.len() != vb.len());
        return false;
    }
    for i in 0..a.len()
        invariant
            a@.len() == b@.len(),
            va == a@.map_values(|x: Mapping| mapping_contents(x)),
            vb == b@.map_values(|x: Mapping| mapping_contents(x)),
            forall|k: int| 0 <= k < i ==> va[k] == vb[k],
    {
        if !same_mapping(&a[i], &b[i]) {
            assert(va[i as int] != vb[i as int]);
            return false;
        }
    }
    assert(va =~= vb);
    true
}

impl Mapping {
    /// A copy of this mapping, with the same contents.
    pub fn duplicate(&self) -> (r: Mapping)
        ensures
            mapping_contents(r) == mapping_contents(*self),
    {
        let mut sources: Vec<SourceSpan> = Vec::new();
        for i in 0..self.sources.len()
            invariant
                sources@ == self.sources@.take(i as int),
        {
            sources.push(self.sources[i]);
            assert(self.sources@.take(i + 1) =~= self.sources@.take(i as int).push(self.sources@[i as int]));
        }
        assert(self.sources@.take(self.sources@.len() as int) =~= self.sources@);
        let label = match &self.label {
            Some(l) => Some(l.clone()),
            None => None,
        };
        Mapping { generated: self.generated, sources, kind: self.kind, label }
    }
}

impl SourceMap {
    /// A copy of this map, with the same contents.
    pub fn duplicate(&self) -> (r: SourceMap)
        ensures
            map_contents(r) == map_contents(*self),
    {
        let mut sources: Vec<Uri> = Vec::new();
        for i in 0..self.sources.len()
            invariant
                sources.len() == i,
                forall|k: int| 0 <= k < i ==> (#[trigger] sources@[k])@ == self.sources@[k]@,
        {
            sources.push(self.sources[i].duplicate());
        }
        assert(sources@.map_values(|u: Uri| u@) =~= self.sources@.map_values(|u: Uri| u@));
        let mut mappings: Vec<Mapping> = Vec::new();
        for i in 0..self.mappings.len()
            invariant
                mappings.len() == i,
                forall|k: int| 0 <= k < i ==> mapping_contents(#[trigger] mappings@[k]) == mapping_contents(
                    self.mappings@[k],
                ),
        {
            mappings.push(self.mappings[i].duplicate());
        }
        assert(mappings@.map_values(|x: Mapping| mapping_contents(x)) =~= self.mappings@.map_values(
            |x: Mapping| mapping_contents(x),
        ));
        SourceMap { generated: self.generated.duplicate(), sources, mappings }
    }

    /// Whether the two maps hold the same contents: generated URI, source
    /// URIs and mappings, labels included.
    pub fn same_contents(&self, other: &SourceMap) -> (r: bool)
        ensures
            r == (map_contents(*self) == map_contents(*other)),
    {
        self.generated.same(&other.generated) && same_uris(&self.sources, &other.sources) && same_mappings(
            &self.mappings,
            &other.mappings,
        )
    }
}

} // verus!
