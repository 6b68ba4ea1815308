//! Position translation between a `.rsx` file and its generated unit, as
//! decisions over one source map: which mapping a `.rsx` offset goes
//! through, which `.rsx` spans a generated range comes from, and the
//! nearest mapped source for a range that has none.
use vstd::prelude::*;

use crate::source_map::{
    all_ordered, lemma_ordered_narrow_ok, lemma_scale_offset_exact, dedup_by_key, first_containing, flatten_sources, narrow_ok, narrow_spec, range_matches, scale_offset,
    scale_offset_spec, span_len, Mapping, NarrowOutcome, SourceMap,
};
use crate::line_index::{
    offset_to_position_spec, position_to_offset_spec, LineIndex, Position, PositionRange,
};
use crate::registry::Registry;
use crate::span::{SourceId, SourceSpan, Span, Uri};

verus! {

/// `a - b`, or zero when `b` is larger.
pub open spec fn sat_sub(a: u32, b: u32) -> u32 {
    if a >= b {
        (a - b) as u32
    } else {
        0
    }
}

/// Byte distance between two spans: zero when they overlap or touch,
/// otherwise the gap between the closer pair of endpoints.
pub open spec fn distance_spec(a: Span, b: Span) -> u32 {
    if a.end <= b.start {
        sat_sub(b.start, a.end)
    } else {
        sat_sub(a.start, b.end)
    }
}

/// Byte distance between two spans.
pub fn generated_distance(a: Span, b: Span) -> (r: u32)
    ensures
        r == distance_spec(a, b),
{
    if a.end <= b.start {
        b.start.saturating_sub(a.end)
    } else {
        a.start.saturating_sub(b.end)
    }
}

/// The first span among `srcs` from file `id` that contains `q`.
pub open spec fn first_fed(srcs: Seq<SourceSpan>, id: SourceId, q: Span) -> Option<Span>
    decreases srcs.len(),
{
    if srcs.len() == 0 {
        None
    } else if srcs[0].source == id && srcs[0].span.contains_spec(q) {
        Some(srcs[0].span)
    } else {
        first_fed(srcs.drop_first(), id, q)
    }
}

/// The smallest source span from file `id` that contains `q`, paired with
/// its mapping's generated span: each mapping offers its first such
/// source, and among those the first of least length wins.
pub open spec fn smallest_containing(ms: Seq<Mapping>, id: SourceId, q: Span) -> Option<(Span, Span)>
    decreases ms.len(),
{
    if ms.len() == 0 {
        None
    } else {
        let best = smallest_containing(ms.drop_last(), id, q);
        match first_fed(ms.last().sources@, id, q) {
            None => best,
            Some(s) => match best {
                None => Some((s, ms.last().generated)),
                Some(b) => if s.len_spec() < b.0.len_spec() {
                    Some((s, ms.last().generated))
                } else {
                    Some(b)
                },
            },
        }
    }
}

/// Where a `.rsx` offset of the map's first source lands in the generated
/// file: through the smallest mapping source containing it, scaled into
/// that mapping's generated span; nothing when no source contains it or
/// the two spans differ in length.
pub open spec fn rsx_offset_to_generated_spec(ms: Seq<Mapping>, offset: u32) -> Option<u32> {
    let q = Span { start: offset, end: offset };
    match smallest_containing(ms, SourceId(0), q) {
        None => None,
        Some((s, g)) => if s.len_spec() != g.len_spec() {
            None
        } else {
            Some(scale_offset_spec(offset, s, g))
        },
    }
}

fn first_fed_in(srcs: &Vec<SourceSpan>, id: SourceId, q: Span) -> (r: Option<Span>)
    ensures
        r == first_fed(srcs@, id, q),
        r.is_some() ==> r.unwrap().contains_spec(q),
{
    let n = srcs.len();
    let mut i: usize = 0;
    assert(srcs@.subrange(0, n as int) =~= srcs@);
    while i < n
        invariant
            n == srcs@.len(),
            0 <= i <= n,
            first_fed(srcs@, id, q) == first_fed(srcs@.subrange(i as int, n as int), id, q),
        decreases n - i,
    {
        let s = srcs[i];
        assert(srcs@.subrange(i as int, n as int)[0] == s);
        if s.source == id && s.span.contains(q) {
            return Some(s.span);
        }
        assert(srcs@.subrange(i as int, n as int).drop_first() =~= srcs@.subrange(i + 1, n as int));
        i = i + 1;
    }
    None
}

proof fn lemma_first_fed_contains(srcs: Seq<SourceSpan>, id: SourceId, q: Span)
    ensures
        first_fed(srcs, id, q).is_some() ==> first_fed(srcs, id, q).unwrap().contains_spec(q),
    decreases srcs.len(),
{
    if srcs.len() > 0 {
        lemma_first_fed_contains(srcs.drop_first(), id, q);
    }
}

/// The smallest containing source span and its generated span.
fn smallest_containing_in(map: &SourceMap, id: SourceId, q: Span) -> (r: Option<(Span, Span)>)
    requires
        q.is_ordered(),
    ensures
        r == smallest_containing(map.mappings@, id, q),
        r.is_some() ==> r.unwrap().0.contains_spec(q),
{
    let n = map.mappings.len();
    let mut best: Option<(Span, Span)> = None;
    for i in 0..n
        invariant
            n == map.mappings@.len(),
            q.is_ordered(),
            best == smallest_containing(map.mappings@.take(i as int), id, q),
            best.is_some() ==> best.unwrap().0.contains_spec(q),
    {
        let m = &map.mappings[i];
        assert(map.mappings@.take(i + 1).drop_last() =~= map.mappings@.take(i as int));
        assert(map.mappings@.take(i + 1).last() == *m);
        match first_fed_in(&m.sources, id, q) {
            None => {},
            Some(s) => {
                match best {
                    None => {
                        best = Some((s, m.generated));
                    },
                    Some(b) => {
                        if s.end - s.start < b.0.end - b.0.start {
                            best = Some((s, m.generated));
                        }
                    },
                }
            },
        }
    }
    assert(map.mappings@.take(n as int) =~= map.mappings@);
    best
}

/// Maps an offset in the map's first `.rsx` source to the generated file,
/// through the smallest mapping source span that contains it. Only a
/// mapping whose source and generated spans have the same length
/// translates; any other answers nothing rather than a wrong guess.
pub fn rsx_offset_to_generated(map: &SourceMap, offset: u32) -> (r: Option<u32>)
    requires
        match smallest_containing(map.mappings@, SourceId(0), Span { start: offset, end: offset }) {
            Some((s, g)) => g.is_ordered(),
            None => true,
        },
    ensures
        r == rsx_offset_to_generated_spec(map.mappings@, offset),
{
    let q = Span { start: offset, end: offset };
    match smallest_containing_in(map, SourceId(0), q) {
        None => None,
        Some((s, g)) => {
            if span_len(s) != span_len(g) {
                None
            } else {
                Some(scale_offset(offset, s, g))
            }
        },
    }
}

/// The `k`-th of `srcs` is the first from file `id` whose span contains `q`.
pub open spec fn first_source_at(srcs: Seq<SourceSpan>, id: SourceId, q: Span, k: int) -> bool {
    &&& 0 <= k < srcs.len()
    &&& srcs[k].source == id
    &&& srcs[k].span.contains_spec(q)
    &&& forall|j: int| 0 <= j < k ==> !((#[trigger] srcs[j]).source == id && srcs[j].span.contains_spec(q))
}

proof fn lemma_first_fed_finds_first(srcs: Seq<SourceSpan>, id: SourceId, q: Span) -> (k: int)
    ensures
        first_fed(srcs, id, q) matches Some(s) ==> first_source_at(srcs, id, q, k) && srcs[k].span == s,
        first_fed(srcs, id, q) is None ==> forall|j: int| !#[trigger] first_source_at(srcs, id, q, j),
    decreases srcs.len(),
{
    if srcs.len() == 0 {
        0
    } else if srcs[0].source == id && srcs[0].span.contains_spec(q) {
        assert forall|j: int| #[trigger] first_source_at(srcs, id, q, j) implies j == 0 by {
            if j > 0 {
                assert(!(srcs[0].source == id && srcs[0].span.contains_spec(q)));
            }
        }
        0
    } else {
        let rest = srcs.drop_first();
        let k = lemma_first_fed_finds_first(rest, id, q);
        if first_fed(rest, id, q) is Some {
            assert forall|j: int| 0 <= j < k + 1 implies !((#[trigger] srcs[j]).source == id
                && srcs[j].span.contains_spec(q)) by {
                if j > 0 {
                    assert(srcs[j] == rest[j - 1]);
                }
            }
        } else {
            assert forall|j: int| !#[trigger] first_source_at(srcs, id, q, j) by {
                if first_source_at(srcs, id, q, j) {
                    assert(j > 0);
                    assert(srcs[j] == rest[j - 1]);
                    assert forall|i: int| 0 <= i < j - 1 implies !((#[trigger] rest[i]).source == id
                        && rest[i].span.contains_spec(q)) by {
                        assert(rest[i] == srcs[i + 1]);
                    }
                    assert(first_source_at(rest, id, q, j - 1));
                }
            }
        }
        k + 1
    }
}

/// Only one source can be the first that contains `q`.
proof fn lemma_first_source_unique(srcs: Seq<SourceSpan>, id: SourceId, q: Span, a: int, b: int)
    requires
        first_source_at(srcs, id, q, a),
        first_source_at(srcs, id, q, b),
    ensures
        a == b,
{
    if a < b {
        assert(!(srcs[a].source == id && srcs[a].span.contains_spec(q)));
    } else if b < a {
        assert(!(srcs[b].source == id && srcs[b].span.contains_spec(q)));
    }
}

/// The span a `.rsx` query is mapped through is the shortest available:
/// each mapping offers the first of its sources from file `id` that
/// contains `q`, and the answer is the `k`-th source of mapping `i` (with
/// that mapping's generated span), which no offered span is shorter than,
/// and every mapping before `i` offers a strictly longer one. With no
/// mapping offering a span, there is no answer.
pub proof fn lemma_smallest_containing_is_shortest(ms: Seq<Mapping>, id: SourceId, q: Span) -> (w: (int, int))
    ensures
        smallest_containing(ms, id, q) is None ==> forall|j: int, l: int|
            0 <= j < ms.len() ==> !#[trigger] first_source_at(ms[j].sources@, id, q, l),
        smallest_containing(ms, id, q) matches Some((s, g)) ==> {
            &&& 0 <= w.0 < ms.len()
            &&& first_source_at(ms[w.0].sources@, id, q, w.1)
            &&& ms[w.0].sources@[w.1].span == s
            &&& ms[w.0].generated == g
            &&& forall|j: int, l: int|
                0 <= j < ms.len() && #[trigger] first_source_at(ms[j].sources@, id, q, l) ==> s.len_spec()
                    <= ms[j].sources@[l].span.len_spec()
            &&& forall|j: int, l: int|
                0 <= j < w.0 && #[trigger] first_source_at(ms[j].sources@, id, q, l) ==> s.len_spec()
                    < ms[j].sources@[l].span.len_spec()
        },
    decreases ms.len(),
{
    if ms.len() == 0 {
        return (0, 0);
    }
    let n = ms.len() - 1;
    let init = ms.drop_last();
    let w0 = lemma_smallest_containing_is_shortest(init, id, q);
    assert forall|j: int, l: int| 0 <= j < n implies #[trigger] first_source_at(ms[j].sources@, id, q, l)
        == first_source_at(init[j].sources@, id, q, l) by {
        assert(ms[j] == init[j]);
    }
    let last = ms[n];
    assert(ms.last() == last);
    let kl = lemma_first_fed_finds_first(last.sources@, id, q);
    assert forall|l: int| #[trigger] first_source_at(ms[n].sources@, id, q, l) implies first_fed(
        last.sources@,
        id,
        q,
    ) is Some && l == kl by {
        if first_fed(last.sources@, id, q) is Some {
            lemma_first_source_unique(last.sources@, id, q, l, kl);
        }
    }
    match first_fed(last.sources@, id, q) {
        None => {
            if let Some((s, g)) = smallest_containing(init, id, q) {
                assert(ms[w0.0] == init[w0.0]);
            }
            w0
        },
        Some(sl) => match smallest_containing(init, id, q) {
            None => (n, kl),
            Some(b) => {
                assert(ms[w0.0] == init[w0.0]);
                if sl.len_spec() < b.0.len_spec() {
                    (n, kl)
                } else {
                    w0
                }
            },
        },
    }
}

/// Where [`rsx_offset_to_generated`] answers, it answers through the
/// shortest source span of the map's first file that contains the offset
/// (among those the mappings offer, the earliest mapping on a tie), whose
/// generated span has the same length, at the same distance from the
/// generated span's start as the offset from the source span's start.
pub proof fn lemma_rsx_offset_goes_through_shortest_source(ms: Seq<Mapping>, offset: u32) -> (w: (int, int))
    ensures
        rsx_offset_to_generated_spec(ms, offset) matches Some(r) ==> {
            let q = Span { start: offset, end: offset };
            let s = ms[w.0].sources@[w.1].span;
            let g = ms[w.0].generated;
            &&& 0 <= w.0 < ms.len()
            &&& first_source_at(ms[w.0].sources@, SourceId(0), q, w.1)
            &&& s.len_spec() == g.len_spec()
            &&& r == g.start + (offset - s.start)
            &&& forall|j: int, l: int|
                0 <= j < ms.len() && #[trigger] first_source_at(ms[j].sources@, SourceId(0), q, l)
                    ==> s.len_spec() <= ms[j].sources@[l].span.len_spec()
            &&& forall|j: int, l: int|
                0 <= j < w.0 && #[trigger] first_source_at(ms[j].sources@, SourceId(0), q, l)
                    ==> s.len_spec() < ms[j].sources@[l].span.len_spec()
        },
{
    let q = Span { start: offset, end: offset };
    let w = lemma_smallest_containing_is_shortest(ms, SourceId(0), q);
    if let Some((s, g)) = smallest_containing(ms, SourceId(0), q) {
        if s.len_spec() == g.len_spec() {
            lemma_scale_offset_exact(offset, s, g);
        }
    }
    w
}

/// The first mapping with at least one source whose generated span is
/// nearest to `q`.
pub open spec fn nearest_mapping(ms: Seq<Mapping>, q: Span) -> Option<Mapping>
    decreases ms.len(),
{
    if ms.len() == 0 {
        None
    } else {
        let best = nearest_mapping(ms.drop_last(), q);
        let m = ms.last();
        if m.sources@.len() == 0 {
            best
        } else {
            match best {
                None => Some(m),
                Some(b) => if distance_spec(m.generated, q) < distance_spec(b.generated, q) {
                    Some(m)
                } else {
                    Some(b)
                },
            }
        }
    }
}

/// The first source span of the mapped span nearest to a generated query
/// that has no direct source; nothing when no mapping has a source.
pub fn nearest_source_span(map: &SourceMap, query: Span) -> (r: Option<Span>)
    ensures
        r == (match nearest_mapping(map.mappings@, query) {
            Some(m) => Some(m.sources@[0].span),
            None => None,
        }),
{
    let n = map.mappings.len();
    let mut best: Option<usize> = None;
    for i in 0..n
        invariant
            n == map.mappings@.len(),
            match best {
                Some(b) => b < i && nearest_mapping(map.mappings@.take(i as int), query) == Some(
                    map.mappings@[b as int],
                ),
                None => nearest_mapping(map.mappings@.take(i as int), query).is_none(),
            },
    {
        let m = &map.mappings[i];
        assert(map.mappings@.take(i + 1).drop_last() =~= map.mappings@.take(i as int));
        assert(map.mappings@.take(i + 1).last() == *m);
        if m.sources.len() > 0 {
            match best {
                None => {
                    best = Some(i);
                },
                Some(b) => {
                    if generated_distance(m.generated, query) < generated_distance(
                        map.mappings[b].generated,
                        query,
                    ) {
                        best = Some(i);
                    }
                },
            }
        }
    }
    assert(map.mappings@.take(n as int) =~= map.mappings@);
    match best {
        None => None,
        Some(b) => {
            proof {
                lemma_nearest_has_sources(map.mappings@, query);
            }
            Some(map.mappings[b].sources[0].span)
        },
    }
}

proof fn lemma_nearest_has_sources(ms: Seq<Mapping>, q: Span)
    ensures
        nearest_mapping(ms, q).is_some() ==> nearest_mapping(ms, q).unwrap().sources@.len() > 0,
    decreases ms.len(),
{
    if ms.len() > 0 {
        lemma_nearest_has_sources(ms.drop_last(), q);
    }
}

/// Index of the first mapping whose generated span is exactly `q`.
pub open spec fn first_exact(ms: Seq<Mapping>, q: Span) -> Option<int>
    decreases ms.len(),
{
    if ms.len() == 0 {
        None
    } else {
        match first_exact(ms.drop_last(), q) {
            Some(i) => Some(i),
            None => if ms.last().generated == q {
                Some(ms.len() - 1)
            } else {
                None
            },
        }
    }
}

/// Every source span a generated query stands for, by the narrowing rule:
/// the exact sub-range when narrowing succeeds; nothing on a length
/// mismatch; otherwise all sources of the first mapping whose generated
/// span is exactly the query, or nothing.
pub open spec fn all_sources_spec(ms: Seq<Mapping>, q: Span) -> Seq<SourceSpan> {
    match narrow_spec(ms, q) {
        NarrowOutcome::Exact { source, span } => seq![SourceSpan { source, span }],
        NarrowOutcome::LengthMismatch => seq![],
        NarrowOutcome::NotApplicable => match first_exact(ms, q) {
            Some(i) => ms[i].sources@,
            None => seq![],
        },
    }
}

proof fn lemma_first_exact_bounds(ms: Seq<Mapping>, q: Span)
    ensures
        first_exact(ms, q).is_some() ==> 0 <= first_exact(ms, q).unwrap() < ms.len()
            && ms[first_exact(ms, q).unwrap()].generated == q,
    decreases ms.len(),
{
    if ms.len() > 0 {
        lemma_first_exact_bounds(ms.drop_last(), q);
    }
}

/// The source spans a generated query stands for, used by rename and
/// references: never a containing mapping's whole span for a mere
/// sub-range of it.
pub fn all_sources_for(map: &SourceMap, query: Span) -> (r: Vec<SourceSpan>)
    requires
        narrow_ok(map.mappings@, query),
    ensures
        r@ == all_sources_spec(map.mappings@, query),
{
    match map.narrow(query) {
        NarrowOutcome::Exact { source, span } => {
            let mut out: Vec<SourceSpan> = Vec::new();
            out.push(SourceSpan::new(source, span));
            assert(out@ =~= seq![SourceSpan { source, span }]);
            out
        },
        NarrowOutcome::LengthMismatch => Vec::new(),
        NarrowOutcome::NotApplicable => {
            let n = map.mappings.len();
            let mut i: usize = 0;
            while i < n
                invariant
                    n == map.mappings@.len(),
                    0 <= i <= n,
                    narrow_spec(map.mappings@, query) == NarrowOutcome::NotApplicable,
                    first_exact(map.mappings@.take(i as int), query).is_none(),
                decreases n - i,
            {
                assert(map.mappings@.take(i + 1).drop_last() =~= map.mappings@.take(i as int));
                if map.mappings[i].generated == query {
                    assert(map.mappings@.take(i + 1).last() == map.mappings@[i as int]);
                    assert(first_exact(map.mappings@.take(i + 1), query) == Some(i as int));
                    proof {
                        lemma_first_exact_prefix(map.mappings@, query, i + 1);
                    }
                    let srcs = &map.mappings[i].sources;
                    let mut out: Vec<SourceSpan> = Vec::new();
                    for k in 0..srcs.len()
                        invariant
                            out@ == srcs@.take(k as int),
                    {
                        out.push(srcs[k]);
                        assert(srcs@.take(k + 1) =~= srcs@.take(k as int).push(srcs@[k as int]));
                    }
                    assert(srcs@.take(srcs@.len() as int) =~= srcs@);
                    return out;
                }
                i = i + 1;
            }
            assert(map.mappings@.take(n as int) =~= map.mappings@);
            Vec::new()
        },
    }
}

proof fn lemma_first_exact_prefix(ms: Seq<Mapping>, q: Span, k: int)
    requires
        0 <= k <= ms.len(),
        first_exact(ms.take(k), q).is_some(),
    ensures
        first_exact(ms, q) == first_exact(ms.take(k), q),
    decreases ms.len() - k,
{
    if k < ms.len() {
        assert(ms.take(k + 1).drop_last() =~= ms.take(k));
        lemma_first_exact_prefix(ms, q, k + 1);
    } else {
        assert(ms.take(k) =~= ms);
    }
}

/// Where a `.rsx` position lands in the generated unit: through the
/// byte offset in the `.rsx` text, the map, and back to a position in the
/// generated text.
pub open spec fn rsx_position_to_generated_spec(
    rsx_text: Seq<u8>,
    generated_text: Seq<u8>,
    ms: Seq<Mapping>,
    position: Position,
) -> Option<Position> {
    match rsx_offset_to_generated_spec(ms, position_to_offset_spec(rsx_text, position)) {
        Some(g) => Some(offset_to_position_spec(generated_text, g)),
        None => None,
    }
}

/// Maps a `.rsx` position to the corresponding position in its generated
/// unit, translating the offset proportionally within the most specific
/// mapping that contains it; nothing when no mapping does or the mapping
/// is not a same-length copy.
pub fn rsx_position_to_generated(
    rsx_index: &LineIndex,
    generated_index: &LineIndex,
    map: &SourceMap,
    position: Position,
) -> (r: Option<Position>)
    requires
        ({
            let offset = position_to_offset_spec(rsx_index.bytes(), position);
            match smallest_containing(
                map.mappings@,
                SourceId(0),
                Span { start: offset, end: offset },
            ) {
                Some((s, g)) => g.is_ordered(),
                None => true,
            }
        }),
    ensures
        r == rsx_position_to_generated_spec(
            rsx_index.bytes(),
            generated_index.bytes(),
            map.mappings@,
            position,
        ),
{
    let offset = rsx_index.position_to_offset(position);
    match rsx_offset_to_generated(map, offset) {
        Some(g) => Some(generated_index.offset_to_position(g)),
        None => None,
    }
}

/// The fallback for a generated range with no source: the range of the
/// first source span of the nearest mapping that has one, or the very
/// start of the `.rsx` file.
pub open spec fn nearest_source_position_spec(
    generated_text: Seq<u8>,
    rsx_text: Seq<u8>,
    ms: Seq<Mapping>,
    query: PositionRange,
) -> PositionRange {
    let q = Span {
        start: position_to_offset_spec(generated_text, query.start),
        end: position_to_offset_spec(generated_text, query.end),
    };
    match nearest_mapping(ms, q) {
        Some(m) => PositionRange {
            start: offset_to_position_spec(rsx_text, m.sources@[0].span.start),
            end: offset_to_position_spec(rsx_text, m.sources@[0].span.end),
        },
        None => PositionRange {
            start: Position { line: 0, character: 0 },
            end: Position { line: 0, character: 0 },
        },
    }
}

/// Best-effort `.rsx` position for a generated diagnostic range with no
/// source of its own: the nearest mapped source span, or the file's very
/// first position when no mapping has a source.
pub fn nearest_source_position(
    generated_index: &LineIndex,
    rsx_index: &LineIndex,
    map: &SourceMap,
    query: PositionRange,
) -> (r: PositionRange)
    ensures
        r == nearest_source_position_spec(
            generated_index.bytes(),
            rsx_index.bytes(),
            map.mappings@,
            query,
        ),
{
    let query_span = generated_index.range_to_span(query);
    match nearest_source_span(map, query_span) {
        Some(span) => rsx_index.span_to_range(span),
        None => PositionRange::new(Position::new(0, 0), Position::new(0, 0)),
    }
}

/// The `.rsx` document for `uri` in `docs`: the first with that URI.
pub open spec fn doc_for(docs: Seq<(Uri, LineIndex)>, uri: Seq<char>) -> Option<LineIndex>
    decreases docs.len(),
{
    if docs.len() == 0 {
        None
    } else if docs[0].0@ == uri {
        Some(docs[0].1)
    } else {
        doc_for(docs.drop_first(), uri)
    }
}

/// Each source span as a URI and a range in that URI's document; a span
/// whose file is unknown, or whose document is not open, is skipped.
pub open spec fn located_sources(
    srcs: Seq<SourceSpan>,
    uris: Seq<Uri>,
    docs: Seq<(Uri, LineIndex)>,
) -> Seq<(Seq<char>, PositionRange)>
    decreases srcs.len(),
{
    if srcs.len() == 0 {
        seq![]
    } else {
        let rest = located_sources(srcs.drop_last(), uris, docs);
        let s = srcs.last();
        if s.source.0 < uris.len() {
            let uri = uris[s.source.0 as int]@;
            match doc_for(docs, uri) {
                Some(d) => rest.push(
                    (
                        uri,
                        PositionRange {
                            start: offset_to_position_spec(d.bytes(), s.span.start),
                            end: offset_to_position_spec(d.bytes(), s.span.end),
                        },
                    ),
                ),
                None => rest,
            }
        } else {
            rest
        }
    }
}

/// The URI and range of each entry, as values.
pub open spec fn location_views(v: Seq<(Uri, PositionRange)>) -> Seq<(Seq<char>, PositionRange)> {
    v.map_values(|e: (Uri, PositionRange)| (e.0@, e.1))
}

/// The document for `uri` in `docs`, by [`doc_for`].
pub(crate) fn find_doc<'a>(docs: &'a Vec<(Uri, LineIndex)>, uri: &Uri) -> (r: Option<&'a LineIndex>)
    ensures
        match r {
            Some(d) => doc_for(docs@, uri@) == Some(*d),
            None => doc_for(docs@, uri@).is_none(),
        },
{
    let n = docs.len();
    let mut i: usize = 0;
    assert(docs@.subrange(0, n as int) =~= docs@);
    while i < n
        invariant
            n == docs@.len(),
            0 <= i <= n,
            doc_for(docs@, uri@) == doc_for(docs@.subrange(i as int, n as int), uri@),
        decreases n - i,
    {
        assert(docs@.subrange(i as int, n as int)[0] == docs@[i as int]);
        if docs[i].0.same(uri) {
            return Some(&docs[i].1);
        }
        assert(docs@.subrange(i as int, n as int).drop_first() =~= docs@.subrange(i + 1, n as int));
        i = i + 1;
    }
    None
}

/// Every `.rsx` location a generated range stands for, by the narrowing
/// rule of [`all_sources_for`], each as its document's URI and range;
/// sources whose document is not open are skipped.
pub fn generated_range_to_all_sources(
    map: &SourceMap,
    generated_index: &LineIndex,
    docs: &Vec<(Uri, LineIndex)>,
    range: PositionRange,
) -> (r: Vec<(Uri, PositionRange)>)
    requires
        ({
            let q = Span {
                start: position_to_offset_spec(generated_index.bytes(), range.start),
                end: position_to_offset_spec(generated_index.bytes(), range.end),
            };
            narrow_ok(map.mappings@, q)
        }),
    ensures
        location_views(r@) == located_sources(
            all_sources_spec(
                map.mappings@,
                Span {
                    start: position_to_offset_spec(generated_index.bytes(), range.start),
                    end: position_to_offset_spec(generated_index.bytes(), range.end),
                },
            ),
            map.sources@,
            docs@,
        ),
{
    let query = generated_index.range_to_span(range);
    let sources = all_sources_for(map, query);
    let mut out: Vec<(Uri, PositionRange)> = Vec::new();
    for i in 0..sources.len()
        invariant
            location_views(out@) == located_sources(sources@.take(i as int), map.sources@, docs@),
    {
        let s = sources[i];
        assert(sources@.take(i + 1).drop_last() =~= sources@.take(i as int));
        assert(sources@.take(i + 1).last() == s);
        match map.source_uri(s.source) {
            Some(uri) => {
                match find_doc(docs, uri) {
                    Some(doc) => {
                        let ghost before = location_views(out@);
                        out.push((uri.duplicate(), doc.span_to_range(s.span)));
                        assert(location_views(out@) =~= before.push(
                            (
                                uri@,
                                PositionRange {
                                    start: offset_to_position_spec(doc.bytes(), s.span.start),
                                    end: offset_to_position_spec(doc.bytes(), s.span.end),
                                },
                            ),
                        ));
                    },
                    None => {},
                }
            },
            None => {},
        }
    }
    assert(sources@.take(sources@.len() as int) =~= sources@);
    out
}

/// Each source span paired with the URI of its file, in order; a span
/// whose file index names no file is dropped.
pub open spec fn resolve_uris(srcs: Seq<SourceSpan>, uris: Seq<Uri>) -> Seq<(Seq<char>, Span)>
    decreases srcs.len(),
{
    if srcs.len() == 0 {
        seq![]
    } else {
        let rest = resolve_uris(srcs.drop_last(), uris);
        let s = srcs.last();
        if s.source.0 < uris.len() {
            rest.push((uris[s.source.0 as int]@, s.span))
        } else {
            rest
        }
    }
}

/// The URI and span of each entry, as values.
pub open spec fn resolved_views(v: Seq<(Uri, Span)>) -> Seq<(Seq<char>, Span)> {
    v.map_values(|e: (Uri, Span)| (e.0@, e.1))
}

/// The coarse reverse mapping of a generated span: every source of the
/// mappings that [`SourceMap::map_range`] matches, deduplicated, each with
/// its file's URI.
pub open spec fn reverse_spec(map_mappings: Seq<Mapping>, uris: Seq<Uri>, q: Span) -> Seq<
    (Seq<char>, Span),
> {
    resolve_uris(dedup_by_key(flatten_sources(range_matches(map_mappings, q)), uris), uris)
}

/// Every source span [`SourceMap::map_range`] finds for `query`, each with
/// its file's URI.
pub fn resolved_sources(map: &SourceMap, query: Span) -> (r: Vec<(Uri, Span)>)
    ensures
        resolved_views(r@) == reverse_spec(map.mappings@, map.sources@, query),
{
    let mapped = map.map_range(query);
    let srcs = mapped.sources;
    let mut out: Vec<(Uri, Span)> = Vec::new();
    for i in 0..srcs.len()
        invariant
            resolved_views(out@) == resolve_uris(srcs@.take(i as int), map.sources@),
    {
        let s = srcs[i];
        assert(srcs@.take(i + 1).drop_last() =~= srcs@.take(i as int));
        assert(srcs@.take(i + 1).last() == s);
        match map.source_uri(s.source) {
            Some(uri) => {
                let ghost before = resolved_views(out@);
                out.push((uri.duplicate(), s.span));
                assert(resolved_views(out@) =~= before.push((uri@, s.span)));
            },
            None => {},
        }
    }
    assert(srcs@.take(srcs@.len() as int) =~= srcs@);
    out
}

/// A generated location mapped back to its `.rsx` source, as values.
pub enum LocationView {
    Source(Seq<char>, PositionRange),
    Unchanged,
    Unmapped,
}

/// A generated location mapped back to its `.rsx` source.
#[derive(Debug)]
pub enum MappedLocation {
    /// The location's `.rsx` equivalent.
    Source { uri: Uri, range: PositionRange },
    /// Not a file this server generated: keep the location as it is.
    Unchanged,
    /// Inside a generated file, but with no source (synthesized code).
    Unmapped,
}

impl View for MappedLocation {
    type V = LocationView;

    open spec fn view(&self) -> LocationView {
        match self {
            MappedLocation::Source { uri, range } => LocationView::Source(uri@, *range),
            MappedLocation::Unchanged => LocationView::Unchanged,
            MappedLocation::Unmapped => LocationView::Unmapped,
        }
    }
}

/// The `.rsx` location of span `span` in the file `uri`, when that
/// document is open.
pub open spec fn located(docs: Seq<(Uri, LineIndex)>, uri: Seq<char>, span: Span) -> LocationView {
    match doc_for(docs, uri) {
        Some(d) => LocationView::Source(
            uri,
            PositionRange {
                start: offset_to_position_spec(d.bytes(), span.start),
                end: offset_to_position_spec(d.bytes(), span.end),
            },
        ),
        None => LocationView::Unmapped,
    }
}

/// Where a generated range maps back to: the exact narrowed sub-range
/// when the one containing mapping is a same-length single-source copy
/// whose document is open; nothing on a length mismatch; otherwise the
/// first source of the coarse reverse mapping.
pub open spec fn generated_location_spec(
    generated_text: Seq<u8>,
    ms: Seq<Mapping>,
    uris: Seq<Uri>,
    docs: Seq<(Uri, LineIndex)>,
    range: PositionRange,
) -> LocationView {
    let q = Span {
        start: position_to_offset_spec(generated_text, range.start),
        end: position_to_offset_spec(generated_text, range.end),
    };
    let coarse = reverse_spec(ms, uris, q);
    let fallback = if coarse.len() == 0 {
        LocationView::Unmapped
    } else {
        located(docs, coarse[0].0, coarse[0].1)
    };
    match narrow_spec(ms, q) {
        NarrowOutcome::LengthMismatch => LocationView::Unmapped,
        NarrowOutcome::Exact { source, span } => if source.0 < uris.len() && doc_for(
            docs,
            uris[source.0 as int]@,
        ).is_some() {
            located(docs, uris[source.0 as int]@, span)
        } else {
            fallback
        },
        NarrowOutcome::NotApplicable => fallback,
    }
}

/// Reverse-maps one generated range of the file `map` describes back to
/// its `.rsx` source.
pub fn generated_location_to_source(
    map: &SourceMap,
    generated_index: &LineIndex,
    docs: &Vec<(Uri, LineIndex)>,
    range: PositionRange,
) -> (r: MappedLocation)
    requires
        ({
            let q = Span {
                start: position_to_offset_spec(generated_index.bytes(), range.start),
                end: position_to_offset_spec(generated_index.bytes(), range.end),
            };
            narrow_ok(map.mappings@, q)
        }),
    ensures
        r@ == generated_location_spec(
            generated_index.bytes(),
            map.mappings@,
            map.sources@,
            docs@,
            range,
        ),
{
    let query = generated_index.range_to_span(range);
    match map.narrow(query) {
        NarrowOutcome::LengthMismatch => return MappedLocation::Unmapped,
        NarrowOutcome::Exact { source, span } => {
            match map.source_uri(source) {
                Some(uri) => {
                    match find_doc(docs, uri) {
                        Some(doc) => {
                            return MappedLocation::Source {
                                uri: uri.duplicate(),
                                range: doc.span_to_range(span),
                            };
                        },
                        None => {},
                    }
                },
                None => {},
            }
        },
        NarrowOutcome::NotApplicable => {},
    }
    let resolved = resolved_sources(map, query);
    if resolved.len() == 0 {
        return MappedLocation::Unmapped;
    }
    let first = &resolved[0];
    assert(resolved_views(resolved@)[0] == (first.0@, first.1));
    match find_doc(docs, &first.0) {
        Some(doc) => MappedLocation::Source { uri: first.0.duplicate(), range: doc.span_to_range(first.1) },
        None => MappedLocation::Unmapped,
    }
}


/// The span of the generated text `text` that `range` covers.
pub open spec fn query_span(text: Seq<u8>, range: PositionRange) -> Span {
    Span {
        start: position_to_offset_spec(text, range.start),
        end: position_to_offset_spec(text, range.end),
    }
}

/// Mapping `range` of the file `uri` back cannot overflow: when `uri` is a
/// known generated file with an open unit, narrowing its span is safe.
pub open spec fn workspace_narrow_ok(
    maps: Map<Seq<char>, SourceMap>,
    units: Seq<(Uri, LineIndex)>,
    uri: Seq<char>,
    range: PositionRange,
) -> bool {
    maps.dom().contains(uri) ==> match doc_for(units, uri) {
        Some(u) => narrow_ok(maps[uri].mappings@, query_span(u.bytes(), range)),
        None => true,
    }
}

/// Every `.rsx` location a range of the file `uri` stands for: `None`
/// when `uri` is not a generated file at all, no location when its unit
/// is not loaded, otherwise those of [`generated_range_to_all_sources`].
pub open spec fn workspace_sources_spec(
    maps: Map<Seq<char>, SourceMap>,
    units: Seq<(Uri, LineIndex)>,
    docs: Seq<(Uri, LineIndex)>,
    uri: Seq<char>,
    range: PositionRange,
) -> Option<Seq<(Seq<char>, PositionRange)>> {
    if !maps.dom().contains(uri) {
        None
    } else {
        match doc_for(units, uri) {
            None => Some(seq![]),
            Some(u) => Some(
                located_sources(
                    all_sources_spec(maps[uri].mappings@, query_span(u.bytes(), range)),
                    maps[uri].sources@,
                    docs,
                ),
            ),
        }
    }
}

/// Every `.rsx` location a range of the file `generated_uri` stands for,
/// looked up in the workspace: `registry` says which files are generated,
/// `units` holds the generated texts and `docs` the open `.rsx` documents.
/// `None` means the file is not generated and its locations pass through;
/// an empty list means a generated location with no source.
pub fn workspace_range_to_all_sources(
    registry: &Registry,
    units: &Vec<(Uri, LineIndex)>,
    docs: &Vec<(Uri, LineIndex)>,
    generated_uri: &Uri,
    range: PositionRange,
) -> (r: Option<Vec<(Uri, PositionRange)>>)
    requires
        workspace_narrow_ok(registry@, units@, generated_uri@, range),
    ensures
        match r {
            Some(v) => workspace_sources_spec(registry@, units@, docs@, generated_uri@, range) == Some(
                location_views(v@),
            ),
            None => workspace_sources_spec(registry@, units@, docs@, generated_uri@, range).is_none(),
        },
{
    let map = match registry.map_for_generated(generated_uri) {
        Some(m) => m,
        None => return None,
    };
    match find_doc(units, generated_uri) {
        None => {
            let out: Vec<(Uri, PositionRange)> = Vec::new();
            assert(location_views(out@) =~= seq![]);
            Some(out)
        },
        Some(unit) => Some(generated_range_to_all_sources(map, unit, docs, range)),
    }
}

/// Where a generated location maps back to, looked up in the workspace:
/// unchanged when the file is not generated or its unit is not loaded.
pub open spec fn workspace_location_spec(
    maps: Map<Seq<char>, SourceMap>,
    units: Seq<(Uri, LineIndex)>,
    docs: Seq<(Uri, LineIndex)>,
    uri: Seq<char>,
    range: PositionRange,
) -> LocationView {
    if !maps.dom().contains(uri) {
        LocationView::Unchanged
    } else {
        match doc_for(units, uri) {
            None => LocationView::Unchanged,
            Some(u) => generated_location_spec(
                u.bytes(),
                maps[uri].mappings@,
                maps[uri].sources@,
                docs,
                range,
            ),
        }
    }
}

/// Reverse-maps one location of the file `generated_uri` back to its
/// `.rsx` source, looked up in the workspace.
pub fn workspace_location_to_source(
    registry: &Registry,
    units: &Vec<(Uri, LineIndex)>,
    docs: &Vec<(Uri, LineIndex)>,
    generated_uri: &Uri,
    range: PositionRange,
) -> (r: MappedLocation)
    requires
        workspace_narrow_ok(registry@, units@, generated_uri@, range),
    ensures
        r@ == workspace_location_spec(registry@, units@, docs@, generated_uri@, range),
{
    let map = match registry.map_for_generated(generated_uri) {
        Some(m) => m,
        None => return MappedLocation::Unchanged,
    };
    match find_doc(units, generated_uri) {
        None => MappedLocation::Unchanged,
        Some(unit) => generated_location_to_source(map, unit, docs, range),
    }
}

/// The generated unit the `.rsx` file `rsx` is compiled into: the first
/// entry of `table` (`.rsx` URI, generated URI) for it.
pub open spec fn unit_for(table: Seq<(Uri, Uri)>, rsx: Seq<char>) -> Option<Uri>
    decreases table.len(),
{
    if table.len() == 0 {
        None
    } else if table[0].0@ == rsx {
        Some(table[0].1)
    } else {
        unit_for(table.drop_first(), rsx)
    }
}

/// The generated unit of the `.rsx` file `rsx`, by the first entry of
/// `table` for it.
pub fn generated_unit_for<'a>(table: &'a Vec<(Uri, Uri)>, rsx: &Uri) -> (r: Option<&'a Uri>)
    ensures
        match r {
            Some(g) => unit_for(table@, rsx@) == Some(*g),
            None => unit_for(table@, rsx@).is_none(),
        },
{
    let n = table.len();
    let mut i: usize = 0;
    assert(table@.subrange(0, n as int) =~= table@);
    while i < n
        invariant
            n == table@.len(),
            0 <= i <= n,
            unit_for(table@, rsx@) == unit_for(table@.subrange(i as int, n as int), rsx@),
        decreases n - i,
    {
        assert(table@.subrange(i as int, n as int)[0] == table@[i as int]);
        if table[i].0.same(rsx) {
            return Some(&table[i].1);
        }
        assert(table@.subrange(i as int, n as int).drop_first() =~= table@.subrange(i + 1, n as int));
        i = i + 1;
    }
    None
}

/// Where a position of the `.rsx` file `rsx` lands in the workspace: the
/// URI of its generated unit and the position there. Nothing when the
/// document is not open, has no generated unit, the unit is not loaded
/// or has no map, or no mapping carries the position.
pub open spec fn workspace_forward_spec(
    maps: Map<Seq<char>, SourceMap>,
    units: Seq<(Uri, LineIndex)>,
    docs: Seq<(Uri, LineIndex)>,
    table: Seq<(Uri, Uri)>,
    rsx: Seq<char>,
    position: Position,
) -> Option<(Seq<char>, Position)> {
    match (doc_for(docs, rsx), unit_for(table, rsx)) {
        (Some(d), Some(g)) => match doc_for(units, g@) {
            Some(u) => if maps.dom().contains(g@) {
                match rsx_position_to_generated_spec(d.bytes(), u.bytes(), maps[g@].mappings@, position) {
                    Some(p) => Some((g@, p)),
                    None => None,
                }
            } else {
                None
            },
            None => None,
        },
        _ => None,
    }
}

/// Maps a position of the `.rsx` file `rsx_uri` to its generated unit,
/// looked up in the workspace: `table` pairs each `.rsx` URI with its
/// generated URI, `docs` holds the open `.rsx` documents, `units` the
/// generated texts and `registry` their maps.
pub fn workspace_position_to_generated(
    registry: &Registry,
    units: &Vec<(Uri, LineIndex)>,
    docs: &Vec<(Uri, LineIndex)>,
    table: &Vec<(Uri, Uri)>,
    rsx_uri: &Uri,
    position: Position,
) -> (r: Option<(Uri, Position)>)
    requires
        forall|u: Seq<char>| #[trigger] registry@.dom().contains(u) ==> all_ordered(registry@[u].mappings@),
    ensures
        match r {
            Some((g, p)) => workspace_forward_spec(registry@, units@, docs@, table@, rsx_uri@, position) == Some(
                (g@, p),
            ),
            None => workspace_forward_spec(registry@, units@, docs@, table@, rsx_uri@, position).is_none(),
        },
{
    let rsx_index = match find_doc(docs, rsx_uri) {
        Some(d) => d,
        None => return None,
    };
    let generated_uri = match generated_unit_for(table, rsx_uri) {
        Some(g) => g,
        None => return None,
    };
    let generated_index = match find_doc(units, generated_uri) {
        Some(u) => u,
        None => return None,
    };
    let map = match registry.map_for_generated(generated_uri) {
        Some(m) => m,
        None => return None,
    };
    proof {
        lemma_ordered_rsx_position_ok(
            map.mappings@,
            SourceId(0),
            Span {
                start: position_to_offset_spec(rsx_index.bytes(), position),
                end: position_to_offset_spec(rsx_index.bytes(), position),
            },
        );
    }
    match rsx_position_to_generated(rsx_index, generated_index, map, position) {
        Some(p) => Some((generated_uri.duplicate(), p)),
        None => None,
    }
}

/// With every map's spans ordered, any range of any file maps back safely.
pub proof fn lemma_ordered_workspace_narrow_ok(
    maps: Map<Seq<char>, SourceMap>,
    units: Seq<(Uri, LineIndex)>,
    uri: Seq<char>,
    range: PositionRange,
)
    requires
        forall|u: Seq<char>| #[trigger] maps.dom().contains(u) ==> all_ordered(maps[u].mappings@),
    ensures
        workspace_narrow_ok(maps, units, uri, range),
{
    if maps.dom().contains(uri) {
        if let Some(u) = doc_for(units, uri) {
            lemma_ordered_narrow_ok(maps[uri].mappings@, query_span(u.bytes(), range));
        }
    }
}

/// With every span ordered, the mapping a `.rsx` offset goes through has
/// an ordered generated span.
pub proof fn lemma_ordered_rsx_position_ok(ms: Seq<Mapping>, id: SourceId, q: Span)
    requires
        all_ordered(ms),
    ensures
        smallest_containing(ms, id, q) matches Some((s, g)) ==> g.is_ordered(),
    decreases ms.len(),
{
    if ms.len() > 0 {
        let init = ms.drop_last();
        assert(all_ordered(init)) by {
            assert forall|i: int| 0 <= i < init.len() implies #[trigger] init[i] == ms[i] by {}
        }
        lemma_ordered_rsx_position_ok(init, id, q);
        assert(ms[ms.len() - 1] == ms.last());
    }
}

/// Every location [`located_sources`] yields is in one of the map's
/// source files.
proof fn lemma_located_in_sources(srcs: Seq<SourceSpan>, uris: Seq<Uri>, docs: Seq<(Uri, LineIndex)>)
    ensures
        forall|i: int|
            0 <= i < located_sources(srcs, uris, docs).len() ==> exists|k: int|
                0 <= k < uris.len() && (#[trigger] located_sources(srcs, uris, docs)[i]).0 == (#[trigger] uris[k])@,
    decreases srcs.len(),
{
    if srcs.len() > 0 {
        lemma_located_in_sources(srcs.drop_last(), uris, docs);
        let rest = located_sources(srcs.drop_last(), uris, docs);
        let all = located_sources(srcs, uris, docs);
        assert forall|i: int| 0 <= i < all.len() implies exists|k: int|
            0 <= k < uris.len() && (#[trigger] all[i]).0 == (#[trigger] uris[k])@ by {
            if i < rest.len() {
                assert(all[i] == rest[i]);
            } else {
                let k = srcs.last().source.0 as int;
                assert(all[i].0 == uris[k]@);
            }
        }
    }
}

/// Every entry [`resolve_uris`] yields names one of the map's source
/// files.
proof fn lemma_resolved_in_sources(srcs: Seq<SourceSpan>, uris: Seq<Uri>)
    ensures
        forall|i: int|
            0 <= i < resolve_uris(srcs, uris).len() ==> exists|k: int|
                0 <= k < uris.len() && (#[trigger] resolve_uris(srcs, uris)[i]).0 == (#[trigger] uris[k])@,
    decreases srcs.len(),
{
    if srcs.len() > 0 {
        lemma_resolved_in_sources(srcs.drop_last(), uris);
        let rest = resolve_uris(srcs.drop_last(), uris);
        let all = resolve_uris(srcs, uris);
        assert forall|i: int| 0 <= i < all.len() implies exists|k: int|
            0 <= k < uris.len() && (#[trigger] all[i]).0 == (#[trigger] uris[k])@ by {
            if i < rest.len() {
                assert(all[i] == rest[i]);
            } else {
                let k = srcs.last().source.0 as int;
                assert(all[i].0 == uris[k]@);
            }
        }
    }
}

/// The reverse-mapping rule: a location in a file that no `.rsx` file
/// produced comes back untouched; a location in a generated file is
/// never passed through, and whatever it maps back to lies in one of the
/// `.rsx` files that produced it.
pub proof fn lemma_reverse_mapping_rule(
    maps: Map<Seq<char>, SourceMap>,
    units: Seq<(Uri, LineIndex)>,
    docs: Seq<(Uri, LineIndex)>,
    uri: Seq<char>,
    range: PositionRange,
)
    ensures
        !maps.dom().contains(uri) ==> workspace_location_spec(maps, units, docs, uri, range)
            == LocationView::Unchanged && workspace_sources_spec(maps, units, docs, uri, range).is_none(),
        maps.dom().contains(uri) ==> workspace_sources_spec(maps, units, docs, uri, range).is_some(),
        maps.dom().contains(uri) ==> forall|i: int|
            0 <= i < workspace_sources_spec(maps, units, docs, uri, range).unwrap().len() ==> exists|k: int|
                0 <= k < maps[uri].sources@.len() && (#[trigger] workspace_sources_spec(
                    maps,
                    units,
                    docs,
                    uri,
                    range,
                ).unwrap()[i]).0 == (#[trigger] maps[uri].sources@[k])@,
        maps.dom().contains(uri) && doc_for(units, uri).is_some() ==> match workspace_location_spec(
            maps,
            units,
            docs,
            uri,
            range,
        ) {
            LocationView::Source(u, _) => exists|k: int|
                0 <= k < maps[uri].sources@.len() && u == (#[trigger] maps[uri].sources@[k])@,
            LocationView::Unchanged => false,
            LocationView::Unmapped => true,
        },
{
    if maps.dom().contains(uri) {
        let m = maps[uri];
        if let Some(u) = doc_for(units, uri) {
            let q = query_span(u.bytes(), range);
            lemma_located_in_sources(all_sources_spec(m.mappings@, q), m.sources@, docs);
            let coarse = reverse_spec(m.mappings@, m.sources@, q);
            lemma_resolved_in_sources(dedup_by_key(flatten_sources(range_matches(m.mappings@, q)), m.sources@), m.sources@);
            if coarse.len() > 0 {
                assert(coarse[0] == resolve_uris(dedup_by_key(flatten_sources(range_matches(m.mappings@, q)), m.sources@), m.sources@)[0]);
            }
            match narrow_spec(m.mappings@, q) {
                NarrowOutcome::Exact { source, span } => {
                    if source.0 < m.sources@.len() {
                        assert(m.sources@[source.0 as int]@ == m.sources@[source.0 as int]@);
                    }
                },
                _ => {},
            }
        }
    }
}

} // verus!
