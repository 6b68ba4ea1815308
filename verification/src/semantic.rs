//! `textDocument/semanticTokens/full` for a `.rsx` document:
//! rust-analyzer's tokens for the generated unit, mapped back through the
//! source map, overlaid with Outou's own tokens and re-encoded.
use vstd::prelude::*;

use crate::legend::Legend;
use crate::line_index::{line_starts_of, position_to_offset_spec, LineIndex, Position, PositionRange};
use crate::mapping::{
    all_sources_spec, doc_for, find_doc, generated_range_to_all_sources, located_sources, location_views,
};
use crate::outou_tokens::{absolute_tokens_spec, named_tokens_absolute, NamedToken};
use crate::source_map::{narrow_ok, Mapping, SourceMap};
use crate::span::{Span, Uri};
use crate::tokens::{
    decode, decode_spec, encode, encode_spec, merge, merge_spec, sat_add, span_to_line_tokens,
    span_to_line_tokens_spec, AbsoluteToken, SemanticToken,
};

verus! {

/// The generated range a rust-analyzer token covers.
pub open spec fn token_range(t: AbsoluteToken) -> PositionRange {
    PositionRange {
        start: Position { line: t.line, character: t.start },
        end: Position { line: t.line, character: sat_add(t.start, t.length) },
    }
}

/// The generated byte span a rust-analyzer token covers.
pub open spec fn token_span(generated_text: Seq<u8>, t: AbsoluteToken) -> Span {
    Span {
        start: position_to_offset_spec(generated_text, token_range(t).start),
        end: position_to_offset_spec(generated_text, token_range(t).end),
    }
}

/// The `.rsx` tokens of each location in `rsx_uri`'s own document.
pub open spec fn tokens_at(
    locs: Seq<(Seq<char>, PositionRange)>,
    rsx_uri: Seq<char>,
    doc: LineIndex,
    t: AbsoluteToken,
) -> Seq<AbsoluteToken>
    decreases locs.len(),
{
    if locs.len() == 0 {
        seq![]
    } else {
        let before = tokens_at(locs.drop_last(), rsx_uri, doc, t);
        let l = locs.last();
        if l.0 == rsx_uri {
            before + span_to_line_tokens_spec(
                doc.bytes(),
                Span {
                    start: position_to_offset_spec(doc.bytes(), l.1.start),
                    end: position_to_offset_spec(doc.bytes(), l.1.end),
                },
                t.token_type,
                t.modifiers,
            )
        } else {
            before
        }
    }
}

/// What one rust-analyzer token becomes in `rsx_uri`: a token per line of
/// each of its sources in that document, by the same narrowing rule that
/// rename uses; nothing when the document is not open.
pub open spec fn mapped_token_spec(
    ms: Seq<Mapping>,
    uris: Seq<Uri>,
    generated_text: Seq<u8>,
    docs: Seq<(Uri, LineIndex)>,
    rsx_uri: Seq<char>,
    t: AbsoluteToken,
) -> Seq<AbsoluteToken> {
    match doc_for(docs, rsx_uri) {
        None => seq![],
        Some(doc) => tokens_at(
            located_sources(all_sources_spec(ms, token_span(generated_text, t)), uris, docs),
            rsx_uri,
            doc,
            t,
        ),
    }
}

/// Mapping every rust-analyzer token on a line before `last_line` can be
/// computed without overflow.
pub open spec fn tokens_narrow_ok(
    ms: Seq<Mapping>,
    generated_text: Seq<u8>,
    last_line: u32,
    ts: Seq<AbsoluteToken>,
) -> bool {
    forall|i: int|
        0 <= i < ts.len() && ts[i].line < last_line ==> narrow_ok(
            ms,
            #[trigger] token_span(generated_text, ts[i]),
        )
}

/// The mapped tokens of each rust-analyzer token on a line before
/// `last_line`, in order.
pub open spec fn mapped_tokens_spec(
    ms: Seq<Mapping>,
    uris: Seq<Uri>,
    generated_text: Seq<u8>,
    last_line: u32,
    docs: Seq<(Uri, LineIndex)>,
    rsx_uri: Seq<char>,
    ts: Seq<AbsoluteToken>,
) -> Seq<AbsoluteToken>
    decreases ts.len(),
{
    if ts.len() == 0 {
        seq![]
    } else {
        let before = mapped_tokens_spec(ms, uris, generated_text, last_line, docs, rsx_uri, ts.drop_last());
        if ts.last().line < last_line {
            before + mapped_token_spec(ms, uris, generated_text, docs, rsx_uri, ts.last())
        } else {
            before
        }
    }
}


/// The `.rsx` tokens of one located range of the document `doc`.
pub open spec fn range_tokens(doc: LineIndex, range: PositionRange, t: AbsoluteToken) -> Seq<AbsoluteToken> {
    span_to_line_tokens_spec(
        doc.bytes(),
        Span {
            start: position_to_offset_spec(doc.bytes(), range.start),
            end: position_to_offset_spec(doc.bytes(), range.end),
        },
        t.token_type,
        t.modifiers,
    )
}

/// Every token drawn from the located ranges `locs` for the document
/// `rsx_uri` is a token of one of those ranges that lies in `rsx_uri`
/// itself; ranges in other documents give nothing, so with none in
/// `rsx_uri` there is no token.
pub proof fn lemma_tokens_only_from_own_document(
    locs: Seq<(Seq<char>, PositionRange)>,
    rsx_uri: Seq<char>,
    doc: LineIndex,
    t: AbsoluteToken,
)
    ensures
        forall|x: AbsoluteToken| #[trigger] tokens_at(locs, rsx_uri, doc, t).contains(x) ==> exists|i: int|
            0 <= i < locs.len() && locs[i].0 == rsx_uri && (#[trigger] range_tokens(doc, locs[i].1, t)).contains(x),
        (forall|i: int| 0 <= i < locs.len() ==> (#[trigger] locs[i]).0 != rsx_uri) ==> tokens_at(
            locs,
            rsx_uri,
            doc,
            t,
        ).len() == 0,
    decreases locs.len(),
{
    if locs.len() > 0 {
        let init = locs.drop_last();
        lemma_tokens_only_from_own_document(init, rsx_uri, doc, t);
        let n = locs.len() - 1;
        let before = tokens_at(init, rsx_uri, doc, t);
        assert(locs.last() == locs[n]);
        assert forall|x: AbsoluteToken| #[trigger] tokens_at(locs, rsx_uri, doc, t).contains(x) implies exists|i: int|
            0 <= i < locs.len() && locs[i].0 == rsx_uri && (#[trigger] range_tokens(doc, locs[i].1, t)).contains(x) by {
            let all = tokens_at(locs, rsx_uri, doc, t);
            let k = choose|k: int| 0 <= k < all.len() && all[k] == x;
            if k < before.len() {
                assert(before[k] == x);
                assert(before.contains(x));
                let i = choose|i: int|
                    0 <= i < init.len() && init[i].0 == rsx_uri && (#[trigger] range_tokens(doc, init[i].1, t)).contains(x);
                assert(locs[i] == init[i]);
            } else {
                let piece = range_tokens(doc, locs[n].1, t);
                assert(locs[n].0 == rsx_uri);
                assert(piece[k - before.len()] == x);
                assert(piece.contains(x));
            }
        }
        if forall|i: int| 0 <= i < locs.len() ==> (#[trigger] locs[i]).0 != rsx_uri {
            assert forall|i: int| 0 <= i < init.len() implies (#[trigger] init[i]).0 != rsx_uri by {
                assert(init[i] == locs[i]);
            }
            assert(locs[n].0 != rsx_uri);
        }
    }
}

/// Every `.rsx` token one rust-analyzer token maps to in `rsx_uri` is a
/// token of one of its located sources that lies in `rsx_uri` itself; a
/// rust-analyzer token whose sources all lie in other documents maps to
/// nothing there.
pub proof fn lemma_mapped_token_stays_in_its_document(
    ms: Seq<Mapping>,
    uris: Seq<Uri>,
    generated_text: Seq<u8>,
    docs: Seq<(Uri, LineIndex)>,
    rsx_uri: Seq<char>,
    t: AbsoluteToken,
)
    ensures
        ({
            let locs = located_sources(all_sources_spec(ms, token_span(generated_text, t)), uris, docs);
            &&& forall|x: AbsoluteToken| #[trigger] mapped_token_spec(ms, uris, generated_text, docs, rsx_uri, t).contains(x)
                ==> doc_for(docs, rsx_uri) is Some && exists|i: int|
                0 <= i < locs.len() && locs[i].0 == rsx_uri && (#[trigger] range_tokens(
                    doc_for(docs, rsx_uri)->0,
                    locs[i].1,
                    t,
                )).contains(x)
            &&& (forall|i: int| 0 <= i < locs.len() ==> (#[trigger] locs[i]).0 != rsx_uri) ==> mapped_token_spec(
                ms,
                uris,
                generated_text,
                docs,
                rsx_uri,
                t,
            ).len() == 0
        }),
{
    let locs = located_sources(all_sources_spec(ms, token_span(generated_text, t)), uris, docs);
    if let Some(doc) = doc_for(docs, rsx_uri) {
        lemma_tokens_only_from_own_document(locs, rsx_uri, doc, t);
    }
}

/// Every token that rust-analyzer's tokens map to in `rsx_uri` comes from
/// one of them on a line of the generated file, through one of its
/// located sources that lies in `rsx_uri` itself.
pub proof fn lemma_mapped_tokens_stay_in_their_document(
    ms: Seq<Mapping>,
    uris: Seq<Uri>,
    generated_text: Seq<u8>,
    last_line: u32,
    docs: Seq<(Uri, LineIndex)>,
    rsx_uri: Seq<char>,
    ts: Seq<AbsoluteToken>,
)
    ensures
        forall|x: AbsoluteToken|
            #[trigger] mapped_tokens_spec(ms, uris, generated_text, last_line, docs, rsx_uri, ts).contains(x)
                ==> doc_for(docs, rsx_uri) is Some && exists|j: int, i: int|
                0 <= j < ts.len() && ts[j].line < last_line && 0 <= i < located_sources(
                    all_sources_spec(ms, token_span(generated_text, ts[j])),
                    uris,
                    docs,
                ).len() && located_sources(all_sources_spec(ms, token_span(generated_text, ts[j])), uris, docs)[i].0
                    == rsx_uri && (#[trigger] range_tokens(
                    doc_for(docs, rsx_uri)->0,
                    located_sources(all_sources_spec(ms, token_span(generated_text, ts[j])), uris, docs)[i].1,
                    ts[j],
                )).contains(x),
    decreases ts.len(),
{
    if ts.len() > 0 {
        let init = ts.drop_last();
        let n = ts.len() - 1;
        lemma_mapped_tokens_stay_in_their_document(ms, uris, generated_text, last_line, docs, rsx_uri, init);
        lemma_mapped_token_stays_in_its_document(ms, uris, generated_text, docs, rsx_uri, ts[n]);
        assert(ts.last() == ts[n]);
        let before = mapped_tokens_spec(ms, uris, generated_text, last_line, docs, rsx_uri, init);
        assert forall|x: AbsoluteToken|
            #[trigger] mapped_tokens_spec(ms, uris, generated_text, last_line, docs, rsx_uri, ts).contains(x)
                implies doc_for(docs, rsx_uri) is Some && exists|j: int, i: int|
                0 <= j < ts.len() && ts[j].line < last_line && 0 <= i < located_sources(
                    all_sources_spec(ms, token_span(generated_text, ts[j])),
                    uris,
                    docs,
                ).len() && located_sources(all_sources_spec(ms, token_span(generated_text, ts[j])), uris, docs)[i].0
                    == rsx_uri && (#[trigger] range_tokens(
                    doc_for(docs, rsx_uri)->0,
                    located_sources(all_sources_spec(ms, token_span(generated_text, ts[j])), uris, docs)[i].1,
                    ts[j],
                )).contains(x) by {
            let all = mapped_tokens_spec(ms, uris, generated_text, last_line, docs, rsx_uri, ts);
            let k = choose|k: int| 0 <= k < all.len() && all[k] == x;
            if k < before.len() {
                assert(before[k] == x);
                assert(before.contains(x));
                let (j, i) = choose|j: int, i: int|
                    0 <= j < init.len() && init[j].line < last_line && 0 <= i < located_sources(
                        all_sources_spec(ms, token_span(generated_text, init[j])),
                        uris,
                        docs,
                    ).len() && located_sources(all_sources_spec(ms, token_span(generated_text, init[j])), uris, docs)[i].0
                        == rsx_uri && (#[trigger] range_tokens(
                        doc_for(docs, rsx_uri)->0,
                        located_sources(all_sources_spec(ms, token_span(generated_text, init[j])), uris, docs)[i].1,
                        init[j],
                    )).contains(x);
                assert(ts[j] == init[j]);
            } else {
                let piece = mapped_token_spec(ms, uris, generated_text, docs, rsx_uri, ts[n]);
                assert(ts[n].line < last_line);
                assert(piece[k - before.len()] == x);
                assert(piece.contains(x));
            }
        }
    }
}

fn append_tokens(out: &mut Vec<AbsoluteToken>, more: &Vec<AbsoluteToken>)
    ensures
        final(out)@ == old(out)@ + more@,
{
    let ghost before = out@;
    for k in 0..more.len()
        invariant
            out@ == before + more@.take(k as int),
    {
        out.push(more[k]);
        assert(more@.take(k + 1) =~= more@.take(k as int).push(more@[k as int]));
    }
    assert(more@.take(more@.len() as int) =~= more@);
}

/// Maps one rust-analyzer token (in generated coordinates) to the tokens
/// it stands for in the `.rsx` document `rsx_uri`: one per line of each
/// source it narrows to there; a source in another document is dropped.
pub fn map_ra_token(
    map: &SourceMap,
    generated_index: &LineIndex,
    docs: &Vec<(Uri, LineIndex)>,
    rsx_uri: &Uri,
    token: AbsoluteToken,
) -> (r: Vec<AbsoluteToken>)
    requires
        narrow_ok(map.mappings@, token_span(generated_index.bytes(), token)),
    ensures
        r@ == mapped_token_spec(
            map.mappings@,
            map.sources@,
            generated_index.bytes(),
            docs@,
            rsx_uri@,
            token,
        ),
{
    let range = PositionRange::new(
        Position::new(token.line, token.start),
        Position::new(token.line, token.start.saturating_add(token.length)),
    );
    let doc = match find_doc(docs, rsx_uri) {
        Some(doc) => doc,
        None => return Vec::new(),
    };
    let sources = generated_range_to_all_sources(map, generated_index, docs, range);
    let ghost locs = location_views(sources@);
    let mut out: Vec<AbsoluteToken> = Vec::new();
    for i in 0..sources.len()
        invariant
            locs == location_views(sources@),
            out@ == tokens_at(locs.take(i as int), rsx_uri@, *doc, token),
    {
        let (uri, r) = (&sources[i].0, sources[i].1);
        assert(locs.take(i + 1).drop_last() =~= locs.take(i as int));
        assert(locs.take(i + 1).last() == (uri@, r));
        if uri.same(rsx_uri) {
            let span = doc.range_to_span(r);
            let pieces = span_to_line_tokens(doc, span, token.token_type, token.modifiers);
            append_tokens(&mut out, &pieces);
        }
    }
    assert(locs.take(locs.len() as int) =~= locs);
    out
}

/// The final tokens for a `.rsx` document: rust-analyzer's delta-encoded
/// tokens for its generated unit, decoded, with any token at or past the
/// generated file's last line dropped, mapped back into the document;
/// merged with Outou's own tokens (which win every position they cover);
/// and re-encoded. Nothing when the document itself is not open.
pub open spec fn rewritten_tokens_spec(
    ms: Seq<Mapping>,
    uris: Seq<Uri>,
    generated_text: Seq<u8>,
    last_line: u32,
    docs: Seq<(Uri, LineIndex)>,
    rsx_uri: Seq<char>,
    ra_data: Seq<SemanticToken>,
    named: Seq<NamedToken>,
    types: Seq<Seq<char>>,
) -> Option<Seq<SemanticToken>> {
    match doc_for(docs, rsx_uri) {
        None => None,
        Some(doc) => Some(
            encode_spec(
                merge_spec(
                    mapped_tokens_spec(
                        ms,
                        uris,
                        generated_text,
                        last_line,
                        docs,
                        rsx_uri,
                        decode_spec(ra_data),
                    ),
                    absolute_tokens_spec(named, doc.bytes(), types),
                ),
            ),
        ),
    }
}

/// Rewrites rust-analyzer's semantic tokens for the generated unit of
/// `rsx_uri` into the document's own tokens, overlaid with Outou's.
pub fn rewrite_tokens(
    map: &SourceMap,
    generated_index: &LineIndex,
    docs: &Vec<(Uri, LineIndex)>,
    rsx_uri: &Uri,
    ra_data: &[SemanticToken],
    named: &[NamedToken],
    legend: &Legend,
) -> (r: Option<Vec<SemanticToken>>)
    requires
        tokens_narrow_ok(
            map.mappings@,
            generated_index.bytes(),
            line_starts_of(generated_index.bytes()).len() as u32,
            decode_spec(ra_data@),
        ),
    ensures
        match r {
            Some(v) => rewritten_tokens_spec(
                map.mappings@,
                map.sources@,
                generated_index.bytes(),
                line_starts_of(generated_index.bytes()).len() as u32,
                docs@,
                rsx_uri@,
                ra_data@,
                named@,
                legend.type_names(),
            ) == Some(v@),
            None => rewritten_tokens_spec(
                map.mappings@,
                map.sources@,
                generated_index.bytes(),
                line_starts_of(generated_index.bytes()).len() as u32,
                docs@,
                rsx_uri@,
                ra_data@,
                named@,
                legend.type_names(),
            ).is_none(),
        },
{
    let doc = match find_doc(docs, rsx_uri) {
        Some(doc) => doc,
        None => return None,
    };
    let decoded = decode(ra_data);
    let last_line = generated_index.line_count();
    let ghost ds = decoded@;
    let mut ra_tokens: Vec<AbsoluteToken> = Vec::new();
    for i in 0..decoded.len()
        invariant
            ds == decoded@,
            ds == decode_spec(ra_data@),
            last_line == line_starts_of(generated_index.bytes()).len() as u32,
            tokens_narrow_ok(map.mappings@, generated_index.bytes(), last_line, ds),
            ra_tokens@ == mapped_tokens_spec(
                map.mappings@,
                map.sources@,
                generated_index.bytes(),
                last_line,
                docs@,
                rsx_uri@,
                ds.take(i as int),
            ),
    {
        let t = decoded[i];
        assert(ds.take(i + 1).drop_last() =~= ds.take(i as int));
        assert(ds.take(i + 1).last() == t);
        if t.line < last_line {
            assert(narrow_ok(map.mappings@, token_span(generated_index.bytes(), ds[i as int])));
            let mapped = map_ra_token(map, generated_index, docs, rsx_uri, t);
            append_tokens(&mut ra_tokens, &mapped);
        }
    }
    assert(ds.take(ds.len() as int) =~= ds);
    let outou = named_tokens_absolute(named, doc, legend);
    Some(encode(merge(ra_tokens, outou)))
}

/// Outou's own tokens alone, encoded: the answer when no rust-analyzer
/// can serve the request.
pub fn local_only_tokens(line_index: &LineIndex, named: &[NamedToken], legend: &Legend) -> (r: Vec<
    SemanticToken,
>)
    ensures
        r@ == encode_spec(absolute_tokens_spec(named@, line_index.bytes(), legend.type_names())),
{
    encode(named_tokens_absolute(named, line_index, legend))
}

} // verus!
