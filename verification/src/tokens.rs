//! Semantic token transforms: delta <-> absolute encoding, splitting a
//! (possibly multi-line) span into one single-line token per line, and
//! merging rust-analyzer-derived tokens with Outou's own overlay tokens.
use vstd::prelude::*;

use crate::line_index::{
    offset_to_position_spec, position_to_offset_spec, LineIndex, Position, PositionRange,
};
use crate::sorting::{
    keep_if, lemma_insert_keeps_stable, lemma_keep_if_members, lemma_sorted_is_own_stable_sort,
    lemma_stable_sort_is, lemma_stably_sorted_members, sorted_by, stable_sort, stably_sorted,
};
use crate::span::Span;

verus! {

/// One semantic token in absolute coordinates, confined to a single line.
#[derive(Debug, Clone, Copy, PartialEq, Eq, Structural)]
pub struct AbsoluteToken {
    pub line: u32,
    /// UTF-16 code unit offset within the line.
    pub start: u32,
    /// Length in UTF-16 code units.
    pub length: u32,
    /// Index into the legend's token types in effect for this response.
    pub token_type: u32,
    /// Bitset of modifier indices into the legend's token modifiers.
    pub modifiers: u32,
}

/// One token of an LSP `SemanticTokens` payload, delta-encoded against the
/// previous token.
#[derive(Debug, Clone, Copy, PartialEq, Eq, Structural)]
pub struct SemanticToken {
    pub delta_line: u32,
    pub delta_start: u32,
    pub length: u32,
    pub token_type: u32,
    pub token_modifiers_bitset: u32,
}

/// `a + b`, saturating at `u32::MAX`.
pub open spec fn sat_add(a: u32, b: u32) -> u32 {
    if a + b > u32::MAX {
        u32::MAX
    } else {
        (a + b) as u32
    }
}

/// Absolute coordinates of a delta-encoded token list: each token's line
/// is the previous token's line plus its `delta_line`, and its start is the
/// previous start plus `delta_start` on the same line or `delta_start`
/// itself on a new line; both saturate at `u32::MAX`.
pub open spec fn decode_spec(ts: Seq<SemanticToken>) -> Seq<AbsoluteToken>
    decreases ts.len(),
{
    if ts.len() == 0 {
        seq![]
    } else {
        let prev = decode_spec(ts.drop_last());
        let line: u32 = if prev.len() == 0 {
            0
        } else {
            prev.last().line
        };
        let start: u32 = if prev.len() == 0 {
            0
        } else {
            prev.last().start
        };
        let t = ts.last();
        prev.push(
            AbsoluteToken {
                line: sat_add(line, t.delta_line),
                start: if t.delta_line == 0 {
                    sat_add(start, t.delta_start)
                } else {
                    t.delta_start
                },
                length: t.length,
                token_type: t.token_type,
                modifiers: t.token_modifiers_bitset,
            },
        )
    }
}

/// The order tokens are sent in: by line, then by start.
pub open spec fn position_key() -> spec_fn(AbsoluteToken) -> int {
    |t: AbsoluteToken| t.line as int * 0x1_0000_0000 + t.start as int
}

/// Token `i` of the sorted list `s`, delta-encoded against token `i - 1`.
pub open spec fn delta_token(s: Seq<AbsoluteToken>, i: int) -> SemanticToken {
    let prev_line: int = if i == 0 {
        0
    } else {
        s[i - 1].line as int
    };
    SemanticToken {
        delta_line: (s[i].line - prev_line) as u32,
        delta_start: if i == 0 || s[i].line != prev_line {
            s[i].start
        } else {
            (s[i].start - s[i - 1].start) as u32
        },
        length: s[i].length,
        token_type: s[i].token_type,
        token_modifiers_bitset: s[i].modifiers,
    }
}

/// The delta encoding of an already sorted token list.
pub open spec fn delta_encode(s: Seq<AbsoluteToken>) -> Seq<SemanticToken> {
    Seq::new(s.len(), |i: int| delta_token(s, i))
}

/// The LSP encoding of `tokens`: stably sorted by (line, start), then
/// delta-encoded.
pub open spec fn encode_spec(tokens: Seq<AbsoluteToken>) -> Seq<SemanticToken> {
    delta_encode(stable_sort(tokens, position_key()))
}

/// Decodes the LSP delta-encoded token list into absolute coordinates.
/// Accumulation saturates at `u32::MAX` rather than overflowing, so the
/// decoded lines never decrease.
pub fn decode(tokens: &[SemanticToken]) -> (r: Vec<AbsoluteToken>)
    ensures
        r@ == decode_spec(tokens@),
{
    let mut line: u32 = 0;
    let mut start: u32 = 0;
    let mut out: Vec<AbsoluteToken> = Vec::new();
    let n = tokens.len();
    for i in 0..n
        invariant
            n == tokens@.len(),
            out@ == decode_spec(tokens@.take(i as int)),
            out@.len() == i,
            i == 0 ==> line == 0 && start == 0,
            i > 0 ==> line == out@.last().line && start == out@.last().start,
    {
        let token = tokens[i];
        assert(tokens@.take(i + 1).drop_last() =~= tokens@.take(i as int));
        line = line.saturating_add(token.delta_line);
        start = if token.delta_line == 0 {
            start.saturating_add(token.delta_start)
        } else {
            token.delta_start
        };
        out.push(
            AbsoluteToken {
                line,
                start,
                length: token.length,
                token_type: token.token_type,
                modifiers: token.token_modifiers_bitset,
            },
        );
    }
    assert(tokens@.take(n as int) =~= tokens@);
    out
}

/// Whether `a` comes before `b` in (line, start) order.
fn position_before(a: AbsoluteToken, b: AbsoluteToken) -> (r: bool)
    ensures
        r == (position_key()(a) < position_key()(b)),
{
    proof {
        lemma_position_key_order(a, b);
    }
    a.line < b.line || (a.line == b.line && a.start < b.start)
}

proof fn lemma_position_key_order(a: AbsoluteToken, b: AbsoluteToken)
    ensures
        (position_key()(a) < position_key()(b)) == (a.line < b.line || (a.line == b.line && a.start
            < b.start)),
        (position_key()(a) <= position_key()(b)) == (a.line < b.line || (a.line == b.line
            && a.start <= b.start)),
{
    let (al, as_, bl, bs) = (a.line as int, a.start as int, b.line as int, b.start as int);
    assert((al * 0x1_0000_0000 + as_ < bl * 0x1_0000_0000 + bs) == (al < bl || (al == bl && as_
        < bs))) by (nonlinear_arith)
        requires
            0 <= as_ < 0x1_0000_0000,
            0 <= bs < 0x1_0000_0000,
            0 <= al,
            0 <= bl,
    ;
    assert((al * 0x1_0000_0000 + as_ <= bl * 0x1_0000_0000 + bs) == (al < bl || (al == bl && as_
        <= bs))) by (nonlinear_arith)
        requires
            0 <= as_ < 0x1_0000_0000,
            0 <= bs < 0x1_0000_0000,
            0 <= al,
            0 <= bl,
    ;
}

/// Stably sorts tokens by (line, start).
fn sort_by_position(tokens: Vec<AbsoluteToken>) -> (r: Vec<AbsoluteToken>)
    ensures
        stably_sorted(r@, tokens@, position_key()),
        r@ == stable_sort(tokens@, position_key()),
{
    let ghost original = tokens@;
    let mut rest = tokens;
    let mut out: Vec<AbsoluteToken> = Vec::new();
    while rest.len() > 0
        invariant
            original.take(rest@.len() as int) == rest@,
            rest@.len() <= original.len(),
            stably_sorted(
                out@,
                original.subrange(rest@.len() as int, original.len() as int),
                position_key(),
            ),
        decreases rest@.len(),
    {
        let ghost before = rest@;
        let e = rest.pop().unwrap();
        let ghost i = rest@.len() as int;
        assert(original.take(i) =~= rest@) by {
            assert(before.drop_last() =~= rest@);
            assert(original.take(i) =~= original.take(i + 1).drop_last());
        }
        assert(original[i] == e) by {
            assert(original.take(i + 1)[i] == original[i]);
        }
        let ghost tail = original.subrange(i + 1, original.len() as int);
        assert(original.subrange(i, original.len() as int) =~= seq![e] + tail);
        let mut p: usize = 0;
        while p < out.len() && position_before(out[p], e)
            invariant
                0 <= p <= out@.len(),
                forall|k: int| 0 <= k < p ==> position_key()(#[trigger] out@[k]) < position_key()(e),
            decreases out@.len() - p,
        {
            p = p + 1;
        }
        let ghost old_out = out@;
        out.insert(p, e);
        proof {
            lemma_insert_keeps_stable(old_out, tail, e, p as int, position_key());
            assert(out@ =~= old_out.take(p as int).push(e) + old_out.skip(p as int));
        }
    }
    assert(original.subrange(0, original.len() as int) =~= original);
    proof {
        lemma_stable_sort_is(out@, original, position_key());
    }
    out
}

/// Encodes absolute tokens into the LSP delta form, sorting them by
/// (line, start) first (ties keep their order).
pub fn encode(tokens: Vec<AbsoluteToken>) -> (r: Vec<SemanticToken>)
    ensures
        r@ == encode_spec(tokens@),
{
    let sorted = sort_by_position(tokens);
    let ghost s = sorted@;
    let mut out: Vec<SemanticToken> = Vec::new();
    let mut prev_line: u32 = 0;
    let mut prev_start: u32 = 0;
    let n = sorted.len();
    for i in 0..n
        invariant
            n == s.len(),
            s == sorted@,
            sorted_by(s, position_key()),
            out@.len() == i,
            forall|k: int| 0 <= k < i ==> #[trigger] out@[k] == delta_token(s, k),
            i == 0 ==> prev_line == 0 && prev_start == 0,
            i > 0 ==> prev_line == s[i - 1].line && prev_start == s[i - 1].start,
    {
        let token = sorted[i];
        if i > 0 {
            proof {
                lemma_position_key_order(s[i - 1], s[i as int]);
            }
            assert(position_key()(s[i - 1]) <= position_key()(s[i as int]));
        }
        let delta_line = token.line - prev_line;
        let delta_start = if i == 0 || delta_line != 0 {
            token.start
        } else {
            token.start - prev_start
        };
        out.push(
            SemanticToken {
                delta_line,
                delta_start,
                length: token.length,
                token_type: token.token_type,
                token_modifiers_bitset: token.modifiers,
            },
        );
        prev_line = token.line;
        prev_start = token.start;
    }
    assert(out@ =~= delta_encode(s));
    out
}

/// The single-line token of `range` when its end lies after its start on
/// the start's line.
pub open spec fn single_line_token_spec(range: PositionRange, token_type: u32, modifiers: u32) -> Option<
    AbsoluteToken,
> {
    if range.end.character <= range.start.character {
        None
    } else {
        Some(
            AbsoluteToken {
                line: range.start.line,
                start: range.start.character,
                length: (range.end.character - range.start.character) as u32,
                token_type,
                modifiers,
            },
        )
    }
}

/// The UTF-16 length of line `line`'s content in text `b`.
pub open spec fn line_end_character_spec(b: Seq<u8>, line: u32) -> u32 {
    offset_to_position_spec(
        b,
        position_to_offset_spec(b, Position { line, character: u32::MAX }),
    ).character
}

/// The token covering line `line`'s share of `range`: from the range start
/// (or column 0) to the range end (or the line's content end), if that is
/// not empty.
pub open spec fn line_token_spec(
    b: Seq<u8>,
    range: PositionRange,
    line: u32,
    token_type: u32,
    modifiers: u32,
) -> Option<AbsoluteToken> {
    let start_char = if line == range.start.line {
        range.start.character
    } else {
        0
    };
    let end_char = if line == range.end.line {
        range.end.character
    } else {
        line_end_character_spec(b, line)
    };
    if end_char > start_char {
        Some(
            AbsoluteToken {
                line,
                start: start_char,
                length: (end_char - start_char) as u32,
                token_type,
                modifiers,
            },
        )
    } else {
        None
    }
}

/// The sequence holding the token, if there is one.
pub open spec fn opt_seq(t: Option<AbsoluteToken>) -> Seq<AbsoluteToken> {
    match t {
        Some(t) => seq![t],
        None => seq![],
    }
}

/// Per-line tokens of `range` for lines `lo..hi`.
pub open spec fn line_tokens_between(
    b: Seq<u8>,
    range: PositionRange,
    lo: int,
    hi: int,
    token_type: u32,
    modifiers: u32,
) -> Seq<AbsoluteToken>
    decreases hi - lo,
{
    if hi <= lo {
        seq![]
    } else {
        line_tokens_between(b, range, lo, hi - 1, token_type, modifiers) + opt_seq(
            line_token_spec(b, range, (hi - 1) as u32, token_type, modifiers),
        )
    }
}

/// One token per line that the byte span `span` of text `b` covers, each
/// clipped to that line's content; empty pieces are dropped.
pub open spec fn span_to_line_tokens_spec(b: Seq<u8>, span: Span, token_type: u32, modifiers: u32) -> Seq<
    AbsoluteToken,
> {
    let range = PositionRange {
        start: offset_to_position_spec(b, span.start),
        end: offset_to_position_spec(b, span.end),
    };
    if range.start.line == range.end.line {
        opt_seq(single_line_token_spec(range, token_type, modifiers))
    } else {
        line_tokens_between(
            b,
            range,
            range.start.line as int,
            range.end.line as int + 1,
            token_type,
            modifiers,
        )
    }
}

/// Converts one (possibly multi-line) byte span into one token per line it
/// covers, since an LSP token cannot cross a line break. A span whose
/// piece of a line is empty contributes nothing for that line.
pub fn span_to_line_tokens(line_index: &LineIndex, span: Span, token_type: u32, modifiers: u32) -> (r:
    Vec<AbsoluteToken>)
    ensures
        r@ == span_to_line_tokens_spec(line_index.bytes(), span, token_type, modifiers),
{
    let range = line_index.span_to_range(span);
    let ghost b = line_index.bytes();
    if range.start.line == range.end.line {
        let mut out: Vec<AbsoluteToken> = Vec::new();
        match single_line_token(range, token_type, modifiers) {
            Some(t) => {
                out.push(t);
                assert(out@ =~= seq![t]);
            },
            None => {},
        }
        return out;
    }
    let mut out: Vec<AbsoluteToken> = Vec::new();
    let first = range.start.line;
    let last = range.end.line;
    if first > last {
        return out;
    }
    let mut line = first;
    let mut done = false;
    while !done
        invariant
            first <= line <= last,
            b == line_index.bytes(),
            range.start.line == first,
            range.end.line == last,
            done ==> line == last && out@ == line_tokens_between(
                b,
                range,
                first as int,
                last as int + 1,
                token_type,
                modifiers,
            ),
            !done ==> out@ == line_tokens_between(
                b,
                range,
                first as int,
                line as int,
                token_type,
                modifiers,
            ),
        decreases last - line + (if done {
            0int
        } else {
            1int
        }),
    {
        let start_char = if line == first {
            range.start.character
        } else {
            0
        };
        let end_char = if line == last {
            range.end.character
        } else {
            line_end_character(line_index, line)
        };
        let ghost before = out@;
        if end_char > start_char {
            out.push(
                AbsoluteToken {
                    line,
                    start: start_char,
                    length: end_char - start_char,
                    token_type,
                    modifiers,
                },
            );
        }
        assert(out@ =~= before + opt_seq(line_token_spec(b, range, line, token_type, modifiers)));
        if line == last {
            done = true;
        } else {
            line = line + 1;
        }
    }
    out
}

/// The token for a range on a single line, if it is not empty.
fn single_line_token(range: PositionRange, token_type: u32, modifiers: u32) -> (r: Option<
    AbsoluteToken,
>)
    ensures
        r == single_line_token_spec(range, token_type, modifiers),
{
    if range.end.character <= range.start.character {
        return None;
    }
    Some(
        AbsoluteToken {
            line: range.start.line,
            start: range.start.character,
            length: range.end.character - range.start.character,
            token_type,
            modifiers,
        },
    )
}

/// The UTF-16 length of `line`'s own content: a character index past a
/// line's end clamps to its content end, and that offset converts back to
/// the content length.
fn line_end_character(line_index: &LineIndex, line: u32) -> (r: u32)
    ensures
        r == line_end_character_spec(line_index.bytes(), line),
{
    let offset = line_index.position_to_offset(Position::new(line, u32::MAX));
    line_index.offset_to_position(offset).character
}

/// Two same-line tokens share a UTF-16 column (ends saturate).
pub open spec fn tokens_overlap(a: AbsoluteToken, b: AbsoluteToken) -> bool {
    a.line == b.line && a.start < sat_add(b.start, b.length) && b.start < sat_add(a.start, a.length)
}

/// Whether two same-line tokens overlap (share any UTF-16 column).
fn overlaps(a: AbsoluteToken, b: AbsoluteToken) -> (r: bool)
    ensures
        r == tokens_overlap(a, b),
{
    a.line == b.line && a.start < b.start.saturating_add(b.length) && b.start < a.start.saturating_add(
        a.length,
    )
}

/// `s` with every token that overlaps the most recently kept one dropped.
pub open spec fn drop_overlaps_spec(s: Seq<AbsoluteToken>) -> Seq<AbsoluteToken>
    decreases s.len(),
{
    if s.len() == 0 {
        seq![]
    } else {
        let kept = drop_overlaps_spec(s.drop_last());
        if kept.len() > 0 && tokens_overlap(kept.last(), s.last()) {
            kept
        } else {
            kept.push(s.last())
        }
    }
}

/// The rust-analyzer tokens that overlap none of `outou`.
pub open spec fn not_overlapping_any(outou: Seq<AbsoluteToken>) -> spec_fn(AbsoluteToken) -> bool {
    |t: AbsoluteToken| !(exists|k: int| 0 <= k < outou.len() && tokens_overlap(t, #[trigger] outou[k]))
}

/// What [`merge`] answers: rust-analyzer tokens overlapping an Outou token
/// are dropped, the rest are joined with the Outou tokens, stably sorted by
/// (line, start), and any token overlapping the one kept before it is
/// dropped.
pub open spec fn merge_spec(ra: Seq<AbsoluteToken>, outou: Seq<AbsoluteToken>) -> Seq<AbsoluteToken> {
    drop_overlaps_spec(
        stable_sort(keep_if(ra, not_overlapping_any(outou)) + outou, position_key()),
    )
}

/// Merges rust-analyzer-derived tokens with Outou's own overlay tokens:
/// Outou's tokens win every position they cover, and the result is sorted
/// by (line, start) with overlapping later tokens dropped.
pub fn merge(ra_tokens: Vec<AbsoluteToken>, outou_tokens: Vec<AbsoluteToken>) -> (r: Vec<
    AbsoluteToken,
>)
    ensures
        r@ == merge_spec(ra_tokens@, outou_tokens@),
{
    let ghost pred = not_overlapping_any(outou_tokens@);
    let mut merged: Vec<AbsoluteToken> = Vec::new();
    let n = ra_tokens.len();
    for i in 0..n
        invariant
            n == ra_tokens@.len(),
            pred == not_overlapping_any(outou_tokens@),
            merged@ == keep_if(ra_tokens@.take(i as int), pred),
    {
        let ra = ra_tokens[i];
        assert(ra_tokens@.take(i + 1).drop_last() =~= ra_tokens@.take(i as int));
        let mut hit = false;
        for k in 0..outou_tokens.len()
            invariant
                hit == exists|t: int|
                    0 <= t < k && tokens_overlap(ra, #[trigger] outou_tokens@[t]),
        {
            if overlaps(ra, outou_tokens[k]) {
                hit = true;
            }
        }
        if !hit {
            merged.push(ra);
        }
    }
    assert(ra_tokens@.take(n as int) =~= ra_tokens@);
    let ghost kept = merged@;
    for k in 0..outou_tokens.len()
        invariant
            merged@ == kept + outou_tokens@.take(k as int),
    {
        merged.push(outou_tokens[k]);
        assert(outou_tokens@.take(k + 1) =~= outou_tokens@.take(k as int).push(outou_tokens@[k as int]));
    }
    assert(outou_tokens@.take(outou_tokens@.len() as int) =~= outou_tokens@);
    let sorted = sort_by_position(merged);
    drop_overlaps_stable(sorted)
}

/// First-wins non-overlap pass over a sorted list: each token overlapping
/// the most recently kept one is dropped.
fn drop_overlaps_stable(sorted: Vec<AbsoluteToken>) -> (r: Vec<AbsoluteToken>)
    ensures
        r@ == drop_overlaps_spec(sorted@),
{
    let mut kept: Vec<AbsoluteToken> = Vec::new();
    let n = sorted.len();
    for i in 0..n
        invariant
            n == sorted@.len(),
            kept@ == drop_overlaps_spec(sorted@.take(i as int)),
    {
        let token = sorted[i];
        assert(sorted@.take(i + 1).drop_last() =~= sorted@.take(i as int));
        let overlaps_kept = kept.len() > 0 && overlaps(kept[kept.len() - 1], token);
        if !overlaps_kept {
            kept.push(token);
        }
    }
    assert(sorted@.take(n as int) =~= sorted@);
    kept
}

/// A token covers at least one UTF-16 column: its saturated end lies after
/// its start.
pub open spec fn covers_a_column(t: AbsoluteToken) -> bool {
    t.start < sat_add(t.start, t.length)
}

/// No two tokens of `s` on the same line overlap.
pub open spec fn pairwise_disjoint(s: Seq<AbsoluteToken>) -> bool {
    forall|i: int, j: int| 0 <= i < j < s.len() ==> !tokens_overlap(#[trigger] s[i], #[trigger] s[j])
}

proof fn lemma_drop_overlaps_sound(s: Seq<AbsoluteToken>)
    requires
        sorted_by(s, position_key()),
        forall|i: int| 0 <= i < s.len() ==> covers_a_column(#[trigger] s[i]),
    ensures
        sorted_by(drop_overlaps_spec(s), position_key()),
        pairwise_disjoint(drop_overlaps_spec(s)),
        forall|i: int|
            0 <= i < drop_overlaps_spec(s).len() ==> s.contains(#[trigger] drop_overlaps_spec(s)[i]),
    decreases s.len(),
{
    if s.len() > 0 {
        let prev = s.drop_last();
        assert forall|i: int, j: int| 0 <= i < j < prev.len() implies position_key()(
            #[trigger] prev[i],
        ) <= position_key()(#[trigger] prev[j]) by {
            assert(prev[i] == s[i] && prev[j] == s[j]);
        }
        assert forall|i: int| 0 <= i < prev.len() implies covers_a_column(#[trigger] prev[i]) by {
            assert(prev[i] == s[i]);
        }
        lemma_drop_overlaps_sound(prev);
        let kept = drop_overlaps_spec(prev);
        let c = s.last();
        assert forall|i: int| 0 <= i < kept.len() implies position_key()(#[trigger] kept[i])
            <= position_key()(c) && prev.contains(kept[i]) by {
            let j = choose|j: int| 0 <= j < prev.len() && prev[j] == kept[i];
            assert(s[j] == prev[j]);
            assert(position_key()(s[j]) <= position_key()(s[s.len() - 1]));
        }
        if !(kept.len() > 0 && tokens_overlap(kept.last(), c)) {
            let next = kept.push(c);
            assert(covers_a_column(c)) by {
                assert(c == s[s.len() - 1]);
            }
            assert forall|i: int| 0 <= i < kept.len() implies !tokens_overlap(#[trigger] kept[i], c) by {
                let k = kept.last();
                if i < kept.len() - 1 && kept[i].line == c.line {
                    let a = kept[i];
                    assert(position_key()(a) <= position_key()(k));
                    assert(position_key()(k) <= position_key()(c));
                    lemma_position_key_order(a, k);
                    lemma_position_key_order(k, c);
                    assert(!tokens_overlap(a, k));
                    let j = choose|j: int| 0 <= j < prev.len() && prev[j] == k;
                    assert(covers_a_column(prev[j])) by {
                        assert(prev[j] == s[j]);
                    }
                }
            }
            assert forall|i: int, j: int| 0 <= i < j < next.len() implies !tokens_overlap(
                #[trigger] next[i],
                #[trigger] next[j],
            ) by {
                if j < kept.len() {
                    assert(next[i] == kept[i] && next[j] == kept[j]);
                } else {
                    assert(next[i] == kept[i] && next[j] == c);
                }
            }
            assert forall|i: int, j: int| 0 <= i < j < next.len() implies position_key()(
                #[trigger] next[i],
            ) <= position_key()(#[trigger] next[j]) by {
                if j < kept.len() {
                    assert(next[i] == kept[i] && next[j] == kept[j]);
                } else {
                    assert(next[i] == kept[i] && next[j] == c);
                }
            }
            assert forall|i: int| 0 <= i < next.len() implies s.contains(#[trigger] next[i]) by {
                if i < kept.len() {
                    let j = choose|j: int| 0 <= j < prev.len() && prev[j] == kept[i];
                    assert(s[j] == prev[j]);
                } else {
                    assert(s[s.len() - 1] == c);
                }
            }
        } else {
            assert forall|i: int| 0 <= i < kept.len() implies s.contains(#[trigger] kept[i]) by {
                let j = choose|j: int| 0 <= j < prev.len() && prev[j] == kept[i];
                assert(s[j] == prev[j]);
            }
        }
    }
}

/// The merged token list is sorted by (line, start), no two of its tokens
/// overlap, and none of its rust-analyzer tokens overlaps an Outou token:
/// the overlay always wins. Holds when every input token covers at least
/// one column (a zero-width token can hide an overlap behind it).
pub proof fn lemma_merge_is_well_formed(ra: Seq<AbsoluteToken>, outou: Seq<AbsoluteToken>)
    requires
        forall|i: int| 0 <= i < ra.len() ==> covers_a_column(#[trigger] ra[i]),
        forall|i: int| 0 <= i < outou.len() ==> covers_a_column(#[trigger] outou[i]),
    ensures
        sorted_by(merge_spec(ra, outou), position_key()),
        pairwise_disjoint(merge_spec(ra, outou)),
        forall|i: int|
            0 <= i < merge_spec(ra, outou).len() ==> outou.contains(#[trigger] merge_spec(ra, outou)[i])
                || (ra.contains(merge_spec(ra, outou)[i]) && forall|k: int|
                0 <= k < outou.len() ==> !tokens_overlap(merge_spec(ra, outou)[i], #[trigger] outou[k])),
{
    let pred = not_overlapping_any(outou);
    let kept = keep_if(ra, pred);
    lemma_keep_if_members(ra, pred);
    let joined = kept + outou;
    let sorted = stable_sort(joined, position_key());
    lemma_stable_sort_exists(joined);
    lemma_stably_sorted_members(sorted, joined, position_key());
    assert forall|i: int| 0 <= i < sorted.len() implies covers_a_column(#[trigger] sorted[i]) by {
        let j = choose|j: int| 0 <= j < joined.len() && joined[j] == sorted[i];
        if j < kept.len() {
            assert(joined[j] == kept[j]);
            let t = choose|t: int| 0 <= t < ra.len() && ra[t] == kept[j];
        } else {
            assert(joined[j] == outou[j - kept.len()]);
        }
    }
    lemma_drop_overlaps_sound(sorted);
    let out = drop_overlaps_spec(sorted);
    assert forall|i: int| 0 <= i < out.len() implies outou.contains(#[trigger] out[i]) || (ra.contains(
        out[i],
    ) && forall|k: int| 0 <= k < outou.len() ==> !tokens_overlap(out[i], #[trigger] outou[k])) by {
        let a = choose|a: int| 0 <= a < sorted.len() && sorted[a] == out[i];
        let j = choose|j: int| 0 <= j < joined.len() && joined[j] == sorted[a];
        if j < kept.len() {
            assert(joined[j] == kept[j]);
            assert(pred(kept[j]));
        } else {
            assert(joined[j] == outou[j - kept.len()]);
        }
    }
}

/// Some stable sort of `s` exists (so [`stable_sort`] is one).
proof fn lemma_stable_sort_exists(s: Seq<AbsoluteToken>)
    ensures
        stably_sorted(stable_sort(s, position_key()), s, position_key()),
    decreases s.len(),
{
    if s.len() == 0 {
        assert(stably_sorted(s, s, position_key()));
    } else {
        let tail = s.drop_first();
        lemma_stable_sort_exists(tail);
        let out = stable_sort(tail, position_key());
        let e = s[0];
        let p = choose_insert_point(out, e);
        lemma_insert_keeps_stable(out, tail, e, p, position_key());
        assert(seq![e] + tail =~= s);
        let next = out.take(p).push(e) + out.skip(p);
        assert(stably_sorted(next, s, position_key()));
    }
}

/// The first index of `out` whose key is not smaller than `e`'s.
spec fn first_not_before(out: Seq<AbsoluteToken>, e: AbsoluteToken, p: int) -> int
    decreases out.len() - p,
{
    if p >= out.len() || position_key()(out[p]) >= position_key()(e) {
        p
    } else {
        first_not_before(out, e, p + 1)
    }
}

proof fn lemma_first_not_before(out: Seq<AbsoluteToken>, e: AbsoluteToken, p: int)
    requires
        0 <= p <= out.len(),
        forall|i: int| 0 <= i < p ==> position_key()(#[trigger] out[i]) < position_key()(e),
    ensures
        p <= first_not_before(out, e, p) <= out.len(),
        forall|i: int|
            0 <= i < first_not_before(out, e, p) ==> position_key()(#[trigger] out[i])
                < position_key()(e),
        first_not_before(out, e, p) < out.len() ==> position_key()(out[first_not_before(out, e, p)])
            >= position_key()(e),
    decreases out.len() - p,
{
    if p < out.len() && position_key()(out[p]) < position_key()(e) {
        lemma_first_not_before(out, e, p + 1);
    }
}

proof fn choose_insert_point(out: Seq<AbsoluteToken>, e: AbsoluteToken) -> (p: int)
    ensures
        0 <= p <= out.len(),
        forall|i: int| 0 <= i < p ==> position_key()(#[trigger] out[i]) < position_key()(e),
        p < out.len() ==> position_key()(out[p]) >= position_key()(e),
{
    lemma_first_not_before(out, e, 0);
    first_not_before(out, e, 0)
}

/// Decoding never overflowed: no accumulated line or same-line start went
/// past `u32::MAX`.
pub open spec fn decode_fits(ts: Seq<SemanticToken>) -> bool
    decreases ts.len(),
{
    if ts.len() == 0 {
        true
    } else {
        let prev = decode_spec(ts.drop_last());
        let line: u32 = if prev.len() == 0 {
            0
        } else {
            prev.last().line
        };
        let start: u32 = if prev.len() == 0 {
            0
        } else {
            prev.last().start
        };
        let t = ts.last();
        &&& decode_fits(ts.drop_last())
        &&& line + t.delta_line <= u32::MAX
        &&& (t.delta_line == 0 ==> start + t.delta_start <= u32::MAX)
    }
}

proof fn lemma_decode_len(ts: Seq<SemanticToken>)
    ensures
        decode_spec(ts).len() == ts.len(),
    decreases ts.len(),
{
    if ts.len() > 0 {
        lemma_decode_len(ts.drop_last());
    }
}

/// Decoded lines never decrease, whatever the deltas.
pub proof fn lemma_decode_lines_non_decreasing(ts: Seq<SemanticToken>)
    ensures
        forall|i: int, j: int|
            0 <= i < j < decode_spec(ts).len() ==> (#[trigger] decode_spec(ts)[i]).line <= (
            #[trigger] decode_spec(ts)[j]).line,
    decreases ts.len(),
{
    if ts.len() > 0 {
        let prev = ts.drop_last();
        lemma_decode_lines_non_decreasing(prev);
        lemma_decode_len(prev);
        let d = decode_spec(ts);
        let p = decode_spec(prev);
        assert forall|i: int, j: int| 0 <= i < j < d.len() implies (#[trigger] d[i]).line <= (
        #[trigger] d[j]).line by {
            assert(d[i] == p[i]);
            if j < p.len() {
                assert(d[j] == p[j]);
            } else {
                assert(p[i].line <= p[p.len() - 1].line);
            }
        }
    }
}

/// When decoding does not saturate, its output is sorted and delta-encodes
/// back to the input.
proof fn lemma_decode_sorted_and_deltas(ts: Seq<SemanticToken>)
    requires
        decode_fits(ts),
    ensures
        sorted_by(decode_spec(ts), position_key()),
        delta_encode(decode_spec(ts)) == ts,
    decreases ts.len(),
{
    lemma_decode_len(ts);
    if ts.len() > 0 {
        let prev = ts.drop_last();
        lemma_decode_sorted_and_deltas(prev);
        lemma_decode_len(prev);
        let d = decode_spec(ts);
        let p = decode_spec(prev);
        let n = d.len() - 1;
        assert(d[n] == d.last());
        if n > 0 {
            lemma_position_key_order(p[n - 1], d[n]);
            assert(position_key()(p[n - 1]) <= position_key()(d[n]));
        }
        assert forall|i: int, j: int| 0 <= i < j < d.len() implies position_key()(#[trigger] d[i])
            <= position_key()(#[trigger] d[j]) by {
            assert(d[i] == p[i]);
            if j < p.len() {
                assert(d[j] == p[j]);
            } else {
                assert(position_key()(p[i]) <= position_key()(p[p.len() - 1]));
            }
        }
        assert forall|i: int| 0 <= i < d.len() implies #[trigger] delta_encode(d)[i] == ts[i] by {
            if i < n {
                assert(d[i] == p[i]);
                if i > 0 {
                    assert(d[i - 1] == p[i - 1]);
                }
                assert(delta_token(d, i) == delta_token(p, i));
                assert(delta_encode(p)[i] == prev[i]);
            } else if n > 0 {
                assert(d[n - 1] == p[n - 1]);
            }
        }
        assert(delta_encode(d) =~= ts);
    } else {
        assert(delta_encode(decode_spec(ts)) =~= ts);
    }
}

/// Encoding undoes decoding whenever decoding did not saturate.
pub proof fn lemma_encode_decode_inverse(ts: Seq<SemanticToken>)
    requires
        decode_fits(ts),
    ensures
        encode_spec(decode_spec(ts)) == ts,
{
    lemma_decode_sorted_and_deltas(ts);
    lemma_sorted_is_own_stable_sort(decode_spec(ts), position_key());
}

} // verus!
