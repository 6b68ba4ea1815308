//! Byte offset <-> LSP `{line, character}` position conversion.
//!
//! Spans are UTF-8 byte offsets; the Language Server Protocol counts
//! `character` in UTF-16 code units within a line. [`LineIndex`] bridges the
//! two. Line boundaries follow `\n`, `\r\n` and lone `\r`.
use vstd::prelude::*;
use vstd::string::StringSliceAdditionalSpecFns;
use vstd::utf8::*;

use crate::span::Span;

verus! {

/// A 0-based line/character position, `character` in UTF-16 code units.
#[derive(Debug, Clone, Copy, PartialEq, Eq, Structural, PartialOrd, Ord, Hash)]
pub struct Position {
    /// 0-based line number.
    pub line: u32,
    /// 0-based UTF-16 code unit offset within the line.
    pub character: u32,
}

impl Position {
    /// Creates a position.
    pub fn new(line: u32, character: u32) -> (r: Self)
        ensures
            r.line == line,
            r.character == character,
    {
        Position { line, character }
    }

    /// `self` comes strictly after `other` in (line, character) order.
    pub open spec fn is_after(self, other: Position) -> bool {
        self.line > other.line || (self.line == other.line && self.character > other.character)
    }

    /// Whether `self` comes strictly after `other` in (line, character) order.
    pub fn after(self, other: Position) -> (r: bool)
        ensures
            r == self.is_after(other),
    {
        self.line > other.line || (self.line == other.line && self.character > other.character)
    }
}

/// A `start`/`end` pair of [`Position`]s, half-open like [`Span`].
#[derive(Debug, Clone, Copy, PartialEq, Eq, Structural)]
pub struct PositionRange {
    /// Inclusive start position.
    pub start: Position,
    /// Exclusive end position.
    pub end: Position,
}

impl PositionRange {
    /// Creates a range.
    pub fn new(start: Position, end: Position) -> (r: Self)
        ensures
            r.start == start,
            r.end == end,
    {
        PositionRange { start, end }
    }
}

/// How many UTF-16 code units the character starting with byte `x` takes:
/// none for a continuation byte, two for the lead byte of a four-byte
/// sequence (a character outside the Basic Multilingual Plane), else one.
pub open spec fn utf16_weight(x: u8) -> int {
    if is_continuation_byte(x) {
        0
    } else if is_leading_byte_width_4(x) {
        2
    } else {
        1
    }
}

/// UTF-16 code units of the bytes `b[from..to]`.
pub open spec fn utf16_units(b: Seq<u8>, from: int, to: int) -> int
    decreases to - from,
{
    if to <= from {
        0
    } else {
        utf16_units(b, from, to - 1) + utf16_weight(b[to - 1])
    }
}

/// A new line starts at byte `j`: the byte before it is `\n`, or a `\r`
/// that is not followed by `\n`.
pub open spec fn starts_line(b: Seq<u8>, j: int) -> bool {
    0 < j <= b.len() && (b[j - 1] == 10 || (b[j - 1] == 13 && (j == b.len() || b[j] != 10)))
}

/// The byte offsets at which lines start, among offsets `0..=n`.
pub open spec fn line_starts_upto(b: Seq<u8>, n: int) -> Seq<int>
    decreases n,
{
    if n <= 0 {
        seq![0]
    } else {
        let p = line_starts_upto(b, n - 1);
        if starts_line(b, n) {
            p.push(n)
        } else {
            p
        }
    }
}

/// The byte offsets at which the lines of `b` start, in order.
pub open spec fn line_starts_of(b: Seq<u8>) -> Seq<int> {
    line_starts_upto(b, b.len() as int)
}

/// The line that byte offset `c` falls on.
pub open spec fn line_of(b: Seq<u8>, c: int) -> int {
    line_starts_upto(b, c).len() - 1
}

/// Byte offset of the end of line `line`'s content, before its terminator.
pub open spec fn content_end(b: Seq<u8>, line: int) -> int {
    let s = line_starts_of(b);
    let start = s[line];
    let end = if line + 1 < s.len() {
        s[line + 1]
    } else {
        b.len() as int
    };
    if end > start && b[end - 1] == 10 {
        if end - 1 > start && b[end - 2] == 13 {
            end - 2
        } else {
            end - 1
        }
    } else if end > start && b[end - 1] == 13 {
        end - 1
    } else {
        end
    }
}

/// The largest offset `<= x` that is not inside a multi-byte character
/// (offsets past the end clamp to the end).
pub open spec fn floor_boundary(b: Seq<u8>, x: int) -> int
    decreases x,
{
    if x >= b.len() {
        b.len() as int
    } else if x <= 0 || !is_continuation_byte(b[x]) {
        x
    } else {
        floor_boundary(b, x - 1)
    }
}

/// The position of byte offset `offset` in text `b`: clamped to the text,
/// rounded down to a character boundary, normalised out of a line
/// terminator, and counted in UTF-16 units from its line's start.
pub open spec fn offset_to_position_spec(b: Seq<u8>, offset: u32) -> Position {
    let c = floor_boundary(b, if offset < b.len() {
        offset as int
    } else {
        b.len() as int
    });
    let line = line_of(b, c);
    let start = line_starts_of(b)[line];
    let end = if c < content_end(b, line) {
        c
    } else {
        content_end(b, line)
    };
    Position { line: line as u32, character: utf16_units(b, start, end) as u32 }
}

/// Scans line content `b[k..end]` (whose line starts at `start`) for the
/// first character whose UTF-16 units would carry the count past `ch`.
pub open spec fn scan_to_character(b: Seq<u8>, start: int, k: int, end: int, ch: int) -> int
    decreases end - k,
{
    if k >= end {
        end
    } else if utf16_weight(b[k]) > 0 && utf16_units(b, start, k) + utf16_weight(b[k]) > ch {
        k
    } else {
        scan_to_character(b, start, k + 1, end, ch)
    }
}

/// The byte offset of `position` in text `b`: the line is clamped to the
/// last line, and the offset is the last character start on that line's
/// content whose UTF-16 count does not exceed `position.character`.
pub open spec fn position_to_offset_spec(b: Seq<u8>, position: Position) -> u32 {
    let s = line_starts_of(b);
    let line = if position.line < s.len() - 1 {
        position.line as int
    } else {
        s.len() - 1
    };
    scan_to_character(b, s[line], s[line], content_end(b, line), position.character as int) as u32
}

/// Maps between byte offsets and [`Position`]s for one file's full text.
#[derive(Debug, PartialEq, Eq)]
pub struct LineIndex {
    text: String,
    line_starts: Vec<u32>,
}

/// The values of `v`, as integers.
pub open spec fn as_ints(v: Seq<u32>) -> Seq<int> {
    v.map_values(|x: u32| x as int)
}

impl LineIndex {
    #[verifier::type_invariant]
    spec fn inv(&self) -> bool {
        &&& encode_utf8(self.text@).len() <= u32::MAX
        &&& as_ints(self.line_starts@) == line_starts_of(encode_utf8(self.text@))
    }

    /// The UTF-8 bytes of the indexed text.
    pub closed spec fn bytes(&self) -> Seq<u8> {
        encode_utf8(self.text@)
    }

    /// The indexed text.
    pub closed spec fn chars(&self) -> Seq<char> {
        self.text@
    }

    /// Builds a line index from a file's full text.
    pub fn new(text: &str) -> (r: Self)
        requires
            text.spec_bytes().len() <= u32::MAX,
        ensures
            r.chars() == text@,
            r.bytes() == text.spec_bytes(),
    {
        let bytes = text.as_bytes();
        let ghost b = bytes@;
        let n = bytes.len();
        let mut line_starts: Vec<u32> = Vec::new();
        line_starts.push(0);
        assert(as_ints(line_starts@) =~= line_starts_upto(b, 0));
        let mut i: usize = 0;
        while i < n
            invariant
                n == b.len(),
                b == bytes@,
                n <= u32::MAX,
                0 <= i <= n,
                as_ints(line_starts@) == line_starts_upto(b, i as int),
            decreases n - i,
        {
            let ghost prev = line_starts@;
            if bytes[i] == 13 {
                if i + 1 < n && bytes[i + 1] == 10 {
                    assert(line_starts_upto(b, i + 1) == line_starts_upto(b, i as int));
                    i = i + 2;
                } else {
                    i = i + 1;
                }
                line_starts.push(i as u32);
            } else if bytes[i] == 10 {
                i = i + 1;
                line_starts.push(i as u32);
            } else {
                i = i + 1;
            }
            assert(as_ints(line_starts@) =~= line_starts_upto(b, i as int));
        }
        LineIndex { text: text.to_owned(), line_starts }
    }

    /// The indexed text.
    pub fn text(&self) -> (r: &str)
        ensures
            r@ == self.chars(),
    {
        self.text.as_str()
    }

    /// The number of lines, counting a trailing empty line after a final
    /// line terminator.
    pub fn line_count(&self) -> (r: u32)
        ensures
            r == line_starts_of(self.bytes()).len() as u32,
    {
        proof {
            use_type_invariant(self);
        }
        assert(self.line_starts@.len() == as_ints(self.line_starts@).len());
        self.line_starts.len() as u32
    }

    /// Byte offset of the end of `line`'s content, excluding its line
    /// terminator (`\n`, `\r\n` or `\r`).
    pub fn line_content_end(&self, line: usize) -> (r: u32)
        requires
            line < line_starts_of(self.bytes()).len(),
        ensures
            r == content_end(self.bytes(), line as int),
    {
        proof {
            use_type_invariant(self);
            lemma_line_starts_props(self.bytes(), self.bytes().len() as int);
            encode_utf8_valid_utf8(self.text@);
        }
        let bytes = self.text.as_str().as_bytes();
        let ghost b = bytes@;
        assert(b == self.bytes());
        assert(as_ints(self.line_starts@)[line as int] == self.line_starts@[line as int] as int);
        assert(as_ints(self.line_starts@).len() == self.line_starts@.len());
        let start = self.line_starts[line];
        let end = if line < self.line_starts.len() - 1 {
            assert(as_ints(self.line_starts@)[line + 1] == self.line_starts@[line + 1] as int);
            self.line_starts[line + 1]
        } else {
            bytes.len() as u32
        };
        if end > start && bytes[end as usize - 1] == 10 {
            if end - 1 > start && bytes[end as usize - 2] == 13 {
                end - 2
            } else {
                end - 1
            }
        } else if end > start && bytes[end as usize - 1] == 13 {
            end - 1
        } else {
            end
        }
    }

    /// The line whose start is the last one at or before byte `c`.
    fn find_line(&self, c: u32) -> (r: usize)
        requires
            c <= self.bytes().len(),
        ensures
            r as int == line_of(self.bytes(), c as int),
            r < line_starts_of(self.bytes()).len(),
    {
        proof {
            use_type_invariant(self);
            lemma_line_starts_props(self.bytes(), self.bytes().len() as int);
        }
        let ghost s = line_starts_of(self.bytes());
        let mut lo: usize = 0;
        let mut hi: usize = self.line_starts.len();
        assert(as_ints(self.line_starts@)[0] == self.line_starts@[0] as int);
        while lo + 1 < hi
            invariant
                as_ints(self.line_starts@) == s,
                s == line_starts_of(self.bytes()),
                hi <= s.len(),
                s.len() == self.line_starts@.len(),
                0 <= lo < hi,
                s[lo as int] <= c,
                hi < s.len() ==> c < s[hi as int],
                forall|i: int, j: int| 0 <= i < j < s.len() ==> s[i] < s[j],
            decreases hi - lo,
        {
            let mid = lo + (hi - lo) / 2;
            assert(as_ints(self.line_starts@)[mid as int] == self.line_starts@[mid as int] as int);
            if self.line_starts[mid] <= c {
                lo = mid;
            } else {
                hi = mid;
            }
        }
        proof {
            lemma_line_of_from_bracket(self.bytes(), c as int, lo as int);
        }
        lo
    }

    /// Converts a byte offset into a [`Position`]: past the end clamps to
    /// the end, inside a multi-byte character rounds down, and inside a line
    /// terminator normalises to that line's content end.
    pub fn offset_to_position(&self, offset: u32) -> (r: Position)
        ensures
            r == offset_to_position_spec(self.bytes(), offset),
    {
        proof {
            use_type_invariant(self);
            lemma_line_starts_props(self.bytes(), self.bytes().len() as int);
            encode_utf8_valid_utf8(self.text@);
        }
        let bytes = self.text.as_str().as_bytes();
        let ghost b = bytes@;
        assert(b == self.bytes());
        let len = bytes.len();
        let clamped = if (offset as usize) < len {
            offset as usize
        } else {
            len
        };
        let clamped = floor_char_boundary(bytes, clamped);
        let line = self.find_line(clamped as u32);
        assert(as_ints(self.line_starts@)[line as int] == self.line_starts@[line as int] as int);
        let line_start = self.line_starts[line];
        let content = self.line_content_end(line);
        let end = if (clamped as u32) < content {
            clamped as u32
        } else {
            content
        };
        proof {
            lemma_line_start_le(b, clamped as int);
            lemma_content_end_bounds(b, line as int);
        }
        let character = utf16_count(bytes, line_start as usize, end as usize);
        Position { line: line as u32, character }
    }

    /// Converts a [`Position`] into a byte offset: a line past the last
    /// clamps to the last line, a character past the line's content clamps
    /// to its content end, and a character that bisects a UTF-16 surrogate
    /// pair floors to that character's start.
    pub fn position_to_offset(&self, position: Position) -> (r: u32)
        ensures
            r == position_to_offset_spec(self.bytes(), position),
    {
        proof {
            use_type_invariant(self);
            lemma_line_starts_props(self.bytes(), self.bytes().len() as int);
            encode_utf8_valid_utf8(self.text@);
        }
        let bytes = self.text.as_str().as_bytes();
        let ghost b = bytes@;
        assert(b == self.bytes());
        let last = self.line_starts.len() - 1;
        let line = if (position.line as usize) < last {
            position.line as usize
        } else {
            last
        };
        assert(as_ints(self.line_starts@)[line as int] == self.line_starts@[line as int] as int);
        let line_start = self.line_starts[line];
        let content = self.line_content_end(line);
        proof {
            lemma_content_end_bounds(b, line as int);
        }
        let mut byte: u32 = line_start;
        let mut units: u32 = 0;
        let ch = position.character;
        while byte < content && !stops_at(bytes, byte, units, ch)
            invariant
                b == bytes@,
                b.len() <= u32::MAX,
                valid_utf8(b),
                line_start <= byte <= content <= b.len(),
                units == utf16_units(b, line_start as int, byte as int),
                scan_to_character(b, line_start as int, line_start as int, content as int, ch as int)
                    == scan_to_character(b, line_start as int, byte as int, content as int, ch as int),
            decreases content - byte,
        {
            proof {
                lemma_units_bound(b, line_start as int, byte + 1);
            }
            units = units + weight_of(bytes[byte as usize]);
            byte = byte + 1;
        }
        byte
    }

    /// Converts a byte [`Span`] into a [`PositionRange`].
    pub fn span_to_range(&self, span: Span) -> (r: PositionRange)
        ensures
            r.start == offset_to_position_spec(self.bytes(), span.start),
            r.end == offset_to_position_spec(self.bytes(), span.end),
    {
        PositionRange::new(self.offset_to_position(span.start), self.offset_to_position(span.end))
    }

    /// Converts a [`PositionRange`] into a byte [`Span`].
    pub fn range_to_span(&self, range: PositionRange) -> (r: Span)
        ensures
            r.start == position_to_offset_spec(self.bytes(), range.start),
            r.end == position_to_offset_spec(self.bytes(), range.end),
    {
        Span { start: self.position_to_offset(range.start), end: self.position_to_offset(range.end) }
    }
}

/// UTF-16 weight of one byte.
fn weight_of(x: u8) -> (r: u32)
    ensures
        r == utf16_weight(x),
{
    if 0x80 <= x && x <= 0xbf {
        0
    } else if 0xf0 <= x && x <= 0xf7 {
        2
    } else {
        1
    }
}

/// Whether the character starting at byte `k` would carry a running count
/// of `units` UTF-16 units past `ch`.
fn stops_at(bytes: &[u8], k: u32, units: u32, ch: u32) -> (r: bool)
    requires
        k < bytes@.len(),
    ensures
        r == (utf16_weight(bytes@[k as int]) > 0 && units + utf16_weight(bytes@[k as int]) > ch),
{
    let w = weight_of(bytes[k as usize]);
    w > 0 && (units as u64) + (w as u64) > (ch as u64)
}

/// UTF-16 code units of `bytes[from..to]`.
fn utf16_count(bytes: &[u8], from: usize, to: usize) -> (r: u32)
    requires
        from <= to <= bytes@.len(),
        bytes@.len() <= u32::MAX,
        valid_utf8(bytes@),
    ensures
        r == utf16_units(bytes@, from as int, to as int),
{
    let mut units: u32 = 0;
    let mut k = from;
    while k < to
        invariant
            from <= k <= to <= bytes@.len(),
            bytes@.len() <= u32::MAX,
            valid_utf8(bytes@),
            units == utf16_units(bytes@, from as int, k as int),
        decreases to - k,
    {
        proof {
            lemma_units_bound(bytes@, from as int, k + 1);
        }
        units = units + weight_of(bytes[k]);
        k = k + 1;
    }
    units
}

/// Largest index `<= offset` that lies on a UTF-8 character boundary.
fn floor_char_boundary(bytes: &[u8], offset: usize) -> (r: usize)
    requires
        offset <= bytes@.len(),
    ensures
        r == floor_boundary(bytes@, offset as int),
        r <= offset,
{
    if offset >= bytes.len() {
        return bytes.len();
    }
    let mut o = offset;
    while o > 0 && 0x80 <= bytes[o] && bytes[o] <= 0xbf
        invariant
            o <= offset < bytes@.len(),
            floor_boundary(bytes@, offset as int) == floor_boundary(bytes@, o as int),
        decreases o,
    {
        o = o - 1;
    }
    o
}

/// Basic facts about the line starts of `b` up to `n`.
pub proof fn lemma_line_starts_props(b: Seq<u8>, n: int)
    requires
        0 <= n <= b.len(),
    ensures
        line_starts_upto(b, n).len() >= 1,
        line_starts_upto(b, n)[0] == 0,
        line_starts_upto(b, n).len() <= n + 1,
        forall|i: int, j: int|
            0 <= i < j < line_starts_upto(b, n).len() ==> line_starts_upto(b, n)[i]
                < line_starts_upto(b, n)[j],
        forall|i: int|
            0 <= i < line_starts_upto(b, n).len() ==> 0 <= #[trigger] line_starts_upto(b, n)[i]
                <= n,
        forall|i: int|
            0 < i < line_starts_upto(b, n).len() ==> starts_line(
                b,
                #[trigger] line_starts_upto(b, n)[i],
            ),
    decreases n,
{
    if n > 0 {
        lemma_line_starts_props(b, n - 1);
    }
}

/// The line starts up to `m` are a prefix of those up to `n`, and every
/// later start lies beyond `m`.
proof fn lemma_line_starts_prefix(b: Seq<u8>, m: int, n: int)
    requires
        0 <= m <= n <= b.len(),
    ensures
        line_starts_upto(b, m).len() <= line_starts_upto(b, n).len(),
        line_starts_upto(b, n).take(line_starts_upto(b, m).len() as int) == line_starts_upto(b, m),
        forall|i: int|
            line_starts_upto(b, m).len() <= i < line_starts_upto(b, n).len() ==> m
                < #[trigger] line_starts_upto(b, n)[i],
    decreases n - m,
{
    if m == n {
        assert(line_starts_upto(b, n).take(line_starts_upto(b, m).len() as int) =~= line_starts_upto(
            b,
            m,
        ));
    } else {
        lemma_line_starts_prefix(b, m, n - 1);
        let p = line_starts_upto(b, n - 1);
        let q = line_starts_upto(b, n);
        let k = line_starts_upto(b, m).len() as int;
        if starts_line(b, n) {
            assert(q.take(k) =~= p.take(k));
        }
    }
}

/// A bracketing index `lo` (start at or before `c`, next start after it)
/// is the line of `c`.
proof fn lemma_line_of_from_bracket(b: Seq<u8>, c: int, lo: int)
    requires
        0 <= c <= b.len(),
        0 <= lo < line_starts_of(b).len(),
        line_starts_of(b)[lo] <= c,
        lo + 1 < line_starts_of(b).len() ==> c < line_starts_of(b)[lo + 1],
    ensures
        line_of(b, c) == lo,
{
    let s = line_starts_of(b);
    lemma_line_starts_props(b, b.len() as int);
    lemma_line_starts_props(b, c);
    lemma_line_starts_prefix(b, c, b.len() as int);
    let p = line_starts_upto(b, c);
    assert(s.take(p.len() as int) == p);
    let k = p.len() - 1;
    assert(s[k] == p[k]);
    if k < lo {
        assert(s[k + 1] > c);
        assert(s[k + 1] <= s[lo]);
    } else if k > lo {
        assert(s[lo + 1] == p[lo + 1]);
    }
}

/// The line of `c` starts at or before `c`, and `c`'s line start is a real
/// line start of the whole text.
proof fn lemma_line_start_le(b: Seq<u8>, c: int)
    requires
        0 <= c <= b.len(),
    ensures
        0 <= line_of(b, c) < line_starts_of(b).len(),
        line_starts_of(b)[line_of(b, c)] <= c,
        line_of(b, c) + 1 < line_starts_of(b).len() ==> c < line_starts_of(b)[line_of(b, c) + 1],
{
    lemma_line_starts_props(b, c);
    lemma_line_starts_props(b, b.len() as int);
    lemma_line_starts_prefix(b, c, b.len() as int);
    let p = line_starts_upto(b, c);
    let s = line_starts_of(b);
    assert(s.take(p.len() as int) == p);
    assert(s[p.len() - 1] == p[p.len() - 1]);
}

/// A line's content end lies between its start and the next line's start.
proof fn lemma_content_end_bounds(b: Seq<u8>, line: int)
    requires
        0 <= line < line_starts_of(b).len(),
    ensures
        line_starts_of(b)[line] <= content_end(b, line) <= b.len(),
        line + 1 < line_starts_of(b).len() ==> content_end(b, line) < line_starts_of(b)[line + 1],
{
    lemma_line_starts_props(b, b.len() as int);
}

/// Lead bytes of four-byte sequences are always followed by a
/// continuation byte in valid UTF-8.
proof fn lemma_width_4_followed(b: Seq<u8>, k: int)
    requires
        valid_utf8(b),
        0 <= k < b.len(),
        is_leading_byte_width_4(b[k]),
    ensures
        k + 1 < b.len(),
        is_continuation_byte(b[k + 1]),
    decreases b.len(),
{
    let l = length_of_first_scalar(b);
    if k >= l {
        let rest = pop_first_scalar(b);
        assert(rest[k - l] == b[k]);
        lemma_width_4_followed(rest, k - l);
        assert(rest[k - l + 1] == b[k + 1]);
    }
}

/// UTF-16 units of a byte range never exceed its length, except for one
/// extra unit when it ends right after the lead byte of a four-byte
/// sequence, which is never the last byte of the text.
pub proof fn lemma_units_bound(b: Seq<u8>, from: int, to: int)
    requires
        valid_utf8(b),
        0 <= from <= to <= b.len(),
    ensures
        utf16_units(b, from, to) <= to - from + (if to > from && is_leading_byte_width_4(
            b[to - 1],
        ) {
            1int
        } else {
            0int
        }),
        utf16_units(b, from, to) >= 0,
        utf16_units(b, from, to) <= b.len(),
    decreases to - from,
{
    if to > from {
        lemma_units_bound(b, from, to - 1);
        if is_leading_byte_width_4(b[to - 1]) {
            lemma_width_4_followed(b, to - 1);
        }
        if to - 1 > from && is_leading_byte_width_4(b[to - 2]) {
            lemma_width_4_followed(b, to - 2);
        }
    }
}

/// UTF-16 units only grow as the range extends.
pub proof fn lemma_units_monotone(b: Seq<u8>, from: int, mid: int, to: int)
    requires
        from <= mid <= to <= b.len(),
        0 <= from,
    ensures
        utf16_units(b, from, mid) <= utf16_units(b, from, to),
    decreases to - mid,
{
    if to > mid {
        lemma_units_monotone(b, from, mid, to - 1);
    }
}

proof fn lemma_scan_reaches(b: Seq<u8>, start: int, k: int, o: int, end: int)
    requires
        0 <= start <= k <= o <= end <= b.len(),
        o < end ==> !is_continuation_byte(b[o]),
    ensures
        scan_to_character(b, start, k, end, utf16_units(b, start, o)) == o,
    decreases o - k,
{
    if k < o {
        lemma_units_monotone(b, start, k + 1, o);
        lemma_scan_reaches(b, start, k + 1, o, end);
    }
}

/// Round trip: a byte offset on a character boundary and not inside a line
/// terminator converts to a position and back to itself.
pub proof fn lemma_offset_round_trip(b: Seq<u8>, o: u32)
    requires
        valid_utf8(b),
        b.len() <= u32::MAX,
        o <= b.len(),
        is_char_boundary(b, o as int),
        o <= content_end(b, line_of(b, o as int)),
    ensures
        position_to_offset_spec(b, offset_to_position_spec(b, o)) == o,
{
    if (o as int) < b.len() {
        is_char_boundary_iff_not_is_continuation_byte(b, o as int);
    }
    assert(floor_boundary(b, o as int) == o);
    lemma_line_start_le(b, o as int);
    lemma_line_starts_props(b, b.len() as int);
    let line = line_of(b, o as int);
    let s = line_starts_of(b);
    lemma_units_bound(b, s[line], o as int);
    lemma_content_end_bounds(b, line);
    let p = offset_to_position_spec(b, o);
    assert(p.line as int == line);
    assert(p.character as int == utf16_units(b, s[line], o as int));
    lemma_scan_reaches(b, s[line], s[line], o as int, content_end(b, line));
}

/// Between offsets that survive the round trip, converting to positions
/// keeps their order.
pub proof fn lemma_offset_position_monotone(b: Seq<u8>, o1: u32, o2: u32)
    requires
        valid_utf8(b),
        b.len() <= u32::MAX,
        o1 <= o2 <= b.len(),
        is_char_boundary(b, o1 as int),
        is_char_boundary(b, o2 as int),
        o1 <= content_end(b, line_of(b, o1 as int)),
        o2 <= content_end(b, line_of(b, o2 as int)),
    ensures
        !offset_to_position_spec(b, o1).is_after(offset_to_position_spec(b, o2)),
{
    if (o1 as int) < b.len() {
        is_char_boundary_iff_not_is_continuation_byte(b, o1 as int);
    }
    if (o2 as int) < b.len() {
        is_char_boundary_iff_not_is_continuation_byte(b, o2 as int);
    }
    assert(floor_boundary(b, o1 as int) == o1);
    assert(floor_boundary(b, o2 as int) == o2);
    lemma_line_start_le(b, o1 as int);
    lemma_line_start_le(b, o2 as int);
    lemma_line_starts_props(b, b.len() as int);
    lemma_line_starts_prefix(b, o1 as int, o2 as int);
    let s = line_starts_of(b);
    let l1 = line_of(b, o1 as int);
    let l2 = line_of(b, o2 as int);
    assert(l1 <= l2);
    lemma_units_bound(b, s[l1], o1 as int);
    lemma_units_bound(b, s[l2], o2 as int);
    let p1 = offset_to_position_spec(b, o1);
    let p2 = offset_to_position_spec(b, o2);
    assert(p1.line as int == l1);
    assert(p2.line as int == l2);
    assert(p1.character as int == utf16_units(b, s[l1], o1 as int));
    assert(p2.character as int == utf16_units(b, s[l2], o2 as int));
    if l1 == l2 {
        lemma_units_monotone(b, s[l1], o1 as int, o2 as int);
    }
}

/// Round trip the other way: a position whose character count lands on
/// the start of a character `o` within its line's content (not past the
/// content, not inside a surrogate pair) converts to `o` and back to
/// itself.
pub proof fn lemma_position_round_trip(b: Seq<u8>, p: Position, o: int)
    requires
        valid_utf8(b),
        b.len() <= u32::MAX,
        (p.line as int) < line_starts_of(b).len(),
        line_starts_of(b)[p.line as int] <= o <= content_end(b, p.line as int),
        is_char_boundary(b, o),
        utf16_units(b, line_starts_of(b)[p.line as int], o) == p.character,
    ensures
        position_to_offset_spec(b, p) == o,
        offset_to_position_spec(b, o as u32) == p,
{
    let s = line_starts_of(b);
    let line = p.line as int;
    lemma_line_starts_props(b, b.len() as int);
    lemma_content_end_bounds(b, line);
    if o < b.len() {
        is_char_boundary_iff_not_is_continuation_byte(b, o);
    }
    lemma_scan_reaches(b, s[line], s[line], o, content_end(b, line));
    lemma_line_of_from_bracket(b, o, line);
    assert(floor_boundary(b, o) == o);
}

/// Scanning from `k`, with the count so far not past `ch`, stops in
/// `[k, end]` at a point whose count is still not past `ch`; where it
/// stops before `end`, the character there would carry the count past it.
proof fn lemma_scan_lands(b: Seq<u8>, start: int, k: int, end: int, ch: int)
    requires
        0 <= start <= k <= end <= b.len(),
        utf16_units(b, start, k) <= ch,
    ensures
        k <= scan_to_character(b, start, k, end, ch) <= end,
        utf16_units(b, start, scan_to_character(b, start, k, end, ch)) <= ch,
        scan_to_character(b, start, k, end, ch) < end ==> utf16_weight(
            b[scan_to_character(b, start, k, end, ch)],
        ) > 0 && utf16_units(b, start, scan_to_character(b, start, k, end, ch)) + utf16_weight(
            b[scan_to_character(b, start, k, end, ch)],
        ) > ch,
    decreases end - k,
{
    if k < end && !(utf16_weight(b[k]) > 0 && utf16_units(b, start, k) + utf16_weight(b[k]) > ch) {
        assert(utf16_units(b, start, k + 1) == utf16_units(b, start, k) + utf16_weight(b[k]));
        lemma_scan_lands(b, start, k + 1, end, ch);
    }
}

/// A line's content ends at a line terminator or at the end of the text.
proof fn lemma_content_end_at_terminator(b: Seq<u8>, line: int)
    requires
        0 <= line < line_starts_of(b).len(),
    ensures
        content_end(b, line) < b.len() ==> b[content_end(b, line)] == 10 || b[content_end(b, line)] == 13,
{
    lemma_line_starts_props(b, b.len() as int);
    let s = line_starts_of(b);
    if line + 1 < s.len() {
        assert(starts_line(b, s[line + 1]));
    }
}

/// The character of `p` falls between the two UTF-16 units of a character
/// outside the Basic Multilingual Plane on its line.
pub open spec fn splits_surrogate_pair(b: Seq<u8>, p: Position) -> bool {
    let start = line_starts_of(b)[p.line as int];
    exists|j: int|
        start <= j < content_end(b, p.line as int) && is_leading_byte_width_4(#[trigger] b[j])
            && utf16_units(b, start, j) + 1 == p.character
}

/// Position to offset and back, for every position on an existing line
/// whose character lies within the line's content (its terminator
/// excluded) and does not split a surrogate pair.
pub proof fn lemma_position_round_trip_within_content(b: Seq<u8>, p: Position)
    requires
        valid_utf8(b),
        b.len() <= u32::MAX,
        (p.line as int) < line_starts_of(b).len(),
        p.character <= utf16_units(b, line_starts_of(b)[p.line as int], content_end(b, p.line as int)),
        !splits_surrogate_pair(b, p),
    ensures
        offset_to_position_spec(b, position_to_offset_spec(b, p)) == p,
{
    let s = line_starts_of(b);
    let line = p.line as int;
    let ch = p.character as int;
    lemma_line_starts_props(b, b.len() as int);
    lemma_content_end_bounds(b, line);
    lemma_content_end_at_terminator(b, line);
    let ce = content_end(b, line);
    let o = scan_to_character(b, s[line], s[line], ce, ch);
    lemma_scan_lands(b, s[line], s[line], ce, ch);
    if o < ce {
        if is_leading_byte_width_4(b[o]) && utf16_units(b, s[line], o) + 1 == ch {
            assert(splits_surrogate_pair(b, p));
        }
        is_char_boundary_iff_not_is_continuation_byte(b, o);
    } else if ce < b.len() {
        is_char_boundary_iff_not_is_continuation_byte(b, ce);
    } else {
        is_char_boundary_start_end_of_seq(b);
    }
    assert(utf16_units(b, s[line], o) == ch);
    assert(position_to_offset_spec(b, p) == o as u32);
    lemma_position_round_trip(b, p, o);
}

/// `o` lies between the `\r` and the `\n` of a `\r\n` pair.
pub open spec fn inside_crlf(b: Seq<u8>, o: int) -> bool {
    0 < o < b.len() && b[o - 1] == 13 && b[o] == 10
}

/// An offset not inside a `\r\n` pair is not past its line's content.
pub proof fn lemma_outside_crlf_is_content(b: Seq<u8>, o: int)
    requires
        0 <= o <= b.len(),
        !inside_crlf(b, o),
    ensures
        o <= content_end(b, line_of(b, o)),
{
    lemma_line_start_le(b, o);
    lemma_line_starts_props(b, b.len() as int);
    let s = line_starts_of(b);
    let l = line_of(b, o);
    if l + 1 < s.len() {
        let end = s[l + 1];
        if end > s[l] && b[end - 1] == 10 && end - 1 > s[l] && b[end - 2] == 13 {
            assert(o != end - 1);
        }
    } else {
        let n = b.len() as int;
        if n > s[l] && (b[n - 1] == 10 || b[n - 1] == 13) {
            assert(starts_line(b, n));
            assert(s.last() == n);
            assert(s[l] == n);
        }
    }
}

/// Offset to position and back, for every offset on a character boundary
/// that does not lie between the `\r` and the `\n` of a `\r\n` pair.
pub proof fn lemma_offset_round_trip_outside_crlf(b: Seq<u8>, o: u32)
    requires
        valid_utf8(b),
        b.len() <= u32::MAX,
        o <= b.len(),
        is_char_boundary(b, o as int),
        !inside_crlf(b, o as int),
    ensures
        position_to_offset_spec(b, offset_to_position_spec(b, o)) == o,
{
    lemma_outside_crlf_is_content(b, o as int);
    lemma_offset_round_trip(b, o);
}

/// The `\r\n` pairs among the first `k` bytes, counted at their `\n`.
pub open spec fn count_crlf(b: Seq<u8>, k: int) -> nat
    decreases k,
{
    if k <= 0 {
        0
    } else {
        count_crlf(b, k - 1) + (if b[k - 1] == 10 && k - 1 > 0 && b[k - 2] == 13 {
            1nat
        } else {
            0nat
        })
    }
}

/// The `\r` bytes among the first `k` that are not followed by `\n`.
pub open spec fn count_lone_cr(b: Seq<u8>, k: int) -> nat
    decreases k,
{
    if k <= 0 {
        0
    } else {
        count_lone_cr(b, k - 1) + (if b[k - 1] == 13 && (k == b.len() || b[k] != 10) {
            1nat
        } else {
            0nat
        })
    }
}

/// The `\n` bytes among the first `k` that are not preceded by `\r`.
pub open spec fn count_lone_lf(b: Seq<u8>, k: int) -> nat
    decreases k,
{
    if k <= 0 {
        0
    } else {
        count_lone_lf(b, k - 1) + (if b[k - 1] == 10 && (k - 1 == 0 || b[k - 2] != 13) {
            1nat
        } else {
            0nat
        })
    }
}

/// A text has one line more than it has line terminators: every `\r\n`
/// pair, every lone `\r` and every lone `\n` ends one.
pub proof fn lemma_line_count(b: Seq<u8>, k: int)
    requires
        0 <= k <= b.len(),
    ensures
        line_starts_upto(b, k).len() == 1 + count_crlf(b, k) + count_lone_cr(b, k) + count_lone_lf(b, k),
    decreases k,
{
    if k > 0 {
        lemma_line_count(b, k - 1);
    }
}

proof fn lemma_after_ascii_is_boundary(b: Seq<u8>, i: int)
    requires
        valid_utf8(b),
        0 <= i < b.len(),
        b[i] <= 0x7f,
    ensures
        is_char_boundary(b, i + 1),
    decreases b.len(),
{
    assert(valid_first_scalar(b));
    let l = length_of_first_scalar(b);
    let rest = pop_first_scalar(b);
    assert(1 <= l <= b.len());
    assert(rest.len() == b.len() - l);
    if i >= l {
        assert(rest[i - l] == b[i]);
        lemma_after_ascii_is_boundary(rest, i - l);
        assert(is_char_boundary(b, i + 1) == is_char_boundary(rest, i + 1 - l));
    } else {
        assert(i == 0);
        assert(l == 1);
        assert(is_char_boundary(b, 1) == is_char_boundary(rest, 0));
    }
}

/// Line `k` starts at character 0 of its position: `Position(k, 0)` is
/// the offset of the start of line `k`, which is 0 for the first line and
/// the offset just after the `k`-th line terminator for every other.
pub proof fn lemma_line_start_position(b: Seq<u8>, k: int)
    requires
        valid_utf8(b),
        b.len() <= u32::MAX,
        0 <= k < line_starts_of(b).len(),
    ensures
        position_to_offset_spec(b, Position { line: k as u32, character: 0 }) == line_starts_of(b)[k],
        k == 0 ==> line_starts_of(b)[k] == 0,
        k > 0 ==> starts_line(b, line_starts_of(b)[k]),
{
    let s = line_starts_of(b);
    lemma_line_starts_props(b, b.len() as int);
    lemma_content_end_bounds(b, k);
    if k > 0 {
        assert(starts_line(b, s[k]));
        lemma_after_ascii_is_boundary(b, s[k] - 1);
    }
    lemma_position_round_trip(b, Position { line: k as u32, character: 0 }, s[k]);
}

} // verus!
