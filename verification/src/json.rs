//! The JSON-shaped form of a [`SourceMap`]: `{line, character}` positions
//! (UTF-16 characters) on the wire instead of UTF-8 byte spans. Conversion
//! goes through a [`LineIndex`] of the relevant file's text; serialising
//! the structures to JSON text is left to whoever owns the serializer.
use vstd::prelude::*;
use vstd::string::StringSliceAdditionalSpecFns;

use crate::line_index::{
    content_end, lemma_offset_position_monotone, lemma_offset_round_trip, line_of, offset_to_position_spec, position_to_offset_spec,
    LineIndex, Position, PositionRange,
};
use vstd::utf8::{is_char_boundary, valid_utf8};
use crate::source_map::{Mapping, MappingKind, SourceMap, flatten_sources};
use crate::span::{SourceId, SourceSpan, Span, Uri};

verus! {

/// The only source map JSON format version this crate writes or accepts.
pub const SOURCE_MAP_JSON_VERSION: u32 = 1;

/// JSON-shaped form of a [`SourceMap`].
#[derive(Debug, Clone, PartialEq, Eq)]
pub struct SourceMapJson {
    /// Format version. Always [`SOURCE_MAP_JSON_VERSION`].
    pub version: u32,
    /// Generated file path or URI.
    pub generated: String,
    /// Source file paths or URIs, indexed by [`SourceId`].
    pub sources: Vec<String>,
    /// Free-form note for humans. Ignored by tools.
    pub comment: Option<String>,
    /// Mapping entries, in generated-position order.
    pub mappings: Vec<MappingJson>,
}

/// JSON-shaped form of a [`Mapping`].
#[derive(Debug, Clone, PartialEq, Eq)]
pub struct MappingJson {
    /// Classification of the mapped syntax.
    pub kind: MappingKind,
    /// Optional human-readable label (the mapping's `label`).
    pub what: Option<String>,
    /// Range inside the generated file.
    pub generated: PositionRange,
    /// Zero or more originating ranges.
    pub sources: Vec<SourceSpanJson>,
}

/// JSON-shaped form of a [`SourceSpan`]: a source file index alongside a
/// flat `start`/`end` range.
#[derive(Debug, Clone, Copy, PartialEq, Eq, Structural)]
pub struct SourceSpanJson {
    /// Index into the enclosing [`SourceMapJson::sources`].
    pub file: usize,
    /// Inclusive start position.
    pub start: Position,
    /// Exclusive end position.
    pub end: Position,
}

/// Errors converting a [`SourceMapJson`] into a [`SourceMap`].
#[derive(Debug, Clone, PartialEq, Eq, Structural)]
pub enum FromJsonError {
    /// The `version` field is not one this crate understands.
    UnsupportedVersion { found: u32 },
    /// A mapping's source referenced a file index with no matching text.
    SourceIndexOutOfRange { index: usize, available: usize },
    /// A mapping's `generated` or `sources[]` range has `end` before `start`.
    InvertedRange { start: Position, end: Position },
    /// A mapping's source referenced a file index not in the declared
    /// `sources` list.
    SourceIndexNotDeclared { index: usize, declared: usize },
}

/// Errors [`SourceMap::to_json`] rejects a conversion for.
#[derive(Debug, Clone, PartialEq, Eq, Structural)]
pub enum ToJsonError {
    /// A mapping's source referenced an id beyond the declared sources.
    UnknownSourceId { index: usize, declared: usize },
    /// A mapping's source referenced an id with no matching source text.
    MissingSourceText { index: usize, available: usize },
}

/// UTF-8 bytes of each text.
pub open spec fn texts_bytes(texts: Seq<&str>) -> Seq<Seq<u8>> {
    texts.map_values(|t: &str| t.spec_bytes())
}

/// Every text fits byte offsets in `u32`.
pub open spec fn texts_fit(texts: Seq<&str>) -> bool {
    forall|i: int| 0 <= i < texts.len() ==> (#[trigger] texts[i]).spec_bytes().len() <= u32::MAX
}

/// Why one source span cannot be written as JSON, if it cannot.
pub open spec fn to_json_span_error(s: SourceSpan, declared: usize, available: usize) -> Option<
    ToJsonError,
> {
    if s.source.0 >= declared {
        Some(ToJsonError::UnknownSourceId { index: s.source.0, declared })
    } else if s.source.0 >= available {
        Some(ToJsonError::MissingSourceText { index: s.source.0, available })
    } else {
        None
    }
}

/// The error of the first span of `ss` that cannot be written, if any.
pub open spec fn first_to_json_error(ss: Seq<SourceSpan>, declared: usize, available: usize) -> Option<
    ToJsonError,
>
    decreases ss.len(),
{
    if ss.len() == 0 {
        None
    } else {
        match first_to_json_error(ss.drop_last(), declared, available) {
            Some(e) => Some(e),
            None => to_json_span_error(ss.last(), declared, available),
        }
    }
}

/// `j` is the JSON form of source span `s` over the source texts' bytes.
pub open spec fn source_json_of(j: SourceSpanJson, s: SourceSpan, texts: Seq<Seq<u8>>) -> bool {
    &&& j.file == s.source.0
    &&& j.start == offset_to_position_spec(texts[s.source.0 as int], s.span.start)
    &&& j.end == offset_to_position_spec(texts[s.source.0 as int], s.span.end)
}

/// `j` is the JSON form of mapping `m`.
pub open spec fn mapping_json_of(j: MappingJson, m: Mapping, generated: Seq<u8>, texts: Seq<Seq<u8>>) -> bool {
    &&& j.kind == m.kind
    &&& j.what == m.label
    &&& j.generated.start == offset_to_position_spec(generated, m.generated.start)
    &&& j.generated.end == offset_to_position_spec(generated, m.generated.end)
    &&& j.sources@.len() == m.sources@.len()
    &&& forall|k: int|
        0 <= k < m.sources@.len() ==> source_json_of(
            #[trigger] j.sources@[k],
            m.sources@[k],
            texts,
        )
}

/// A range whose end comes before its start.
pub open spec fn is_inverted(start: Position, end: Position) -> bool {
    start.is_after(end)
}

/// Why one JSON source range cannot be read back, if it cannot.
pub open spec fn from_json_span_error(s: SourceSpanJson, declared: usize, available: usize) -> Option<
    FromJsonError,
> {
    if is_inverted(s.start, s.end) {
        Some(FromJsonError::InvertedRange { start: s.start, end: s.end })
    } else if s.file >= declared {
        Some(FromJsonError::SourceIndexNotDeclared { index: s.file, declared })
    } else if s.file >= available {
        Some(FromJsonError::SourceIndexOutOfRange { index: s.file, available })
    } else {
        None
    }
}

/// The error of the first JSON source range of `ss` that cannot be read.
pub open spec fn first_from_json_span_error(
    ss: Seq<SourceSpanJson>,
    declared: usize,
    available: usize,
) -> Option<FromJsonError>
    decreases ss.len(),
{
    if ss.len() == 0 {
        None
    } else {
        match first_from_json_span_error(ss.drop_last(), declared, available) {
            Some(e) => Some(e),
            None => from_json_span_error(ss.last(), declared, available),
        }
    }
}

/// Why one JSON mapping cannot be read back: an inverted generated range,
/// then its sources in order.
pub open spec fn from_json_mapping_error(m: MappingJson, declared: usize, available: usize) -> Option<
    FromJsonError,
> {
    if is_inverted(m.generated.start, m.generated.end) {
        Some(FromJsonError::InvertedRange { start: m.generated.start, end: m.generated.end })
    } else {
        first_from_json_span_error(m.sources@, declared, available)
    }
}

/// The error of the first JSON mapping of `ms` that cannot be read.
pub open spec fn first_from_json_error(ms: Seq<MappingJson>, declared: usize, available: usize) -> Option<
    FromJsonError,
>
    decreases ms.len(),
{
    if ms.len() == 0 {
        None
    } else {
        match first_from_json_error(ms.drop_last(), declared, available) {
            Some(e) => Some(e),
            None => from_json_mapping_error(ms.last(), declared, available),
        }
    }
}

/// `m` is the byte-span form of JSON mapping `j`.
pub open spec fn mapping_of_json(m: Mapping, j: MappingJson, generated: Seq<u8>, texts: Seq<Seq<u8>>) -> bool {
    &&& m.kind == j.kind
    &&& m.label == j.what
    &&& m.generated == Span {
        start: position_to_offset_spec(generated, j.generated.start),
        end: position_to_offset_spec(generated, j.generated.end),
    }
    &&& m.sources@.len() == j.sources@.len()
    &&& forall|k: int|
        0 <= k < j.sources@.len() ==> {
            let s = #[trigger] j.sources@[k];
            m.sources@[k] == SourceSpan {
                source: SourceId(s.file),
                span: Span {
                    start: position_to_offset_spec(texts[s.file as int], s.start),
                    end: position_to_offset_spec(texts[s.file as int], s.end),
                },
            }
        }
}

/// `j` is the JSON form of the map `m`.
pub open spec fn written_json(j: SourceMapJson, m: SourceMap, generated: Seq<u8>, texts: Seq<Seq<u8>>) -> bool {
    &&& j.version == SOURCE_MAP_JSON_VERSION
    &&& j.generated@ == m.generated@
    &&& j.sources@.len() == m.sources@.len()
    &&& forall|i: int| 0 <= i < m.sources@.len() ==> (#[trigger] j.sources@[i])@ == m.sources@[i]@
    &&& j.comment.is_none()
    &&& j.mappings@.len() == m.mappings@.len()
    &&& forall|i: int|
        0 <= i < m.mappings@.len() ==> mapping_json_of(#[trigger] j.mappings@[i], m.mappings@[i], generated, texts)
}

/// `m` is the map read back from its JSON form `j`.
pub open spec fn read_map(m: SourceMap, j: SourceMapJson, generated: Seq<u8>, texts: Seq<Seq<u8>>) -> bool {
    &&& m.generated@ == j.generated@
    &&& m.sources@.len() == j.sources@.len()
    &&& forall|i: int| 0 <= i < j.sources@.len() ==> (#[trigger] m.sources@[i])@ == j.sources@[i]@
    &&& m.mappings@.len() == j.mappings@.len()
    &&& forall|i: int|
        0 <= i < j.mappings@.len() ==> mapping_of_json(#[trigger] m.mappings@[i], j.mappings@[i], generated, texts)
}

/// A copy of an optional label.
fn copy_label(label: &Option<String>) -> (r: Option<String>)
    ensures
        r == *label,
{
    match label {
        Some(s) => Some(s.clone()),
        None => None,
    }
}

/// Line indexes of every text, in order.
fn index_all(texts: &[&str]) -> (r: Vec<LineIndex>)
    requires
        texts_fit(texts@),
    ensures
        r@.len() == texts@.len(),
        forall|i: int| 0 <= i < texts@.len() ==> (#[trigger] r@[i]).bytes() == texts@[i].spec_bytes(),
{
    let mut out: Vec<LineIndex> = Vec::new();
    for i in 0..texts.len()
        invariant
            texts_fit(texts@),
            out@.len() == i,
            forall|k: int| 0 <= k < i ==> (#[trigger] out@[k]).bytes() == texts@[k].spec_bytes(),
    {
        out.push(LineIndex::new(texts[i]));
    }
    out
}

impl SourceMap {
    /// Converts this map into its JSON form. `generated_text` is the full
    /// text of the generated file and `source_texts` the full text of each
    /// source file, in [`SourceMap::sources`] order.
    ///
    /// Fails on the first source span (in mapping order) whose id is beyond
    /// the declared sources, or that has no source text.
    pub fn to_json(&self, generated_text: &str, source_texts: &[&str]) -> (r: Result<
        SourceMapJson,
        ToJsonError,
    >)
        requires
            generated_text.spec_bytes().len() <= u32::MAX,
            texts_fit(source_texts@),
        ensures
            match first_to_json_error(
                flatten_sources(self.mappings@),
                self.sources@.len() as usize,
                source_texts@.len() as usize,
            ) {
                Some(e) => r == Err::<SourceMapJson, ToJsonError>(e),
                None => r matches Ok(j) && written_json(
                    j,
                    *self,
                    generated_text.spec_bytes(),
                    texts_bytes(source_texts@),
                ),
            },
    {
        let generated_index = LineIndex::new(generated_text);
        let source_indexes = index_all(source_texts);
        let ghost texts = texts_bytes(source_texts@);
        let ghost gb = generated_text.spec_bytes();
        let declared = self.sources.len();
        let available = source_indexes.len();
        let mut mappings: Vec<MappingJson> = Vec::new();
        let n = self.mappings.len();
        for i in 0..n
            invariant
                n == self.mappings@.len(),
                declared == self.sources@.len(),
                available == source_texts@.len(),
                source_indexes@.len() == source_texts@.len(),
                texts == texts_bytes(source_texts@),
                gb == generated_text.spec_bytes(),
                generated_index.bytes() == gb,
                forall|k: int|
                    0 <= k < source_texts@.len() ==> (#[trigger] source_indexes@[k]).bytes()
                        == texts[k],
                first_to_json_error(flatten_sources(self.mappings@.take(i as int)), declared, available).is_none(),
                mappings@.len() == i,
                forall|k: int|
                    0 <= k < i ==> mapping_json_of(
                        #[trigger] mappings@[k],
                        self.mappings@[k],
                        gb,
                        texts,
                    ),
        {
            let mapping = &self.mappings[i];
            let ghost flat_before = flatten_sources(self.mappings@.take(i as int));
            assert(self.mappings@.take(i + 1).drop_last() =~= self.mappings@.take(i as int));
            assert(flatten_sources(self.mappings@.take(i + 1)) == flat_before + mapping.sources@);
            let mut sources: Vec<SourceSpanJson> = Vec::new();
            let k = mapping.sources.len();
            for j in 0..k
                invariant
                    k == mapping.sources@.len(),
                    n == self.mappings@.len(),
                    i < n,
                    *mapping == self.mappings@[i as int],
                    flat_before == flatten_sources(self.mappings@.take(i as int)),
                    declared == self.sources@.len(),
                    available == source_texts@.len(),
                    source_indexes@.len() == source_texts@.len(),
                    texts == texts_bytes(source_texts@),
                    forall|t: int|
                        0 <= t < source_texts@.len() ==> (#[trigger] source_indexes@[t]).bytes()
                            == texts[t],
                    first_to_json_error(flat_before + mapping.sources@.take(j as int), declared, available).is_none(),
                    sources@.len() == j,
                    forall|t: int|
                        0 <= t < j ==> source_json_of(
                            #[trigger] sources@[t],
                            mapping.sources@[t],
                            texts,
                        ),
            {
                let source = mapping.sources[j];
                let ghost upto = flat_before + mapping.sources@.take(j + 1);
                assert(upto.drop_last() =~= flat_before + mapping.sources@.take(j as int));
                assert(upto.last() == source);
                if source.source.0 >= declared {
                    proof {
                        lemma_to_json_error_extends(
                            flatten_sources(self.mappings@),
                            upto,
                            self.mappings@,
                            i as int,
                            j as int,
                            declared,
                            available,
                        );
                    }
                    return Err(ToJsonError::UnknownSourceId { index: source.source.0, declared });
                }
                if source.source.0 >= available {
                    proof {
                        lemma_to_json_error_extends(
                            flatten_sources(self.mappings@),
                            upto,
                            self.mappings@,
                            i as int,
                            j as int,
                            declared,
                            available,
                        );
                    }
                    return Err(ToJsonError::MissingSourceText { index: source.source.0, available });
                }
                let index = &source_indexes[source.source.0];
                let range = index.span_to_range(source.span);
                sources.push(SourceSpanJson { file: source.source.0, start: range.start, end: range.end });
            }
            assert(mapping.sources@.take(k as int) =~= mapping.sources@);
            mappings.push(
                MappingJson {
                    kind: mapping.kind,
                    what: copy_label(&mapping.label),
                    generated: generated_index.span_to_range(mapping.generated),
                    sources,
                },
            );
        }
        assert(self.mappings@.take(n as int) =~= self.mappings@);
        let mut names: Vec<String> = Vec::new();
        for i in 0..self.sources.len()
            invariant
                names@.len() == i,
                forall|k: int| 0 <= k < i ==> (#[trigger] names@[k])@ == self.sources@[k]@,
        {
            names.push(self.sources[i].as_str().to_owned());
        }
        Ok(
            SourceMapJson {
                version: SOURCE_MAP_JSON_VERSION,
                generated: self.generated.as_str().to_owned(),
                sources: names,
                comment: None,
                mappings,
            },
        )
    }
}

impl SourceMapJson {
    /// Converts this JSON form into a [`SourceMap`], resolving positions to
    /// byte offsets through line indexes of `generated_text` and
    /// `source_texts` (one text per referenced file index).
    ///
    /// Fails on an unsupported version, else on the first mapping (in
    /// order) with an inverted generated range, or, among its sources in
    /// order, an inverted range, an undeclared file index, or a file index
    /// with no text.
    pub fn into_source_map(self, generated_text: &str, source_texts: &[&str]) -> (r: Result<
        SourceMap,
        FromJsonError,
    >)
        requires
            generated_text.spec_bytes().len() <= u32::MAX,
            texts_fit(source_texts@),
        ensures
            self.version != SOURCE_MAP_JSON_VERSION ==> r == Err::<SourceMap, FromJsonError>(
                FromJsonError::UnsupportedVersion { found: self.version },
            ),
            self.version == SOURCE_MAP_JSON_VERSION ==> match first_from_json_error(
                self.mappings@,
                self.sources@.len() as usize,
                source_texts@.len() as usize,
            ) {
                Some(e) => r == Err::<SourceMap, FromJsonError>(e),
                None => r matches Ok(m) && read_map(
                    m,
                    self,
                    generated_text.spec_bytes(),
                    texts_bytes(source_texts@),
                ),
            },
    {
        if self.version != SOURCE_MAP_JSON_VERSION {
            return Err(FromJsonError::UnsupportedVersion { found: self.version });
        }
        let generated_index = LineIndex::new(generated_text);
        let source_indexes = index_all(source_texts);
        let ghost texts = texts_bytes(source_texts@);
        let ghost gb = generated_text.spec_bytes();
        let declared = self.sources.len();
        let available = source_indexes.len();
        let mut mappings: Vec<Mapping> = Vec::new();
        let n = self.mappings.len();
        for i in 0..n
            invariant
                self.version == SOURCE_MAP_JSON_VERSION,
                n == self.mappings@.len(),
                declared == self.sources@.len(),
                available == source_texts@.len(),
                source_indexes@.len() == source_texts@.len(),
                texts == texts_bytes(source_texts@),
                gb == generated_text.spec_bytes(),
                generated_index.bytes() == gb,
                forall|k: int|
                    0 <= k < source_texts@.len() ==> (#[trigger] source_indexes@[k]).bytes()
                        == texts[k],
                first_from_json_error(self.mappings@.take(i as int), declared, available).is_none(),
                mappings@.len() == i,
                forall|k: int|
                    0 <= k < i ==> mapping_of_json(
                        #[trigger] mappings@[k],
                        self.mappings@[k],
                        gb,
                        texts,
                    ),
        {
            let mapping = &self.mappings[i];
            assert(self.mappings@.take(i + 1).drop_last() =~= self.mappings@.take(i as int));
            if mapping.generated.start.after(mapping.generated.end) {
                proof {
                    lemma_from_json_error_extends(self.mappings@, i + 1, declared, available);
                }
                return Err(
                    FromJsonError::InvertedRange {
                        start: mapping.generated.start,
                        end: mapping.generated.end,
                    },
                );
            }
            let mut sources: Vec<SourceSpan> = Vec::new();
            let k = mapping.sources.len();
            for j in 0..k
                invariant
                    self.version == SOURCE_MAP_JSON_VERSION,
                    k == mapping.sources@.len(),
                    n == self.mappings@.len(),
                    i < n,
                    *mapping == self.mappings@[i as int],
                    !is_inverted(mapping.generated.start, mapping.generated.end),
                    first_from_json_error(self.mappings@.take(i as int), declared, available).is_none(),
                    declared == self.sources@.len(),
                    available == source_texts@.len(),
                    source_indexes@.len() == source_texts@.len(),
                    texts == texts_bytes(source_texts@),
                    forall|t: int|
                        0 <= t < source_texts@.len() ==> (#[trigger] source_indexes@[t]).bytes()
                            == texts[t],
                    first_from_json_span_error(mapping.sources@.take(j as int), declared, available).is_none(),
                    sources@.len() == j,
                    forall|t: int|
                        0 <= t < j ==> {
                            let s = #[trigger] mapping.sources@[t];
                            sources@[t] == SourceSpan {
                                source: SourceId(s.file),
                                span: Span {
                                    start: position_to_offset_spec(texts[s.file as int], s.start),
                                    end: position_to_offset_spec(texts[s.file as int], s.end),
                                },
                            }
                        },
            {
                let source = mapping.sources[j];
                assert(mapping.sources@.take(j + 1).drop_last() =~= mapping.sources@.take(j as int));
                if source.start.after(source.end) || source.file >= declared || source.file >= available {
                    proof {
                        lemma_from_json_span_error_extends(mapping.sources@, j + 1, declared, available);
                        assert(from_json_mapping_error(self.mappings@[i as int], declared, available)
                            == from_json_span_error(source, declared, available));
                        lemma_from_json_error_extends(self.mappings@, i + 1, declared, available);
                        assert(first_from_json_error(self.mappings@, self.sources@.len() as usize, source_texts@.len() as usize)
                            == from_json_span_error(source, declared, available));
                    }
                    if source.start.after(source.end) {
                        return Err(FromJsonError::InvertedRange { start: source.start, end: source.end });
                    }
                    if source.file >= declared {
                        return Err(FromJsonError::SourceIndexNotDeclared { index: source.file, declared });
                    }
                    return Err(FromJsonError::SourceIndexOutOfRange { index: source.file, available });
                }
                let index = &source_indexes[source.file];
                let span = index.range_to_span(PositionRange::new(source.start, source.end));
                sources.push(SourceSpan::new(SourceId(source.file), span));
            }
            assert(mapping.sources@.take(k as int) =~= mapping.sources@);
            mappings.push(
                Mapping {
                    generated: generated_index.range_to_span(mapping.generated),
                    sources,
                    kind: mapping.kind,
                    label: copy_label(&mapping.what),
                },
            );
        }
        assert(self.mappings@.take(n as int) =~= self.mappings@);
        let mut uris: Vec<Uri> = Vec::new();
        for i in 0..self.sources.len()
            invariant
                uris@.len() == i,
                forall|k: int| 0 <= k < i ==> (#[trigger] uris@[k])@ == self.sources@[k]@,
        {
            uris.push(Uri::new(self.sources[i].as_str()));
        }
        Ok(SourceMap { generated: Uri::from_string(self.generated), sources: uris, mappings })
    }
}

proof fn lemma_from_json_span_error_extends(ss: Seq<SourceSpanJson>, n: int, declared: usize, available: usize)
    requires
        0 < n <= ss.len(),
        first_from_json_span_error(ss.take(n - 1), declared, available).is_none(),
        from_json_span_error(ss[n - 1], declared, available).is_some(),
    ensures
        first_from_json_span_error(ss, declared, available) == from_json_span_error(
            ss[n - 1],
            declared,
            available,
        ),
    decreases ss.len() - n,
{
    assert(ss.take(n).drop_last() =~= ss.take(n - 1));
    if n < ss.len() {
        assert(ss.take(n + 1).drop_last() =~= ss.take(n));
        lemma_span_error_prefix(ss, n + 1, declared, available, from_json_span_error(ss[n - 1], declared, available));
    } else {
        assert(ss.take(n) =~= ss);
    }
}

proof fn lemma_span_error_prefix(ss: Seq<SourceSpanJson>, n: int, declared: usize, available: usize, e: Option<FromJsonError>)
    requires
        0 < n <= ss.len(),
        e.is_some(),
        first_from_json_span_error(ss.take(n - 1), declared, available) == e,
    ensures
        first_from_json_span_error(ss, declared, available) == e,
    decreases ss.len() - n,
{
    assert(ss.take(n).drop_last() =~= ss.take(n - 1));
    if n < ss.len() {
        lemma_span_error_prefix(ss, n + 1, declared, available, e);
    } else {
        assert(ss.take(n) =~= ss);
    }
}

proof fn lemma_from_json_error_extends(ms: Seq<MappingJson>, n: int, declared: usize, available: usize)
    requires
        0 < n <= ms.len(),
        first_from_json_error(ms.take(n - 1), declared, available).is_none(),
        from_json_mapping_error(ms[n - 1], declared, available).is_some(),
    ensures
        first_from_json_error(ms, declared, available) == from_json_mapping_error(
            ms[n - 1],
            declared,
            available,
        ),
    decreases ms.len() - n,
{
    assert(ms.take(n).drop_last() =~= ms.take(n - 1));
    lemma_mapping_error_prefix(ms, n, declared, available, from_json_mapping_error(ms[n - 1], declared, available));
}

proof fn lemma_mapping_error_prefix(ms: Seq<MappingJson>, n: int, declared: usize, available: usize, e: Option<FromJsonError>)
    requires
        0 < n <= ms.len(),
        e.is_some(),
        first_from_json_error(ms.take(n), declared, available) == e,
    ensures
        first_from_json_error(ms, declared, available) == e,
    decreases ms.len() - n,
{
    if n < ms.len() {
        assert(ms.take(n + 1).drop_last() =~= ms.take(n));
        lemma_mapping_error_prefix(ms, n + 1, declared, available, e);
    } else {
        assert(ms.take(n) =~= ms);
    }
}

/// An error found in a prefix of the flattened sources is the first error
/// of the whole sequence.
proof fn lemma_to_json_error_extends(
    all: Seq<SourceSpan>,
    upto: Seq<SourceSpan>,
    ms: Seq<Mapping>,
    i: int,
    j: int,
    declared: usize,
    available: usize,
)
    requires
        0 <= i < ms.len(),
        0 <= j < ms[i].sources@.len(),
        all == flatten_sources(ms),
        upto == flatten_sources(ms.take(i)) + ms[i].sources@.take(j + 1),
        first_to_json_error(upto.drop_last(), declared, available).is_none(),
        to_json_span_error(upto.last(), declared, available).is_some(),
    ensures
        first_to_json_error(all, declared, available) == to_json_span_error(
            upto.last(),
            declared,
            available,
        ),
{
    lemma_flatten_prefix(ms, i, j + 1);
    let e = first_to_json_error(upto, declared, available);
    assert(e == to_json_span_error(upto.last(), declared, available));
    lemma_first_to_json_error_prefix(all, upto.len() as int, declared, available);
    assert(all.take(upto.len() as int) == upto);
}

/// The flattened sources of the first `i` mappings plus a prefix of the
/// next one's sources are a prefix of all flattened sources.
proof fn lemma_flatten_prefix(ms: Seq<Mapping>, i: int, j: int)
    requires
        0 <= i < ms.len(),
        0 <= j <= ms[i].sources@.len(),
    ensures
        ({
            let upto = flatten_sources(ms.take(i)) + ms[i].sources@.take(j);
            upto.len() <= flatten_sources(ms).len() && flatten_sources(ms).take(upto.len() as int)
                == upto
        }),
    decreases ms.len(),
{
    if i == ms.len() - 1 {
        assert(ms.take(i) =~= ms.drop_last());
        let upto = flatten_sources(ms.take(i)) + ms[i].sources@.take(j);
        assert(flatten_sources(ms).take(upto.len() as int) =~= upto);
    } else {
        lemma_flatten_prefix(ms.drop_last(), i, j);
        assert(ms.drop_last().take(i) =~= ms.take(i));
        assert(ms.drop_last()[i] == ms[i]);
        let upto = flatten_sources(ms.take(i)) + ms[i].sources@.take(j);
        let f = flatten_sources(ms.drop_last());
        assert(flatten_sources(ms) == f + ms.last().sources@);
        assert(flatten_sources(ms).take(upto.len() as int) =~= f.take(upto.len() as int));
    }
}

proof fn lemma_first_to_json_error_prefix(ss: Seq<SourceSpan>, n: int, declared: usize, available: usize)
    requires
        0 <= n <= ss.len(),
        first_to_json_error(ss.take(n), declared, available).is_some(),
    ensures
        first_to_json_error(ss, declared, available) == first_to_json_error(
            ss.take(n),
            declared,
            available,
        ),
    decreases ss.len() - n,
{
    if n < ss.len() {
        assert(ss.take(n + 1).drop_last() =~= ss.take(n));
        lemma_first_to_json_error_prefix(ss, n + 1, declared, available);
    } else {
        assert(ss.take(n) =~= ss);
    }
}


/// A byte offset of the text `b` that survives the trip to a position
/// and back: on a character boundary and not inside a line terminator.
pub open spec fn round_trips(b: Seq<u8>, o: u32) -> bool {
    &&& o <= b.len()
    &&& is_char_boundary(b, o as int)
    &&& o <= content_end(b, line_of(b, o as int))
}

/// Every offset of mapping `m` survives the trip in its own text.
pub open spec fn mapping_round_trips(m: Mapping, generated: Seq<u8>, texts: Seq<Seq<u8>>) -> bool {
    &&& round_trips(generated, m.generated.start)
    &&& round_trips(generated, m.generated.end)
    &&& forall|k: int|
        #![trigger m.sources@[k]]
        0 <= k < m.sources@.len() ==> {
            let s = m.sources@[k];
            &&& s.source.0 < texts.len()
            &&& round_trips(texts[s.source.0 as int], s.span.start)
            &&& round_trips(texts[s.source.0 as int], s.span.end)
        }
}

/// Texts a line index can be built over.
pub open spec fn indexable(b: Seq<u8>) -> bool {
    valid_utf8(b) && b.len() <= u32::MAX
}

/// A mapping written as JSON and read back is the mapping it was, as long
/// as each of its offsets survives the trip through a position.
pub proof fn lemma_mapping_json_round_trip(
    m: Mapping,
    j: MappingJson,
    back: Mapping,
    generated: Seq<u8>,
    texts: Seq<Seq<u8>>,
)
    requires
        indexable(generated),
        forall|t: int| 0 <= t < texts.len() ==> indexable(#[trigger] texts[t]),
        mapping_round_trips(m, generated, texts),
        mapping_json_of(j, m, generated, texts),
        mapping_of_json(back, j, generated, texts),
    ensures
        back.kind == m.kind,
        back.label == m.label,
        back.generated == m.generated,
        back.sources@ == m.sources@,
{
    lemma_offset_round_trip(generated, m.generated.start);
    lemma_offset_round_trip(generated, m.generated.end);
    assert forall|k: int| 0 <= k < m.sources@.len() implies back.sources@[k] == m.sources@[k] by {
        let s = m.sources@[k];
        assert(source_json_of(j.sources@[k], s, texts));
        assert(indexable(texts[s.source.0 as int]));
        lemma_offset_round_trip(texts[s.source.0 as int], s.span.start);
        lemma_offset_round_trip(texts[s.source.0 as int], s.span.end);
    }
    assert(back.sources@ =~= m.sources@);
}


/// Every span of every mapping is ordered and survives the round trip,
/// and every source id names one of the texts.
pub open spec fn map_round_trips(m: SourceMap, generated: Seq<u8>, texts: Seq<Seq<u8>>) -> bool {
    &&& m.sources@.len() == texts.len()
    &&& forall|i: int|
        #![trigger m.mappings@[i]]
        0 <= i < m.mappings@.len() ==> {
            &&& mapping_round_trips(m.mappings@[i], generated, texts)
            &&& m.mappings@[i].generated.is_ordered()
            &&& forall|k: int|
                0 <= k < m.mappings@[i].sources@.len() ==> (#[trigger] m.mappings@[i].sources@[k]).span.is_ordered()
        }
}

proof fn lemma_no_to_json_error(ss: Seq<SourceSpan>, declared: usize, available: usize)
    requires
        forall|i: int| 0 <= i < ss.len() ==> (#[trigger] ss[i]).source.0 < declared && ss[i].source.0 < available,
    ensures
        first_to_json_error(ss, declared, available).is_none(),
    decreases ss.len(),
{
    if ss.len() > 0 {
        let init = ss.drop_last();
        assert forall|i: int| 0 <= i < init.len() implies (#[trigger] init[i]).source.0 < declared
            && init[i].source.0 < available by {
            assert(init[i] == ss[i]);
        }
        lemma_no_to_json_error(init, declared, available);
        assert(ss.last() == ss[ss.len() - 1]);
    }
}

proof fn lemma_flatten_ids(ms: Seq<Mapping>, n: int)
    requires
        forall|i: int, k: int|
            0 <= i < ms.len() && 0 <= k < ms[i].sources@.len() ==> (#[trigger] ms[i].sources@[k]).source.0 < n,
    ensures
        forall|e: int| 0 <= e < flatten_sources(ms).len() ==> (#[trigger] flatten_sources(ms)[e]).source.0 < n,
    decreases ms.len(),
{
    if ms.len() > 0 {
        let init = ms.drop_last();
        assert forall|i: int, k: int| 0 <= i < init.len() && 0 <= k < init[i].sources@.len() implies (
        #[trigger] init[i].sources@[k]).source.0 < n by {
            assert(init[i] == ms[i]);
        }
        lemma_flatten_ids(init, n);
        let f = flatten_sources(init);
        let last = ms[ms.len() - 1];
        assert(ms.last() == last);
        assert forall|e: int| 0 <= e < flatten_sources(ms).len() implies (#[trigger] flatten_sources(
            ms,
        )[e]).source.0 < n by {
            if e < f.len() {
                assert(flatten_sources(ms)[e] == f[e]);
            } else {
                assert(flatten_sources(ms)[e] == last.sources@[e - f.len()]);
            }
        }
    }
}

proof fn lemma_no_from_json_span_error(ss: Seq<SourceSpanJson>, declared: usize, available: usize)
    requires
        forall|i: int|
            0 <= i < ss.len() ==> !is_inverted((#[trigger] ss[i]).start, ss[i].end) && ss[i].file < declared
                && ss[i].file < available,
    ensures
        first_from_json_span_error(ss, declared, available).is_none(),
    decreases ss.len(),
{
    if ss.len() > 0 {
        let init = ss.drop_last();
        assert forall|i: int| 0 <= i < init.len() implies !is_inverted((#[trigger] init[i]).start, init[i].end)
            && init[i].file < declared && init[i].file < available by {
            assert(init[i] == ss[i]);
        }
        lemma_no_from_json_span_error(init, declared, available);
        assert(ss.last() == ss[ss.len() - 1]);
    }
}

proof fn lemma_no_from_json_error(ms: Seq<MappingJson>, declared: usize, available: usize)
    requires
        forall|i: int|
            0 <= i < ms.len() ==> !is_inverted((#[trigger] ms[i]).generated.start, ms[i].generated.end)
                && first_from_json_span_error(ms[i].sources@, declared, available).is_none(),
    ensures
        first_from_json_error(ms, declared, available).is_none(),
    decreases ms.len(),
{
    if ms.len() > 0 {
        let init = ms.drop_last();
        assert forall|i: int| 0 <= i < init.len() implies !is_inverted(
            (#[trigger] init[i]).generated.start,
            init[i].generated.end,
        ) && first_from_json_span_error(init[i].sources@, declared, available).is_none() by {
            assert(init[i] == ms[i]);
        }
        lemma_no_from_json_error(init, declared, available);
        assert(ms.last() == ms[ms.len() - 1]);
    }
}

/// A whole map written as JSON and read back is the map it was: writing
/// raises no error, reading back raises none, and what comes back has the
/// same generated file, the same sources and the same mappings, as long
/// as every span is ordered and each of its offsets survives the trip
/// through a position.
pub proof fn lemma_json_round_trip(
    m: SourceMap,
    j: SourceMapJson,
    back: SourceMap,
    generated: Seq<u8>,
    texts: Seq<Seq<u8>>,
)
    requires
        indexable(generated),
        forall|t: int| 0 <= t < texts.len() ==> indexable(#[trigger] texts[t]),
        map_round_trips(m, generated, texts),
    ensures
        first_to_json_error(flatten_sources(m.mappings@), m.sources@.len() as usize, texts.len() as usize).is_none(),
        written_json(j, m, generated, texts) ==> j.version == SOURCE_MAP_JSON_VERSION && first_from_json_error(
            j.mappings@,
            j.sources@.len() as usize,
            texts.len() as usize,
        ).is_none(),
        written_json(j, m, generated, texts) && read_map(back, j, generated, texts) ==> {
            &&& back.generated@ == m.generated@
            &&& back.sources@.len() == m.sources@.len()
            &&& forall|i: int| 0 <= i < m.sources@.len() ==> (#[trigger] back.sources@[i])@ == m.sources@[i]@
            &&& back.mappings@.len() == m.mappings@.len()
            &&& forall|i: int|
                0 <= i < m.mappings@.len() ==> {
                    &&& (#[trigger] back.mappings@[i]).kind == m.mappings@[i].kind
                    &&& back.mappings@[i].label == m.mappings@[i].label
                    &&& back.mappings@[i].generated == m.mappings@[i].generated
                    &&& back.mappings@[i].sources@ == m.mappings@[i].sources@
                }
        },
{
    assert(m.sources@.len() == m.sources.len());
    let n = texts.len() as usize;
    assert(n == texts.len());
    assert forall|i: int, k: int|
        0 <= i < m.mappings@.len() && 0 <= k < m.mappings@[i].sources@.len() implies (
        #[trigger] m.mappings@[i].sources@[k]).source.0 < n by {
        assert(mapping_round_trips(m.mappings@[i], generated, texts));
    }
    lemma_flatten_ids(m.mappings@, n as int);
    lemma_no_to_json_error(flatten_sources(m.mappings@), m.sources@.len() as usize, n);
    if written_json(j, m, generated, texts) {
        assert forall|i: int| 0 <= i < j.mappings@.len() implies !is_inverted(
            (#[trigger] j.mappings@[i]).generated.start,
            j.mappings@[i].generated.end,
        ) && first_from_json_span_error(j.mappings@[i].sources@, j.sources@.len() as usize, n).is_none() by {
            let mm = m.mappings@[i];
            let jm = j.mappings@[i];
            assert(mapping_json_of(jm, mm, generated, texts));
            assert(mapping_round_trips(mm, generated, texts));
            lemma_offset_position_monotone(generated, mm.generated.start, mm.generated.end);
            assert forall|k: int| 0 <= k < jm.sources@.len() implies !is_inverted(
                (#[trigger] jm.sources@[k]).start,
                jm.sources@[k].end,
            ) && jm.sources@[k].file < j.sources@.len() as usize && jm.sources@[k].file < n by {
                let sm = mm.sources@[k];
                assert(source_json_of(jm.sources@[k], sm, texts));
                assert(sm.span.is_ordered());
                assert(indexable(texts[sm.source.0 as int]));
                lemma_offset_position_monotone(texts[sm.source.0 as int], sm.span.start, sm.span.end);
            }
            lemma_no_from_json_span_error(jm.sources@, j.sources@.len() as usize, n);
        }
        lemma_no_from_json_error(j.mappings@, j.sources@.len() as usize, n);
        if read_map(back, j, generated, texts) {
            assert forall|i: int| 0 <= i < m.mappings@.len() implies {
                &&& (#[trigger] back.mappings@[i]).kind == m.mappings@[i].kind
                &&& back.mappings@[i].label == m.mappings@[i].label
                &&& back.mappings@[i].generated == m.mappings@[i].generated
                &&& back.mappings@[i].sources@ == m.mappings@[i].sources@
            } by {
                assert(mapping_json_of(j.mappings@[i], m.mappings@[i], generated, texts));
                assert(mapping_of_json(back.mappings@[i], j.mappings@[i], generated, texts));
                lemma_mapping_json_round_trip(m.mappings@[i], j.mappings@[i], back.mappings@[i], generated, texts);
            }
        }
    }
}

} // verus!
