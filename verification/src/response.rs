//! Sanitizing hover text that rust-analyzer wrote against generated Rust:
//! backend path prefixes are stripped, lines still naming backend
//! vocabulary or a component's generated `Props` type are dropped, and a
//! hover left with nothing but markdown layout is not worth showing.
//! Completion items are kept or dropped by their edit range and texts.
use vstd::prelude::*;

use crate::legend::names_of;
use crate::edits::{position_le_spec, primary_edit_contains_cursor};
use crate::line_index::{LineIndex, Position, PositionRange};
use crate::mapping::{
    lemma_ordered_workspace_narrow_ok, workspace_location_spec, workspace_location_to_source, LocationView,
    MappedLocation,
};
use crate::registry::Registry;
use crate::sorting::keep_if;
use crate::source_map::{all_ordered, SourceMap};
use crate::span::Uri;
use crate::text::{
    chars_of, has_prefix, has_substring, join, join_chars, lines, replace_all, replace_chars, split_lines,
    starts_with_chars, string_of, trim, trim_chars, views,
};
use crate::translate::{
    chars_name_backend, chars_name_component_props, contains_backend_marker, looks_generated,
    looks_like_generated_name, names_backend, names_component_props,
};

verus! {

/// The path prefixes stripped from hover text, in the order they are
/// removed.
pub open spec fn hover_prefixes() -> Seq<Seq<char>> {
    seq![
        "::outou::__private::"@,
        "dioxus_core::"@,
        "dioxus_elements::"@,
        "dioxus_signals::"@,
        "dioxus_html::"@,
        "dioxus::"@,
    ]
}

/// `t` with every occurrence of each prefix removed, one prefix after the
/// other.
pub open spec fn strip_all(t: Seq<char>, prefixes: Seq<Seq<char>>) -> Seq<char>
    decreases prefixes.len(),
{
    if prefixes.len() == 0 {
        t
    } else {
        replace_all(strip_all(t, prefixes.drop_last()), prefixes.last(), seq![])
    }
}

/// A hover line survives when it names neither backend vocabulary nor a
/// real component's `Props` type.
pub open spec fn keeps_hover_line(component_names: Seq<Seq<char>>) -> spec_fn(Seq<char>) -> bool {
    |line: Seq<char>| !names_backend(line) && !names_component_props(line, component_names)
}

/// What [`sanitize_hover_text`] leaves of a hover text: the surviving
/// lines of the prefix-stripped text, joined by line feeds.
pub open spec fn sanitized_hover(t: Seq<char>, component_names: Seq<Seq<char>>) -> Seq<char> {
    join(
        keep_if(lines(strip_all(t, hover_prefixes())), keeps_hover_line(component_names)),
        "\n"@,
    )
}

/// An ASCII letter or digit.
pub open spec fn is_ascii_alnum(c: char) -> bool {
    ('0' <= c <= '9') || ('a' <= c <= 'z') || ('A' <= c <= 'Z')
}

/// Heading or rule punctuation.
pub open spec fn is_layout_punct(c: char) -> bool {
    c == '#' || c == '-' || c == '*' || c == '='
}

/// Markdown layout rather than content: once trimmed, the line is blank,
/// a fence optionally followed by a bare language tag, or only heading
/// and rule punctuation.
pub open spec fn is_layout_line_spec(line: Seq<char>) -> bool {
    let l = trim(line);
    if l.len() == 0 {
        true
    } else if has_prefix(l, "```"@) {
        forall|i: int| "```"@.len() <= i < l.len() ==> is_ascii_alnum(#[trigger] l[i])
    } else {
        forall|i: int| 0 <= i < l.len() ==> is_layout_punct(#[trigger] l[i])
    }
}

/// Every line of the text is markdown layout.
pub open spec fn is_layout_only_spec(t: Seq<char>) -> bool {
    forall|i: int| 0 <= i < lines(t).len() ==> is_layout_line_spec(#[trigger] lines(t)[i])
}

/// A sanitized hover text is worth showing when something other than
/// white space and markdown layout is left.
pub open spec fn worth_showing(t: Seq<char>) -> bool {
    trim(t).len() > 0 && !is_layout_only_spec(trim(t))
}

fn ascii_alnum(c: char) -> (r: bool)
    ensures
        r == is_ascii_alnum(c),
{
    ('0' <= c && c <= '9') || ('a' <= c && c <= 'z') || ('A' <= c && c <= 'Z')
}

fn layout_punct(c: char) -> (r: bool)
    ensures
        r == is_layout_punct(c),
{
    c == '#' || c == '-' || c == '*' || c == '='
}

/// Whether one line is markdown layout.
pub fn layout_line_chars(line: &[char]) -> (r: bool)
    ensures
        r == is_layout_line_spec(line@),
{
    let l = trim_chars(line);
    if l.len() == 0 {
        return true;
    }
    let fence = chars_of("```");
    if starts_with_chars(l.as_slice(), fence.as_slice()) {
        let mut all = true;
        let mut i = fence.len();
        while i < l.len()
            invariant
                fence@ == "```"@,
                fence@.len() <= i <= l@.len(),
                all == forall|j: int| fence@.len() <= j < i ==> is_ascii_alnum(#[trigger] l@[j]),
            decreases l@.len() - i,
        {
            if !ascii_alnum(l[i]) {
                all = false;
            }
            i = i + 1;
        }
        return all;
    }
    let mut all = true;
    for i in 0..l.len()
        invariant
            all == forall|j: int| 0 <= j < i ==> is_layout_punct(#[trigger] l@[j]),
    {
        if !layout_punct(l[i]) {
            all = false;
        }
    }
    all
}

/// Whether `line` on its own is markdown layout rather than content.
pub fn is_layout_line(line: &str) -> (r: bool)
    ensures
        r == is_layout_line_spec(line@),
{
    layout_line_chars(chars_of(line).as_slice())
}

/// Whether every line of the text is markdown layout.
pub fn layout_only_chars(text: &[char]) -> (r: bool)
    ensures
        r == is_layout_only_spec(text@),
{
    let ls = split_lines(text);
    let ghost v = views(ls@);
    let mut all = true;
    for i in 0..ls.len()
        invariant
            v == views(ls@),
            v == lines(text@),
            all == forall|j: int| 0 <= j < i ==> is_layout_line_spec(#[trigger] v[j]),
    {
        assert(v[i as int] == ls@[i as int]@);
        if !layout_line_chars(ls[i].as_slice()) {
            all = false;
        }
    }
    all
}

/// Whether `text` is made up entirely of markdown layout: blank lines,
/// fences and heading or rule punctuation.
pub fn is_layout_only(text: &str) -> (r: bool)
    ensures
        r == is_layout_only_spec(text@),
{
    layout_only_chars(chars_of(text).as_slice())
}

/// Rewrites one hover text in place: backend path prefixes are stripped,
/// and every line still naming backend vocabulary or one of
/// `component_names`' own `Props` types is dropped. Returns whether
/// anything worth showing is left.
pub fn sanitize_hover_text(text: &mut String, component_names: &[String]) -> (r: bool)
    ensures
        final(text)@ == sanitized_hover(old(text)@, names_of(component_names@)),
        r == worth_showing(final(text)@),
{
    let ghost names = names_of(component_names@);
    let ghost original = text@;
    let mut t = chars_of(text.as_str());
    let empty: Vec<char> = Vec::new();
    let ghost ps = hover_prefixes();
    let p0 = chars_of("::outou::__private::");
    proof {
        reveal_strlit("::outou::__private::");
    }
    t = replace_chars(t.as_slice(), p0.as_slice(), empty.as_slice());
    assert(t@ == strip_all(original, ps.take(1))) by {
        assert(ps.take(1).drop_last() =~= Seq::<Seq<char>>::empty());
        assert(strip_all(original, Seq::<Seq<char>>::empty()) == original);
        assert(ps.take(1).last() == p0@);
        assert(empty@ =~= Seq::<char>::empty());
    }
    let p1 = chars_of("dioxus_core::");
    proof {
        reveal_strlit("dioxus_core::");
    }
    t = replace_chars(t.as_slice(), p1.as_slice(), empty.as_slice());
    assert(t@ == strip_all(original, ps.take(2))) by {
        assert(ps.take(2).drop_last() =~= ps.take(1));
        assert(empty@ =~= Seq::<char>::empty());
    }
    let p2 = chars_of("dioxus_elements::");
    proof {
        reveal_strlit("dioxus_elements::");
    }
    t = replace_chars(t.as_slice(), p2.as_slice(), empty.as_slice());
    assert(t@ == strip_all(original, ps.take(3))) by {
        assert(ps.take(3).drop_last() =~= ps.take(2));
        assert(empty@ =~= Seq::<char>::empty());
    }
    let p3 = chars_of("dioxus_signals::");
    proof {
        reveal_strlit("dioxus_signals::");
    }
    t = replace_chars(t.as_slice(), p3.as_slice(), empty.as_slice());
    assert(t@ == strip_all(original, ps.take(4))) by {
        assert(ps.take(4).drop_last() =~= ps.take(3));
        assert(empty@ =~= Seq::<char>::empty());
    }
    let p4 = chars_of("dioxus_html::");
    proof {
        reveal_strlit("dioxus_html::");
    }
    t = replace_chars(t.as_slice(), p4.as_slice(), empty.as_slice());
    assert(t@ == strip_all(original, ps.take(5))) by {
        assert(ps.take(5).drop_last() =~= ps.take(4));
        assert(empty@ =~= Seq::<char>::empty());
    }
    let p5 = chars_of("dioxus::");
    proof {
        reveal_strlit("dioxus::");
    }
    t = replace_chars(t.as_slice(), p5.as_slice(), empty.as_slice());
    assert(t@ == strip_all(original, ps)) by {
        assert(ps.take(6).drop_last() =~= ps.take(5));
        assert(ps.take(6) =~= ps);
        assert(empty@ =~= Seq::<char>::empty());
    }
    let all = split_lines(t.as_slice());
    let ghost lv = views(all@);
    let ghost keep = keeps_hover_line(names);
    let mut kept: Vec<Vec<char>> = Vec::new();
    for i in 0..all.len()
        invariant
            lv == views(all@),
            keep == keeps_hover_line(names),
            names == names_of(component_names@),
            views(kept@) == keep_if(lv.take(i as int), keep),
    {
        let line = &all[i];
        assert(lv.take(i + 1).drop_last() =~= lv.take(i as int));
        assert(lv.take(i + 1).last() == line@);
        let drop = chars_name_backend(line.as_slice()) || chars_name_component_props(
            line.as_slice(),
            component_names,
        );
        let ghost before = views(kept@);
        if !drop {
            kept.push(line.clone());
            assert(views(kept@) =~= before.push(line@));
        }
    }
    assert(lv.take(lv.len() as int) =~= lv);
    let newline = chars_of("\n");
    let joined = join_chars(&kept, newline.as_slice());
    *text = string_of(joined.as_slice());
    let trimmed = trim_chars(joined.as_slice());
    trimmed.len() > 0 && !layout_only_chars(trimmed.as_slice())
}


/// One entry of a hover's list of marked strings: where it stands in the
/// answer, and its text, when it is a string or an object with a string
/// `value` (any other entry has none and is kept as it is).
#[derive(Debug)]
pub struct HoverPart {
    pub index: usize,
    pub text: Option<String>,
}

/// A hover's `contents`, by its shape.
#[derive(Debug)]
pub enum HoverContents {
    /// A bare string.
    Text(String),
    /// A list of marked strings.
    Parts(Vec<HoverPart>),
    /// An object with a string `value` (markup content or one marked
    /// string).
    Valued(String),
    /// Anything else: left as it is.
    Opaque,
}

/// A hover's `contents` as values.
pub enum ContentsView {
    Text(Seq<char>),
    Parts(Seq<(int, Option<Seq<char>>)>),
    Valued(Seq<char>),
    Opaque,
}

/// The view of each entry.
pub open spec fn part_views(ps: Seq<HoverPart>) -> Seq<(int, Option<Seq<char>>)> {
    ps.map_values(
        |p: HoverPart|
            (
                p.index as int,
                match p.text {
                    Some(t) => Some(t@),
                    None => None,
                },
            ),
    )
}

impl View for HoverContents {
    type V = ContentsView;

    open spec fn view(&self) -> ContentsView {
        match self {
            HoverContents::Text(s) => ContentsView::Text(s@),
            HoverContents::Parts(ps) => ContentsView::Parts(part_views(ps@)),
            HoverContents::Valued(s) => ContentsView::Valued(s@),
            HoverContents::Opaque => ContentsView::Opaque,
        }
    }
}

/// The entries kept after sanitizing, each with its rewritten text: one
/// without text is kept as it is, one with text only when something
/// worth showing is left of it.
pub open spec fn kept_parts(ps: Seq<(int, Option<Seq<char>>)>, names: Seq<Seq<char>>) -> Seq<(int, Option<Seq<char>>)>
    decreases ps.len(),
{
    if ps.len() == 0 {
        seq![]
    } else {
        let rest = kept_parts(ps.drop_last(), names);
        let p = ps.last();
        match p.1 {
            None => rest.push(p),
            Some(t) => if worth_showing(sanitized_hover(t, names)) {
                rest.push((p.0, Some(sanitized_hover(t, names))))
            } else {
                rest
            },
        }
    }
}

/// The sanitized contents, and whether the hover is still worth showing.
pub open spec fn sanitized_contents(c: ContentsView, names: Seq<Seq<char>>) -> (ContentsView, bool) {
    match c {
        ContentsView::Text(t) => (
            ContentsView::Text(sanitized_hover(t, names)),
            worth_showing(sanitized_hover(t, names)),
        ),
        ContentsView::Parts(ps) => (
            ContentsView::Parts(kept_parts(ps, names)),
            kept_parts(ps, names).len() > 0,
        ),
        ContentsView::Valued(t) => (
            ContentsView::Valued(sanitized_hover(t, names)),
            worth_showing(sanitized_hover(t, names)),
        ),
        ContentsView::Opaque => (ContentsView::Opaque, true),
    }
}

/// Sanitizes a hover's `contents` in place, whatever its shape: every
/// text in it is rewritten as [`sanitize_hover_text`] does, and a list
/// entry with nothing worth showing left is dropped. Returns `false` when
/// the whole hover should be dropped instead.
pub fn sanitize_hover_contents(contents: &mut HoverContents, component_names: &[String]) -> (r: bool)
    ensures
        (final(contents)@, r) == sanitized_contents(old(contents)@, names_of(component_names@)),
{
    let ghost names = names_of(component_names@);
    match contents {
        HoverContents::Text(s) => sanitize_hover_text(s, component_names),
        HoverContents::Valued(s) => sanitize_hover_text(s, component_names),
        HoverContents::Opaque => true,
        HoverContents::Parts(parts) => {
            let ghost ps = part_views(parts@);
            let mut kept: Vec<HoverPart> = Vec::new();
            let n = parts.len();
            let mut taken: Vec<HoverPart> = Vec::new();
            core::mem::swap(&mut taken, parts);
            let mut items = crate::sorting::reversed(taken);
            let mut i: usize = 0;
            while i < n
                invariant
                    n == ps.len(),
                    0 <= i <= n,
                    names == names_of(component_names@),
                    items@.len() == n - i,
                    forall|j: int| 0 <= j < n - i ==> #[trigger] part_views(items@)[j] == ps[n - 1 - j],
                    part_views(kept@) == kept_parts(ps.take(i as int), names),
                decreases n - i,
            {
                assert(part_views(items@)[n - i - 1] == ps[i as int]);
                let ghost old_items = items@;
                let HoverPart { index, text } = items.pop().unwrap();
                assert(ps.take(i + 1).drop_last() =~= ps.take(i as int));
                assert(ps.take(i + 1).last() == ps[i as int]);
                let ghost before = part_views(kept@);
                match text {
                    None => {
                        kept.push(HoverPart { index, text: None });
                        assert(part_views(kept@) =~= before.push(ps[i as int]));
                    },
                    Some(mut t) => {
                        if sanitize_hover_text(&mut t, component_names) {
                            let ghost tv = t@;
                            kept.push(HoverPart { index, text: Some(t) });
                            assert(part_views(kept@) =~= before.push((index as int, Some(tv))));
                        }
                    },
                }
                assert forall|j: int| 0 <= j < n - (i + 1) implies #[trigger] part_views(items@)[j] == ps[n - 1 - j] by {
                    assert(items@[j] == old_items[j]);
                    assert(part_views(old_items)[j] == ps[n - 1 - j]);
                }
                i = i + 1;
            }
            assert(ps.take(n as int) =~= ps);
            let any = kept.len() > 0;
            *parts = kept;
            any
        },
    }
}


/// The text fields of a completion item that can name backend
/// vocabulary; each is `None` when the item has no such text.
#[derive(Debug)]
pub struct CompletionTexts {
    pub label: Option<String>,
    pub detail: Option<String>,
    pub documentation: Option<String>,
    pub filter_text: Option<String>,
    pub insert_text: Option<String>,
    /// `labelDetails.detail`.
    pub label_detail: Option<String>,
    /// `labelDetails.description`.
    pub label_description: Option<String>,
}

/// The text, or the empty text when there is none.
pub open spec fn text_or_empty(t: Option<String>) -> Seq<char> {
    match t {
        Some(s) => s@,
        None => seq![],
    }
}

/// The field has a text that names backend vocabulary or has the shape of
/// a backend-generated name.
pub open spec fn field_names_backend(t: Option<String>) -> bool {
    match t {
        Some(s) => names_backend(s@) || looks_generated(s@),
        None => false,
    }
}

/// The labels of the typed-builder methods a props builder exposes.
pub open spec fn builder_internal_label(label: Seq<char>) -> bool {
    label == "build"@ || label == "into(as Into)"@ || label == "try_into(as TryInto)"@
}

/// A completion item leaks the backend: one of its texts names backend
/// vocabulary or looks like a generated name, or it is a typed-builder
/// method offered on a builder.
pub open spec fn leaks_backend_spec(t: CompletionTexts) -> bool {
    ||| field_names_backend(t.label)
    ||| field_names_backend(t.detail)
    ||| field_names_backend(t.documentation)
    ||| field_names_backend(t.filter_text)
    ||| field_names_backend(t.insert_text)
    ||| field_names_backend(t.label_detail)
    ||| field_names_backend(t.label_description)
    ||| (builder_internal_label(text_or_empty(t.label)) && (has_substring(
        text_or_empty(t.detail),
        "PropsBuilder"@,
    ) || has_substring(text_or_empty(t.detail), "Builder"@)))
}

fn field_leaks(t: &Option<String>) -> (r: bool)
    ensures
        r == field_names_backend(*t),
{
    match t {
        Some(s) => contains_backend_marker(s.as_str()) || looks_like_generated_name(s.as_str()),
        None => false,
    }
}

/// Whether a completion item must be dropped as backend vocabulary: a
/// text naming a backend marker (`dioxus_core::`) or shaped like a
/// generated name (`__TEMPLATE_ROOTS`, `GreetingProps`), or a
/// typed-builder method (`build`, `into`, `try_into`) on a builder.
pub fn leaks_backend(t: &CompletionTexts) -> (r: bool)
    ensures
        r == leaks_backend_spec(*t),
{
    if field_leaks(&t.label) || field_leaks(&t.detail) || field_leaks(&t.documentation)
        || field_leaks(&t.filter_text) || field_leaks(&t.insert_text) || field_leaks(&t.label_detail)
        || field_leaks(&t.label_description) {
        return true;
    }
    let label = match &t.label {
        Some(s) => chars_of(s.as_str()),
        None => Vec::new(),
    };
    let detail = match &t.detail {
        Some(s) => chars_of(s.as_str()),
        None => Vec::new(),
    };
    assert(label@ == text_or_empty(t.label));
    assert(detail@ == text_or_empty(t.detail));
    let l = string_of(label.as_slice());
    let internal = crate::text::same_text(l.as_str(), "build") || crate::text::same_text(l.as_str(), "into(as Into)")
        || crate::text::same_text(l.as_str(), "try_into(as TryInto)");
    if !internal {
        return false;
    }
    crate::text::contains_chars(detail.as_slice(), chars_of("PropsBuilder").as_slice())
        || crate::text::contains_chars(detail.as_slice(), chars_of("Builder").as_slice())
}


/// The range is absent, or contains `cursor`.
pub open spec fn edit_contains(edit: Option<PositionRange>, cursor: Position) -> bool {
    match edit {
        Some(range) => position_le_spec(range.start, cursor) && position_le_spec(cursor, range.end),
        None => true,
    }
}

/// A completion item's primary edit range once mapped back to `.rsx`: the
/// source range it maps to, or the range unchanged when it maps to none.
pub open spec fn mapped_edit_spec(
    maps: Map<Seq<char>, SourceMap>,
    units: Seq<(Uri, LineIndex)>,
    docs: Seq<(Uri, LineIndex)>,
    generated_uri: Seq<char>,
    edit: Option<PositionRange>,
) -> Option<PositionRange> {
    match edit {
        Some(range) => match workspace_location_spec(maps, units, docs, generated_uri, range) {
            LocationView::Source(_, mapped) => Some(mapped),
            _ => Some(range),
        },
        None => None,
    }
}

/// A completion item is kept when its primary edit contains the generated
/// cursor it was asked for, none of its texts leaks the backend, and the
/// edit mapped back to `.rsx` still contains the editor's own cursor.
pub open spec fn keeps_completion(
    maps: Map<Seq<char>, SourceMap>,
    units: Seq<(Uri, LineIndex)>,
    docs: Seq<(Uri, LineIndex)>,
    generated_uri: Seq<char>,
    edit: Option<PositionRange>,
    cursor: Position,
    rsx_cursor: Position,
    texts: CompletionTexts,
) -> bool {
    &&& edit_contains(edit, cursor)
    &&& !leaks_backend_spec(texts)
    &&& edit_contains(mapped_edit_spec(maps, units, docs, generated_uri, edit), rsx_cursor)
}

/// Whether a completion item rust-analyzer offered in the generated file
/// `generated_uri` reaches the editor. `edit` is the item's primary edit
/// range (`textEdit.range`, or `.insert`) in generated coordinates,
/// `cursor` the generated position asked about and `rsx_cursor` the
/// `.rsx` position the editor asked about.
pub fn keep_completion_item(
    registry: &Registry,
    units: &Vec<(Uri, LineIndex)>,
    docs: &Vec<(Uri, LineIndex)>,
    generated_uri: &Uri,
    edit: Option<PositionRange>,
    cursor: Position,
    rsx_cursor: Position,
    texts: &CompletionTexts,
) -> (r: bool)
    requires
        forall|u: Seq<char>| #[trigger] registry@.dom().contains(u) ==> all_ordered(registry@[u].mappings@),
    ensures
        r == keeps_completion(registry@, units@, docs@, generated_uri@, edit, cursor, rsx_cursor, *texts),
{
    if !primary_edit_contains_cursor(edit, cursor) {
        return false;
    }
    if leaks_backend(texts) {
        return false;
    }
    let mapped = match edit {
        Some(range) => {
            proof {
                lemma_ordered_workspace_narrow_ok(registry@, units@, generated_uri@, range);
            }
            match workspace_location_to_source(registry, units, docs, generated_uri, range) {
                MappedLocation::Source { range: source, .. } => Some(source),
                _ => Some(range),
            }
        },
        None => None,
    };
    primary_edit_contains_cursor(mapped, rsx_cursor)
}

} // verus!
