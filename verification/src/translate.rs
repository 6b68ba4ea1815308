//! Translates backend vocabulary out of diagnostic messages produced for
//! generated code: known messages get a specific rewrite, any other
//! message that names a backend marker gets a generic one, and everything
//! else passes through unchanged.
use vstd::prelude::*;

use crate::legend::names_of;
use crate::text::{
    chars_of, contains_any, contains_chars, ends_with_chars, has_any_substring, has_prefix, has_substring,
    has_suffix, occurs_at, starts_with_chars, views,
};

verus! {

/// Substrings that mark a message as naming backend vocabulary.
pub open spec fn backend_marker_seq() -> Seq<Seq<char>> {
    seq![
        "rsx!"@,
        "PropsBuilder"@,
        "dioxus_rsx"@,
        "GeneratedNode"@,
        "IntoDynNode"@,
        "dioxus_core"@,
        "dioxus_elements"@,
        "dioxus_signals"@,
        "dioxus::"@,
        " dioxus "@,
    ]
}

/// The heading rustdoc gives an HTML element's usage section, which names
/// no backend path yet is backend documentation all the same.
pub open spec fn usage_heading() -> Seq<char> {
    "Usage in rsx"@
}

/// The text names backend vocabulary: a backend marker or the element
/// usage heading.
pub open spec fn names_backend(t: Seq<char>) -> bool {
    has_any_substring(t, backend_marker_seq()) || has_substring(t, usage_heading())
}

/// The text names a real component's own generated `Props` (or
/// `PropsBuilder`) type.
pub open spec fn names_component_props(t: Seq<char>, component_names: Seq<Seq<char>>) -> bool {
    exists|k: int|
        0 <= k < component_names.len() && has_substring(t, #[trigger] component_names[k] + "Props"@)
}

/// What [`translate_message`] answers: the message itself when it names
/// no backend marker, else the rewrite of the first known marker it
/// names, else the generic message.
pub open spec fn translated_message(m: Seq<char>) -> Seq<char> {
    if !has_any_substring(m, backend_marker_seq()) {
        m
    } else if has_substring(m, "PropsBuilder"@) {
        "this component is missing a required property"@
    } else if has_substring(m, "IntoDynNode"@) {
        "this value cannot be used as element content here"@
    } else {
        "the backend rejected this element; see the generated code"@
    }
}

/// A diagnostic's message after translation, and its original text,
/// kept aside only when the translation changed it.
pub open spec fn translated_diagnostic(m: Seq<char>) -> (Seq<char>, Option<Seq<char>>) {
    if translated_message(m) == m {
        (m, None)
    } else {
        (translated_message(m), Some(m))
    }
}

/// The backend markers, as character vectors.
fn backend_markers() -> (r: Vec<Vec<char>>)
    ensures
        views(r@) == backend_marker_seq(),
{
    let mut r: Vec<Vec<char>> = Vec::new();
    r.push(chars_of("rsx!"));
    r.push(chars_of("PropsBuilder"));
    r.push(chars_of("dioxus_rsx"));
    r.push(chars_of("GeneratedNode"));
    r.push(chars_of("IntoDynNode"));
    r.push(chars_of("dioxus_core"));
    r.push(chars_of("dioxus_elements"));
    r.push(chars_of("dioxus_signals"));
    r.push(chars_of("dioxus::"));
    r.push(chars_of(" dioxus "));
    assert(views(r@) =~= backend_marker_seq());
    r
}

/// Rewrites `message` if it names backend vocabulary; returns it
/// unchanged otherwise.
pub fn translate_message(message: &str) -> (r: String)
    ensures
        r@ == translated_message(message@),
{
    let m = chars_of(message);
    if !contains_any(m.as_slice(), &backend_markers()) {
        return message.to_owned();
    }
    if contains_chars(m.as_slice(), chars_of("PropsBuilder").as_slice()) {
        return "this component is missing a required property".to_owned();
    }
    if contains_chars(m.as_slice(), chars_of("IntoDynNode").as_slice()) {
        return "this value cannot be used as element content here".to_owned();
    }
    "the backend rejected this element; see the generated code".to_owned()
}

/// Whether the characters name backend vocabulary.
pub fn chars_name_backend(t: &[char]) -> (r: bool)
    ensures
        r == names_backend(t@),
{
    contains_any(t, &backend_markers()) || contains_chars(t, chars_of("Usage in rsx").as_slice())
}

/// Whether `text` names backend vocabulary: a backend marker, or the
/// usage heading of an HTML element's documentation.
pub fn contains_backend_marker(text: &str) -> (r: bool)
    ensures
        r == names_backend(text@),
{
    chars_name_backend(chars_of(text).as_slice())
}

/// The text has the shape of a name the backend generates: a component's
/// `...Props` struct (`GreetingProps`) or a `__`-prefixed internal item
/// (`__TEMPLATE_ROOTS`).
pub open spec fn looks_generated(t: Seq<char>) -> bool {
    has_suffix(t, "Props"@) || has_prefix(t, "__"@)
}

/// Whether `text` has the shape of a backend-generated name. Only the
/// shape is judged, so an ordinary user type named `MyProps` matches too:
/// callers use it where dropping such a text costs nothing.
pub fn looks_like_generated_name(text: &str) -> (r: bool)
    ensures
        r == looks_generated(text@),
{
    let t = chars_of(text);
    ends_with_chars(t.as_slice(), chars_of("Props").as_slice()) || starts_with_chars(
        t.as_slice(),
        chars_of("__").as_slice(),
    )
}

/// Whether the characters name one of the components' `Props` types.
pub fn chars_name_component_props(t: &[char], component_names: &[String]) -> (r: bool)
    ensures
        r == names_component_props(t@, names_of(component_names@)),
{
    let ghost names = names_of(component_names@);
    let suffix = chars_of("Props");
    let mut found = false;
    for k in 0..component_names.len()
        invariant
            names == names_of(component_names@),
            suffix@ == "Props"@,
            found == exists|j: int| 0 <= j < k && has_substring(t@, #[trigger] names[j] + "Props"@),
    {
        let mut wanted = chars_of(component_names[k].as_str());
        let ghost name = wanted@;
        for i in 0..suffix.len()
            invariant
                wanted@ == name + suffix@.take(i as int),
        {
            wanted.push(suffix[i]);
            assert(suffix@.take(i + 1) =~= suffix@.take(i as int).push(suffix@[i as int]));
        }
        assert(suffix@.take(suffix@.len() as int) =~= suffix@);
        assert(names[k as int] == name);
        if contains_chars(t, wanted.as_slice()) {
            found = true;
        }
    }
    found
}

/// Whether `line` names a real component's own generated `Props` or
/// `PropsBuilder` type; an unrelated type that merely ends in `Props`
/// does not count.
pub fn contains_component_props_marker(line: &str, component_names: &[String]) -> (r: bool)
    ensures
        r == names_component_props(line@, names_of(component_names@)),
{
    chars_name_component_props(chars_of(line).as_slice(), component_names)
}

/// Translates a diagnostic's message: the message to show, and the
/// original one to keep aside when they differ; the diagnostic's range,
/// severity and code are the caller's, untouched.
pub fn translate_diagnostic(message: &str) -> (r: (String, Option<String>))
    ensures
        (r.0@, match r.1 {
            Some(o) => Some(o@),
            None => None,
        }) == translated_diagnostic(message@),
{
    let translated = translate_message(message);
    let original = message.to_owned();
    if translated == original {
        (translated, None)
    } else {
        (translated, Some(original))
    }
}

/// The character `c` occurs nowhere in `h`.
pub open spec fn lacks(h: Seq<char>, c: char) -> bool {
    forall|i: int| 0 <= i < h.len() ==> h[i] != c
}

/// A text without some character of `n` cannot contain `n`.
proof fn lemma_lacking_a_char(h: Seq<char>, n: Seq<char>, j: int)
    requires
        0 <= j < n.len(),
        lacks(h, n[j]),
    ensures
        !has_substring(h, n),
{
    assert forall|i: int| !occurs_at(h, n, i) by {
        if occurs_at(h, n, i) {
            assert(h.subrange(i, i + n.len())[j] == h[i + j]);
        }
    }
}

/// A text with none of `!`, `P`, `x`, `G`, `I` names no backend marker.
proof fn lemma_no_marker(h: Seq<char>)
    requires
        lacks(h, '!'),
        lacks(h, 'P'),
        lacks(h, 'x'),
        lacks(h, 'G'),
        lacks(h, 'I'),
    ensures
        !has_any_substring(h, backend_marker_seq()),
{
    reveal_strlit("rsx!");
    reveal_strlit("PropsBuilder");
    reveal_strlit("dioxus_rsx");
    reveal_strlit("GeneratedNode");
    reveal_strlit("IntoDynNode");
    reveal_strlit("dioxus_core");
    reveal_strlit("dioxus_elements");
    reveal_strlit("dioxus_signals");
    reveal_strlit("dioxus::");
    reveal_strlit(" dioxus ");
    let ms = backend_marker_seq();
    lemma_lacking_a_char(h, ms[0], 3);
    lemma_lacking_a_char(h, ms[1], 0);
    lemma_lacking_a_char(h, ms[2], 3);
    lemma_lacking_a_char(h, ms[3], 0);
    lemma_lacking_a_char(h, ms[4], 0);
    lemma_lacking_a_char(h, ms[5], 3);
    lemma_lacking_a_char(h, ms[6], 3);
    lemma_lacking_a_char(h, ms[7], 3);
    lemma_lacking_a_char(h, ms[8], 3);
    lemma_lacking_a_char(h, ms[9], 4);
}

/// Translating a translated message changes nothing: none of the three
/// rewrites names a backend marker.
pub proof fn lemma_translate_message_idempotent(m: Seq<char>)
    ensures
        translated_message(translated_message(m)) == translated_message(m),
{
    reveal_strlit("this component is missing a required property");
    reveal_strlit("this value cannot be used as element content here");
    reveal_strlit("the backend rejected this element; see the generated code");
    lemma_no_marker("this component is missing a required property"@);
    lemma_no_marker("this value cannot be used as element content here"@);
    lemma_no_marker("the backend rejected this element; see the generated code"@);
}

} // verus!
