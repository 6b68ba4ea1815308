//! Outou's own overlay tokens: each names the legend type it belongs to
//! (component, HTML element, attribute, event or text), and becomes
//! legend-indexed, single-line tokens once a legend and a line index are
//! known.
use vstd::prelude::*;


use crate::legend::{
    position_of, Legend, ATTRIBUTE_TYPE, COMPONENT_TYPE, ELEMENT_TYPE, EVENT_TYPE, TEXT_TYPE,
};
use crate::line_index::LineIndex;
use crate::span::Span;
use crate::text::{chars_of, has_prefix, starts_with_chars, trim, trim_chars};
use crate::tokens::{span_to_line_tokens, span_to_line_tokens_spec, AbsoluteToken};

verus! {

/// One classified span, named by the legend type it belongs to.
#[derive(Debug, Clone, Copy, PartialEq, Eq)]
pub struct NamedToken {
    pub span: Span,
    pub legend_name: &'static str,
    pub modifiers: u32,
}

/// A tag name that begins with an ASCII uppercase letter names a
/// component; any other names an intrinsic HTML element.
pub open spec fn is_component_name_spec(name: Seq<char>) -> bool {
    name.len() > 0 && 'A' <= name[0] <= 'Z'
}

/// An attribute name longer than two bytes that begins with `on` is an
/// event handler.
pub open spec fn is_event_attribute_spec(name: &str) -> bool {
    name.len() > 2 && has_prefix(name@, "on"@)
}

/// Whether `name` (a tag name) names a component.
pub fn is_component_name(name: &str) -> (r: bool)
    ensures
        r == is_component_name_spec(name@),
{
    let c = chars_of(name);
    c.len() > 0 && 'A' <= c[0] && c[0] <= 'Z'
}

/// Whether `name` (an attribute name) names an event handler.
pub fn is_event_attribute(name: &str) -> (r: bool)
    ensures
        r == is_event_attribute_spec(name),
{
    name.len() > 2 && starts_with_chars(chars_of(name).as_slice(), chars_of("on").as_slice())
}

/// The token for a tag's name: a component or an element.
pub fn tag_name_token(name_span: Span, name: &str) -> (r: NamedToken)
    ensures
        r.span == name_span,
        r.modifiers == 0,
        r.legend_name@ == (if is_component_name_spec(name@) {
            COMPONENT_TYPE@
        } else {
            ELEMENT_TYPE@
        }),
{
    NamedToken {
        span: name_span,
        legend_name: if is_component_name(name) {
            COMPONENT_TYPE
        } else {
            ELEMENT_TYPE
        },
        modifiers: 0,
    }
}

/// The token for an attribute's name: an event or a plain attribute.
pub fn attribute_name_token(name_span: Span, name: &str) -> (r: NamedToken)
    ensures
        r.span == name_span,
        r.modifiers == 0,
        r.legend_name@ == (if is_event_attribute_spec(name) {
            EVENT_TYPE@
        } else {
            ATTRIBUTE_TYPE@
        }),
{
    NamedToken {
        span: name_span,
        legend_name: if is_event_attribute(name) {
            EVENT_TYPE
        } else {
            ATTRIBUTE_TYPE
        },
        modifiers: 0,
    }
}

/// The token for a JSX text child, unless the text is only white space.
pub fn text_token(span: Span, value: &str) -> (r: Option<NamedToken>)
    ensures
        r.is_some() ==> r.unwrap().span == span && r.unwrap().modifiers == 0
            && r.unwrap().legend_name@ == TEXT_TYPE@,
        r.is_none() == (trim(value@).len() == 0),
{
    if trim_chars(chars_of(value).as_slice()).len() == 0 {
        None
    } else {
        Some(NamedToken { span, legend_name: TEXT_TYPE, modifiers: 0 })
    }
}

/// The legend-indexed line tokens of each named token whose type the
/// legend knows, in order; a name the legend lacks contributes nothing.
pub open spec fn absolute_tokens_spec(
    named: Seq<NamedToken>,
    text: Seq<u8>,
    types: Seq<Seq<char>>,
) -> Seq<AbsoluteToken>
    decreases named.len(),
{
    if named.len() == 0 {
        seq![]
    } else {
        let before = absolute_tokens_spec(named.drop_last(), text, types);
        let t = named.last();
        match position_of(types, t.legend_name@) {
            Some(i) => before + span_to_line_tokens_spec(text, t.span, i as u32, t.modifiers),
            None => before,
        }
    }
}

/// Converts Outou's named tokens into legend-indexed, single-line
/// absolute tokens.
pub fn named_tokens_absolute(named: &[NamedToken], line_index: &LineIndex, legend: &Legend) -> (r: Vec<
    AbsoluteToken,
>)
    ensures
        r@ == absolute_tokens_spec(named@, line_index.bytes(), legend.type_names()),
{
    let mut out: Vec<AbsoluteToken> = Vec::new();
    for i in 0..named.len()
        invariant
            out@ == absolute_tokens_spec(
                named@.take(i as int),
                line_index.bytes(),
                legend.type_names(),
            ),
    {
        let t = named[i];
        assert(named@.take(i + 1).drop_last() =~= named@.take(i as int));
        assert(named@.take(i + 1).last() == t);
        match legend.type_index(t.legend_name) {
            Some(index) => {
                let pieces = span_to_line_tokens(line_index, t.span, index, t.modifiers);
                let ghost before = out@;
                for k in 0..pieces.len()
                    invariant
                        out@ == before + pieces@.take(k as int),
                {
                    out.push(pieces[k]);
                    assert(pieces@.take(k + 1) =~= pieces@.take(k as int).push(pieces@[k as int]));
                }
                assert(pieces@.take(pieces@.len() as int) =~= pieces@);
            },
            None => {},
        }
    }
    assert(named@.take(named@.len() as int) =~= named@);
    out
}

} // verus!
