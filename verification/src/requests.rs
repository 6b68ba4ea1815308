//! Decisions made while dispatching editor requests.
use vstd::prelude::*;

verus! {

/// Whether `textDocument/semanticTokens/full` can be forwarded to
/// rust-analyzer: only when one is attached and it advertised support for
/// the request; either alone is not enough.
pub fn ra_can_serve_semantic_tokens(has_ra: bool, ra_supports_semantic_tokens: bool) -> (r: bool)
    ensures
        r == (has_ra && ra_supports_semantic_tokens),
{
    has_ra && ra_supports_semantic_tokens
}

} // verus!
