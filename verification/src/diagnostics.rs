//! Which rust-analyzer diagnostics of a generated file are shown on a
//! `.rsx` file, and where: each is mapped back through the source map and
//! kept only when it lands in that file.
use vstd::prelude::*;

use crate::line_index::{LineIndex, PositionRange};
use crate::mapping::{
    workspace_location_spec, workspace_location_to_source, workspace_narrow_ok, LocationView, MappedLocation,
};
use crate::registry::Registry;
use crate::source_map::SourceMap;
use crate::span::Uri;

verus! {

/// The diagnostics (by their ranges in the generated file) that land in
/// the `.rsx` file `rsx_uri`: the position of each in the list and its
/// `.rsx` range, in order.
pub open spec fn rsx_diagnostics_spec(
    maps: Map<Seq<char>, SourceMap>,
    units: Seq<(Uri, LineIndex)>,
    docs: Seq<(Uri, LineIndex)>,
    generated_uri: Seq<char>,
    rsx_uri: Seq<char>,
    ranges: Seq<PositionRange>,
) -> Seq<(int, PositionRange)>
    decreases ranges.len(),
{
    if ranges.len() == 0 {
        seq![]
    } else {
        let rest = rsx_diagnostics_spec(maps, units, docs, generated_uri, rsx_uri, ranges.drop_last());
        match workspace_location_spec(maps, units, docs, generated_uri, ranges.last()) {
            LocationView::Source(u, r) => if u == rsx_uri {
                rest.push((ranges.len() - 1, r))
            } else {
                rest
            },
            _ => rest,
        }
    }
}

/// The positions and ranges, as integers and ranges.
pub open spec fn kept_views(v: Seq<(usize, PositionRange)>) -> Seq<(int, PositionRange)> {
    v.map_values(|e: (usize, PositionRange)| (e.0 as int, e.1))
}

/// Maps the ranges of rust-analyzer's diagnostics for the generated file
/// `generated_uri` back, keeping those that land in `rsx_uri`: each kept
/// one by its position in `ranges` and its `.rsx` range.
pub fn diagnostics_for_rsx(
    registry: &Registry,
    units: &Vec<(Uri, LineIndex)>,
    docs: &Vec<(Uri, LineIndex)>,
    generated_uri: &Uri,
    rsx_uri: &Uri,
    ranges: &Vec<PositionRange>,
) -> (r: Vec<(usize, PositionRange)>)
    requires
        forall|i: int|
            #![trigger ranges@[i]]
            0 <= i < ranges@.len() ==> workspace_narrow_ok(registry@, units@, generated_uri@, ranges@[i]),
    ensures
        kept_views(r@) == rsx_diagnostics_spec(registry@, units@, docs@, generated_uri@, rsx_uri@, ranges@),
{
    let ghost maps = registry@;
    let mut out: Vec<(usize, PositionRange)> = Vec::new();
    for i in 0..ranges.len()
        invariant
            maps == registry@,
            forall|k: int|
                #![trigger ranges@[k]]
                0 <= k < ranges@.len() ==> workspace_narrow_ok(maps, units@, generated_uri@, ranges@[k]),
            kept_views(out@) == rsx_diagnostics_spec(maps, units@, docs@, generated_uri@, rsx_uri@, ranges@.take(i as int)),
    {
        assert(ranges@.take(i + 1).drop_last() =~= ranges@.take(i as int));
        assert(ranges@.take(i + 1).last() == ranges@[i as int]);
        assert(workspace_narrow_ok(maps, units@, generated_uri@, ranges@[i as int]));
        let ghost before = kept_views(out@);
        match workspace_location_to_source(registry, units, docs, generated_uri, ranges[i]) {
            MappedLocation::Source { uri, range } => {
                if uri.same(rsx_uri) {
                    out.push((i, range));
                    assert(kept_views(out@) =~= before.push((i as int, range)));
                }
            },
            _ => {},
        }
    }
    assert(ranges@.take(ranges@.len() as int) =~= ranges@);
    out
}

} // verus!
