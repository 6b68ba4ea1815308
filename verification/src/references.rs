//! Reference locations that rust-analyzer found in generated code,
//! translated back to the `.rsx` files they came from. Unlike a rename, a
//! location with no source is dropped rather than refused: the answer is
//! read-only, and a generated-file location must never reach the editor.
use vstd::prelude::*;

use crate::edits::{dedup_keys, dedup_locations, lemma_dedup_keys_clean, lemma_dedup_locations_keys, location_keys};
use crate::line_index::{LineIndex, PositionRange};
use crate::mapping::{location_views, workspace_narrow_ok, workspace_range_to_all_sources, workspace_sources_spec};
use crate::source_map::SourceMap;
use crate::registry::Registry;
use crate::span::Uri;

verus! {

/// Every location a references answer stands for, in order: a location
/// in a generated file at each of its `.rsx` sources (none when it has
/// no source), any other location as it is.
pub open spec fn reference_locations_spec(
    maps: Map<Seq<char>, SourceMap>,
    units: Seq<(Uri, LineIndex)>,
    docs: Seq<(Uri, LineIndex)>,
    locs: Seq<(Uri, PositionRange)>,
) -> Seq<(Seq<char>, PositionRange)>
    decreases locs.len(),
{
    if locs.len() == 0 {
        seq![]
    } else {
        let rest = reference_locations_spec(maps, units, docs, locs.drop_last());
        let l = locs.last();
        match workspace_sources_spec(maps, units, docs, l.0@, l.1) {
            None => rest.push((l.0@, l.1)),
            Some(s) => rest + s,
        }
    }
}

/// Mapping any of the locations back cannot overflow.
pub open spec fn locations_narrow_ok(
    maps: Map<Seq<char>, SourceMap>,
    units: Seq<(Uri, LineIndex)>,
    locs: Seq<(Uri, PositionRange)>,
) -> bool {
    forall|i: int| #![trigger locs[i]] 0 <= i < locs.len() ==> workspace_narrow_ok(maps, units, locs[i].0@, locs[i].1)
}

/// Translates the locations of a references answer: each location in a
/// generated file becomes its `.rsx` locations (or is dropped when it has
/// none), every other location is kept, and repeats are dropped.
pub fn translate_references(
    registry: &Registry,
    units: &Vec<(Uri, LineIndex)>,
    docs: &Vec<(Uri, LineIndex)>,
    locations: &Vec<(Uri, PositionRange)>,
) -> (r: Vec<(Uri, PositionRange)>)
    requires
        locations_narrow_ok(registry@, units@, locations@),
    ensures
        location_keys(r@) == dedup_keys(reference_locations_spec(registry@, units@, docs@, locations@)),
{
    let ghost maps = registry@;
    let mut out: Vec<(Uri, PositionRange)> = Vec::new();
    for i in 0..locations.len()
        invariant
            maps == registry@,
            locations_narrow_ok(maps, units@, locations@),
            location_keys(out@) == reference_locations_spec(maps, units@, docs@, locations@.take(i as int)),
    {
        assert(locations@.take(i + 1).drop_last() =~= locations@.take(i as int));
        assert(locations@.take(i + 1).last() == locations@[i as int]);
        let uri = &locations[i].0;
        let range = locations[i].1;
        assert(workspace_narrow_ok(maps, units@, locations@[i as int].0@, locations@[i as int].1));
        let ghost before = location_keys(out@);
        match workspace_range_to_all_sources(registry, units, docs, uri, range) {
            None => {
                out.push((uri.duplicate(), range));
                assert(location_keys(out@) =~= before.push((uri@, range)));
            },
            Some(mut sources) => {
                let ghost added = location_views(sources@);
                out.append(&mut sources);
                assert(location_keys(out@) =~= before + added);
            },
        }
    }
    assert(locations@.take(locations@.len() as int) =~= locations@);
    let r = dedup_locations(&out);
    proof {
        lemma_dedup_locations_keys(out@);
    }
    r
}

/// A translated references answer lists no location twice, and every
/// location the answer stands for is listed.
pub proof fn lemma_references_are_listed_once(locs: Seq<(Seq<char>, PositionRange)>)
    ensures
        dedup_keys(locs).no_duplicates(),
        forall|l: (Seq<char>, PositionRange)| locs.contains(l) <==> #[trigger] dedup_keys(locs).contains(l),
{
    lemma_dedup_keys_clean(locs);
}

} // verus!
