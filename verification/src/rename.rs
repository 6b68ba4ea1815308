//! Rename edits that rust-analyzer computed on generated code, translated
//! back to the `.rsx` files they came from. A rename is translated whole
//! or refused: an edit in generated code with no source, or a file
//! operation on a generated file, refuses all of it, since a rename that
//! skips one occurrence is worse than none.
use vstd::prelude::*;

use crate::edits::{dedup_keys, lemma_dedup_keys_clean, edit_keys, group_keys_spec, group_views, merge_translated_edits, TranslatedEdit};
use crate::line_index::{LineIndex, PositionRange};
use crate::mapping::{
    location_views, workspace_location_spec, workspace_location_to_source, workspace_narrow_ok,
    workspace_range_to_all_sources, workspace_sources_spec, LocationView, MappedLocation,
};
use crate::source_map::SourceMap;
use crate::registry::Registry;
use crate::span::Uri;

verus! {

/// A rename that cannot be translated back to `.rsx` terms without
/// dropping part of it; names the generated file (or a fixed marker for
/// a file operation) for the error message.
#[derive(Debug, Clone, PartialEq, Eq)]
pub struct UnmappableRename {
    pub generated_uri: String,
}

/// The `.rsx` locations one edit of the file `uri` lands on: none when
/// the file is not generated or the location has no source.
pub open spec fn edit_sources(
    maps: Map<Seq<char>, SourceMap>,
    units: Seq<(Uri, LineIndex)>,
    docs: Seq<(Uri, LineIndex)>,
    uri: Seq<char>,
    range: PositionRange,
) -> Seq<(Seq<char>, PositionRange)> {
    match workspace_sources_spec(maps, units, docs, uri, range) {
        Some(s) => s,
        None => seq![],
    }
}

/// Each location with the replacement text `text`.
pub open spec fn with_text(locs: Seq<(Seq<char>, PositionRange)>, text: Seq<char>) -> Seq<
    (Seq<char>, PositionRange, Seq<char>),
> {
    locs.map_values(|l: (Seq<char>, PositionRange)| (l.0, l.1, text))
}

/// The `.rsx` edits a generated file's edits become: each edit at every
/// source it maps back to, in order.
pub open spec fn translated_edits_spec(
    maps: Map<Seq<char>, SourceMap>,
    units: Seq<(Uri, LineIndex)>,
    docs: Seq<(Uri, LineIndex)>,
    uri: Seq<char>,
    edits: Seq<(PositionRange, String)>,
) -> Seq<(Seq<char>, PositionRange, Seq<char>)>
    decreases edits.len(),
{
    if edits.len() == 0 {
        seq![]
    } else {
        translated_edits_spec(maps, units, docs, uri, edits.drop_last()) + with_text(
            edit_sources(maps, units, docs, uri, edits.last().0),
            edits.last().1@,
        )
    }
}

/// Every edit of the file `uri` maps back to at least one source.
pub open spec fn every_edit_maps(
    maps: Map<Seq<char>, SourceMap>,
    units: Seq<(Uri, LineIndex)>,
    docs: Seq<(Uri, LineIndex)>,
    uri: Seq<char>,
    edits: Seq<(PositionRange, String)>,
) -> bool {
    forall|i: int|
        #![trigger edits[i]]
        0 <= i < edits.len() ==> edit_sources(maps, units, docs, uri, edits[i].0).len() > 0
}

/// Mapping any of the edits of the file `uri` back cannot overflow.
pub open spec fn edits_narrow_ok(
    maps: Map<Seq<char>, SourceMap>,
    units: Seq<(Uri, LineIndex)>,
    uri: Seq<char>,
    edits: Seq<(PositionRange, String)>,
) -> bool {
    forall|i: int|
        #![trigger edits[i]]
        0 <= i < edits.len() ==> workspace_narrow_ok(maps, units, uri, edits[i].0)
}

/// Translates the edits (range and new text) of one generated file back
/// to `.rsx` edits, one per source of each edit; refuses the rename when
/// any edit maps to no source at all.
pub fn translate_generated_edits(
    registry: &Registry,
    units: &Vec<(Uri, LineIndex)>,
    docs: &Vec<(Uri, LineIndex)>,
    generated_uri: &Uri,
    edits: &Vec<(PositionRange, String)>,
) -> (r: Result<Vec<TranslatedEdit>, UnmappableRename>)
    requires
        edits_narrow_ok(registry@, units@, generated_uri@, edits@),
    ensures
        match r {
            Ok(v) => every_edit_maps(registry@, units@, docs@, generated_uri@, edits@) && edit_keys(v@)
                == translated_edits_spec(registry@, units@, docs@, generated_uri@, edits@),
            Err(e) => !every_edit_maps(registry@, units@, docs@, generated_uri@, edits@)
                && e.generated_uri@ == generated_uri@,
        },
{
    let ghost maps = registry@;
    let mut out: Vec<TranslatedEdit> = Vec::new();
    for i in 0..edits.len()
        invariant
            maps == registry@,
            edits_narrow_ok(maps, units@, generated_uri@, edits@),
            every_edit_maps(maps, units@, docs@, generated_uri@, edits@.take(i as int)),
            edit_keys(out@) == translated_edits_spec(maps, units@, docs@, generated_uri@, edits@.take(i as int)),
    {
        assert(edits@.take(i + 1).drop_last() =~= edits@.take(i as int));
        assert(edits@.take(i + 1).last() == edits@[i as int]);
        let range = edits[i].0;
        let new_text = &edits[i].1;
        assert(workspace_narrow_ok(maps, units@, generated_uri@, edits@[i as int].0));
        let sources = match workspace_range_to_all_sources(registry, units, docs, generated_uri, range) {
            Some(v) => v,
            None => Vec::new(),
        };
        assert(edit_sources(maps, units@, docs@, generated_uri@, range) =~= location_views(sources@));
        if sources.len() == 0 {
            return Err(UnmappableRename { generated_uri: generated_uri.as_str().to_owned() });
        }
        let ghost before = edit_keys(out@);
        let ghost tagged = with_text(location_views(sources@), new_text@);
        for k in 0..sources.len()
            invariant
                edit_keys(out@) == before + tagged.take(k as int),
                tagged == with_text(location_views(sources@), new_text@),
        {
            let e = TranslatedEdit {
                uri: sources[k].0.duplicate(),
                range: sources[k].1,
                new_text: new_text.clone(),
            };
            assert(location_views(sources@)[k as int] == (sources@[k as int].0@, sources@[k as int].1));
            assert(tagged[k as int] == (e.uri@, e.range, e.new_text@));
            let ghost prev = out@;
            out.push(e);
            assert(edit_keys(out@) =~= edit_keys(prev).push(tagged[k as int]));
            assert(tagged.take(k + 1) =~= tagged.take(k as int).push(tagged[k as int]));
            assert(edit_keys(out@) =~= before + tagged.take(k + 1));
        }
        assert(tagged.take(sources@.len() as int) =~= tagged);
        assert(every_edit_maps(maps, units@, docs@, generated_uri@, edits@.take(i + 1))) by {
            assert forall|j: int| 0 <= j < i + 1 implies #[trigger] edit_sources(
                maps,
                units@,
                docs@,
                generated_uri@,
                edits@.take(i + 1)[j].0,
            ).len() > 0 by {
                if j < i {
                    assert(edits@.take(i + 1)[j] == edits@.take(i as int)[j]);
                }
            }
        }
    }
    assert(edits@.take(edits@.len() as int) =~= edits@);
    Ok(out)
}


/// One document's entry in a rename's `changes`: its URI and its edits.
pub type ChangeEntry = (Uri, Vec<(PositionRange, String)>);

/// This entry names a generated file some edit of which has no source.
pub open spec fn entry_refused(
    maps: Map<Seq<char>, SourceMap>,
    units: Seq<(Uri, LineIndex)>,
    docs: Seq<(Uri, LineIndex)>,
    e: ChangeEntry,
) -> bool {
    maps.dom().contains(e.0@) && !every_edit_maps(maps, units, docs, e.0@, e.1@)
}

/// The positions of the entries that are not generated files, in order:
/// those pass through untouched.
pub open spec fn passthrough_spec(maps: Map<Seq<char>, SourceMap>, changes: Seq<ChangeEntry>) -> Seq<int>
    decreases changes.len(),
{
    if changes.len() == 0 {
        seq![]
    } else {
        let rest = passthrough_spec(maps, changes.drop_last());
        if maps.dom().contains(changes.last().0@) {
            rest
        } else {
            rest.push(changes.len() - 1)
        }
    }
}

/// The `.rsx` edits of every generated entry, in order.
pub open spec fn changes_edits_spec(
    maps: Map<Seq<char>, SourceMap>,
    units: Seq<(Uri, LineIndex)>,
    docs: Seq<(Uri, LineIndex)>,
    changes: Seq<ChangeEntry>,
) -> Seq<(Seq<char>, PositionRange, Seq<char>)>
    decreases changes.len(),
{
    if changes.len() == 0 {
        seq![]
    } else {
        let rest = changes_edits_spec(maps, units, docs, changes.drop_last());
        let e = changes.last();
        if maps.dom().contains(e.0@) {
            rest + translated_edits_spec(maps, units, docs, e.0@, e.1@)
        } else {
            rest
        }
    }
}

/// Mapping any edit of any entry back cannot overflow.
pub open spec fn changes_narrow_ok(
    maps: Map<Seq<char>, SourceMap>,
    units: Seq<(Uri, LineIndex)>,
    changes: Seq<ChangeEntry>,
) -> bool {
    forall|i: int|
        #![trigger changes[i]]
        0 <= i < changes.len() ==> edits_narrow_ok(maps, units, changes[i].0@, changes[i].1@)
}

/// `i` is the first refused entry.
pub open spec fn first_refused(
    maps: Map<Seq<char>, SourceMap>,
    units: Seq<(Uri, LineIndex)>,
    docs: Seq<(Uri, LineIndex)>,
    changes: Seq<ChangeEntry>,
    i: int,
) -> bool {
    &&& 0 <= i < changes.len()
    &&& entry_refused(maps, units, docs, changes[i])
    &&& forall|j: int| #![trigger changes[j]] 0 <= j < i ==> !entry_refused(maps, units, docs, changes[j])
}

/// The positions as integers.
pub open spec fn as_positions(v: Seq<usize>) -> Seq<int> {
    v.map_values(|x: usize| x as int)
}

/// Translates a rename's `changes` (each document with its edits): the
/// entries of generated files become `.rsx` edits, with repeats dropped
/// and grouped by document; the positions of the other entries are
/// returned so that they pass through untouched. The first generated
/// entry with an edit that has no source refuses the whole rename.
pub fn translate_changes(
    registry: &Registry,
    units: &Vec<(Uri, LineIndex)>,
    docs: &Vec<(Uri, LineIndex)>,
    changes: &Vec<ChangeEntry>,
) -> (r: Result<(Vec<usize>, Vec<(String, Vec<(PositionRange, String)>)>), UnmappableRename>)
    requires
        changes_narrow_ok(registry@, units@, changes@),
    ensures
        match r {
            Ok((passthrough, translated)) => {
                &&& forall|i: int|
                    #![trigger changes@[i]]
                    0 <= i < changes@.len() ==> !entry_refused(registry@, units@, docs@, changes@[i])
                &&& as_positions(passthrough@) == passthrough_spec(registry@, changes@)
                &&& group_views(translated@) == group_keys_spec(
                    dedup_keys(changes_edits_spec(registry@, units@, docs@, changes@)),
                )
            },
            Err(e) => exists|i: int|
                first_refused(registry@, units@, docs@, changes@, i) && e.generated_uri@
                    == changes@[i].0@,
        },
{
    let ghost maps = registry@;
    let mut passthrough: Vec<usize> = Vec::new();
    let mut all: Vec<TranslatedEdit> = Vec::new();
    for i in 0..changes.len()
        invariant
            maps == registry@,
            changes_narrow_ok(maps, units@, changes@),
            forall|j: int|
                #![trigger changes@[j]]
                0 <= j < i ==> !entry_refused(maps, units@, docs@, changes@[j]),
            as_positions(passthrough@) == passthrough_spec(maps, changes@.take(i as int)),
            edit_keys(all@) == changes_edits_spec(maps, units@, docs@, changes@.take(i as int)),
    {
        assert(changes@.take(i + 1).drop_last() =~= changes@.take(i as int));
        assert(changes@.take(i + 1).last() == changes@[i as int]);
        let entry = &changes[i];
        if registry.is_generated(&entry.0) {
            assert(edits_narrow_ok(maps, units@, changes@[i as int].0@, changes@[i as int].1@));
            match translate_generated_edits(registry, units, docs, &entry.0, &entry.1) {
                Ok(mut v) => {
                    let ghost before = edit_keys(all@);
                    let ghost added = edit_keys(v@);
                    all.append(&mut v);
                    assert(edit_keys(all@) =~= before + added);
                },
                Err(e) => {
                    assert(first_refused(maps, units@, docs@, changes@, i as int));
                    return Err(e);
                },
            }
        } else {
            let ghost before = passthrough@;
            passthrough.push(i);
            assert(as_positions(passthrough@) =~= as_positions(before).push(i as int));
        }
    }
    assert(changes@.take(changes@.len() as int) =~= changes@);
    let translated = merge_translated_edits(&all);
    Ok((passthrough, translated))
}


/// What a refused file operation names in place of a generated URI.
pub const FILE_OPERATION_MARKER: &'static str = "<resource operation on generated code>";

/// One entry of a rename's `documentChanges`.
#[derive(Debug)]
pub enum DocumentChange {
    /// Edits to one document: its URI (`None` when it has none that
    /// parses) and its edits.
    Edit { uri: Option<Uri>, edits: Vec<(PositionRange, String)> },
    /// A file operation (create, rename or delete), with every URI it
    /// names.
    FileOperation { uris: Vec<Uri> },
}

/// Some URI of `uris` is a generated file.
pub open spec fn names_generated(maps: Map<Seq<char>, SourceMap>, uris: Seq<Uri>) -> bool {
    exists|k: int| 0 <= k < uris.len() && maps.dom().contains(#[trigger] uris[k]@)
}

/// Whether this entry edits a generated file.
pub open spec fn edits_generated(maps: Map<Seq<char>, SourceMap>, c: DocumentChange) -> bool {
    match c {
        DocumentChange::Edit { uri: Some(u), .. } => maps.dom().contains(u@),
        _ => false,
    }
}

/// What refuses the rename at this entry, if anything: an edit of a
/// generated file with no source, by that file's URI, or a file operation
/// on a generated file, by [`FILE_OPERATION_MARKER`].
pub open spec fn change_refusal(
    maps: Map<Seq<char>, SourceMap>,
    units: Seq<(Uri, LineIndex)>,
    docs: Seq<(Uri, LineIndex)>,
    c: DocumentChange,
) -> Option<Seq<char>> {
    match c {
        DocumentChange::Edit { uri: Some(u), edits } => if maps.dom().contains(u@)
            && !every_edit_maps(maps, units, docs, u@, edits@) {
            Some(u@)
        } else {
            None
        },
        DocumentChange::Edit { uri: None, .. } => None,
        DocumentChange::FileOperation { uris } => if names_generated(maps, uris@) {
            Some(FILE_OPERATION_MARKER@)
        } else {
            None
        },
    }
}

/// The positions of the entries that pass through untouched: every one
/// but the edits of generated files.
pub open spec fn change_passthrough_spec(maps: Map<Seq<char>, SourceMap>, cs: Seq<DocumentChange>) -> Seq<int>
    decreases cs.len(),
{
    if cs.len() == 0 {
        seq![]
    } else {
        let rest = change_passthrough_spec(maps, cs.drop_last());
        if edits_generated(maps, cs.last()) {
            rest
        } else {
            rest.push(cs.len() - 1)
        }
    }
}

/// The `.rsx` edits of every edit of a generated file, in order.
pub open spec fn change_edits_spec(
    maps: Map<Seq<char>, SourceMap>,
    units: Seq<(Uri, LineIndex)>,
    docs: Seq<(Uri, LineIndex)>,
    cs: Seq<DocumentChange>,
) -> Seq<(Seq<char>, PositionRange, Seq<char>)>
    decreases cs.len(),
{
    if cs.len() == 0 {
        seq![]
    } else {
        let rest = change_edits_spec(maps, units, docs, cs.drop_last());
        match cs.last() {
            DocumentChange::Edit { uri: Some(u), edits } => if maps.dom().contains(u@) {
                rest + translated_edits_spec(maps, units, docs, u@, edits@)
            } else {
                rest
            },
            _ => rest,
        }
    }
}

/// Mapping any edit of any generated document back cannot overflow.
pub open spec fn document_changes_narrow_ok(
    maps: Map<Seq<char>, SourceMap>,
    units: Seq<(Uri, LineIndex)>,
    cs: Seq<DocumentChange>,
) -> bool {
    forall|i: int|
        #![trigger cs[i]]
        0 <= i < cs.len() ==> match cs[i] {
            DocumentChange::Edit { uri: Some(u), edits } => edits_narrow_ok(maps, units, u@, edits@),
            _ => true,
        }
}

/// The version of the `.rsx` document `uri`: that of its first entry.
pub open spec fn version_of(versions: Seq<(Uri, i32)>, uri: Seq<char>) -> Option<i32>
    decreases versions.len(),
{
    if versions.len() == 0 {
        None
    } else if versions[0].0@ == uri {
        Some(versions[0].1)
    } else {
        version_of(versions.drop_first(), uri)
    }
}

/// Each group of edits with its document's version.
pub open spec fn versioned(
    groups: Seq<(Seq<char>, Seq<(PositionRange, Seq<char>)>)>,
    versions: Seq<(Uri, i32)>,
) -> Seq<(Seq<char>, Option<i32>, Seq<(PositionRange, Seq<char>)>)> {
    groups.map_values(
        |g: (Seq<char>, Seq<(PositionRange, Seq<char>)>)| (g.0, version_of(versions, g.0), g.1),
    )
}

/// The views of versioned document edits.
pub open spec fn versioned_views(v: Seq<(String, Option<i32>, Vec<(PositionRange, String)>)>) -> Seq<
    (Seq<char>, Option<i32>, Seq<(PositionRange, Seq<char>)>),
> {
    v.map_values(
        |d: (String, Option<i32>, Vec<(PositionRange, String)>)|
            (d.0@, d.1, d.2@.map_values(|e: (PositionRange, String)| (e.0, e.1@))),
    )
}

/// `i` is the first entry that refuses the rename.
pub open spec fn first_change_refused(
    maps: Map<Seq<char>, SourceMap>,
    units: Seq<(Uri, LineIndex)>,
    docs: Seq<(Uri, LineIndex)>,
    cs: Seq<DocumentChange>,
    i: int,
) -> bool {
    &&& 0 <= i < cs.len()
    &&& change_refusal(maps, units, docs, cs[i]).is_some()
    &&& forall|j: int| #![trigger cs[j]] 0 <= j < i ==> change_refusal(maps, units, docs, cs[j]).is_none()
}

fn find_version(versions: &Vec<(Uri, i32)>, uri: &Uri) -> (r: Option<i32>)
    ensures
        r == version_of(versions@, uri@),
{
    let n = versions.len();
    let mut i: usize = 0;
    assert(versions@.subrange(0, n as int) =~= versions@);
    while i < n
        invariant
            n == versions@.len(),
            0 <= i <= n,
            version_of(versions@, uri@) == version_of(versions@.subrange(i as int, n as int), uri@),
        decreases n - i,
    {
        assert(versions@.subrange(i as int, n as int)[0] == versions@[i as int]);
        if versions[i].0.same(uri) {
            return Some(versions[i].1);
        }
        assert(versions@.subrange(i as int, n as int).drop_first() =~= versions@.subrange(i + 1, n as int));
        i = i + 1;
    }
    None
}

fn touches_generated(registry: &Registry, uris: &Vec<Uri>) -> (r: bool)
    ensures
        r == names_generated(registry@, uris@),
{
    for k in 0..uris.len()
        invariant
            forall|j: int| 0 <= j < k ==> !registry@.dom().contains(#[trigger] uris@[j]@),
    {
        if registry.is_generated(&uris[k]) {
            return true;
        }
    }
    false
}

/// Translates a rename's `documentChanges`: the edits of generated files
/// become `.rsx` edits, with repeats dropped, grouped by document and
/// each versioned with that `.rsx` document's own version (from
/// `versions`); the positions of every other entry are returned so that
/// they pass through untouched. The first edit of a generated file with
/// no source, or file operation on a generated file, refuses the whole
/// rename.
pub fn translate_document_changes(
    registry: &Registry,
    units: &Vec<(Uri, LineIndex)>,
    docs: &Vec<(Uri, LineIndex)>,
    versions: &Vec<(Uri, i32)>,
    changes: &Vec<DocumentChange>,
) -> (r: Result<(Vec<(String, Option<i32>, Vec<(PositionRange, String)>)>, Vec<usize>), UnmappableRename>)
    requires
        document_changes_narrow_ok(registry@, units@, changes@),
    ensures
        match r {
            Ok((translated, passthrough)) => {
                &&& forall|i: int|
                    #![trigger changes@[i]]
                    0 <= i < changes@.len() ==> change_refusal(registry@, units@, docs@, changes@[i]).is_none()
                &&& versioned_views(translated@) == versioned(
                    group_keys_spec(dedup_keys(change_edits_spec(registry@, units@, docs@, changes@))),
                    versions@,
                )
                &&& as_positions(passthrough@) == change_passthrough_spec(registry@, changes@)
            },
            Err(e) => exists|i: int|
                first_change_refused(registry@, units@, docs@, changes@, i) && Some(e.generated_uri@)
                    == change_refusal(registry@, units@, docs@, changes@[i]),
        },
{
    let ghost maps = registry@;
    let mut passthrough: Vec<usize> = Vec::new();
    let mut all: Vec<TranslatedEdit> = Vec::new();
    for i in 0..changes.len()
        invariant
            maps == registry@,
            document_changes_narrow_ok(maps, units@, changes@),
            forall|j: int|
                #![trigger changes@[j]]
                0 <= j < i ==> change_refusal(maps, units@, docs@, changes@[j]).is_none(),
            as_positions(passthrough@) == change_passthrough_spec(maps, changes@.take(i as int)),
            edit_keys(all@) == change_edits_spec(maps, units@, docs@, changes@.take(i as int)),
    {
        assert(changes@.take(i + 1).drop_last() =~= changes@.take(i as int));
        assert(changes@.take(i + 1).last() == changes@[i as int]);
        let ghost before_pass = passthrough@;
        match &changes[i] {
            DocumentChange::Edit { uri: Some(uri), edits } => {
                if registry.is_generated(uri) {
                    match translate_generated_edits(registry, units, docs, uri, edits) {
                        Ok(mut v) => {
                            let ghost before = edit_keys(all@);
                            let ghost added = edit_keys(v@);
                            all.append(&mut v);
                            assert(edit_keys(all@) =~= before + added);
                        },
                        Err(e) => {
                            assert(first_change_refused(maps, units@, docs@, changes@, i as int));
                            return Err(e);
                        },
                    }
                } else {
                    passthrough.push(i);
                    assert(as_positions(passthrough@) =~= as_positions(before_pass).push(i as int));
                }
            },
            DocumentChange::Edit { uri: None, .. } => {
                passthrough.push(i);
                assert(as_positions(passthrough@) =~= as_positions(before_pass).push(i as int));
            },
            DocumentChange::FileOperation { uris } => {
                if touches_generated(registry, uris) {
                    let e = UnmappableRename { generated_uri: FILE_OPERATION_MARKER.to_owned() };
                    assert(first_change_refused(maps, units@, docs@, changes@, i as int));
                    return Err(e);
                }
                passthrough.push(i);
                assert(as_positions(passthrough@) =~= as_positions(before_pass).push(i as int));
            },
        }
    }
    assert(changes@.take(changes@.len() as int) =~= changes@);
    let groups = merge_translated_edits(&all);
    let ghost gv = group_views(groups@);
    let mut translated: Vec<(String, Option<i32>, Vec<(PositionRange, String)>)> = Vec::new();
    let ghost all_groups = groups@;
    let mut k: usize = 0;
    let n = groups.len();
    let mut rest = crate::sorting::reversed(groups);
    while k < n
        invariant
            n == all_groups.len(),
            0 <= k <= n,
            gv == group_views(all_groups),
            rest@.len() == n - k,
            forall|j: int| 0 <= j < n - k ==> #[trigger] rest@[j] == all_groups[n - 1 - j],
            versioned_views(translated@) == versioned(gv.take(k as int), versions@),
        decreases n - k,
    {
        let g = rest.pop().unwrap();
        assert(g == all_groups[k as int]);
        let version = find_version(versions, &Uri::from_string(g.0.clone()));
        let ghost before = versioned_views(translated@);
        translated.push((g.0, version, g.1));
        assert(gv.take(k + 1) =~= gv.take(k as int).push(gv[k as int]));
        assert(gv[k as int] == crate::edits::group_view(all_groups[k as int]));
        assert(versioned(gv.take(k + 1), versions@) =~= versioned(gv.take(k as int), versions@).push(
            (gv[k as int].0, version_of(versions@, gv[k as int].0), gv[k as int].1),
        ));
        assert(versioned_views(translated@) =~= versioned(gv.take(k + 1), versions@));
        k = k + 1;
    }
    assert(gv.take(n as int) =~= gv);
    Ok((translated, passthrough))
}


/// The range a `prepareRename` answer highlights, mapped back: its `.rsx`
/// range, or nothing (the position cannot be renamed here) when it has no
/// source or is not in a generated file.
pub open spec fn prepare_rename_spec(
    maps: Map<Seq<char>, SourceMap>,
    units: Seq<(Uri, LineIndex)>,
    docs: Seq<(Uri, LineIndex)>,
    uri: Seq<char>,
    range: PositionRange,
) -> Option<PositionRange> {
    match workspace_location_spec(maps, units, docs, uri, range) {
        LocationView::Source(_, r) => Some(r),
        _ => None,
    }
}

/// Maps the range of a `prepareRename` answer for the generated file
/// `generated_uri` back to `.rsx`; `None` means the answer becomes `null`.
pub fn translate_prepare_rename_range(
    registry: &Registry,
    units: &Vec<(Uri, LineIndex)>,
    docs: &Vec<(Uri, LineIndex)>,
    generated_uri: &Uri,
    range: PositionRange,
) -> (r: Option<PositionRange>)
    requires
        workspace_narrow_ok(registry@, units@, generated_uri@, range),
    ensures
        r == prepare_rename_spec(registry@, units@, docs@, generated_uri@, range),
{
    match workspace_location_to_source(registry, units, docs, generated_uri, range) {
        MappedLocation::Source { range, .. } => Some(range),
        _ => None,
    }
}

/// No group of a translated rename shares its document with another.
pub open spec fn documents_distinct(g: Seq<(Seq<char>, Seq<(PositionRange, Seq<char>)>)>) -> bool {
    forall|i: int, j: int|
        0 <= i < g.len() && 0 <= j < g.len() && i != j ==> (#[trigger] g[i]).0 != (#[trigger] g[j]).0
}

/// A translated rename never applies one edit twice and never edits a
/// document in two separate groups, yet drops no edit: the edits kept are
/// exactly those translated, each once.
pub proof fn lemma_translated_rename_is_clean(ks: Seq<(Seq<char>, PositionRange, Seq<char>)>)
    ensures
        dedup_keys(ks).no_duplicates(),
        forall|k: (Seq<char>, PositionRange, Seq<char>)| ks.contains(k) <==> #[trigger] dedup_keys(ks).contains(k),
        documents_distinct(group_keys_spec(dedup_keys(ks))),
    decreases ks.len(),
{
    lemma_dedup_keys_clean(ks);
    lemma_group_keys_distinct(dedup_keys(ks));
}

proof fn lemma_group_keys_distinct(s: Seq<(Seq<char>, PositionRange, Seq<char>)>)
    ensures
        documents_distinct(group_keys_spec(s)),
    decreases s.len(),
{
    if s.len() > 0 {
        lemma_group_keys_distinct(s.drop_last());
        let g = group_keys_spec(s.drop_last());
        let e = s.last();
        let n = group_keys_spec(s);
        if exists|i: int| 0 <= i < g.len() && (#[trigger] g[i]).0 == e.0 {
            assert forall|a: int, b: int| 0 <= a < n.len() && 0 <= b < n.len() && a != b implies (
            #[trigger] n[a]).0 != (#[trigger] n[b]).0 by {
                assert(n[a].0 == g[a].0 && n[b].0 == g[b].0);
            }
        } else {
            assert forall|a: int, b: int| 0 <= a < n.len() && 0 <= b < n.len() && a != b implies (
            #[trigger] n[a]).0 != (#[trigger] n[b]).0 by {
                if a < g.len() && b < g.len() {
                    assert(n[a] == g[a] && n[b] == g[b]);
                } else if a < g.len() {
                    assert(n[a] == g[a]);
                } else {
                    assert(n[b] == g[b]);
                }
            }
        }
    }
}

} // verus!
