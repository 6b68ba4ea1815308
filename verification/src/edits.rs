//! Translated rename edits and reference locations: cursor containment,
//! duplicate removal, and grouping by document.
use vstd::prelude::*;

use crate::line_index::{Position, PositionRange};
use crate::span::Uri;

verus! {

/// `a` comes no later than `b`: by line, then by character.
pub open spec fn position_le_spec(a: Position, b: Position) -> bool {
    a.line < b.line || (a.line == b.line && a.character <= b.character)
}

/// Whether `a` comes no later than `b`.
pub fn position_le(a: Position, b: Position) -> (r: bool)
    ensures
        r == position_le_spec(a, b),
{
    a.line < b.line || (a.line == b.line && a.character <= b.character)
}

/// Whether `position` lies within `range`, both ends included.
pub fn range_contains(range: PositionRange, position: Position) -> (r: bool)
    ensures
        r == (position_le_spec(range.start, position) && position_le_spec(position, range.end)),
{
    position_le(range.start, position) && position_le(position, range.end)
}

/// Whether a completion item's primary edit range (if it has one)
/// contains the cursor it was requested for; an item without an edit
/// range is always kept, since there is nothing to check.
pub fn primary_edit_contains_cursor(edit_range: Option<PositionRange>, cursor: Position) -> (r: bool)
    ensures
        r == match edit_range {
            Some(range) => position_le_spec(range.start, cursor) && position_le_spec(cursor, range.end),
            None => true,
        },
{
    match edit_range {
        Some(range) => range_contains(range, cursor),
        None => true,
    }
}

/// One rename edit translated back to a `.rsx` (or plain Rust) document.
#[derive(Debug)]
pub struct TranslatedEdit {
    pub uri: Uri,
    pub range: PositionRange,
    pub new_text: String,
}

/// What makes two edits the same: document, range and new text.
pub open spec fn edit_key(e: TranslatedEdit) -> (Seq<char>, PositionRange, Seq<char>) {
    (e.uri@, e.range, e.new_text@)
}

/// What makes two locations the same: document and range.
pub open spec fn location_key(l: (Uri, PositionRange)) -> (Seq<char>, PositionRange) {
    (l.0@, l.1)
}

/// The edits with every later repeat of an earlier one's key dropped, in
/// order.
pub open spec fn dedup_edits_spec(s: Seq<TranslatedEdit>) -> Seq<(Seq<char>, PositionRange, Seq<char>)>
    decreases s.len(),
{
    if s.len() == 0 {
        seq![]
    } else {
        let kept = dedup_edits_spec(s.drop_last());
        if kept.contains(edit_key(s.last())) {
            kept
        } else {
            kept.push(edit_key(s.last()))
        }
    }
}

/// The locations with every later repeat of an earlier one dropped, in
/// order.
pub open spec fn dedup_locations_spec(s: Seq<(Uri, PositionRange)>) -> Seq<(Seq<char>, PositionRange)>
    decreases s.len(),
{
    if s.len() == 0 {
        seq![]
    } else {
        let kept = dedup_locations_spec(s.drop_last());
        if kept.contains(location_key(s.last())) {
            kept
        } else {
            kept.push(location_key(s.last()))
        }
    }
}

/// The keys of each edit.
pub open spec fn edit_keys(v: Seq<TranslatedEdit>) -> Seq<(Seq<char>, PositionRange, Seq<char>)> {
    v.map_values(|e: TranslatedEdit| edit_key(e))
}

/// The keys of each location.
pub open spec fn location_keys(v: Seq<(Uri, PositionRange)>) -> Seq<(Seq<char>, PositionRange)> {
    v.map_values(|l: (Uri, PositionRange)| location_key(l))
}

fn same_range(a: PositionRange, b: PositionRange) -> (r: bool)
    ensures
        r == (a == b),
{
    a.start.line == b.start.line && a.start.character == b.start.character && a.end.line
        == b.end.line && a.end.character == b.end.character
}

fn same_edit(a: &TranslatedEdit, b: &TranslatedEdit) -> (r: bool)
    ensures
        r == (edit_key(*a) == edit_key(*b)),
{
    a.uri.same(&b.uri) && same_range(a.range, b.range) && a.new_text == b.new_text
}

/// Drops exact repeats of `(document, range, new text)`: two generated
/// edits that map back onto the same `.rsx` span must be applied once.
pub fn dedup_edits(edits: &Vec<TranslatedEdit>) -> (r: Vec<TranslatedEdit>)
    ensures
        edit_keys(r@) == dedup_edits_spec(edits@),
{
    let mut out: Vec<TranslatedEdit> = Vec::new();
    for i in 0..edits.len()
        invariant
            edit_keys(out@) == dedup_edits_spec(edits@.take(i as int)),
    {
        let e = &edits[i];
        assert(edits@.take(i + 1).drop_last() =~= edits@.take(i as int));
        assert(edits@.take(i + 1).last() == *e);
        let mut seen = false;
        for k in 0..out.len()
            invariant
                seen == exists|j: int| 0 <= j < k && edit_keys(out@)[j] == edit_key(*e),
        {
            assert(edit_keys(out@)[k as int] == edit_key(out@[k as int]));
            if same_edit(&out[k], e) {
                seen = true;
            }
        }
        let ghost before = edit_keys(out@);
        assert(seen == before.contains(edit_key(*e)));
        if !seen {
            out.push(
                TranslatedEdit { uri: e.uri.duplicate(), range: e.range, new_text: e.new_text.clone() },
            );
            assert(edit_keys(out@) =~= before.push(edit_key(*e)));
        }
    }
    assert(edits@.take(edits@.len() as int) =~= edits@);
    out
}

/// Drops repeated `(document, range)` locations, keeping the first.
pub fn dedup_locations(locations: &Vec<(Uri, PositionRange)>) -> (r: Vec<(Uri, PositionRange)>)
    ensures
        location_keys(r@) == dedup_locations_spec(locations@),
{
    let mut out: Vec<(Uri, PositionRange)> = Vec::new();
    for i in 0..locations.len()
        invariant
            location_keys(out@) == dedup_locations_spec(locations@.take(i as int)),
    {
        let l = &locations[i];
        assert(locations@.take(i + 1).drop_last() =~= locations@.take(i as int));
        assert(locations@.take(i + 1).last() == *l);
        let mut seen = false;
        for k in 0..out.len()
            invariant
                seen == exists|j: int| 0 <= j < k && location_keys(out@)[j] == location_key(*l),
        {
            assert(location_keys(out@)[k as int] == location_key(out@[k as int]));
            if out[k].0.same(&l.0) && same_range(out[k].1, l.1) {
                seen = true;
            }
        }
        let ghost before = location_keys(out@);
        assert(seen == before.contains(location_key(*l)));
        if !seen {
            out.push((l.0.duplicate(), l.1));
            assert(location_keys(out@) =~= before.push(location_key(*l)));
        }
    }
    assert(locations@.take(locations@.len() as int) =~= locations@);
    out
}

/// One document's share of a workspace edit: its URI and its edits.
pub open spec fn group_view(g: (String, Vec<(PositionRange, String)>)) -> (Seq<char>, Seq<(PositionRange, Seq<char>)>) {
    (g.0@, g.1@.map_values(|e: (PositionRange, String)| (e.0, e.1@)))
}

/// The views of each group.
pub open spec fn group_views(v: Seq<(String, Vec<(PositionRange, String)>)>) -> Seq<(Seq<char>, Seq<(PositionRange, Seq<char>)>)> {
    v.map_values(|g: (String, Vec<(PositionRange, String)>)| group_view(g))
}

/// The edits grouped by document, groups in the order their documents
/// first appear and each group's edits in their original order.
pub open spec fn group_by_uri_spec(s: Seq<TranslatedEdit>) -> Seq<(Seq<char>, Seq<(PositionRange, Seq<char>)>)>
    decreases s.len(),
{
    if s.len() == 0 {
        seq![]
    } else {
        let g = group_by_uri_spec(s.drop_last());
        let e = s.last();
        if exists|i: int| 0 <= i < g.len() && (#[trigger] g[i]).0 == e.uri@ {
            let i = choose|i: int| 0 <= i < g.len() && (#[trigger] g[i]).0 == e.uri@;
            g.update(i, (g[i].0, g[i].1.push((e.range, e.new_text@))))
        } else {
            g.push((e.uri@, seq![(e.range, e.new_text@)]))
        }
    }
}

/// No two groups share a document.
pub open spec fn groups_distinct(g: Seq<(Seq<char>, Seq<(PositionRange, Seq<char>)>)>) -> bool {
    forall|i: int, j: int| 0 <= i < g.len() && 0 <= j < g.len() && i != j ==> (#[trigger] g[i]).0 != (
    #[trigger] g[j]).0
}

proof fn lemma_group_by_uri_distinct(s: Seq<TranslatedEdit>)
    ensures
        groups_distinct(group_by_uri_spec(s)),
    decreases s.len(),
{
    if s.len() > 0 {
        lemma_group_by_uri_distinct(s.drop_last());
        let g = group_by_uri_spec(s.drop_last());
        let e = s.last();
        let n = group_by_uri_spec(s);
        if exists|i: int| 0 <= i < g.len() && (#[trigger] g[i]).0 == e.uri@ {
            let i = choose|i: int| 0 <= i < g.len() && (#[trigger] g[i]).0 == e.uri@;
            assert forall|a: int, b: int| 0 <= a < n.len() && 0 <= b < n.len() && a != b implies (
            #[trigger] n[a]).0 != (#[trigger] n[b]).0 by {
                assert(n[a].0 == g[a].0 && n[b].0 == g[b].0);
            }
        } else {
            assert forall|a: int, b: int| 0 <= a < n.len() && 0 <= b < n.len() && a != b implies (
            #[trigger] n[a]).0 != (#[trigger] n[b]).0 by {
                if a < g.len() && b < g.len() {
                    assert(n[a] == g[a] && n[b] == g[b]);
                } else if a < g.len() {
                    assert(n[a] == g[a]);
                } else {
                    assert(n[b] == g[b]);
                }
            }
        }
    }
}

/// Groups edits by document, in first-appearance order.
pub fn group_by_uri(edits: &Vec<TranslatedEdit>) -> (r: Vec<(String, Vec<(PositionRange, String)>)>)
    ensures
        group_views(r@) == group_by_uri_spec(edits@),
{
    let mut grouped: Vec<(String, Vec<(PositionRange, String)>)> = Vec::new();
    for i in 0..edits.len()
        invariant
            group_views(grouped@) == group_by_uri_spec(edits@.take(i as int)),
    {
        let e = &edits[i];
        let ghost prefix = edits@.take(i as int);
        assert(edits@.take(i + 1).drop_last() =~= prefix);
        assert(edits@.take(i + 1).last() == *e);
        proof {
            lemma_group_by_uri_distinct(prefix);
        }
        let ghost g = group_views(grouped@);
        let uri = e.uri.as_str().to_owned();
        let n = grouped.len();
        let mut found: Option<usize> = None;
        let mut k: usize = 0;
        while k < n && found.is_none()
            invariant
                n == grouped@.len(),
                0 <= k <= n,
                uri@ == e.uri@,
                g == group_views(grouped@),
                found.is_none() ==> forall|j: int| 0 <= j < k ==> (#[trigger] g[j]).0 != e.uri@,
                found.is_some() ==> found.unwrap() < n && g[found.unwrap() as int].0 == e.uri@,
            decreases n - k + (if found.is_none() {
                1int
            } else {
                0int
            }),
        {
            assert(g[k as int] == group_view(grouped@[k as int]));
            if grouped[k].0 == uri {
                found = Some(k);
            } else {
                k = k + 1;
            }
        }
        match found {
            Some(idx) => {
                let ghost c = choose|c: int| 0 <= c < g.len() && (#[trigger] g[c]).0 == e.uri@;
                assert(c == idx as int) by {
                    if c != idx as int {
                        assert(g[c].0 != g[idx as int].0);
                    }
                }
                let mut group = grouped.remove(idx);
                let ghost old_edits = group.1@;
                group.1.push((e.range, e.new_text.clone()));
                grouped.insert(idx, group);
                assert(group_views(grouped@) =~= g.update(
                    idx as int,
                    (g[idx as int].0, g[idx as int].1.push((e.range, e.new_text@))),
                )) by {
                    assert(group_view(grouped@[idx as int]).1 =~= g[idx as int].1.push(
                        (e.range, e.new_text@),
                    ));
                }
            },
            None => {
                let mut list: Vec<(PositionRange, String)> = Vec::new();
                list.push((e.range, e.new_text.clone()));
                grouped.push((uri, list));
                assert(group_view(grouped@[n as int]).1 =~= seq![(e.range, e.new_text@)]);
                assert(group_views(grouped@) =~= g.push((e.uri@, seq![(e.range, e.new_text@)])));
            },
        }
    }
    assert(edits@.take(edits@.len() as int) =~= edits@);
    grouped
}


/// [`group_by_uri_spec`] over edit keys: the keys grouped by document,
/// groups in the order their documents first appear.
pub open spec fn group_keys_spec(s: Seq<(Seq<char>, PositionRange, Seq<char>)>) -> Seq<(Seq<char>, Seq<(PositionRange, Seq<char>)>)>
    decreases s.len(),
{
    if s.len() == 0 {
        seq![]
    } else {
        let g = group_keys_spec(s.drop_last());
        let e = s.last();
        if exists|i: int| 0 <= i < g.len() && (#[trigger] g[i]).0 == e.0 {
            let i = choose|i: int| 0 <= i < g.len() && (#[trigger] g[i]).0 == e.0;
            g.update(i, (g[i].0, g[i].1.push((e.1, e.2))))
        } else {
            g.push((e.0, seq![(e.1, e.2)]))
        }
    }
}

/// Grouping edits depends on their keys alone.
pub proof fn lemma_group_by_uri_keys(s: Seq<TranslatedEdit>)
    ensures
        group_by_uri_spec(s) == group_keys_spec(edit_keys(s)),
    decreases s.len(),
{
    if s.len() > 0 {
        lemma_group_by_uri_keys(s.drop_last());
        assert(edit_keys(s).drop_last() =~= edit_keys(s.drop_last()));
        assert(edit_keys(s).last() == edit_key(s.last()));
    }
}

/// The keys with every later repeat of an earlier one dropped, in order.
pub open spec fn dedup_keys<K>(s: Seq<K>) -> Seq<K>
    decreases s.len(),
{
    if s.len() == 0 {
        seq![]
    } else {
        let kept = dedup_keys(s.drop_last());
        if kept.contains(s.last()) {
            kept
        } else {
            kept.push(s.last())
        }
    }
}

/// Dropping repeated edits depends on their keys alone.
pub proof fn lemma_dedup_edits_keys(s: Seq<TranslatedEdit>)
    ensures
        dedup_edits_spec(s) == dedup_keys(edit_keys(s)),
    decreases s.len(),
{
    if s.len() > 0 {
        lemma_dedup_edits_keys(s.drop_last());
        assert(edit_keys(s).drop_last() =~= edit_keys(s.drop_last()));
        assert(edit_keys(s).last() == edit_key(s.last()));
    }
}

/// The translated edits with repeats dropped, grouped by document.
pub fn merge_translated_edits(edits: &Vec<TranslatedEdit>) -> (r: Vec<(String, Vec<(PositionRange, String)>)>)
    ensures
        group_views(r@) == group_keys_spec(dedup_keys(edit_keys(edits@))),
{
    let unique = dedup_edits(edits);
    let grouped = group_by_uri(&unique);
    proof {
        lemma_group_by_uri_keys(unique@);
        lemma_dedup_edits_keys(edits@);
    }
    grouped
}

/// Dropping repeated locations depends on their keys alone.
pub proof fn lemma_dedup_locations_keys(s: Seq<(Uri, PositionRange)>)
    ensures
        dedup_locations_spec(s) == dedup_keys(location_keys(s)),
    decreases s.len(),
{
    if s.len() > 0 {
        lemma_dedup_locations_keys(s.drop_last());
        assert(location_keys(s).drop_last() =~= location_keys(s.drop_last()));
        assert(location_keys(s).last() == location_key(s.last()));
    }
}

/// Dropping repeats leaves no repeat and loses no key.
pub proof fn lemma_dedup_keys_clean<K>(ks: Seq<K>)
    ensures
        dedup_keys(ks).no_duplicates(),
        forall|k: K| ks.contains(k) <==> #[trigger] dedup_keys(ks).contains(k),
    decreases ks.len(),
{
    if ks.len() > 0 {
        let init = ks.drop_last();
        lemma_dedup_keys_clean(init);
        let kept = dedup_keys(init);
        let d = dedup_keys(ks);
        let last = ks.last();
        assert forall|k: K| ks.contains(k) <==> #[trigger] d.contains(k) by {
            if ks.contains(k) {
                let i = choose|i: int| 0 <= i < ks.len() && ks[i] == k;
                if i < ks.len() - 1 {
                    assert(init[i] == k);
                    assert(kept.contains(k));
                    let j = choose|j: int| 0 <= j < kept.len() && kept[j] == k;
                    if !kept.contains(last) {
                        assert(d[j] == k);
                    }
                } else {
                    if !kept.contains(last) {
                        assert(d[kept.len() as int] == k);
                    }
                }
            }
            if d.contains(k) {
                let j = choose|j: int| 0 <= j < d.len() && d[j] == k;
                if j < kept.len() {
                    assert(kept[j] == k);
                    assert(kept.contains(k));
                    assert(init.contains(k));
                    let i = choose|i: int| 0 <= i < init.len() && init[i] == k;
                    assert(ks[i] == k);
                } else {
                    assert(k == last);
                    assert(ks[ks.len() - 1] == k);
                }
            }
        }
    }
}

} // verus!
