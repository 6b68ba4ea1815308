//! Decisions made on `.rsx` document notifications from the editor:
//! which documents are Outou's, how rust-analyzer's generated overlays
//! are resynchronised after a re-plan, and when a blocked save is worth
//! telling the user about.
use vstd::prelude::*;

use crate::legend::names_of;
use crate::text::{chars_of, concat3, ends_with_chars, has_suffix};

verus! {

/// Whether `uri` names a `.rsx` file.
pub fn is_rsx_uri(uri: &str) -> (r: bool)
    ensures
        r == has_suffix(uri@, ".rsx"@),
{
    ends_with_chars(chars_of(uri).as_slice(), chars_of(".rsx").as_slice())
}

/// Whether an opened document is Outou's: by its language id or by its
/// `.rsx` extension.
pub fn is_outou_rsx(uri: &str, language_id: &str) -> (r: bool)
    ensures
        r == (language_id@ == "outou-rsx"@ || has_suffix(uri@, ".rsx"@)),
{
    let id = chars_of(language_id);
    let wanted = chars_of("outou-rsx");
    let same = id.len() == wanted.len() && crate::text::matches_at(id.as_slice(), wanted.as_slice(), 0);
    assert(same == (id@ == wanted@)) by {
        if id@.len() == wanted@.len() {
            assert(id@.subrange(0, wanted@.len() as int) =~= id@);
        }
    }
    same || is_rsx_uri(uri)
}

/// What rust-analyzer is told about one generated overlay after a
/// re-plan.
#[derive(Debug, PartialEq, Eq)]
pub enum OverlaySync {
    /// A unit new to rust-analyzer: `didOpen` at version 1.
    Open { uri: String },
    /// A unit it already has: full-text `didChange` at this version.
    Change { uri: String, version: i32 },
}

/// An overlay action as a value.
pub enum SyncView {
    Open(Seq<char>),
    Change(Seq<char>, int),
}

/// The version last sent for `uri`: that of its first entry.
pub open spec fn previous_version(prev: Seq<(String, i32)>, uri: Seq<char>) -> Option<i32>
    decreases prev.len(),
{
    if prev.len() == 0 {
        None
    } else if prev[0].0@ == uri {
        Some(prev[0].1)
    } else {
        previous_version(prev.drop_first(), uri)
    }
}

/// The overlays to close: those open before the re-plan that no longer
/// exist, in order.
pub open spec fn closes_spec(prev: Seq<(String, i32)>, now_open: Seq<Seq<char>>) -> Seq<Seq<char>>
    decreases prev.len(),
{
    if prev.len() == 0 {
        seq![]
    } else {
        let before = closes_spec(prev.drop_last(), now_open);
        if now_open.contains(prev.last().0@) {
            before
        } else {
            before.push(prev.last().0@)
        }
    }
}

/// The action for each unit open after the re-plan: a known one keeps
/// counting up from the version last sent, a new one opens at 1.
pub open spec fn actions_spec(prev: Seq<(String, i32)>, now_open: Seq<Seq<char>>) -> Seq<SyncView> {
    now_open.map_values(
        |u: Seq<char>|
            match previous_version(prev, u) {
                Some(v) => SyncView::Change(u, v + 1),
                None => SyncView::Open(u),
            },
    )
}

/// The views of the actions.
pub open spec fn action_views(v: Seq<OverlaySync>) -> Seq<SyncView> {
    v.map_values(
        |a: OverlaySync|
            match a {
                OverlaySync::Open { uri } => SyncView::Open(uri@),
                OverlaySync::Change { uri, version } => SyncView::Change(uri@, version as int),
            },
    )
}

/// No version last sent is the largest `i32`.
pub open spec fn versions_can_grow(prev: Seq<(String, i32)>) -> bool {
    forall|i: int| 0 <= i < prev.len() ==> (#[trigger] prev[i]).1 < i32::MAX
}

fn lookup_version(prev: &Vec<(String, i32)>, uri: &String) -> (r: Option<i32>)
    ensures
        r == previous_version(prev@, uri@),
        r.is_some() ==> exists|i: int| 0 <= i < prev@.len() && prev@[i].1 == r.unwrap(),
{
    let n = prev.len();
    let mut i: usize = 0;
    assert(prev@.subrange(0, n as int) =~= prev@);
    while i < n
        invariant
            n == prev@.len(),
            0 <= i <= n,
            previous_version(prev@, uri@) == previous_version(prev@.subrange(i as int, n as int), uri@),
        decreases n - i,
    {
        assert(prev@.subrange(i as int, n as int)[0] == prev@[i as int]);
        if prev[i].0 == *uri {
            return Some(prev[i].1);
        }
        assert(prev@.subrange(i as int, n as int).drop_first() =~= prev@.subrange(i + 1, n as int));
        i = i + 1;
    }
    None
}

/// After a re-plan: the overlays rust-analyzer must close (open before,
/// gone now), and for each unit open now, whether to open it fresh or to
/// send its full text at the next version.
pub fn resync_overlays(prev: &Vec<(String, i32)>, now_open: &Vec<String>) -> (r: (Vec<String>, Vec<OverlaySync>))
    requires
        versions_can_grow(prev@),
    ensures
        names_of(r.0@) == closes_spec(prev@, names_of(now_open@)),
        action_views(r.1@) == actions_spec(prev@, names_of(now_open@)),
{
    let ghost now = names_of(now_open@);
    let mut closes: Vec<String> = Vec::new();
    for i in 0..prev.len()
        invariant
            now == names_of(now_open@),
            names_of(closes@) == closes_spec(prev@.take(i as int), now),
    {
        assert(prev@.take(i + 1).drop_last() =~= prev@.take(i as int));
        assert(prev@.take(i + 1).last() == prev@[i as int]);
        let mut still_open = false;
        for k in 0..now_open.len()
            invariant
                now == names_of(now_open@),
                i < prev@.len(),
                still_open == exists|j: int| 0 <= j < k && #[trigger] now[j] == prev@[i as int].0@,
        {
            if now_open[k] == prev[i].0 {
                still_open = true;
            }
            assert(now[k as int] == now_open@[k as int]@);
        }
        assert(still_open == now.contains(prev@[i as int].0@));
        let ghost before = names_of(closes@);
        if !still_open {
            closes.push(prev[i].0.clone());
            assert(names_of(closes@) =~= before.push(prev@[i as int].0@));
        }
    }
    assert(prev@.take(prev@.len() as int) =~= prev@);
    let mut actions: Vec<OverlaySync> = Vec::new();
    for k in 0..now_open.len()
        invariant
            now == names_of(now_open@),
            versions_can_grow(prev@),
            action_views(actions@) == actions_spec(prev@, now).take(k as int),
    {
        let ghost before = action_views(actions@);
        let ghost u = now[k as int];
        assert(u == now_open@[k as int]@);
        match lookup_version(prev, &now_open[k]) {
            Some(v) => {
                proof {
                    let j = choose|j: int| 0 <= j < prev@.len() && prev@[j].1 == v;
                    assert(prev@[j].1 < i32::MAX);
                }
                let uri = now_open[k].clone();
                actions.push(OverlaySync::Change { uri, version: v + 1 });
                assert(action_views(actions@) =~= before.push(SyncView::Change(u, v + 1)));
            },
            None => {
                let uri = now_open[k].clone();
                actions.push(OverlaySync::Open { uri });
                assert(action_views(actions@) =~= before.push(SyncView::Open(u)));
            },
        }
        assert(actions_spec(prev@, now).take(k + 1) =~= actions_spec(prev@, now).take(k as int).push(
            actions_spec(prev@, now)[k as int],
        ));
    }
    assert(actions_spec(prev@, now).take(now.len() as int) =~= actions_spec(prev@, now));
    (closes, actions)
}

/// The warning shown when a save was blocked by a syntax error in another
/// `.rsx` file; nothing when the blocking file is the one just saved,
/// whose own diagnostic already says why.
pub open spec fn save_blocked_notice_spec(
    saved_uri: Seq<char>,
    blocking_uri: Seq<char>,
    blocking_name: Seq<char>,
) -> Option<Seq<char>> {
    if blocking_uri == saved_uri {
        None
    } else {
        Some(
            "outou: this save was not written because `"@ + blocking_name
                + "` has a syntax error; fix it and save again"@,
        )
    }
}

/// The warning for a save blocked by a syntax error in the file
/// `blocking_uri` (whose file name is `blocking_name`).
pub fn save_blocked_notice(saved_uri: &str, blocking_uri: &str, blocking_name: &str) -> (r: Option<String>)
    ensures
        match r {
            Some(s) => save_blocked_notice_spec(saved_uri@, blocking_uri@, blocking_name@) == Some(s@),
            None => save_blocked_notice_spec(saved_uri@, blocking_uri@, blocking_name@).is_none(),
        },
{
    let a = chars_of(saved_uri);
    let b = chars_of(blocking_uri);
    let same = a.len() == b.len() && crate::text::matches_at(a.as_slice(), b.as_slice(), 0);
    assert(same == (a@ == b@)) by {
        if a@.len() == b@.len() {
            assert(a@.subrange(0, b@.len() as int) =~= a@);
        }
    }
    if same {
        return None;
    }
    Some(
        concat3(
            "outou: this save was not written because `",
            blocking_name,
            "` has a syntax error; fix it and save again",
        ),
    )
}

/// Re-planning never moves a known overlay's version backwards: each
/// unit rust-analyzer already had is sent a version above the last one it
/// was sent.
pub proof fn lemma_resync_versions_grow(prev: Seq<(String, i32)>, now_open: Seq<Seq<char>>, k: int)
    requires
        0 <= k < now_open.len(),
        previous_version(prev, now_open[k]).is_some(),
    ensures
        actions_spec(prev, now_open)[k] matches SyncView::Change(u, v) && u == now_open[k] && v
            > previous_version(prev, now_open[k]).unwrap(),
{
}

} // verus!
