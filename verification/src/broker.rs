//! Bookkeeping for requests relayed between the editor and
//! rust-analyzer: which rust-analyzer request answers which editor
//! request, which editor response answers which rust-analyzer request,
//! fresh ids for requests forwarded to the editor, and what a response
//! that arrives too late is answered.
use vstd::prelude::*;

use crate::line_index::Position;
use crate::span::Uri;
use crate::translate::{contains_backend_marker, names_backend};
use crate::text::{chars_of, contains_chars, has_substring};

verus! {

/// LSP's `ErrorCodes.RequestCancelled`.
pub const REQUEST_CANCELLED: i32 = -32800;

/// LSP's `ErrorCodes.ContentModified`.
pub const CONTENT_MODIFIED: i32 = -32801;

/// The first id this server gives a request it forwards to the editor,
/// well above the ids an editor allocates for its own requests.
pub const FIRST_FORWARDED_ID: i32 = 1_000_000_000;

/// A JSON-RPC request id.
#[derive(Debug, PartialEq, Eq)]
pub enum RequestId {
    Number(i32),
    Text(String),
}

/// A request id as a value.
pub enum IdView {
    Number(i32),
    Text(Seq<char>),
}

impl View for RequestId {
    type V = IdView;

    open spec fn view(&self) -> IdView {
        match self {
            RequestId::Number(n) => IdView::Number(*n),
            RequestId::Text(s) => IdView::Text(s@),
        }
    }
}

impl RequestId {
    /// Whether two ids are the same.
    pub fn same(&self, other: &RequestId) -> (r: bool)
        ensures
            r == (self@ == other@),
    {
        match (self, other) {
            (RequestId::Number(a), RequestId::Number(b)) => *a == *b,
            (RequestId::Text(a), RequestId::Text(b)) => *a == *b,
            _ => false,
        }
    }

    /// A copy of this id.
    pub fn duplicate(&self) -> (r: RequestId)
        ensures
            r@ == self@,
    {
        match self {
            RequestId::Number(n) => RequestId::Number(*n),
            RequestId::Text(s) => RequestId::Text(s.clone()),
        }
    }
}

/// What a rust-analyzer response is mapped through before it is relayed.
#[derive(Debug)]
pub enum PendingKind {
    Hover { generated_uri: Uri },
    Definition,
    Completion { generated_uri: Uri, cursor: Position, rsx_cursor: Position },
    PrepareRename { generated_uri: Uri },
    Rename,
    References,
    SemanticTokens { generated_uri: Uri, rsx_uri: String },
    /// Relayed with no mapping.
    Forward,
}

/// One rust-analyzer request awaiting its response.
#[derive(Debug)]
pub struct Pending {
    /// The editor's id for the request this one answers.
    pub client_id: RequestId,
    pub kind: PendingKind,
    /// The re-plan epoch in which the request was sent.
    pub epoch: u64,
    /// The `.rsx` document (URI and version) the request was computed
    /// against, for requests that must not be answered once it changed.
    pub rsx_document: Option<(String, i32)>,
}

/// The value stored under `k`: that of its first entry.
pub open spec fn lookup<V>(t: Seq<(RequestId, V)>, k: IdView) -> Option<V>
    decreases t.len(),
{
    if t.len() == 0 {
        None
    } else if t[0].0@ == k {
        Some(t[0].1)
    } else {
        lookup(t.drop_first(), k)
    }
}

/// No two entries share a key.
pub open spec fn keys_unique<V>(t: Seq<(RequestId, V)>) -> bool {
    forall|i: int, j: int| 0 <= i < t.len() && 0 <= j < t.len() && i != j ==> (#[trigger] t[i]).0@ != (
    #[trigger] t[j]).0@
}

/// The table with `v` stored under `k`: the entry for `k` replaced in
/// place, or a new entry at the end.
pub open spec fn upsert<V>(t: Seq<(RequestId, V)>, k: RequestId, v: V) -> Seq<(RequestId, V)> {
    if exists|i: int| 0 <= i < t.len() && (#[trigger] t[i]).0@ == k@ {
        let i = choose|i: int| 0 <= i < t.len() && (#[trigger] t[i]).0@ == k@;
        t.update(i, (k, v))
    } else {
        t.push((k, v))
    }
}

/// The table without the entry for `k`.
pub open spec fn without_key<V>(t: Seq<(RequestId, V)>, k: IdView) -> Seq<(RequestId, V)> {
    if exists|i: int| 0 <= i < t.len() && (#[trigger] t[i]).0@ == k {
        let i = choose|i: int| 0 <= i < t.len() && (#[trigger] t[i]).0@ == k;
        t.remove(i)
    } else {
        t
    }
}

/// The unique entry for a key decides its lookup.
pub proof fn lemma_lookup_at<V>(t: Seq<(RequestId, V)>, i: int)
    requires
        keys_unique(t),
        0 <= i < t.len(),
    ensures
        lookup(t, t[i].0@) == Some(t[i].1),
    decreases i,
{
    if i > 0 {
        let s = t.drop_first();
        assert(t[0].0@ != t[i].0@);
        assert forall|a: int, b: int| 0 <= a < s.len() && 0 <= b < s.len() && a != b implies (
        #[trigger] s[a]).0@ != (#[trigger] s[b]).0@ by {
            assert(s[a] == t[a + 1] && s[b] == t[b + 1]);
        }
        assert(s[i - 1] == t[i]);
        lemma_lookup_at(s, i - 1);
    }
}

/// A key no entry holds looks up nothing.
pub proof fn lemma_lookup_absent<V>(t: Seq<(RequestId, V)>, k: IdView)
    requires
        forall|i: int| 0 <= i < t.len() ==> (#[trigger] t[i]).0@ != k,
    ensures
        lookup(t, k).is_none(),
    decreases t.len(),
{
    if t.len() > 0 {
        let s = t.drop_first();
        assert forall|i: int| 0 <= i < s.len() implies (#[trigger] s[i]).0@ != k by {
            assert(s[i] == t[i + 1]);
        }
        lemma_lookup_absent(s, k);
    }
}

/// Looking a key up in a table with unique keys finds its entry, or
/// nothing when no entry has it.
pub proof fn lemma_lookup_unique<V>(t: Seq<(RequestId, V)>, k: IdView)
    requires
        keys_unique(t),
    ensures
        (exists|i: int| 0 <= i < t.len() && (#[trigger] t[i]).0@ == k) ==> lookup(t, k) == Some(
            t[choose|i: int| 0 <= i < t.len() && (#[trigger] t[i]).0@ == k].1,
        ),
        !(exists|i: int| 0 <= i < t.len() && (#[trigger] t[i]).0@ == k) ==> lookup(t, k).is_none(),
{
    if exists|i: int| 0 <= i < t.len() && (#[trigger] t[i]).0@ == k {
        let i = choose|i: int| 0 <= i < t.len() && (#[trigger] t[i]).0@ == k;
        lemma_lookup_at(t, i);
    } else {
        lemma_lookup_absent(t, k);
    }
}

/// Storing under a key keeps the keys unique, makes the key look up the
/// new value, and leaves every other key's value alone.
pub proof fn lemma_upsert<V>(t: Seq<(RequestId, V)>, k: RequestId, v: V)
    requires
        keys_unique(t),
    ensures
        keys_unique(upsert(t, k, v)),
        lookup(upsert(t, k, v), k@) == Some(v),
        forall|other: IdView| other != k@ ==> lookup(upsert(t, k, v), other) == lookup(t, other),
{
    let u = upsert(t, k, v);
    if exists|i: int| 0 <= i < t.len() && (#[trigger] t[i]).0@ == k@ {
        let i = choose|i: int| 0 <= i < t.len() && (#[trigger] t[i]).0@ == k@;
        assert forall|a: int, b: int| 0 <= a < u.len() && 0 <= b < u.len() && a != b implies (
        #[trigger] u[a]).0@ != (#[trigger] u[b]).0@ by {
            if a != i && b != i {
                assert(u[a] == t[a] && u[b] == t[b]);
            } else if a == i {
                assert(u[b] == t[b]);
            } else {
                assert(u[a] == t[a]);
            }
        }
        lemma_lookup_at(u, i);
        assert forall|other: IdView| other != k@ implies lookup(u, other) == lookup(t, other) by {
            lemma_lookup_unique(t, other);
            lemma_lookup_unique(u, other);
            if exists|j: int| 0 <= j < t.len() && (#[trigger] t[j]).0@ == other {
                let j = choose|j: int| 0 <= j < t.len() && (#[trigger] t[j]).0@ == other;
                assert(u[j] == t[j]);
                lemma_lookup_at(t, j);
                lemma_lookup_at(u, j);
            } else {
                assert forall|j: int| 0 <= j < u.len() implies (#[trigger] u[j]).0@ != other by {
                    if j != i {
                        assert(u[j] == t[j]);
                    }
                }
                lemma_lookup_absent(u, other);
            }
        }
    } else {
        assert forall|a: int, b: int| 0 <= a < u.len() && 0 <= b < u.len() && a != b implies (
        #[trigger] u[a]).0@ != (#[trigger] u[b]).0@ by {
            if a < t.len() && b < t.len() {
                assert(u[a] == t[a] && u[b] == t[b]);
            } else if a < t.len() {
                assert(u[a] == t[a]);
            } else {
                assert(u[b] == t[b]);
            }
        }
        lemma_lookup_at(u, t.len() as int);
        assert forall|other: IdView| other != k@ implies lookup(u, other) == lookup(t, other) by {
            lemma_lookup_unique(t, other);
            if exists|j: int| 0 <= j < t.len() && (#[trigger] t[j]).0@ == other {
                let j = choose|j: int| 0 <= j < t.len() && (#[trigger] t[j]).0@ == other;
                assert(u[j] == t[j]);
                lemma_lookup_at(t, j);
                lemma_lookup_at(u, j);
            } else {
                assert forall|j: int| 0 <= j < u.len() implies (#[trigger] u[j]).0@ != other by {
                    if j < t.len() {
                        assert(u[j] == t[j]);
                    }
                }
                lemma_lookup_absent(u, other);
            }
        }
    }
}

/// Removing a key keeps the keys unique, makes the key look up nothing,
/// and leaves every other key's value alone.
pub proof fn lemma_without_key<V>(t: Seq<(RequestId, V)>, k: IdView)
    requires
        keys_unique(t),
    ensures
        keys_unique(without_key(t, k)),
        lookup(without_key(t, k), k).is_none(),
        forall|other: IdView| other != k ==> lookup(without_key(t, k), other) == lookup(t, other),
{
    let u = without_key(t, k);
    if exists|i: int| 0 <= i < t.len() && (#[trigger] t[i]).0@ == k {
        let i = choose|i: int| 0 <= i < t.len() && (#[trigger] t[i]).0@ == k;
        assert forall|j: int| 0 <= j < u.len() implies u[j] == (if j < i {
            t[j]
        } else {
            t[j + 1]
        }) by {}
        assert forall|a: int, b: int| 0 <= a < u.len() && 0 <= b < u.len() && a != b implies (
        #[trigger] u[a]).0@ != (#[trigger] u[b]).0@ by {
            let ta = if a < i {
                a
            } else {
                a + 1
            };
            let tb = if b < i {
                b
            } else {
                b + 1
            };
            assert(u[a] == t[ta] && u[b] == t[tb]);
        }
        assert forall|j: int| 0 <= j < u.len() implies (#[trigger] u[j]).0@ != k by {
            let tj = if j < i {
                j
            } else {
                j + 1
            };
            assert(u[j] == t[tj]);
        }
        lemma_lookup_absent(u, k);
        assert forall|other: IdView| other != k implies lookup(u, other) == lookup(t, other) by {
            lemma_lookup_unique(t, other);
            if exists|j: int| 0 <= j < t.len() && (#[trigger] t[j]).0@ == other {
                let j = choose|j: int| 0 <= j < t.len() && (#[trigger] t[j]).0@ == other;
                let uj = if j < i {
                    j
                } else {
                    j - 1
                };
                assert(j != i);
                assert(u[uj] == t[j]);
                lemma_lookup_at(t, j);
                lemma_lookup_at(u, uj);
            } else {
                assert forall|j: int| 0 <= j < u.len() implies (#[trigger] u[j]).0@ != other by {
                    let tj = if j < i {
                        j
                    } else {
                        j + 1
                    };
                    assert(u[j] == t[tj]);
                }
                lemma_lookup_absent(u, other);
            }
        }
    } else {
        lemma_lookup_absent(t, k);
    }
}

/// The index of the entry for `k`, if any.
fn find_key<V>(t: &Vec<(RequestId, V)>, k: &RequestId) -> (r: Option<usize>)
    ensures
        match r {
            Some(i) => i < t@.len() && t@[i as int].0@ == k@,
            None => forall|i: int| 0 <= i < t@.len() ==> (#[trigger] t@[i]).0@ != k@,
        },
{
    let n = t.len();
    for i in 0..n
        invariant
            n == t@.len(),
            forall|j: int| 0 <= j < i ==> (#[trigger] t@[j]).0@ != k@,
    {
        if t[i].0.same(k) {
            return Some(i);
        }
    }
    None
}

/// Stores `v` under `k`.
fn upsert_in<V>(t: &mut Vec<(RequestId, V)>, k: RequestId, v: V)
    requires
        keys_unique(old(t)@),
    ensures
        final(t)@ == upsert(old(t)@, k, v),
{
    match find_key(t, &k) {
        Some(i) => {
            let ghost j = choose|j: int| 0 <= j < old(t)@.len() && (#[trigger] old(t)@[j]).0@ == k@;
            assert(j == i) by {
                if j != i {
                    assert(old(t)@[j].0@ != old(t)@[i as int].0@);
                }
            }
            t.set(i, (k, v));
        },
        None => {
            t.push((k, v));
        },
    }
}

/// Removes and returns the value stored under `k`.
fn remove_in<V>(t: &mut Vec<(RequestId, V)>, k: &RequestId) -> (r: Option<V>)
    requires
        keys_unique(old(t)@),
    ensures
        r == lookup(old(t)@, k@),
        final(t)@ == without_key(old(t)@, k@),
{
    proof {
        lemma_lookup_unique(old(t)@, k@);
    }
    match find_key(t, k) {
        Some(i) => {
            let ghost j = choose|j: int| 0 <= j < old(t)@.len() && (#[trigger] old(t)@[j]).0@ == k@;
            assert(j == i) by {
                if j != i {
                    assert(old(t)@[j].0@ != old(t)@[i as int].0@);
                }
            }
            let (_, v) = t.remove(i);
            Some(v)
        },
        None => None,
    }
}

/// The requests in flight between the editor and rust-analyzer.
pub struct Broker {
    /// rust-analyzer request id to the pending editor request it answers.
    pending: Vec<(RequestId, Pending)>,
    /// Editor-facing id of a request forwarded to the editor, to
    /// rust-analyzer's own id for it.
    reverse_pending: Vec<(RequestId, RequestId)>,
    next_forwarded_id: i32,
    epoch: u64,
}

impl Broker {
    #[verifier::type_invariant]
    spec fn inv(&self) -> bool {
        keys_unique(self.pending@) && keys_unique(self.reverse_pending@)
    }

    /// The pending rust-analyzer requests, in the order they were sent.
    pub closed spec fn pending_entries(&self) -> Seq<(RequestId, Pending)> {
        self.pending@
    }

    /// The requests forwarded to the editor, in the order they were sent.
    pub closed spec fn forwarded_entries(&self) -> Seq<(RequestId, RequestId)> {
        self.reverse_pending@
    }

    /// The id the next request forwarded to the editor gets.
    pub closed spec fn next_id(&self) -> i32 {
        self.next_forwarded_id
    }

    /// The current re-plan epoch.
    pub closed spec fn current_epoch(&self) -> u64 {
        self.epoch
    }

    /// Nothing in flight, epoch zero.
    pub fn new() -> (r: Self)
        ensures
            r.pending_entries().len() == 0,
            r.forwarded_entries().len() == 0,
            r.next_id() == FIRST_FORWARDED_ID,
            r.current_epoch() == 0,
    {
        Broker {
            pending: Vec::new(),
            reverse_pending: Vec::new(),
            next_forwarded_id: FIRST_FORWARDED_ID,
            epoch: 0,
        }
    }

    /// The current re-plan epoch.
    pub fn epoch(&self) -> (r: u64)
        ensures
            r == self.current_epoch(),
    {
        self.epoch
    }

    /// Starts a new epoch after a crate-wide re-plan: every request sent
    /// before it will be answered as cancelled.
    pub fn bump_epoch(&mut self)
        requires
            old(self).current_epoch() < u64::MAX,
        ensures
            final(self).current_epoch() == old(self).current_epoch() + 1,
            final(self).pending_entries() == old(self).pending_entries(),
            final(self).forwarded_entries() == old(self).forwarded_entries(),
            final(self).next_id() == old(self).next_id(),
    {
        proof {
            use_type_invariant(&*self);
        }
        self.epoch = self.epoch + 1;
    }

    /// Whether a fresh id is left for a request forwarded to the editor.
    pub fn can_forward(&self) -> (r: bool)
        ensures
            r == (self.next_id() < i32::MAX),
    {
        self.next_forwarded_id < i32::MAX
    }

    /// A fresh id for a request forwarded to the editor.
    pub fn next_forwarded_client_id(&mut self) -> (r: RequestId)
        requires
            old(self).next_id() < i32::MAX,
        ensures
            r@ == IdView::Number(old(self).next_id()),
            final(self).next_id() == old(self).next_id() + 1,
            final(self).pending_entries() == old(self).pending_entries(),
            final(self).forwarded_entries() == old(self).forwarded_entries(),
            final(self).current_epoch() == old(self).current_epoch(),
    {
        proof {
            use_type_invariant(&*self);
        }
        let id = self.next_forwarded_id;
        self.next_forwarded_id = id + 1;
        RequestId::Number(id)
    }

    /// Records a rust-analyzer request sent on behalf of editor request
    /// `client_id`, stamped with the current epoch.
    pub fn track(
        &mut self,
        ra_id: RequestId,
        client_id: RequestId,
        kind: PendingKind,
        rsx_document: Option<(String, i32)>,
    )
        ensures
            final(self).pending_entries() == upsert(
                old(self).pending_entries(),
                ra_id,
                (Pending { client_id, kind, epoch: old(self).current_epoch(), rsx_document }),
            ),
            final(self).forwarded_entries() == old(self).forwarded_entries(),
            final(self).next_id() == old(self).next_id(),
            final(self).current_epoch() == old(self).current_epoch(),
    {
        proof {
            use_type_invariant(&*self);
        }
        let pending = Pending { client_id, kind, epoch: self.epoch, rsx_document };
        let ghost before = self.pending@;
        let mut table = Vec::new();
        std::mem::swap(&mut table, &mut self.pending);
        upsert_in(&mut table, ra_id, pending);
        proof {
            lemma_upsert(before, ra_id, pending);
        }
        self.pending = table;
    }

    /// Removes and returns the pending request that rust-analyzer's
    /// response `ra_id` answers.
    pub fn take_pending(&mut self, ra_id: &RequestId) -> (r: Option<Pending>)
        ensures
            r == lookup(old(self).pending_entries(), ra_id@),
            final(self).pending_entries() == without_key(old(self).pending_entries(), ra_id@),
            final(self).forwarded_entries() == old(self).forwarded_entries(),
            final(self).next_id() == old(self).next_id(),
            final(self).current_epoch() == old(self).current_epoch(),
    {
        proof {
            use_type_invariant(&*self);
        }
        let ghost before = self.pending@;
        let mut table = Vec::new();
        std::mem::swap(&mut table, &mut self.pending);
        let r = remove_in(&mut table, ra_id);
        proof {
            lemma_without_key(before, ra_id@);
        }
        self.pending = table;
        r
    }

    /// The rust-analyzer id under which the editor's request `client_id`
    /// was forwarded, if it is still pending: the first such entry.
    pub fn resolve_cancel_target(&self, client_id: &RequestId) -> (r: Option<RequestId>)
        ensures
            match r {
                Some(ra) => exists|i: int|
                    0 <= i < self.pending_entries().len() && (#[trigger] self.pending_entries()[i]).1.client_id@
                        == client_id@ && self.pending_entries()[i].0@ == ra@ && forall|j: int|
                        0 <= j < i ==> (#[trigger] self.pending_entries()[j]).1.client_id@
                            != client_id@,
                None => forall|i: int|
                    0 <= i < self.pending_entries().len() ==> (#[trigger] self.pending_entries()[i]).1.client_id@
                        != client_id@,
            },
    {
        let n = self.pending.len();
        for i in 0..n
            invariant
                n == self.pending@.len(),
                forall|j: int| 0 <= j < i ==> (#[trigger] self.pending@[j]).1.client_id@ != client_id@,
        {
            if self.pending[i].1.client_id.same(client_id) {
                return Some(self.pending[i].0.duplicate());
            }
        }
        None
    }

    /// Empties both tables, returning the editor ids of every pending
    /// request, in the order they were sent: each must now be failed.
    pub fn fail_all(&mut self) -> (r: Vec<RequestId>)
        ensures
            r@.len() == old(self).pending_entries().len(),
            forall|i: int|
                0 <= i < r@.len() ==> (#[trigger] r@[i])@ == old(self).pending_entries()[i].1.client_id@,
            final(self).pending_entries().len() == 0,
            final(self).forwarded_entries().len() == 0,
            final(self).next_id() == old(self).next_id(),
            final(self).current_epoch() == old(self).current_epoch(),
    {
        proof {
            use_type_invariant(&*self);
        }
        let mut out: Vec<RequestId> = Vec::new();
        let n = self.pending.len();
        for i in 0..n
            invariant
                n == self.pending@.len(),
                out@.len() == i,
                forall|j: int| 0 <= j < i ==> (#[trigger] out@[j])@ == self.pending@[j].1.client_id@,
        {
            out.push(self.pending[i].1.client_id.duplicate());
        }
        self.pending = Vec::new();
        self.reverse_pending = Vec::new();
        out
    }

    /// Forwards rust-analyzer's request `ra_id` to the editor under a
    /// fresh id, remembering which rust-analyzer request it stands for.
    pub fn forward_to_client(&mut self, ra_id: RequestId) -> (r: RequestId)
        requires
            old(self).next_id() < i32::MAX,
        ensures
            r@ == IdView::Number(old(self).next_id()),
            final(self).next_id() == old(self).next_id() + 1,
            final(self).forwarded_entries() == upsert(old(self).forwarded_entries(), r, ra_id),
            final(self).pending_entries() == old(self).pending_entries(),
            final(self).current_epoch() == old(self).current_epoch(),
    {
        proof {
            use_type_invariant(&*self);
        }
        let id = self.next_forwarded_id;
        self.next_forwarded_id = id + 1;
        let ghost before = self.reverse_pending@;
        let mut table = Vec::new();
        std::mem::swap(&mut table, &mut self.reverse_pending);
        upsert_in(&mut table, RequestId::Number(id), ra_id);
        proof {
            lemma_upsert(before, RequestId::Number(id), ra_id);
        }
        self.reverse_pending = table;
        RequestId::Number(id)
    }

    /// The rust-analyzer id that the editor's response `id` answers, if
    /// it answers a forwarded request; the entry is consumed.
    pub fn route_client_response(&mut self, id: &RequestId) -> (r: Option<RequestId>)
        ensures
            r == lookup(old(self).forwarded_entries(), id@),
            final(self).forwarded_entries() == without_key(old(self).forwarded_entries(), id@),
            final(self).pending_entries() == old(self).pending_entries(),
            final(self).next_id() == old(self).next_id(),
            final(self).current_epoch() == old(self).current_epoch(),
    {
        proof {
            use_type_invariant(&*self);
        }
        let ghost before = self.reverse_pending@;
        let mut table = Vec::new();
        std::mem::swap(&mut table, &mut self.reverse_pending);
        let r = remove_in(&mut table, id);
        proof {
            lemma_without_key(before, id@);
        }
        self.reverse_pending = table;
        r
    }
}

/// What a rust-analyzer response is answered with.
#[derive(Debug, Clone, Copy, PartialEq, Eq, Structural)]
pub enum Disposition {
    /// The workspace was re-planned while the request was in flight: a
    /// `RequestCancelled` error.
    Cancelled,
    /// The `.rsx` document changed while a rename, references or semantic
    /// tokens request was in flight: a `ContentModified` error.
    ContentModified,
    /// A prepare-rename whose document changed: a `null` result.
    NullResult,
    /// Map the result back to `.rsx` coordinates and relay it.
    Relay,
}

/// What a response to `p` is answered with, given the epoch now and the
/// current version of the document `p` was computed against (`None` when
/// that document is no longer known).
pub open spec fn disposition_spec(p: Pending, epoch: u64, current_version: Option<i32>) -> Disposition {
    if p.epoch != epoch {
        Disposition::Cancelled
    } else {
        match (p.rsx_document, current_version) {
            (Some((_, captured)), Some(now)) => if now == captured {
                Disposition::Relay
            } else if p.kind is PrepareRename {
                Disposition::NullResult
            } else {
                Disposition::ContentModified
            },
            _ => Disposition::Relay,
        }
    }
}

/// Decides how to answer a rust-analyzer response to `pending`.
pub fn disposition(pending: &Pending, epoch: u64, current_version: Option<i32>) -> (r: Disposition)
    ensures
        r == disposition_spec(*pending, epoch, current_version),
{
    if pending.epoch != epoch {
        return Disposition::Cancelled;
    }
    match (&pending.rsx_document, current_version) {
        (Some((_, captured)), Some(now)) => {
            if now == *captured {
                Disposition::Relay
            } else {
                match pending.kind {
                    PendingKind::PrepareRename { .. } => Disposition::NullResult,
                    _ => Disposition::ContentModified,
                }
            }
        },
        _ => Disposition::Relay,
    }
}

/// A rust-analyzer error message that names backend vocabulary or a
/// generated file must not reach the editor.
pub open spec fn error_needs_sanitizing(message: Seq<char>) -> bool {
    names_backend(message) || has_substring(message, ".generated"@)
}

/// The message shown in place of such an error's own.
pub open spec fn sanitized_error_message() -> Seq<char> {
    "Outou cannot answer this request: the underlying error names internal, generated implementation detail rather than anything in your `.rsx` file"@
}

/// The message to show for a rust-analyzer error: its own, unless it
/// names backend vocabulary or a generated file.
pub fn sanitize_ra_error_message(message: &str) -> (r: String)
    ensures
        r@ == (if error_needs_sanitizing(message@) {
            sanitized_error_message()
        } else {
            message@
        }),
{
    if contains_backend_marker(message) || contains_chars(
        chars_of(message).as_slice(),
        chars_of(".generated").as_slice(),
    ) {
        "Outou cannot answer this request: the underlying error names internal, generated implementation detail rather than anything in your `.rsx` file".to_owned()
    } else {
        message.to_owned()
    }
}

/// The message a refused rename is answered with: it names no generated
/// file, only what went wrong in the user's own terms.
pub fn rename_refusal_message() -> (r: String)
    ensures
        r@ == "Outou cannot safely rename here: part of the result has no corresponding `.rsx` location, so the rename was not applied at all"@,
{
    "Outou cannot safely rename here: part of the result has no corresponding `.rsx` location, so the rename was not applied at all".to_owned()
}

/// The message a request is answered with when its `.rsx` document
/// `rsx_uri` changed while rust-analyzer was computing the answer.
pub fn stale_document_message(rsx_uri: &str) -> (r: String)
    ensures
        r@ == "Outou cannot safely answer here: `"@ + rsx_uri@
            + "` changed while this request was in flight"@,
{
    crate::text::concat3(
        "Outou cannot safely answer here: `",
        rsx_uri,
        "` changed while this request was in flight",
    )
}

/// Tracking a request and then taking its response's entry gives the
/// request back, stamped with the epoch it was sent in.
pub proof fn lemma_track_then_take(
    t: Seq<(RequestId, Pending)>,
    ra_id: RequestId,
    p: Pending,
)
    requires
        keys_unique(t),
    ensures
        lookup(upsert(t, ra_id, p), ra_id@) == Some(p),
        lookup(without_key(upsert(t, ra_id, p), ra_id@), ra_id@).is_none(),
{
    lemma_upsert(t, ra_id, p);
    lemma_without_key(upsert(t, ra_id, p), ra_id@);
}

} // verus!
