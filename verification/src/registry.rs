//! Workspace-wide index from generated file URI to its [`SourceMap`].
use vstd::prelude::*;

use crate::mapping::{resolved_sources, resolved_views, reverse_spec};
use crate::source_map::{all_ordered, map_contents, SourceMap};
use crate::span::{Span, Uri};

verus! {

/// Maps `ms` keyed by generated URI; a later entry for the same URI wins.
pub open spec fn map_of(ms: Seq<SourceMap>) -> Map<Seq<char>, SourceMap>
    decreases ms.len(),
{
    if ms.len() == 0 {
        Map::empty()
    } else {
        map_of(ms.drop_last()).insert(ms.last().generated@, ms.last())
    }
}

/// No two maps share a generated URI.
pub open spec fn unique_generated(ms: Seq<SourceMap>) -> bool {
    forall|i: int, j: int|
        0 <= i < ms.len() && 0 <= j < ms.len() && i != j ==> (#[trigger] ms[i]).generated@ != (
        #[trigger] ms[j]).generated@
}

/// Workspace-wide index: generated file URI to [`SourceMap`] to original
/// URIs. A URI with no map here is not a generated file, and locations in
/// it must be returned to the user untouched.
#[derive(Debug, Eq)]
pub struct Registry {
    maps: Vec<SourceMap>,
}

impl View for Registry {
    type V = Map<Seq<char>, SourceMap>;

    closed spec fn view(&self) -> Map<Seq<char>, SourceMap> {
        map_of(self.maps@)
    }
}

impl Registry {
    #[verifier::type_invariant]
    spec fn inv(&self) -> bool {
        unique_generated(self.maps@)
    }

    /// An empty registry.
    pub fn new() -> (r: Self)
        ensures
            r@ == Map::<Seq<char>, SourceMap>::empty(),
    {
        Registry { maps: Vec::new() }
    }

    /// Returns a registry that also contains `map`, replacing any previous
    /// map for the same generated URI.
    pub fn with_map(self, map: SourceMap) -> (r: Self)
        ensures
            r@ == self@.insert(map.generated@, map),
    {
        proof {
            use_type_invariant(&self);
        }
        let Registry { mut maps } = self;
        let n = maps.len();
        let mut i: usize = 0;
        let mut found = false;
        while i < n && !found
            invariant
                n == maps@.len(),
                0 <= i <= n,
                found ==> i < n && maps@[i as int].generated@ == map.generated@,
                !found ==> forall|k: int|
                    0 <= k < i ==> (#[trigger] maps@[k]).generated@ != map.generated@,
            decreases n - i + (if found {
                0int
            } else {
                1int
            }),
        {
            if maps[i].generated.same(&map.generated) {
                found = true;
            } else {
                i = i + 1;
            }
        }
        let ghost old_maps = maps@;
        if found {
            proof {
                lemma_map_of_update(old_maps, i as int, map);
            }
            maps.set(i, map);
        } else {
            maps.push(map);
            assert(maps@.drop_last() =~= old_maps);
        }
        Registry { maps }
    }

    /// The source map for a generated file, if a `.rsx` file produced it.
    pub fn map_for_generated(&self, generated: &Uri) -> (r: Option<&SourceMap>)
        ensures
            r is Some <==> self@.dom().contains(generated@),
            r matches Some(m) ==> *m == self@[generated@],
    {
        proof {
            use_type_invariant(self);
            lemma_map_of_dom(self.maps@);
        }
        let n = self.maps.len();
        for i in 0..n
            invariant
                n == self.maps@.len(),
                unique_generated(self.maps@),
                forall|k: int| 0 <= k < i ==> (#[trigger] self.maps@[k]).generated@ != generated@,
        {
            if self.maps[i].generated.same(generated) {
                proof {
                    lemma_map_of_index(self.maps@, i as int);
                }
                return Some(&self.maps[i]);
            }
        }
        None
    }

    /// Original `.rsx` URIs of a generated file, or an empty slice for a
    /// plain Rust file.
    pub fn sources_of(&self, generated: &Uri) -> (r: &[Uri])
        ensures
            self@.dom().contains(generated@) ==> r@ == self@[generated@].sources@,
            !self@.dom().contains(generated@) ==> r@.len() == 0,
    {
        match self.map_for_generated(generated) {
            Some(m) => m.sources.as_slice(),
            None => &[],
        }
    }

    /// Reverse-maps a span of a generated file to every source span it
    /// comes from, each with its `.rsx` file's URI; `None` when `generated`
    /// is not a file this registry knows.
    pub fn reverse(&self, generated: &Uri, span: Span) -> (r: Option<Vec<(Uri, Span)>>)
        ensures
            r is Some <==> self@.dom().contains(generated@),
            r matches Some(v) ==> resolved_views(v@) == reverse_spec(
                self@[generated@].mappings@,
                self@[generated@].sources@,
                span,
            ),
    {
        match self.map_for_generated(generated) {
            Some(map) => Some(resolved_sources(map, span)),
            None => None,
        }
    }

    /// Whether every map's spans are all ordered, as the reverse-mapping
    /// functions need.
    pub fn maps_ordered(&self) -> (r: bool)
        ensures
            r == forall|u: Seq<char>| #[trigger] self@.dom().contains(u) ==> all_ordered(self@[u].mappings@),
    {
        proof {
            use_type_invariant(self);
            lemma_map_of_dom(self.maps@);
        }
        let n = self.maps.len();
        for i in 0..n
            invariant
                n == self.maps@.len(),
                unique_generated(self.maps@),
                forall|k: int| 0 <= k < i ==> all_ordered((#[trigger] self.maps@[k]).mappings@),
        {
            if !self.maps[i].spans_ordered() {
                proof {
                    lemma_map_of_index(self.maps@, i as int);
                    let u = self.maps@[i as int].generated@;
                    assert(self@.dom().contains(u));
                    assert(!all_ordered(self@[u].mappings@));
                }
                return false;
            }
        }
        proof {
            assert forall|u: Seq<char>| #[trigger] self@.dom().contains(u) implies all_ordered(self@[u].mappings@) by {
                let k = choose|k: int| 0 <= k < self.maps@.len() && (#[trigger] self.maps@[k]).generated@ == u;
                lemma_map_of_index(self.maps@, k);
            }
        }
        true
    }

    /// Whether `uri` is a generated file known to this registry.
    pub fn is_generated(&self, uri: &Uri) -> (r: bool)
        ensures
            r == self@.dom().contains(uri@),
    {
        self.map_for_generated(uri).is_some()
    }
}

impl Default for Registry {
    fn default() -> (r: Self)
        ensures
            r@ == Map::<Seq<char>, SourceMap>::empty(),
    {
        Registry::new()
    }
}

/// Two registries know the same generated files, each with a map of the
/// same contents.
pub open spec fn same_registry(a: Map<Seq<char>, SourceMap>, b: Map<Seq<char>, SourceMap>) -> bool {
    &&& a.dom() == b.dom()
    &&& forall|u: Seq<char>| #[trigger] a.dom().contains(u) ==> map_contents(a[u]) == map_contents(b[u])
}

impl PartialEq for Registry {
    /// Registries are equal by contents, whatever order their maps were
    /// added in.
    fn eq(&self, other: &Self) -> (r: bool) {
        proof {
            use_type_invariant(self);
            use_type_invariant(other);
            lemma_map_of_dom(self.maps@);
            lemma_map_of_dom(other.maps@);
        }
        let n = self.maps.len();
        let mut i: usize = 0;
        while i < n
            invariant
                n == self.maps@.len(),
                0 <= i <= n,
                unique_generated(self.maps@),
                unique_generated(other.maps@),
                forall|k: int|
                    0 <= k < i ==> #[trigger] other@.dom().contains(self.maps@[k].generated@) && map_contents(
                        other@[self.maps@[k].generated@],
                    ) == map_contents(self.maps@[k]),
            decreases n - i,
        {
            proof {
                lemma_map_of_index(self.maps@, i as int);
            }
            let found = other.map_for_generated(&self.maps[i].generated);
            if found.is_none() {
                return false;
            }
            let m = found.unwrap();
            if !self.maps[i].same_contents(m) {
                return false;
            }
            assert(other@.dom().contains(self.maps@[i as int].generated@));
            assert(map_contents(other@[self.maps@[i as int].generated@]) == map_contents(self.maps@[i as int]));
            assert forall|k: int| 0 <= k < i + 1 implies #[trigger] other@.dom().contains(self.maps@[k].generated@)
                && map_contents(other@[self.maps@[k].generated@]) == map_contents(self.maps@[k]) by {
                if k < i {
                    assert(other@.dom().contains(self.maps@[k].generated@));
                }
            }
            i = i + 1;
        }
        let m = other.maps.len();
        for j in 0..m
            invariant
                m == other.maps@.len(),
                unique_generated(self.maps@),
                unique_generated(other.maps@),
                forall|k: int| 0 <= k < j ==> #[trigger] self@.dom().contains(other.maps@[k].generated@),
        {
            if !self.is_generated(&other.maps[j].generated) {
                proof {
                    lemma_map_of_index(other.maps@, j as int);
                }
                return false;
            }
        }
        proof {
            assert forall|u: Seq<char>| #[trigger] self@.dom().contains(u) implies other@.dom().contains(u)
                && map_contents(self@[u]) == map_contents(other@[u]) by {
                let k = choose|k: int| 0 <= k < self.maps@.len() && (#[trigger] self.maps@[k]).generated@ == u;
                lemma_map_of_index(self.maps@, k);
                assert(other@.dom().contains(self.maps@[k].generated@));
            }
            assert forall|u: Seq<char>| #[trigger] other@.dom().contains(u) implies self@.dom().contains(u) by {
                let k = choose|k: int| 0 <= k < other.maps@.len() && (#[trigger] other.maps@[k]).generated@ == u;
                assert(self@.dom().contains(other.maps@[k].generated@));
            }
            assert(self@.dom() =~= other@.dom());
        }
        true
    }
}

impl Clone for Registry {
    /// A registry holding a copy of each map.
    fn clone(&self) -> (r: Self)
        ensures
            same_registry(r@, self@),
    {
        proof {
            use_type_invariant(self);
        }
        let mut maps: Vec<SourceMap> = Vec::new();
        for i in 0..self.maps.len()
            invariant
                maps.len() == i,
                forall|k: int| 0 <= k < i ==> map_contents(#[trigger] maps@[k]) == map_contents(self.maps@[k]),
        {
            maps.push(self.maps[i].duplicate());
        }
        proof {
            assert forall|a: int, b: int|
                0 <= a < maps@.len() && 0 <= b < maps@.len() && a != b implies (#[trigger] maps@[a]).generated@
                != (#[trigger] maps@[b]).generated@ by {
                assert(map_contents(maps@[a]) == map_contents(self.maps@[a]));
                assert(map_contents(maps@[b]) == map_contents(self.maps@[b]));
                assert(self.maps@[a].generated@ != self.maps@[b].generated@);
            }
            lemma_map_of_contents(maps@, self.maps@);
        }
        Registry { maps }
    }
}

/// Sequences of maps with the same contents, one for one, key the same
/// files to maps of the same contents.
proof fn lemma_map_of_contents(a: Seq<SourceMap>, b: Seq<SourceMap>)
    requires
        a.len() == b.len(),
        forall|k: int| 0 <= k < a.len() ==> map_contents(#[trigger] a[k]) == map_contents(b[k]),
    ensures
        same_registry(map_of(a), map_of(b)),
    decreases a.len(),
{
    if a.len() > 0 {
        let (pa, pb) = (a.drop_last(), b.drop_last());
        assert forall|k: int| 0 <= k < pa.len() implies map_contents(#[trigger] pa[k]) == map_contents(pb[k]) by {
            assert(pa[k] == a[k] && pb[k] == b[k]);
        }
        lemma_map_of_contents(pa, pb);
        assert(map_contents(a[a.len() - 1]) == map_contents(b[b.len() - 1]));
        assert(a.last().generated@ == b.last().generated@);
        assert(map_of(a).dom() =~= map_of(b).dom());
    }
}

impl vstd::std_specs::cmp::PartialEqSpecImpl for Registry {
    open spec fn obeys_eq_spec() -> bool {
        true
    }

    open spec fn eq_spec(&self, other: &Registry) -> bool {
        same_registry(self@, other@)
    }
}

proof fn lemma_map_of_dom(ms: Seq<SourceMap>)
    ensures
        forall|k: Seq<char>|
            #[trigger] map_of(ms).dom().contains(k) <==> exists|i: int|
                0 <= i < ms.len() && (#[trigger] ms[i]).generated@ == k,
    decreases ms.len(),
{
    if ms.len() > 0 {
        let prev = ms.drop_last();
        lemma_map_of_dom(prev);
        assert forall|k: Seq<char>| #[trigger] map_of(ms).dom().contains(k) implies exists|i: int|
            0 <= i < ms.len() && (#[trigger] ms[i]).generated@ == k by {
            if k != ms.last().generated@ {
                assert(map_of(prev).dom().contains(k));
                let i = choose|i: int| 0 <= i < prev.len() && (#[trigger] prev[i]).generated@ == k;
                assert(ms[i] == prev[i]);
            }
        }
        assert forall|k: Seq<char>|
            (exists|i: int| 0 <= i < ms.len() && (#[trigger] ms[i]).generated@ == k) implies #[trigger] map_of(
            ms,
        ).dom().contains(k) by {
            let i = choose|i: int| 0 <= i < ms.len() && (#[trigger] ms[i]).generated@ == k;
            if i < ms.len() - 1 {
                assert(prev[i] == ms[i]);
                assert(map_of(prev).dom().contains(k));
            }
        }
    }
}

proof fn lemma_map_of_index(ms: Seq<SourceMap>, i: int)
    requires
        unique_generated(ms),
        0 <= i < ms.len(),
    ensures
        map_of(ms).dom().contains(ms[i].generated@),
        map_of(ms)[ms[i].generated@] == ms[i],
    decreases ms.len(),
{
    let prev = ms.drop_last();
    if i < ms.len() - 1 {
        assert(prev[i] == ms[i]);
        assert forall|a: int, b: int|
            0 <= a < prev.len() && 0 <= b < prev.len() && a != b implies (#[trigger] prev[a]).generated@
            != (#[trigger] prev[b]).generated@ by {
            assert(prev[a] == ms[a] && prev[b] == ms[b]);
        }
        lemma_map_of_index(prev, i);
        assert(ms[i].generated@ != ms[ms.len() - 1].generated@);
    }
}

proof fn lemma_map_of_update(ms: Seq<SourceMap>, i: int, m: SourceMap)
    requires
        unique_generated(ms),
        0 <= i < ms.len(),
        ms[i].generated@ == m.generated@,
    ensures
        map_of(ms.update(i, m)) == map_of(ms).insert(m.generated@, m),
        unique_generated(ms.update(i, m)),
    decreases ms.len(),
{
    let next = ms.update(i, m);
    assert forall|a: int, b: int|
        0 <= a < next.len() && 0 <= b < next.len() && a != b implies (#[trigger] next[a]).generated@
        != (#[trigger] next[b]).generated@ by {
        assert(next[a].generated@ == ms[a].generated@);
        assert(next[b].generated@ == ms[b].generated@);
    }
    let prev = ms.drop_last();
    assert forall|a: int, b: int|
        0 <= a < prev.len() && 0 <= b < prev.len() && a != b implies (#[trigger] prev[a]).generated@
        != (#[trigger] prev[b]).generated@ by {
        assert(prev[a] == ms[a] && prev[b] == ms[b]);
    }
    if i == ms.len() - 1 {
        assert(next.drop_last() =~= prev);
        lemma_map_of_dom(prev);
        assert(!map_of(prev).dom().contains(m.generated@)) by {
            if map_of(prev).dom().contains(m.generated@) {
                let j = choose|j: int| 0 <= j < prev.len() && (#[trigger] prev[j]).generated@ == m.generated@;
                assert(ms[j] == prev[j]);
            }
        }
        assert(map_of(next) =~= map_of(ms).insert(m.generated@, m));
    } else {
        lemma_map_of_update(prev, i, m);
        assert(next.drop_last() =~= prev.update(i, m));
        assert(ms.last().generated@ != m.generated@) by {
            assert(ms[ms.len() - 1].generated@ != ms[i].generated@);
        }
        assert(map_of(next) =~= map_of(ms).insert(m.generated@, m));
    }
}

} // verus!
