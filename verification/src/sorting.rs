//! What a stable sort by an integer key is, and the facts that insertion
//! sorts in this crate use to establish it.
use vstd::prelude::*;

verus! {

/// The elements of `s` whose key is `k`, in order.
pub open spec fn keep_key<T>(s: Seq<T>, key: spec_fn(T) -> int, k: int) -> Seq<T>
    decreases s.len(),
{
    if s.len() == 0 {
        seq![]
    } else {
        let rest = keep_key(s.drop_last(), key, k);
        if key(s.last()) == k {
            rest.push(s.last())
        } else {
            rest
        }
    }
}

/// The elements of `s` that satisfy `pred`, in order.
pub open spec fn keep_if<T>(s: Seq<T>, pred: spec_fn(T) -> bool) -> Seq<T>
    decreases s.len(),
{
    if s.len() == 0 {
        seq![]
    } else {
        let rest = keep_if(s.drop_last(), pred);
        if pred(s.last()) {
            rest.push(s.last())
        } else {
            rest
        }
    }
}

/// Everything [`keep_if`] keeps satisfies `pred` and is an element of `s`.
pub proof fn lemma_keep_if_members<T>(s: Seq<T>, pred: spec_fn(T) -> bool)
    ensures
        forall|i: int|
            0 <= i < keep_if(s, pred).len() ==> pred(#[trigger] keep_if(s, pred)[i]) && s.contains(
                keep_if(s, pred)[i],
            ),
    decreases s.len(),
{
    if s.len() > 0 {
        let prev = s.drop_last();
        lemma_keep_if_members(prev, pred);
        assert forall|i: int| 0 <= i < keep_if(s, pred).len() implies pred(
            #[trigger] keep_if(s, pred)[i],
        ) && s.contains(keep_if(s, pred)[i]) by {
            let x = keep_if(s, pred)[i];
            if i < keep_if(prev, pred).len() {
                assert(x == keep_if(prev, pred)[i]);
                let j = choose|j: int| 0 <= j < prev.len() && prev[j] == x;
                assert(s[j] == x);
            } else {
                assert(x == s[s.len() - 1]);
            }
        }
    }
}

/// Every element of a stable sort is an element of the input.
pub proof fn lemma_stably_sorted_members<T>(out: Seq<T>, input: Seq<T>, key: spec_fn(T) -> int)
    requires
        stably_sorted(out, input, key),
    ensures
        forall|i: int| 0 <= i < out.len() ==> input.contains(#[trigger] out[i]),
{
    assert forall|i: int| 0 <= i < out.len() implies input.contains(#[trigger] out[i]) by {
        let k = key(out[i]);
        lemma_keep_key_contains(out, key, i);
        let b = keep_key(out, key, k);
        assert(b == keep_key(input, key, k));
        let j = choose|j: int| 0 <= j < b.len() && b[j] == out[i];
        lemma_keep_key_from(input, key, k, j);
    }
}

/// An element of `s` is kept for its own key.
proof fn lemma_keep_key_contains<T>(s: Seq<T>, key: spec_fn(T) -> int, i: int)
    requires
        0 <= i < s.len(),
    ensures
        keep_key(s, key, key(s[i])).contains(s[i]),
    decreases s.len(),
{
    if i < s.len() - 1 {
        lemma_keep_key_contains(s.drop_last(), key, i);
        assert(s.drop_last()[i] == s[i]);
        let b = keep_key(s.drop_last(), key, key(s[i]));
        let j = choose|j: int| 0 <= j < b.len() && b[j] == s[i];
        if key(s.last()) == key(s[i]) {
            assert(b.push(s.last())[j] == s[i]);
        }
    } else {
        let b = keep_key(s.drop_last(), key, key(s[i]));
        assert(b.push(s.last())[b.len() as int] == s[i]);
    }
}

/// Anything kept for a key is an element of the sequence.
proof fn lemma_keep_key_from<T>(s: Seq<T>, key: spec_fn(T) -> int, k: int, j: int)
    requires
        0 <= j < keep_key(s, key, k).len(),
    ensures
        s.contains(keep_key(s, key, k)[j]),
    decreases s.len(),
{
    let prev = s.drop_last();
    let b = keep_key(prev, key, k);
    if j < b.len() {
        lemma_keep_key_from(prev, key, k, j);
        assert(keep_key(s, key, k)[j] == b[j]);
        let t = choose|t: int| 0 <= t < prev.len() && prev[t] == b[j];
        assert(s[t] == prev[t]);
    } else {
        assert(keep_key(s, key, k)[j] == s[s.len() - 1]);
    }
}

/// `s` is in non-decreasing key order.
pub open spec fn sorted_by<T>(s: Seq<T>, key: spec_fn(T) -> int) -> bool {
    forall|i: int, j: int| 0 <= i < j < s.len() ==> key(#[trigger] s[i]) <= key(#[trigger] s[j])
}

/// `out` is `input` stably sorted by `key`: it is sorted, and the elements
/// sharing any one key appear in the same order in both.
pub open spec fn stably_sorted<T>(out: Seq<T>, input: Seq<T>, key: spec_fn(T) -> int) -> bool {
    &&& sorted_by(out, key)
    &&& forall|k: int| #[trigger] keep_key(out, key, k) == keep_key(input, key, k)
}

/// The stable sort of `input` by `key` (unique, see
/// [`lemma_stable_sort_unique`]).
pub open spec fn stable_sort<T>(input: Seq<T>, key: spec_fn(T) -> int) -> Seq<T> {
    choose|out: Seq<T>| stably_sorted(out, input, key)
}

/// Keeping one key distributes over concatenation.
pub proof fn lemma_keep_key_concat<T>(a: Seq<T>, b: Seq<T>, key: spec_fn(T) -> int, k: int)
    ensures
        keep_key(a + b, key, k) == keep_key(a, key, k) + keep_key(b, key, k),
    decreases b.len(),
{
    if b.len() == 0 {
        assert(a + b =~= a);
        assert(keep_key(a, key, k) + keep_key(b, key, k) =~= keep_key(a, key, k));
    } else {
        lemma_keep_key_concat(a, b.drop_last(), key, k);
        assert((a + b).drop_last() =~= a + b.drop_last());
        assert((a + b).last() == b.last());
        if key(b.last()) == k {
            assert(keep_key(a, key, k) + keep_key(b.drop_last(), key, k).push(b.last()) =~= (
            keep_key(a, key, k) + keep_key(b.drop_last(), key, k)).push(b.last()));
        }
    }
}

proof fn lemma_keep_key_single<T>(e: T, key: spec_fn(T) -> int, k: int)
    ensures
        keep_key(seq![e], key, k) == (if key(e) == k {
            seq![e]
        } else {
            Seq::<T>::empty()
        }),
{
    assert(seq![e].drop_last() =~= Seq::<T>::empty());
    assert(keep_key(Seq::<T>::empty(), key, k) == Seq::<T>::empty());
    assert(Seq::<T>::empty().push(e) =~= seq![e]);
}

proof fn lemma_keep_key_none<T>(a: Seq<T>, key: spec_fn(T) -> int, k: int)
    requires
        forall|i: int| 0 <= i < a.len() ==> key(#[trigger] a[i]) != k,
    ensures
        keep_key(a, key, k) == Seq::<T>::empty(),
    decreases a.len(),
{
    if a.len() > 0 {
        lemma_keep_key_none(a.drop_last(), key, k);
        assert(key(a[a.len() - 1]) != k);
    }
}

/// Every element kept for key `k` has key `k`, and is an element of `s`;
/// and if some element of `s` has key `k`, something is kept.
pub proof fn lemma_keep_key_members<T>(s: Seq<T>, key: spec_fn(T) -> int, k: int)
    ensures
        forall|i: int|
            0 <= i < keep_key(s, key, k).len() ==> key(#[trigger] keep_key(s, key, k)[i]) == k,
        (exists|i: int| 0 <= i < s.len() && key(#[trigger] s[i]) == k) ==> keep_key(
            s,
            key,
            k,
        ).len() > 0,
        keep_key(s, key, k).len() > 0 ==> exists|i: int|
            0 <= i < s.len() && key(#[trigger] s[i]) == k,
    decreases s.len(),
{
    if s.len() > 0 {
        let prev = s.drop_last();
        lemma_keep_key_members(prev, key, k);
        if exists|i: int| 0 <= i < s.len() && key(#[trigger] s[i]) == k {
            let i = choose|i: int| 0 <= i < s.len() && key(#[trigger] s[i]) == k;
            if i < s.len() - 1 {
                assert(prev[i] == s[i]);
            }
        }
        if keep_key(s, key, k).len() > 0 {
            if key(s.last()) != k {
                let i = choose|i: int| 0 <= i < prev.len() && key(#[trigger] prev[i]) == k;
                assert(s[i] == prev[i]);
            } else {
                assert(key(s[s.len() - 1]) == k);
            }
        }
    }
}

/// Inserting `e` in front of every element with a key not smaller than its
/// own keeps a stable sort of `tail` a stable sort of `e` followed by
/// `tail`.
pub proof fn lemma_insert_keeps_stable<T>(
    out: Seq<T>,
    tail: Seq<T>,
    e: T,
    p: int,
    key: spec_fn(T) -> int,
)
    requires
        0 <= p <= out.len(),
        stably_sorted(out, tail, key),
        forall|i: int| 0 <= i < p ==> key(#[trigger] out[i]) < key(e),
        p < out.len() ==> key(out[p]) >= key(e),
    ensures
        stably_sorted(out.take(p).push(e) + out.skip(p), seq![e] + tail, key),
{
    let next = out.take(p).push(e) + out.skip(p);
    assert forall|i: int, j: int| 0 <= i < j < next.len() implies key(#[trigger] next[i]) <= key(
        #[trigger] next[j],
    ) by {
        if j < p {
            assert(next[i] == out[i] && next[j] == out[j]);
        } else if j == p {
            assert(next[i] == out[i]);
        } else if i < p {
            assert(next[i] == out[i] && next[j] == out[j - 1]);
        } else if i == p {
            assert(next[j] == out[j - 1]);
            assert(key(out[p]) <= key(out[j - 1]));
        } else {
            assert(next[i] == out[i - 1] && next[j] == out[j - 1]);
        }
    }
    assert forall|k: int| #[trigger] keep_key(next, key, k) == keep_key(seq![e] + tail, key, k) by {
        lemma_insert_keeps_bucket(out, tail, e, p, key, k);
    }
}

proof fn lemma_insert_keeps_bucket<T>(
    out: Seq<T>,
    tail: Seq<T>,
    e: T,
    p: int,
    key: spec_fn(T) -> int,
    k: int,
)
    requires
        0 <= p <= out.len(),
        keep_key(out, key, k) == keep_key(tail, key, k),
        forall|i: int| 0 <= i < p ==> key(#[trigger] out[i]) < key(e),
    ensures
        keep_key(out.take(p).push(e) + out.skip(p), key, k) == keep_key(seq![e] + tail, key, k),
{
    let front = out.take(p);
    let back = out.skip(p);
    let next = front.push(e) + back;
    assert(out =~= front + back);
    assert(front.push(e) =~= front + seq![e]);
    assert(next =~= (front + seq![e]) + back);
    lemma_keep_key_concat(front + seq![e], back, key, k);
    lemma_keep_key_concat(front, seq![e], key, k);
    lemma_keep_key_concat(front, back, key, k);
    lemma_keep_key_concat(seq![e], tail, key, k);
    lemma_keep_key_single(e, key, k);
    if key(e) == k {
        assert forall|i: int| 0 <= i < front.len() implies key(#[trigger] front[i]) != k by {
            assert(front[i] == out[i]);
        }
        lemma_keep_key_none(front, key, k);
        assert(keep_key(front, key, k) + keep_key(seq![e], key, k) =~= seq![e]);
        assert(keep_key(front, key, k) + keep_key(back, key, k) =~= keep_key(back, key, k));
    } else {
        assert(keep_key(front, key, k) + keep_key(seq![e], key, k) =~= keep_key(front, key, k));
    }
}

/// Two sequences that are each a stable sort of the other are equal: a
/// stable sort is unique.
pub proof fn lemma_stable_sort_unique<T>(a: Seq<T>, b: Seq<T>, key: spec_fn(T) -> int)
    requires
        sorted_by(a, key),
        sorted_by(b, key),
        forall|k: int| #[trigger] keep_key(a, key, k) == keep_key(b, key, k),
    ensures
        a == b,
    decreases a.len() + b.len(),
{
    if a.len() == 0 && b.len() == 0 {
        assert(a =~= b);
    } else if a.len() == 0 {
        let kb = key(b.last());
        lemma_keep_key_members(b, key, kb);
        lemma_keep_key_members(a, key, kb);
        assert(key(b[b.len() - 1]) == kb);
        assert(keep_key(a, key, kb) == keep_key(b, key, kb));
    } else if b.len() == 0 {
        let ka = key(a.last());
        lemma_keep_key_members(b, key, ka);
        lemma_keep_key_members(a, key, ka);
        assert(key(a[a.len() - 1]) == ka);
        assert(keep_key(a, key, ka) == keep_key(b, key, ka));
    } else {
        let ka = key(a.last());
        let kb = key(b.last());
        lemma_keep_key_members(a, key, ka);
        lemma_keep_key_members(b, key, ka);
        lemma_keep_key_members(a, key, kb);
        lemma_keep_key_members(b, key, kb);
        assert(key(a[a.len() - 1]) == ka);
        assert(key(b[b.len() - 1]) == kb);
        assert(keep_key(a, key, ka) == keep_key(b, key, ka));
        assert(keep_key(a, key, kb) == keep_key(b, key, kb));
        let ib = choose|i: int| 0 <= i < b.len() && key(#[trigger] b[i]) == ka;
        let ia = choose|i: int| 0 <= i < a.len() && key(#[trigger] a[i]) == kb;
        if ib < b.len() - 1 {
            assert(key(b[ib]) <= key(b[b.len() - 1]));
        }
        if ia < a.len() - 1 {
            assert(key(a[ia]) <= key(a[a.len() - 1]));
        }
        assert(ka == kb);
        assert(keep_key(a, key, ka).last() == a.last());
        assert(keep_key(b, key, ka).last() == b.last());
        let pa = a.drop_last();
        let pb = b.drop_last();
        assert forall|k: int| #[trigger] keep_key(pa, key, k) == keep_key(pb, key, k) by {
            if k == ka {
                assert(keep_key(pa, key, k) == keep_key(a, key, k).drop_last());
                assert(keep_key(pb, key, k) == keep_key(b, key, k).drop_last());
            } else {
                assert(keep_key(pa, key, k) == keep_key(a, key, k));
                assert(keep_key(pb, key, k) == keep_key(b, key, k));
            }
        }
        assert(sorted_by(pa, key)) by {
            assert forall|i: int, j: int| 0 <= i < j < pa.len() implies key(#[trigger] pa[i]) <= key(
                #[trigger] pa[j],
            ) by {
                assert(pa[i] == a[i] && pa[j] == a[j]);
            }
        }
        assert(sorted_by(pb, key)) by {
            assert forall|i: int, j: int| 0 <= i < j < pb.len() implies key(#[trigger] pb[i]) <= key(
                #[trigger] pb[j],
            ) by {
                assert(pb[i] == b[i] && pb[j] == b[j]);
            }
        }
        lemma_stable_sort_unique(pa, pb, key);
        assert(a =~= pa.push(a.last()));
        assert(b =~= pb.push(b.last()));
    }
}

/// Whatever a stable sort produces is [`stable_sort`]'s answer.
pub proof fn lemma_stable_sort_is<T>(out: Seq<T>, input: Seq<T>, key: spec_fn(T) -> int)
    requires
        stably_sorted(out, input, key),
    ensures
        stable_sort(input, key) == out,
{
    let s = stable_sort(input, key);
    assert(stably_sorted(s, input, key));
    lemma_stable_sort_unique(s, out, key);
}

/// A sorted sequence is its own stable sort.
pub proof fn lemma_sorted_is_own_stable_sort<T>(s: Seq<T>, key: spec_fn(T) -> int)
    requires
        sorted_by(s, key),
    ensures
        stable_sort(s, key) == s,
{
    lemma_stable_sort_is(s, s, key);
}

/// The items of `v`, last first.
pub(crate) fn reversed<T>(v: Vec<T>) -> (r: Vec<T>)
    ensures
        r@.len() == v@.len(),
        forall|j: int| 0 <= j < v@.len() ==> #[trigger] r@[j] == v@[v@.len() - 1 - j],
{
    let mut v = v;
    let ghost orig = v@;
    let mut out: Vec<T> = Vec::new();
    while v.len() > 0
        invariant
            v@ == orig.take(v@.len() as int),
            out@.len() + v@.len() == orig.len(),
            forall|j: int| 0 <= j < out@.len() ==> #[trigger] out@[j] == orig[orig.len() - 1 - j],
        decreases v@.len(),
    {
        let x = v.pop().unwrap();
        out.push(x);
        assert(v@ =~= orig.take(v@.len() as int));
    }
    out
}

} // verus!
