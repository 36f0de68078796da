use vstd::prelude::*;

use crate::aabb::{hull, AABB};

verus! {

broadcast use vstd::seq_lib::group_to_multiset_ensures;

/// A scene object as the bounding-volume hierarchy sees it: the object's
/// index in the caller's object list and its bounding box.
#[derive(Clone, Copy, Debug, PartialEq, Eq, Structural)]
pub struct Primitive {
    pub id: usize,
    pub bbox: AABB,
}

impl Primitive {
    /// The sort key along `axis`: the low corner of the box on that axis.
    pub open spec fn key(self, axis: int) -> i64 {
        self.bbox._min.coord(axis)
    }

    pub fn new(id: usize, bbox: AABB) -> (p: Primitive)
        ensures
            p.id == id,
            p.bbox == bbox,
    {
        Primitive { id, bbox }
    }

    /// The sort key along `axis`.
    pub fn key_on(&self, axis: usize) -> (k: i64)
        requires
            axis < 3,
        ensures
            k == self.key(axis as int),
    {
        self.bbox._min.get(axis)
    }
}

/// The boxes of a sequence of primitives, in order.
pub open spec fn boxes_of(s: Seq<Primitive>) -> Seq<AABB> {
    s.map_values(|p: Primitive| p.bbox)
}

/// If two sequences hold the same primitives, their boxes have the same hull.
pub proof fn lemma_same_members_same_hull(s1: Seq<Primitive>, s2: Seq<Primitive>)
    requires
        s1.len() > 0,
        s2.len() > 0,
        forall|p: Primitive| s1.contains(p) <==> s2.contains(p),
    ensures
        hull(boxes_of(s1)) == hull(boxes_of(s2)),
{
    let b1 = boxes_of(s1);
    let b2 = boxes_of(s2);
    assert forall|i: int| 0 <= i < b1.len() implies b2.contains(#[trigger] b1[i]) by {
        assert(s1.contains(s1[i]));
        let j = choose|j: int| 0 <= j < s2.len() && s2[j] == s1[i];
        assert(b2[j] == b1[i]);
    }
    assert forall|j: int| 0 <= j < b2.len() implies b1.contains(#[trigger] b2[j]) by {
        assert(s2.contains(s2[j]));
        let i = choose|i: int| 0 <= i < s1.len() && s1[i] == s2[j];
        assert(b1[i] == b2[j]);
    }
    crate::aabb::lemma_hull_same_elements(b1, b2);
}

/// `s[lo..hi]` is sorted by the key along `axis`.
pub open spec fn sorted_on(s: Seq<Primitive>, lo: int, hi: int, axis: int) -> bool {
    forall|a: int, b: int| lo <= a <= b < hi ==> #[trigger] s[a].key(axis) <= #[trigger] s[b].key(
        axis,
    )
}

/// `s` with the entries at `i` and `j` exchanged.
pub open spec fn swapped<T>(s: Seq<T>, i: int, j: int) -> Seq<T> {
    s.update(i, s[j]).update(j, s[i])
}

/// Exchanging two entries keeps the multiset of a sequence.
pub proof fn lemma_swapped_multiset<T>(s: Seq<T>, i: int, j: int)
    requires
        0 <= i < s.len(),
        0 <= j < s.len(),
    ensures
        swapped(s, i, j).to_multiset() == s.to_multiset(),
{
    broadcast use vstd::multiset::group_multiset_axioms;

    let s1 = s.update(i, s[j]);
    assert(s1.to_multiset() == s.to_multiset().insert(s[j]).remove(s[i]));
    assert(s1[j] == (if i == j { s[j] } else { s[j] }));
    assert(swapped(s, i, j).to_multiset() == s1.to_multiset().insert(s[i]).remove(s1[j]));
    assert(swapped(s, i, j).to_multiset() =~= s.to_multiset());
}

/// `perm` rearranges `0..n`: every entry lies in `0..n` and no entry repeats.
pub open spec fn is_index_permutation(perm: Seq<int>, n: int) -> bool {
    &&& perm.len() == n
    &&& forall|k: int| 0 <= k < n ==> 0 <= #[trigger] perm[k] < n
    &&& forall|a: int, b: int| 0 <= a < b < n ==> #[trigger] perm[a] != #[trigger] perm[b]
}

/// `s` is `o` rearranged by `perm` (entry `k` of `s` is entry `perm[k]` of
/// `o`), and entries with equal keys along `axis` keep their relative order.
pub open spec fn stable_rearrangement(
    o: Seq<Primitive>,
    s: Seq<Primitive>,
    axis: int,
    perm: Seq<int>,
) -> bool {
    &&& s.len() == o.len()
    &&& is_index_permutation(perm, o.len() as int)
    &&& forall|k: int| 0 <= k < o.len() ==> #[trigger] s[k] == o[perm[k]]
    &&& forall|a: int, b: int|
        #![trigger perm[a], perm[b]]
        0 <= a < b < o.len() && s[a].key(axis) == s[b].key(axis) ==> perm[a] < perm[b]
}

/// `s` is `o` sorted stably by the key along `axis`.
pub open spec fn stably_sorted(o: Seq<Primitive>, s: Seq<Primitive>, axis: int) -> bool {
    &&& sorted_on(s, 0, s.len() as int, axis)
    &&& exists|perm: Seq<int>| stable_rearrangement(o, s, axis, perm)
}

/// Sorts `v[start..end]` by the key along `axis`, stably (insertion sort),
/// leaving the rest of `v` alone.
pub fn sort_range(v: &mut Vec<Primitive>, start: usize, end: usize, axis: usize)
    requires
        start <= end <= old(v).len(),
        axis < 3,
    ensures
        final(v).len() == old(v).len(),
        forall|k: int|
            0 <= k < old(v).len() && !(start <= k < end) ==> #[trigger] final(v)@[k] == old(
                v,
            )@[k],
        final(v)@.subrange(start as int, end as int).to_multiset() == old(v)@.subrange(
            start as int,
            end as int,
        ).to_multiset(),
        sorted_on(final(v)@, start as int, end as int, axis as int),
        stably_sorted(
            old(v)@.subrange(start as int, end as int),
            final(v)@.subrange(start as int, end as int),
            axis as int,
        ),
{
    let ghost orig = v@;
    let ghost lo = start as int;
    let ghost n = end - start;
    let ghost mut perm: Seq<int> = Seq::new(n as nat, |k: int| k);
    let mut i: usize = start;
    while i < end
        invariant
            start <= i <= end <= v.len(),
            lo == start,
            n == end - start,
            v.len() == orig.len(),
            axis < 3,
            forall|k: int| 0 <= k < orig.len() && !(start <= k < end) ==> #[trigger] v@[k] == orig[k],
            v@.subrange(start as int, end as int).to_multiset() == orig.subrange(
                start as int,
                end as int,
            ).to_multiset(),
            sorted_on(v@, start as int, i as int, axis as int),
            is_index_permutation(perm, n),
            forall|k: int| 0 <= k < n ==> #[trigger] v@[lo + k] == orig[lo + perm[k]],
            forall|k: int| i - lo <= k < n ==> #[trigger] perm[k] == k,
            forall|k: int| 0 <= k < i - lo ==> #[trigger] perm[k] < i - lo,
            forall|a: int, b: int|
                #![trigger perm[a], perm[b]]
                0 <= a < b < i - lo && v@[lo + a].key(axis as int) == v@[lo + b].key(axis as int)
                    ==> perm[a] < perm[b],
        decreases end - i,
    {
        let mut j: usize = i;
        while j > start && v[j - 1].key_on(axis) > v[j].key_on(axis)
            invariant
                start <= j <= i < end <= v.len(),
                lo == start,
                n == end - start,
                v.len() == orig.len(),
                axis < 3,
                forall|k: int|
                    0 <= k < orig.len() && !(start <= k < end) ==> #[trigger] v@[k] == orig[k],
                v@.subrange(start as int, end as int).to_multiset() == orig.subrange(
                    start as int,
                    end as int,
                ).to_multiset(),
                sorted_on(v@, start as int, j as int, axis as int),
                sorted_on(v@, j as int, i + 1, axis as int),
                forall|a: int, b: int|
                    start <= a < j < b < i + 1 ==> #[trigger] v@[a].key(axis as int)
                        <= #[trigger] v@[b].key(axis as int),
                is_index_permutation(perm, n),
                forall|k: int| 0 <= k < n ==> #[trigger] v@[lo + k] == orig[lo + perm[k]],
                forall|k: int| i + 1 - lo <= k < n ==> #[trigger] perm[k] == k,
                forall|k: int| 0 <= k < i + 1 - lo ==> #[trigger] perm[k] < i + 1 - lo,
                forall|a: int, b: int|
                    #![trigger perm[a], perm[b]]
                    0 <= a < b < i + 1 - lo && v@[lo + a].key(axis as int) == v@[lo + b].key(
                        axis as int,
                    ) ==> perm[a] < perm[b],
            decreases j,
        {
            let ghost before = v@;
            let ghost pbefore = perm;
            let x = v[j];
            let y = v[j - 1];
            v.set(j - 1, x);
            v.set(j, y);
            proof {
                let hi = end as int;
                let p = j - 1 - lo;
                let q = j - lo;
                assert(v@ == swapped(before, j - 1, j as int));
                assert(v@.subrange(lo, hi) =~= swapped(before.subrange(lo, hi), p, q));
                lemma_swapped_multiset(before.subrange(lo, hi), p, q);
                perm = swapped(pbefore, p, q);
                assert forall|k: int| 0 <= k < n implies #[trigger] v@[lo + k] == orig[lo
                    + perm[k]] by {
                    if k == p {
                        assert(v@[lo + k] == before[lo + q]);
                    } else if k == q {
                        assert(v@[lo + k] == before[lo + p]);
                    } else {
                        assert(v@[lo + k] == before[lo + k]);
                    }
                }
                assert forall|a: int, b: int| 0 <= a < b < n implies #[trigger] perm[a]
                    != #[trigger] perm[b] by {
                    let a0 = if a == p {
                        q
                    } else if a == q {
                        p
                    } else {
                        a
                    };
                    let b0 = if b == p {
                        q
                    } else if b == q {
                        p
                    } else {
                        b
                    };
                    assert(perm[a] == pbefore[a0]);
                    assert(perm[b] == pbefore[b0]);
                    if a0 < b0 {
                        assert(pbefore[a0] != pbefore[b0]);
                    } else {
                        assert(pbefore[b0] != pbefore[a0]);
                    }
                }
                assert forall|a: int, b: int|
                    #![trigger perm[a], perm[b]]
                    0 <= a < b < i + 1 - lo && v@[lo + a].key(axis as int) == v@[lo + b].key(
                        axis as int,
                    ) implies perm[a] < perm[b] by {
                    let a0 = if a == p {
                        q
                    } else if a == q {
                        p
                    } else {
                        a
                    };
                    let b0 = if b == p {
                        q
                    } else if b == q {
                        p
                    } else {
                        b
                    };
                    assert(v@[lo + a] == before[lo + a0]);
                    assert(v@[lo + b] == before[lo + b0]);
                    assert(perm[a] == pbefore[a0]);
                    assert(perm[b] == pbefore[b0]);
                    assert(before[lo + p].key(axis as int) != before[lo + q].key(axis as int));
                    assert(a0 < b0);
                }
            }
            j = j - 1;
        }
        i = i + 1;
    }
    let ghost o = orig.subrange(start as int, end as int);
    let ghost t = v@.subrange(start as int, end as int);
    assert forall|k: int| 0 <= k < o.len() implies #[trigger] t[k] == o[perm[k]] by {
        assert(v@[lo + k] == orig[lo + perm[k]]);
    }
    assert forall|a: int, b: int| 0 <= a < b < o.len() implies #[trigger] t[a].key(axis as int)
        <= #[trigger] t[b].key(axis as int) by {
        assert(t[a] == v@[lo + a] && t[b] == v@[lo + b]);
    }
    assert(stable_rearrangement(o, t, axis as int, perm));
}

} // verus!
