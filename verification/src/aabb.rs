use vstd::prelude::*;

use crate::vec3::Vec3;

verus! {

/// The smaller of two coordinates, the first one on a tie.
pub open spec fn min_coord(a: i64, b: i64) -> i64 {
    if a > b {
        b
    } else {
        a
    }
}

/// The larger of two coordinates, the second one on a tie.
pub open spec fn max_coord(a: i64, b: i64) -> i64 {
    if a > b {
        a
    } else {
        b
    }
}

/// An axis-aligned bounding box, given by its lowest and highest corner.
#[derive(Clone, Copy, Debug, PartialEq, Eq, Structural)]
pub struct AABB {
    pub _min: Vec3,
    pub _max: Vec3,
}

/// The component-wise union of two boxes: the smallest box around both.
pub open spec fn union_box(a: AABB, b: AABB) -> AABB {
    AABB {
        _min: Vec3 {
            x: min_coord(a._min.x, b._min.x),
            y: min_coord(a._min.y, b._min.y),
            z: min_coord(a._min.z, b._min.z),
        },
        _max: Vec3 {
            x: max_coord(a._max.x, b._max.x),
            y: max_coord(a._max.y, b._max.y),
            z: max_coord(a._max.z, b._max.z),
        },
    }
}

/// `outer` encloses `inner` on every axis.
pub open spec fn box_contains(outer: AABB, inner: AABB) -> bool {
    &&& outer._min.x <= inner._min.x
    &&& outer._min.y <= inner._min.y
    &&& outer._min.z <= inner._min.z
    &&& inner._max.x <= outer._max.x
    &&& inner._max.y <= outer._max.y
    &&& inner._max.z <= outer._max.z
}

/// The box around a non-empty sequence of boxes, folded from the left.
pub open spec fn hull(s: Seq<AABB>) -> AABB
    decreases s.len(),
{
    if s.len() <= 1 {
        s[0]
    } else {
        union_box(hull(s.drop_last()), s.last())
    }
}

impl AABB {
    /// The box with the given lowest and highest corner.
    pub fn new(_min: &Vec3, _max: &Vec3) -> (b: AABB)
        ensures
            b._min == *_min,
            b._max == *_max,
    {
        AABB { _min: *_min, _max: *_max }
    }
}

/// The smaller of two coordinates (the first on a tie).
pub fn getmin(af: i64, bf: i64) -> (r: i64)
    ensures
        r == min_coord(af, bf),
{
    if af > bf {
        bf
    } else {
        af
    }
}

/// The larger of two coordinates (the second on a tie).
pub fn getmax(af: i64, bf: i64) -> (r: i64)
    ensures
        r == max_coord(af, bf),
{
    if af > bf {
        af
    } else {
        bf
    }
}

/// The smallest box that encloses both boxes.
pub fn surrounding_box(box0: AABB, box1: AABB) -> (b: AABB)
    ensures
        b == union_box(box0, box1),
{
    let small = Vec3::new(
        getmin(box0._min.x, box1._min.x),
        getmin(box0._min.y, box1._min.y),
        getmin(box0._min.z, box1._min.z),
    );
    let big = Vec3::new(
        getmax(box0._max.x, box1._max.x),
        getmax(box0._max.y, box1._max.y),
        getmax(box0._max.z, box1._max.z),
    );
    AABB::new(&small, &big)
}

/// The surrounding box encloses both of its arguments.
pub proof fn lemma_surrounding_contains(a: AABB, b: AABB)
    ensures
        box_contains(union_box(a, b), a),
        box_contains(union_box(a, b), b),
{
}

/// Any box that encloses two boxes encloses their surrounding box: it is the smallest.
pub proof fn lemma_surrounding_least(a: AABB, b: AABB, c: AABB)
    requires
        box_contains(c, a),
        box_contains(c, b),
    ensures
        box_contains(c, union_box(a, b)),
{
}

/// The surrounding box does not depend on the order of its arguments.
pub proof fn lemma_surrounding_commutative(a: AABB, b: AABB)
    ensures
        union_box(a, b) == union_box(b, a),
{
}

/// Surrounding three boxes gives the same box however the calls are grouped.
pub proof fn lemma_surrounding_associative(a: AABB, b: AABB, c: AABB)
    ensures
        union_box(union_box(a, b), c) == union_box(a, union_box(b, c)),
{
}

/// Surrounding a box with itself gives the box back.
pub proof fn lemma_surrounding_idempotent(a: AABB)
    ensures
        union_box(a, a) == a,
{
}

/// Enclosure is a partial order: boxes that enclose each other are equal.
pub proof fn lemma_contains_antisymmetric(a: AABB, b: AABB)
    requires
        box_contains(a, b),
        box_contains(b, a),
    ensures
        a == b,
{
}

/// Enclosure is transitive.
pub proof fn lemma_contains_transitive(a: AABB, b: AABB, c: AABB)
    requires
        box_contains(a, b),
        box_contains(b, c),
    ensures
        box_contains(a, c),
{
}

/// The hull of a non-empty sequence encloses each of its boxes.
pub proof fn lemma_hull_contains(s: Seq<AABB>)
    requires
        s.len() > 0,
    ensures
        forall|i: int| 0 <= i < s.len() ==> box_contains(hull(s), #[trigger] s[i]),
    decreases s.len(),
{
    if s.len() > 1 {
        lemma_hull_contains(s.drop_last());
        assert forall|i: int| 0 <= i < s.len() implies box_contains(hull(s), #[trigger] s[i]) by {
            if i < s.len() - 1 {
                assert(s.drop_last()[i] == s[i]);
                lemma_contains_transitive(hull(s), hull(s.drop_last()), s[i]);
            }
        }
    }
}

/// Any box that encloses every box of a non-empty sequence encloses its hull.
pub proof fn lemma_hull_least(s: Seq<AABB>, c: AABB)
    requires
        s.len() > 0,
        forall|i: int| 0 <= i < s.len() ==> box_contains(c, #[trigger] s[i]),
    ensures
        box_contains(c, hull(s)),
    decreases s.len(),
{
    if s.len() > 1 {
        assert forall|i: int| 0 <= i < s.drop_last().len() implies box_contains(
            c,
            #[trigger] s.drop_last()[i],
        ) by {
            assert(s.drop_last()[i] == s[i]);
        }
        lemma_hull_least(s.drop_last(), c);
        assert(box_contains(c, s[s.len() - 1]));
    }
}

/// The hull depends only on which boxes occur, not on their order or repetition.
pub proof fn lemma_hull_same_elements(s1: Seq<AABB>, s2: Seq<AABB>)
    requires
        s1.len() > 0,
        s2.len() > 0,
        forall|i: int| 0 <= i < s1.len() ==> s2.contains(#[trigger] s1[i]),
        forall|j: int| 0 <= j < s2.len() ==> s1.contains(#[trigger] s2[j]),
    ensures
        hull(s1) == hull(s2),
{
    lemma_hull_contains(s1);
    lemma_hull_contains(s2);
    assert forall|i: int| 0 <= i < s1.len() implies box_contains(hull(s2), #[trigger] s1[i]) by {
        assert(s2.contains(s1[i]));
        let j = choose|j: int| 0 <= j < s2.len() && s2[j] == s1[i];
        assert(box_contains(hull(s2), s2[j]));
    }
    assert forall|j: int| 0 <= j < s2.len() implies box_contains(hull(s1), #[trigger] s2[j]) by {
        assert(s1.contains(s2[j]));
        let i = choose|i: int| 0 <= i < s1.len() && s1[i] == s2[j];
        assert(box_contains(hull(s1), s1[i]));
    }
    lemma_hull_least(s1, hull(s2));
    lemma_hull_least(s2, hull(s1));
    lemma_contains_antisymmetric(hull(s1), hull(s2));
}

/// The hull of a concatenation surrounds the hulls of the two parts.
pub proof fn lemma_hull_concat(a: Seq<AABB>, b: Seq<AABB>)
    requires
        a.len() > 0,
        b.len() > 0,
    ensures
        hull(a + b) == union_box(hull(a), hull(b)),
    decreases b.len(),
{
    if b.len() == 1 {
        assert((a + b).drop_last() =~= a);
        assert((a + b).last() == b[0]);
    } else {
        lemma_hull_concat(a, b.drop_last());
        assert((a + b).drop_last() =~= a + b.drop_last());
        assert((a + b).last() == b.last());
        lemma_surrounding_associative(hull(a), hull(b.drop_last()), b.last());
    }
}

} // verus!
