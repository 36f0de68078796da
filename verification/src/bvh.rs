use vstd::prelude::*;

use crate::aabb::{
    box_contains, hull, lemma_hull_concat, surrounding_box, union_box,
    AABB,
};
use crate::hittable::Hlist;
use crate::primitive::{boxes_of, sort_range, sorted_on, stably_sorted, Primitive};
use crate::rng::random_range;
use vstd::multiset::Multiset;

verus! {

broadcast use vstd::seq_lib::group_to_multiset_ensures;

/// One side of a hierarchy node: a scene object or a further node.
pub enum BvhChild {
    Object(Primitive),
    Node(Box<BvhNode>),
}

/// A node of a bounding-volume hierarchy built over a range of a list.
pub struct BvhNode {
    pub left: BvhChild,
    pub right: BvhChild,
    pub _box: AABB,
}

/// How many axes the builder draws for `len` objects: one per node.
pub open spec fn node_count(len: int) -> int
    decreases len,
{
    if len <= 2 {
        1
    } else {
        1 + node_count(len / 2) + node_count(len - len / 2)
    }
}

/// Every range needs at least one axis.
pub proof fn lemma_node_count_positive(len: int)
    ensures
        node_count(len) >= 1,
    decreases len,
{
    if len > 2 {
        lemma_node_count_positive(len / 2);
        lemma_node_count_positive(len - len / 2);
    }
}

/// The axis for the next node: the given one at `at`, or a random one.
fn pick_axis(given: Option<&Vec<usize>>, at: usize) -> (a: usize)
    requires
        given is Some ==> at < given->0@.len() && given->0@[at as int] < 3,
    ensures
        a < 3,
        given is Some ==> a == given->0@[at as int],
{
    match given {
        Some(v) => v[at],
        None => random_range(0, 3),
    }
}

impl BvhChild {
    /// The box that this side reports.
    pub open spec fn bbox(self) -> AABB {
        match self {
            BvhChild::Object(p) => p.bbox,
            BvhChild::Node(n) => n._box,
        }
    }

    /// The objects below this side, left to right.
    pub open spec fn leaves(self) -> Seq<Primitive>
        decreases self,
    {
        match self {
            BvhChild::Object(p) => seq![p],
            BvhChild::Node(n) => n.leaves(),
        }
    }

    /// The object of a side that is an object, none for a node.
    pub open spec fn object(self) -> Multiset<Primitive> {
        match self {
            BvhChild::Object(p) => Multiset::singleton(p),
            BvhChild::Node(_) => Multiset::empty(),
        }
    }

    /// This side is well formed.
    pub open spec fn wf(self) -> bool
        decreases self,
    {
        match self {
            BvhChild::Object(_) => true,
            BvhChild::Node(n) => n.wf(),
        }
    }

    /// The box this side reports.
    pub fn bounding_box(&self) -> (b: AABB)
        ensures
            b == self.bbox(),
    {
        match self {
            BvhChild::Object(p) => p.bbox,
            BvhChild::Node(n) => n._box,
        }
    }
}

impl BvhNode {
    /// The objects below this node, left to right.
    pub open spec fn leaves(self) -> Seq<Primitive>
        decreases self,
    {
        self.left.leaves() + self.right.leaves()
    }

    /// Every object on the left comes no later than every object on the right
    /// along `axis`.
    pub open spec fn split_along(self, axis: int) -> bool {
        forall|i: int, j: int|
            0 <= i < self.left.leaves().len() && 0 <= j < self.right.leaves().len()
                ==> #[trigger] self.left.leaves()[i].key(axis)
                <= #[trigger] self.right.leaves()[j].key(axis)
    }

    /// Well formed: each node's box surrounds the boxes of its two sides, and
    /// each node separates its two sides along one of the three axes.
    pub open spec fn wf(self) -> bool
        decreases self,
    {
        &&& self.left.wf()
        &&& self.right.wf()
        &&& self._box == union_box(self.left.bbox(), self.right.bbox())
        &&& exists|axis: int| 0 <= axis < 3 && self.split_along(axis)
    }

    /// Over two objects `seg`, the node orders them along `axis`: the first
    /// on the left when its key is smaller, else the second (ties put the
    /// second object first).
    pub open spec fn pair_along(self, seg: Seq<Primitive>, axis: int) -> bool {
        if seg[0].key(axis) < seg[1].key(axis) {
            self.left == BvhChild::Object(seg[0]) && self.right == BvhChild::Object(seg[1])
        } else {
            self.left == BvhChild::Object(seg[1]) && self.right == BvhChild::Object(seg[0])
        }
    }

    /// The node is what the builder makes of the objects `seg`, in this
    /// order, for some axis at each node: one object fills both sides; two
    /// objects are ordered along the axis; more are sorted stably along the
    /// axis, and the first `len / 2` of them go to the left node, the rest to
    /// the right node.
    pub open spec fn built_from(self, seg: Seq<Primitive>) -> bool
        decreases self,
    {
        if seg.len() == 1 {
            self.left == BvhChild::Object(seg[0]) && self.right == BvhChild::Object(seg[0])
        } else if seg.len() == 2 {
            exists|axis: int| 0 <= axis < 3 && #[trigger] self.pair_along(seg, axis)
        } else {
            seg.len() > 2 && match (self.left, self.right) {
                (BvhChild::Node(l), BvhChild::Node(r)) => exists|axis: int, t: Seq<Primitive>|
                    #![trigger stably_sorted(seg, t, axis)]
                    0 <= axis < 3 && stably_sorted(seg, t, axis) && l.built_from(
                        t.subrange(0, seg.len() as int / 2),
                    ) && r.built_from(t.subrange(seg.len() as int / 2, seg.len() as int)),
                _ => false,
            }
        }
    }

    /// The node is what the builder makes of the objects `seg`, in this
    /// order, when it takes its axes from `axes` in the order it draws them:
    /// the node's own axis first, then those of its left node, then those of
    /// its right node.
    pub open spec fn built_with(self, seg: Seq<Primitive>, axes: Seq<usize>) -> bool
        decreases self,
    {
        &&& axes.len() == node_count(seg.len() as int)
        &&& axes[0] < 3
        &&& if seg.len() == 1 {
            self.left == BvhChild::Object(seg[0]) && self.right == BvhChild::Object(seg[0])
        } else if seg.len() == 2 {
            self.pair_along(seg, axes[0] as int)
        } else {
            seg.len() > 2 && match (self.left, self.right) {
                (BvhChild::Node(l), BvhChild::Node(r)) => {
                    let h = seg.len() as int / 2;
                    let nl = node_count(h);
                    exists|t: Seq<Primitive>|
                        #![trigger stably_sorted(seg, t, axes[0] as int)]
                        stably_sorted(seg, t, axes[0] as int) && l.built_with(
                            t.subrange(0, h),
                            axes.subrange(1, 1 + nl),
                        ) && r.built_with(
                            t.subrange(h, seg.len() as int),
                            axes.subrange(1 + nl, axes.len() as int),
                        )
                },
                _ => false,
            }
        }
    }

    /// The objects of a node built over `len` objects, each counted once per
    /// input position (a one-object node holds its object once).
    pub open spec fn objects(self, len: int) -> Multiset<Primitive>
        decreases self,
    {
        if len == 1 {
            self.left.object()
        } else if len == 2 {
            self.left.object().add(self.right.object())
        } else {
            match (self.left, self.right) {
                (BvhChild::Node(l), BvhChild::Node(r)) => l.objects(len / 2).add(
                    r.objects(len - len / 2),
                ),
                _ => Multiset::empty(),
            }
        }
    }

    /// The box of the node.
    pub fn bounding_box(&self) -> (b: AABB)
        ensures
            b == self._box,
    {
        self._box
    }
}

/// A side always holds at least one object.
pub proof fn lemma_leaves_nonempty(c: BvhChild)
    ensures
        c.leaves().len() > 0,
    decreases c,
{
    match c {
        BvhChild::Object(_) => {},
        BvhChild::Node(n) => {
            lemma_leaves_nonempty(n.left);
        },
    }
}

/// In a well-formed hierarchy the box of every side is exactly the box around
/// the objects below it.
pub proof fn lemma_box_is_hull(c: BvhChild)
    requires
        c.wf(),
    ensures
        c.bbox() == hull(boxes_of(c.leaves())),
    decreases c,
{
    match c {
        BvhChild::Object(p) => {
            assert(boxes_of(c.leaves()) =~= seq![p.bbox]);
        },
        BvhChild::Node(n) => {
            lemma_box_is_hull(n.left);
            lemma_box_is_hull(n.right);
            lemma_leaves_nonempty(n.left);
            lemma_leaves_nonempty(n.right);
            assert(boxes_of(n.leaves()) =~= boxes_of(n.left.leaves()) + boxes_of(
                n.right.leaves(),
            ));
            lemma_hull_concat(boxes_of(n.left.leaves()), boxes_of(n.right.leaves()));
        },
    }
}

/// The hierarchy box encloses the box of every object below it.
pub proof fn lemma_box_contains_leaves(c: BvhChild)
    requires
        c.wf(),
    ensures
        forall|i: int|
            0 <= i < c.leaves().len() ==> box_contains(c.bbox(), #[trigger] c.leaves()[i].bbox),
{
    lemma_box_is_hull(c);
    lemma_leaves_nonempty(c);
    crate::aabb::lemma_hull_contains(boxes_of(c.leaves()));
    assert forall|i: int| 0 <= i < c.leaves().len() implies box_contains(
        c.bbox(),
        #[trigger] c.leaves()[i].bbox,
    ) by {
        assert(boxes_of(c.leaves())[i] == c.leaves()[i].bbox);
    }
}

/// The box of a hierarchy over a list is the bounding box of that list: the
/// box that `list_bounding_box` gives for the objects' boxes.
pub proof fn lemma_hierarchy_box_is_list_box(s: Seq<Primitive>)
    ensures
        hull(boxes_of(s)) == hull(
            crate::hittable::unwrap_boxes(s.map_values(|p: Primitive| Some(p.bbox))),
        ),
{
    assert(boxes_of(s) =~= crate::hittable::unwrap_boxes(
        s.map_values(|p: Primitive| Some(p.bbox)),
    ));
}

/// A node built with given axes is built for some axis at each node.
pub proof fn lemma_built_with_from(n: BvhNode, seg: Seq<Primitive>, axes: Seq<usize>)
    requires
        n.built_with(seg, axes),
    ensures
        n.built_from(seg),
    decreases n,
{
    if seg.len() == 2 {
        assert(n.pair_along(seg, axes[0] as int));
    } else if seg.len() > 2 {
        match (n.left, n.right) {
            (BvhChild::Node(l), BvhChild::Node(r)) => {
                let h = seg.len() as int / 2;
                let nl = node_count(h);
                let t = choose|t: Seq<Primitive>|
                    #![trigger stably_sorted(seg, t, axes[0] as int)]
                    stably_sorted(seg, t, axes[0] as int) && l.built_with(
                        t.subrange(0, h),
                        axes.subrange(1, 1 + nl),
                    ) && r.built_with(
                        t.subrange(h, seg.len() as int),
                        axes.subrange(1 + nl, axes.len() as int),
                    );
                lemma_built_with_from(*l, t.subrange(0, h), axes.subrange(1, 1 + nl));
                lemma_built_with_from(
                    *r,
                    t.subrange(h, seg.len() as int),
                    axes.subrange(1 + nl, axes.len() as int),
                );
                assert(stably_sorted(seg, t, axes[0] as int));
            },
            _ => {},
        }
    }
}

/// Builds the hierarchy over `objects[start..end]`, sorting sub-ranges of
/// `objects` in place as it goes. The axes come from `given`, from position
/// `at` on, or are drawn at random when none are given. Returns the node, the
/// position after the axes it took, and the axes it used.
#[verifier::rlimit(50)]
fn build(
    objects: &mut Vec<Primitive>,
    start: usize,
    end: usize,
    given: Option<&Vec<usize>>,
    at: usize,
) -> (res: (BvhNode, usize, Ghost<Seq<usize>>))
    requires
        start < end <= old(objects).len(),
        given is Some ==> at + node_count(end - start) <= given->0@.len(),
        given is Some ==> forall|k: int| 0 <= k < given->0@.len() ==> #[trigger] given->0@[k] < 3,
    ensures
        final(objects).len() == old(objects).len(),
        forall|k: int|
            0 <= k < old(objects).len() && !(start <= k < end) ==> #[trigger] final(objects)@[k]
                == old(objects)@[k],
        final(objects)@.subrange(start as int, end as int).to_multiset() == old(
            objects,
        )@.subrange(start as int, end as int).to_multiset(),
        res.0.wf(),
        res.0.built_with(old(objects)@.subrange(start as int, end as int), res.2@),
        given is Some ==> res.1 == at + node_count(end - start) && res.2@ == given->0@.subrange(
            at as int,
            at + node_count(end - start),
        ),
        res.0.objects(end - start) == old(objects)@.subrange(
            start as int,
            end as int,
        ).to_multiset(),
        forall|p: Primitive|
            res.0.leaves().contains(p) <==> old(objects)@.subrange(
                start as int,
                end as int,
            ).contains(p),
    decreases end - start,
{
    let ghost orig = objects@;
    proof {
        lemma_node_count_positive(end - start);
    }
    let axis = pick_axis(given, at);
    let len = end - start;
    let ghost mut used: Seq<usize> = seq![axis];
    let mut next = match given {
        Some(v) => {
            assert(v@.len() == v.len());
            at + 1
        },
        None => at,
    };
    let left;
    let right;
    if len == 1 {
        left = BvhChild::Object(objects[start]);
        right = BvhChild::Object(objects[start]);
        proof {
            let seg = orig.subrange(start as int, end as int);
            assert(seg =~= seq![orig[start as int]]);
            let n = BvhNode { left, right, _box: union_box(left.bbox(), right.bbox()) };
            assert(n.split_along(axis as int));
            let o = orig[start as int];
            assert(n.leaves() =~= seq![o, o]);
            assert(seg =~= Seq::<Primitive>::empty().push(o));
            assert(seg.to_multiset() =~= Multiset::singleton(o)) by {
                broadcast use vstd::multiset::group_multiset_axioms;

            }
            assert(n.built_with(seg, used));
            if given is Some {
                assert(used =~= given->0@.subrange(at as int, at + 1));
            }
            assert(n.objects(1) == seg.to_multiset());
            assert forall|p: Primitive| n.leaves().contains(p) <==> seg.contains(p) by {
                assert(n.leaves().contains(p) <==> p == o);
                assert(seg.contains(p) <==> p == o);
            }
        }
    } else if len == 2 {
        let a = objects[start];
        let b = objects[start + 1];
        if a.key_on(axis) < b.key_on(axis) {
            left = BvhChild::Object(a);
            right = BvhChild::Object(b);
        } else {
            left = BvhChild::Object(b);
            right = BvhChild::Object(a);
        }
        proof {
            let seg = orig.subrange(start as int, end as int);
            assert(seg =~= seq![a, b]);
            let n = BvhNode { left, right, _box: union_box(left.bbox(), right.bbox()) };
            assert(n.split_along(axis as int));
            assert(n.leaves() =~= seq![a, b] || n.leaves() =~= seq![b, a]);
            assert(n.pair_along(seg, axis as int));
            assert(n.built_with(seg, used));
            if given is Some {
                assert(used =~= given->0@.subrange(at as int, at + 1));
            }
            assert(seg =~= Seq::<Primitive>::empty().push(a).push(b));
            assert(seg.to_multiset() =~= Multiset::singleton(a).add(Multiset::singleton(b))) by {
                broadcast use vstd::multiset::group_multiset_axioms;

                assert(Seq::<Primitive>::empty().push(a).to_multiset() =~= Multiset::singleton(
                    a,
                ));
            }
            assert(n.objects(2) == seg.to_multiset()) by {
                broadcast use vstd::multiset::group_multiset_axioms;

            }
            assert forall|p: Primitive| n.leaves().contains(p) <==> seg.contains(p) by {
                assert(n.leaves().contains(p) <==> (p == a || p == b));
                assert(seg.contains(p) <==> (p == a || p == b));
            }
        }
    } else {
        sort_range(objects, start, end, axis);
        let ghost sorted = objects@;
        let mid = start + len / 2;
        proof {
            assert(node_count(len as int) == 1 + node_count(mid - start) + node_count(end - mid));
            lemma_node_count_positive(mid - start);
            lemma_node_count_positive(end - mid);
        }
        let (l, next_l, used_l) = build(objects, start, mid, given, next);
        let ghost after_left = objects@;
        let (r, next_r, used_r) = build(objects, mid, end, given, next_l);
        next = next_r;
        proof {
            used = seq![axis] + used_l@ + used_r@;
        }
        proof {
            let s = start as int;
            let m = mid as int;
            let e = end as int;
            assert(sorted.subrange(s, e) =~= sorted.subrange(s, m) + sorted.subrange(m, e));
            assert(after_left.subrange(m, e) =~= sorted.subrange(m, e));
            assert(objects@.subrange(s, m) =~= after_left.subrange(s, m));
            assert(objects@.subrange(s, e) =~= objects@.subrange(s, m) + objects@.subrange(m, e));
            vstd::seq_lib::lemma_multiset_commutative(
                objects@.subrange(s, m),
                objects@.subrange(m, e),
            );
            vstd::seq_lib::lemma_multiset_commutative(
                sorted.subrange(s, m),
                sorted.subrange(m, e),
            );
            assert forall|p: Primitive|
                sorted.subrange(s, e).contains(p) <==> orig.subrange(s, e).contains(p) by {
                assert(sorted.subrange(s, e).to_multiset().count(p) == orig.subrange(
                    s,
                    e,
                ).to_multiset().count(p));
            }
        }
        left = BvhChild::Node(Box::new(l));
        right = BvhChild::Node(Box::new(r));
        proof {
            let s = start as int;
            let m = mid as int;
            let e = end as int;
            let n = BvhNode { left, right, _box: union_box(left.bbox(), right.bbox()) };
            assert forall|i: int, j: int|
                0 <= i < n.left.leaves().len() && 0 <= j < n.right.leaves().len() implies #[trigger] n.left.leaves()[i].key(
                axis as int,
            ) <= #[trigger] n.right.leaves()[j].key(axis as int) by {
                let pl = n.left.leaves()[i];
                let pr = n.right.leaves()[j];
                assert(l.leaves().contains(pl));
                assert(r.leaves().contains(pr));
                let a = choose|a: int| 0 <= a < m - s && sorted.subrange(s, m)[a] == pl;
                let b = choose|b: int| 0 <= b < e - m && sorted.subrange(m, e)[b] == pr;
                assert(sorted[s + a] == pl);
                assert(sorted[m + b] == pr);
                assert(sorted_on(sorted, s, e, axis as int));
            }
            assert(n.split_along(axis as int));
            let seg = orig.subrange(s, e);
            let t = sorted.subrange(s, e);
            let h = (e - s) / 2;
            assert(t.subrange(0, h) =~= sorted.subrange(s, m));
            assert(t.subrange(h, e - s) =~= after_left.subrange(m, e));
            assert(stably_sorted(seg, t, axis as int));
            let nl = node_count(h);
            assert(used[0] == axis);
            assert(used.len() == node_count(e - s));
            assert(used.subrange(1, 1 + nl) =~= used_l@);
            assert(used.subrange(1 + nl, used.len() as int) =~= used_r@);
            assert(n.built_with(seg, used));
            if given is Some {
                let g = given->0@;
                assert(used =~= g.subrange(at as int, at + node_count(e - s)));
            }
            assert(n.objects(e - s) == seg.to_multiset());
            assert forall|p: Primitive|
                n.leaves().contains(p) <==> orig.subrange(s, e).contains(p) by {
                broadcast use vstd::seq_lib::group_seq_properties;

                assert(n.leaves() == l.leaves() + r.leaves());
                assert(sorted.subrange(s, e).contains(p) <==> (sorted.subrange(s, m).contains(p)
                    || sorted.subrange(m, e).contains(p)));
            }
        }
    }
    let _box = surrounding_box(left.bounding_box(), right.bounding_box());
    (BvhNode { left, right, _box }, next, Ghost(used))
}

impl BvhNode {
    /// Builds a hierarchy over `objects[start..end]`. At each node an axis is
    /// drawn at random; one object makes both sides of its node, two objects
    /// are ordered along the axis (the second first on a tie), and more are
    /// sorted stably along the axis and split at the middle of the range.
    pub fn new(objects: Vec<Primitive>, start: usize, end: usize) -> (node: BvhNode)
        requires
            start < end <= objects.len(),
        ensures
            node.wf(),
            node.built_from(objects@.subrange(start as int, end as int)),
            node.objects(end - start) == objects@.subrange(start as int, end as int).to_multiset(),
            forall|p: Primitive|
                node.leaves().contains(p) <==> objects@.subrange(start as int, end as int).contains(
                    p,
                ),
            node._box == hull(boxes_of(objects@.subrange(start as int, end as int))),
    {
        let mut objects = objects;
        let ghost seg = objects@.subrange(start as int, end as int);
        let (node, _, used) = build(&mut objects, start, end, None, 0);
        proof {
            lemma_built_with_from(node, seg, used@);
            let c = BvhChild::Node(Box::new(node));
            lemma_box_is_hull(c);
            lemma_leaves_nonempty(c);
            assert(c.leaves() == node.leaves());
            crate::primitive::lemma_same_members_same_hull(node.leaves(), seg);
        }
        node
    }

    /// Builds a hierarchy over `objects[start..end]` as `new` does, but with
    /// the given axes in place of random ones, taken in the order the builder
    /// draws them: a node's own axis, then those of its left node, then those
    /// of its right node.
    pub fn new_with_axes(objects: Vec<Primitive>, start: usize, end: usize, axes: &Vec<usize>) -> (node: BvhNode)
        requires
            start < end <= objects.len(),
            axes@.len() == node_count(end - start),
            forall|k: int| 0 <= k < axes@.len() ==> #[trigger] axes@[k] < 3,
        ensures
            node.wf(),
            node.built_with(objects@.subrange(start as int, end as int), axes@),
            node.objects(end - start) == objects@.subrange(start as int, end as int).to_multiset(),
            node._box == hull(boxes_of(objects@.subrange(start as int, end as int))),
    {
        let mut objects = objects;
        let ghost seg = objects@.subrange(start as int, end as int);
        let (node, _, used) = build(&mut objects, start, end, Some(axes), 0);
        proof {
            assert(axes@.subrange(0, node_count(end - start)) =~= axes@);
            let c = BvhChild::Node(Box::new(node));
            lemma_box_is_hull(c);
            lemma_leaves_nonempty(c);
            assert(c.leaves() == node.leaves());
            crate::primitive::lemma_same_members_same_hull(node.leaves(), seg);
        }
        node
    }

    /// Builds a hierarchy over every object of a non-empty list.
    pub fn new_list(list: Hlist<Primitive>) -> (node: BvhNode)
        requires
            list.objects.len() > 0,
        ensures
            node.wf(),
            node.built_from(list.objects@),
            node.objects(list.objects.len() as int) == list.objects@.to_multiset(),
            forall|p: Primitive| node.leaves().contains(p) <==> list.objects@.contains(p),
            node._box == hull(boxes_of(list.objects@)),
    {
        let len = list.objects.len();
        let ghost all = list.objects@;
        assert(all.subrange(0, len as int) =~= all);
        BvhNode::new(list.objects, 0, len)
    }
}

} // verus!
