use vstd::prelude::*;

use crate::aabb::{hull, lemma_hull_concat, surrounding_box, union_box, AABB};
use crate::hittable::Hlist;
use crate::primitive::{boxes_of, sort_range, sorted_on, stably_sorted, Primitive};
use crate::rng::random_range;

verus! {

broadcast use vstd::seq_lib::group_to_multiset_ensures;

/// A hierarchy over a list of objects: a single object, or a node.
pub enum BvhTree {
    Object(Primitive),
    Node(Box<BvhNode>),
}

/// A node that splits its objects into two halves.
pub struct BvhNode {
    pub left: BvhTree,
    pub right: BvhTree,
    pub _box: AABB,
    pub if_dark: bool,
}

/// How many axes the builder draws for `len` objects: one per call.
pub open spec fn draw_count(len: int) -> int
    decreases len,
{
    if len <= 1 {
        1
    } else {
        1 + draw_count(len / 2) + draw_count(len - len / 2)
    }
}

/// Every call draws at least one axis.
pub proof fn lemma_draw_count_positive(len: int)
    ensures
        draw_count(len) >= 1,
    decreases len,
{
    if len > 1 {
        lemma_draw_count_positive(len / 2);
        lemma_draw_count_positive(len - len / 2);
    }
}

/// The axis for the next call: the given one at `at`, or a random one.
fn pick_axis(given: Option<&Vec<usize>>, at: usize) -> (a: usize)
    requires
        given is Some ==> at < given->0@.len() && given->0@[at as int] < 3,
    ensures
        a < 3,
        given is Some ==> a == given->0@[at as int],
{
    match given {
        Some(v) => v[at],
        None => random_range(0, 3),
    }
}

/// A tree built with given axes is built for some axis at each node.
pub proof fn lemma_built_with_from(t: BvhTree, s: Seq<Primitive>, axes: Seq<usize>, dark: bool)
    requires
        t.built_with(s, axes, dark),
    ensures
        t.built_from(s, dark),
    decreases t,
{
    if s.len() > 1 {
        match t {
            BvhTree::Node(n) => {
                let h = s.len() as int / 2;
                let nl = draw_count(h);
                let u = choose|u: Seq<Primitive>|
                    #![trigger stably_sorted(s, u, axes[0] as int)]
                    stably_sorted(s, u, axes[0] as int) && n.left.built_with(
                        u.subrange(0, h),
                        axes.subrange(1, 1 + nl),
                        dark,
                    ) && n.right.built_with(
                        u.subrange(h, s.len() as int),
                        axes.subrange(1 + nl, axes.len() as int),
                        dark,
                    );
                lemma_built_with_from(n.left, u.subrange(0, h), axes.subrange(1, 1 + nl), dark);
                lemma_built_with_from(
                    n.right,
                    u.subrange(h, s.len() as int),
                    axes.subrange(1 + nl, axes.len() as int),
                    dark,
                );
                assert(stably_sorted(s, u, axes[0] as int));
            },
            BvhTree::Object(_) => {},
        }
    }
}

impl BvhTree {
    /// The box that the tree reports.
    pub open spec fn bbox(self) -> AABB {
        match self {
            BvhTree::Object(p) => p.bbox,
            BvhTree::Node(n) => n._box,
        }
    }

    /// The objects of the tree, left to right.
    pub open spec fn leaves(self) -> Seq<Primitive>
        decreases self,
    {
        match self {
            BvhTree::Object(p) => seq![p],
            BvhTree::Node(n) => n.leaves(),
        }
    }

    /// Well formed, every node carrying the background flag `dark`.
    pub open spec fn wf(self, dark: bool) -> bool
        decreases self,
    {
        match self {
            BvhTree::Object(_) => true,
            BvhTree::Node(n) => n.wf(dark),
        }
    }

    /// The tree is what the builder makes of the objects `s`, in this order,
    /// with background flag `dark`, for some axis at each node: one object
    /// stands for itself; more are sorted stably along the axis, and the first
    /// `len / 2` of them go left, the rest right.
    pub open spec fn built_from(self, s: Seq<Primitive>, dark: bool) -> bool
        decreases self,
    {
        if s.len() == 1 {
            self == BvhTree::Object(s[0])
        } else {
            s.len() > 1 && match self {
                BvhTree::Node(n) => n.if_dark == dark && exists|axis: int, t: Seq<Primitive>|
                    #![trigger stably_sorted(s, t, axis)]
                    0 <= axis < 3 && stably_sorted(s, t, axis) && n.left.built_from(
                        t.subrange(0, s.len() as int / 2),
                        dark,
                    ) && n.right.built_from(t.subrange(s.len() as int / 2, s.len() as int), dark),
                BvhTree::Object(_) => false,
            }
        }
    }

    /// The tree is what the builder makes of the objects `s`, in this order,
    /// with flag `dark`, when it takes its axes from `axes` in the order it
    /// draws them: the node's own axis first (drawn for a single object too),
    /// then those of its left side, then those of its right side.
    pub open spec fn built_with(self, s: Seq<Primitive>, axes: Seq<usize>, dark: bool) -> bool
        decreases self,
    {
        &&& axes.len() == draw_count(s.len() as int)
        &&& axes[0] < 3
        &&& if s.len() == 1 {
            self == BvhTree::Object(s[0])
        } else {
            s.len() > 1 && match self {
                BvhTree::Node(n) => {
                    let h = s.len() as int / 2;
                    let nl = draw_count(h);
                    n.if_dark == dark && exists|t: Seq<Primitive>|
                        #![trigger stably_sorted(s, t, axes[0] as int)]
                        stably_sorted(s, t, axes[0] as int) && n.left.built_with(
                            t.subrange(0, h),
                            axes.subrange(1, 1 + nl),
                            dark,
                        ) && n.right.built_with(
                            t.subrange(h, s.len() as int),
                            axes.subrange(1 + nl, axes.len() as int),
                            dark,
                        )
                },
                BvhTree::Object(_) => false,
            }
        }
    }

    /// The box the tree reports.
    pub fn bounding_box(&self) -> (b: AABB)
        ensures
            b == self.bbox(),
    {
        match self {
            BvhTree::Object(p) => p.bbox,
            BvhTree::Node(n) => n._box,
        }
    }
}

impl BvhNode {
    /// The objects below this node, left to right.
    pub open spec fn leaves(self) -> Seq<Primitive>
        decreases self,
    {
        self.left.leaves() + self.right.leaves()
    }

    /// Every object on the left comes no later than every object on the right
    /// along `axis`.
    pub open spec fn split_along(self, axis: int) -> bool {
        forall|i: int, j: int|
            0 <= i < self.left.leaves().len() && 0 <= j < self.right.leaves().len()
                ==> #[trigger] self.left.leaves()[i].key(axis)
                <= #[trigger] self.right.leaves()[j].key(axis)
    }

    /// Well formed: each node's box surrounds the boxes of its two sides, its
    /// left side holds half of its objects (rounded down), it separates the
    /// sides along one of the three axes, and it carries the flag `dark`.
    pub open spec fn wf(self, dark: bool) -> bool
        decreases self,
    {
        &&& self.left.wf(dark)
        &&& self.right.wf(dark)
        &&& self._box == union_box(self.left.bbox(), self.right.bbox())
        &&& self.left.leaves().len() == self.leaves().len() / 2
        &&& exists|axis: int| 0 <= axis < 3 && self.split_along(axis)
        &&& self.if_dark == dark
    }

    /// Builds the hierarchy over a non-empty list, with the list's background
    /// flag.
    pub fn new(list: Hlist<Primitive>) -> (t: BvhTree)
        requires
            list.objects.len() > 0,
        ensures
            t.wf(list.dark_flag),
            t.built_from(list.objects@, list.dark_flag),
            t.leaves().to_multiset() == list.objects@.to_multiset(),
            t.bbox() == hull(boxes_of(list.objects@)),
    {
        BvhNode::initial(list.objects, list.dark_flag)
    }

    /// Builds the hierarchy over a non-empty vector of objects: a single
    /// object stands for itself; more are sorted stably along an axis drawn at
    /// random and split into a lower half (rounded down) and an upper half.
    pub fn initial(objects: Vec<Primitive>, if_dark: bool) -> (t: BvhTree)
        requires
            objects.len() > 0,
        ensures
            t.wf(if_dark),
            t.built_from(objects@, if_dark),
            t.leaves().to_multiset() == objects@.to_multiset(),
            t.bbox() == hull(boxes_of(objects@)),
    {
        let ghost all = objects@;
        let (t, _, used) = Self::initial_from(objects, if_dark, None, 0);
        proof {
            lemma_built_with_from(t, all, used@, if_dark);
        }
        t
    }

    /// Builds the hierarchy as `initial` does, but with the given axes in
    /// place of random ones, in the order the builder draws them: one per
    /// call, a call's own axis before those of its left and then its right
    /// half.
    pub fn initial_with_axes(objects: Vec<Primitive>, if_dark: bool, axes: &Vec<usize>) -> (t: BvhTree)
        requires
            objects.len() > 0,
            axes@.len() == draw_count(objects.len() as int),
            forall|k: int| 0 <= k < axes@.len() ==> #[trigger] axes@[k] < 3,
        ensures
            t.wf(if_dark),
            t.built_with(objects@, axes@, if_dark),
            t.leaves().to_multiset() == objects@.to_multiset(),
            t.bbox() == hull(boxes_of(objects@)),
    {
        let (t, _, used) = Self::initial_from(objects, if_dark, Some(axes), 0);
        proof {
            assert(axes@.subrange(0, axes@.len() as int) =~= axes@);
        }
        t
    }

    /// The builder: axes come from `given` from position `at` on, or are
    /// drawn at random when none are given. Returns the tree, the position
    /// after the axes it took, and the axes it used.
    fn initial_from(objects: Vec<Primitive>, if_dark: bool, given: Option<&Vec<usize>>, at: usize) -> (res: (
        BvhTree,
        usize,
        Ghost<Seq<usize>>,
    ))
        requires
            objects.len() > 0,
            given is Some ==> at + draw_count(objects.len() as int) <= given->0@.len(),
            given is Some ==> forall|k: int|
                0 <= k < given->0@.len() ==> #[trigger] given->0@[k] < 3,
        ensures
            res.0.wf(if_dark),
            res.0.built_with(objects@, res.2@, if_dark),
            given is Some ==> res.1 == at + draw_count(objects.len() as int) && res.2@
                == given->0@.subrange(at as int, at + draw_count(objects.len() as int)),
            res.0.leaves().to_multiset() == objects@.to_multiset(),
            res.0.bbox() == hull(boxes_of(objects@)),
        decreases objects.len(),
    {
        proof {
            lemma_draw_count_positive(objects.len() as int);
        }
        let axis = pick_axis(given, at);
        let next = match given {
            Some(v) => {
                assert(v@.len() == v.len());
                at + 1
            },
            None => at,
        };
        let len = objects.len();
        if len == 1 {
            let p = objects[0];
            proof {
                assert(objects@ =~= seq![p]);
                assert(boxes_of(objects@) =~= seq![p.bbox]);
                if given is Some {
                    assert(seq![axis] =~= given->0@.subrange(at as int, at + 1));
                }
                assert(BvhTree::Object(p).built_with(objects@, seq![axis], if_dark));
            }
            let ghost one = seq![axis];
            return (BvhTree::Object(p), next, Ghost(one));
        }
        let mut left_objects = objects;
        sort_range(&mut left_objects, 0, len, axis);
        let ghost sorted = left_objects@;
        proof {
            assert(sorted.subrange(0, len as int) =~= sorted);
            assert(objects@.subrange(0, len as int) =~= objects@);
            assert(draw_count(len as int) == 1 + draw_count(len as int / 2) + draw_count(
                len - len / 2,
            ));
            lemma_draw_count_positive(len as int / 2);
            lemma_draw_count_positive(len - len / 2);
        }
        let right_objects = left_objects.split_off(len / 2);
        let ghost lo = left_objects@;
        let ghost hi = right_objects@;
        let (left, next_l, used_l) = Self::initial_from(left_objects, if_dark, given, next);
        let (right, next_r, used_r) = Self::initial_from(right_objects, if_dark, given, next_l);
        let _box = surrounding_box(left.bounding_box(), right.bounding_box());
        let node = BvhNode { left, right, _box, if_dark };
        let ghost used = seq![axis] + used_l@ + used_r@;
        proof {
            assert(sorted =~= lo + hi);
            lemma_combine(objects@, sorted, lo, hi, node, axis as int, if_dark);
            let h = len as int / 2;
            let nl = draw_count(h);
            assert(used[0] == axis);
            assert(used.subrange(1, 1 + nl) =~= used_l@);
            assert(used.subrange(1 + nl, used.len() as int) =~= used_r@);
            assert(sorted.subrange(0, h) =~= lo);
            assert(sorted.subrange(h, len as int) =~= hi);
            assert(stably_sorted(objects@, sorted, axis as int));
            assert(BvhTree::Node(Box::new(node)).built_with(objects@, used, if_dark));
            if given is Some {
                assert(used =~= given->0@.subrange(at as int, at + draw_count(len as int)));
            }
        }
        (BvhTree::Node(Box::new(node)), next_r, Ghost(used))
    }
}

/// Joining two well-formed halves of a sorted permutation of `orig` gives a
/// well-formed node over `orig`.
proof fn lemma_combine(
    orig: Seq<Primitive>,
    sorted: Seq<Primitive>,
    lo: Seq<Primitive>,
    hi: Seq<Primitive>,
    node: BvhNode,
    axis: int,
    dark: bool,
)
    requires
        0 <= axis < 3,
        sorted.to_multiset() == orig.to_multiset(),
        sorted_on(sorted, 0, sorted.len() as int, axis),
        sorted == lo + hi,
        lo.len() == sorted.len() / 2,
        lo.len() > 0,
        hi.len() > 0,
        node.left.wf(dark),
        node.right.wf(dark),
        node.left.leaves().to_multiset() == lo.to_multiset(),
        node.right.leaves().to_multiset() == hi.to_multiset(),
        node.left.bbox() == hull(boxes_of(lo)),
        node.right.bbox() == hull(boxes_of(hi)),
        node._box == union_box(node.left.bbox(), node.right.bbox()),
        node.if_dark == dark,
    ensures
        node.wf(dark),
        node.leaves().to_multiset() == orig.to_multiset(),
        node._box == hull(boxes_of(orig)),
{
    let left = node.left;
    let right = node.right;
    assert(sorted.subrange(0, lo.len() as int) =~= lo);
    assert(sorted.subrange(lo.len() as int, sorted.len() as int) =~= hi);
    vstd::seq_lib::lemma_multiset_commutative(lo, hi);
    vstd::seq_lib::lemma_multiset_commutative(left.leaves(), right.leaves());
    assert(node.leaves().len() == sorted.len()) by {
        assert(node.leaves().to_multiset().len() == sorted.to_multiset().len());
    }
    assert(left.leaves().len() == lo.len()) by {
        assert(left.leaves().to_multiset().len() == lo.to_multiset().len());
    }
    assert forall|i: int, j: int|
        0 <= i < node.left.leaves().len() && 0 <= j < node.right.leaves().len() implies #[trigger] node.left.leaves()[i].key(
        axis,
    ) <= #[trigger] node.right.leaves()[j].key(axis) by {
        let pl = node.left.leaves()[i];
        let pr = node.right.leaves()[j];
        assert(left.leaves().to_multiset().count(pl) > 0);
        assert(right.leaves().to_multiset().count(pr) > 0);
        assert(lo.contains(pl));
        assert(hi.contains(pr));
        let a = choose|a: int| 0 <= a < lo.len() && lo[a] == pl;
        let b = choose|b: int| 0 <= b < hi.len() && hi[b] == pr;
        assert(sorted[a] == pl);
        assert(sorted[lo.len() + b] == pr);
    }
    assert(node.split_along(axis));
    lemma_hull_concat(boxes_of(lo), boxes_of(hi));
    assert(boxes_of(sorted) =~= boxes_of(lo) + boxes_of(hi));
    assert(orig.to_multiset().len() == orig.len());
    assert(sorted.to_multiset().len() == sorted.len());
    assert forall|p: Primitive| sorted.contains(p) <==> orig.contains(p) by {
        assert(sorted.contains(p) <==> sorted.to_multiset().count(p) > 0);
        assert(orig.contains(p) <==> orig.to_multiset().count(p) > 0);
    }
    crate::primitive::lemma_same_members_same_hull(sorted, orig);
}

/// A tree always holds at least one object.
pub proof fn lemma_leaves_nonempty(t: BvhTree)
    ensures
        t.leaves().len() > 0,
    decreases t,
{
    match t {
        BvhTree::Object(_) => {},
        BvhTree::Node(n) => {
            lemma_leaves_nonempty(n.left);
        },
    }
}

} // verus!
