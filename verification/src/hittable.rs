use vstd::prelude::*;

use crate::aabb::{hull, surrounding_box, AABB};
use crate::vec3::Vec3;

verus! {

/// A list of scene objects and the flag that selects a dark background.
pub struct Hlist<O> {
    pub objects: Vec<O>,
    pub dark_flag: bool,
}

impl<O> Hlist<O> {
    /// An empty list.
    pub fn new(dark_flag: bool) -> (l: Hlist<O>)
        ensures
            l.objects@ == Seq::<O>::empty(),
            l.dark_flag == dark_flag,
    {
        Hlist { objects: Vec::new(), dark_flag }
    }

    /// Appends an object.
    pub fn push(&mut self, ob: O)
        ensures
            final(self).objects@ == old(self).objects@.push(ob),
            final(self).dark_flag == old(self).dark_flag,
    {
        self.objects.push(ob);
    }
}

/// The boxes of a list of optional boxes, with the `Some` taken off.
pub open spec fn unwrap_boxes(s: Seq<Option<AABB>>) -> Seq<AABB> {
    s.map_values(|o: Option<AABB>| o.unwrap())
}

/// The bounding box of a list whose objects report `boxes`, in order: none for
/// an empty list or where some object has no box, else the box around all of
/// them, folded from the first.
pub fn list_bounding_box(boxes: &Vec<Option<AABB>>) -> (r: Option<AABB>)
    ensures
        r is None <==> (boxes@.len() == 0 || exists|i: int|
            0 <= i < boxes@.len() && #[trigger] boxes@[i] is None),
        r is Some ==> r->0 == hull(unwrap_boxes(boxes@)),
{
    if boxes.len() == 0 {
        return None;
    }
    let ghost s = unwrap_boxes(boxes@);
    let mut output_box = AABB::new(&Vec3::zero(), &Vec3::zero());
    let mut first_box: bool = true;
    let mut i: usize = 0;
    while i < boxes.len()
        invariant
            0 <= i <= boxes@.len(),
            s == unwrap_boxes(boxes@),
            first_box <==> i == 0,
            forall|k: int| 0 <= k < i ==> #[trigger] boxes@[k] is Some,
            i > 0 ==> output_box == hull(s.take(i as int)),
        decreases boxes@.len() - i,
    {
        match boxes[i] {
            Some(val) => {
                proof {
                    assert(s[i as int] == val);
                    if i > 0 {
                        assert(s.take(i + 1).drop_last() =~= s.take(i as int));
                    } else {
                        assert(s.take(1).len() == 1);
                    }
                }
                output_box = if first_box {
                    val
                } else {
                    surrounding_box(output_box, val)
                };
                first_box = false;
            },
            None => {
                return None;
            },
        }
        i = i + 1;
    }
    assert(s.take(boxes@.len() as int) =~= s);
    Some(output_box)
}

/// A rectangle in the plane `z = k`, spanning `x0..x1` and `y0..y1`.
pub struct Xyrect<M> {
    pub mat_ptr: M,
    pub x0: i64,
    pub x1: i64,
    pub y0: i64,
    pub y1: i64,
    pub k: i64,
}

/// A rectangle in the plane `y = k`, spanning `x0..x1` and `z0..z1`.
pub struct Xzrect<M> {
    pub mat_ptr: M,
    pub x0: i64,
    pub x1: i64,
    pub z0: i64,
    pub z1: i64,
    pub k: i64,
}

/// A rectangle in the plane `x = k`, spanning `y0..y1` and `z0..z1`.
pub struct Yzrect<M> {
    pub mat_ptr: M,
    pub y0: i64,
    pub y1: i64,
    pub z0: i64,
    pub z1: i64,
    pub k: i64,
}

impl<M> Xyrect<M> {
    /// The rectangle's span and plane are `(x0, x1, y0, y1, k)`.
    pub open spec fn spans(self, x0: i64, x1: i64, y0: i64, y1: i64, k: i64) -> bool {
        self.x0 == x0 && self.x1 == x1 && self.y0 == y0 && self.y1 == y1 && self.k == k
    }

    pub fn new(x0: i64, x1: i64, y0: i64, y1: i64, k: i64, mat_ptr: M) -> (r: Xyrect<M>)
        ensures
            r.spans(x0, x1, y0, y1, k),
            r.mat_ptr == mat_ptr,
    {
        Xyrect { mat_ptr, x0, x1, y0, y1, k }
    }
}

impl<M> Xzrect<M> {
    /// The rectangle's span and plane are `(x0, x1, z0, z1, k)`.
    pub open spec fn spans(self, x0: i64, x1: i64, z0: i64, z1: i64, k: i64) -> bool {
        self.x0 == x0 && self.x1 == x1 && self.z0 == z0 && self.z1 == z1 && self.k == k
    }

    pub fn new(x0: i64, x1: i64, z0: i64, z1: i64, k: i64, mat_ptr: M) -> (r: Xzrect<M>)
        ensures
            r.spans(x0, x1, z0, z1, k),
            r.mat_ptr == mat_ptr,
    {
        Xzrect { mat_ptr, x0, x1, z0, z1, k }
    }
}

impl<M> Yzrect<M> {
    /// The rectangle's span and plane are `(y0, y1, z0, z1, k)`.
    pub open spec fn spans(self, y0: i64, y1: i64, z0: i64, z1: i64, k: i64) -> bool {
        self.y0 == y0 && self.y1 == y1 && self.z0 == z0 && self.z1 == z1 && self.k == k
    }

    pub fn new(y0: i64, y1: i64, z0: i64, z1: i64, k: i64, mat_ptr: M) -> (r: Yzrect<M>)
        ensures
            r.spans(y0, y1, z0, z1, k),
            r.mat_ptr == mat_ptr,
    {
        Yzrect { mat_ptr, y0, y1, z0, z1, k }
    }
}

/// An axis-aligned box made of its six faces.
pub struct Boxes<M> {
    pub box_min: Vec3,
    pub box_max: Vec3,
    pub sides: (Xyrect<M>, Xyrect<M>, Xzrect<M>, Xzrect<M>, Yzrect<M>, Yzrect<M>),
}

impl<M: Clone> Boxes<M> {
    /// The box with corners `p0` (lowest) and `p1` (highest): the faces at
    /// `z = p1.z`, `z = p0.z`, `y = p1.y`, `y = p0.y`, `x = p0.x`, `x = p1.x`,
    /// in that order, each with a clone of `mat_ptr`.
    pub fn new(p0: &Vec3, p1: &Vec3, mat_ptr: M) -> (b: Boxes<M>)
        ensures
            b.box_min == *p0,
            b.box_max == *p1,
            b.sides.0.spans(p0.x, p1.x, p0.y, p1.y, p1.z),
            b.sides.1.spans(p0.x, p1.x, p0.y, p1.y, p0.z),
            b.sides.2.spans(p0.x, p1.x, p0.z, p1.z, p1.y),
            b.sides.3.spans(p0.x, p1.x, p0.z, p1.z, p0.y),
            b.sides.4.spans(p0.y, p1.y, p0.z, p1.z, p0.x),
            b.sides.5.spans(p0.y, p1.y, p0.z, p1.z, p1.x),
            cloned::<M>(mat_ptr, b.sides.0.mat_ptr),
            cloned::<M>(mat_ptr, b.sides.1.mat_ptr),
            cloned::<M>(mat_ptr, b.sides.2.mat_ptr),
            cloned::<M>(mat_ptr, b.sides.3.mat_ptr),
            cloned::<M>(mat_ptr, b.sides.4.mat_ptr),
            cloned::<M>(mat_ptr, b.sides.5.mat_ptr),
    {
        Boxes {
            box_min: *p0,
            box_max: *p1,
            sides: (
                Xyrect::new(p0.x, p1.x, p0.y, p1.y, p1.z, mat_ptr.clone()),
                Xyrect::new(p0.x, p1.x, p0.y, p1.y, p0.z, mat_ptr.clone()),
                Xzrect::new(p0.x, p1.x, p0.z, p1.z, p1.y, mat_ptr.clone()),
                Xzrect::new(p0.x, p1.x, p0.z, p1.z, p0.y, mat_ptr.clone()),
                Yzrect::new(p0.y, p1.y, p0.z, p1.z, p0.x, mat_ptr.clone()),
                Yzrect::new(p0.y, p1.y, p0.z, p1.z, p1.x, mat_ptr.clone()),
            ),
        }
    }
}

impl<M> Boxes<M> {
    /// The box around the six faces: from the lowest to the highest corner.
    pub fn bounding_box(&self) -> (b: AABB)
        ensures
            b._min == self.box_min,
            b._max == self.box_max,
    {
        AABB::new(&self.box_min, &self.box_max)
    }
}

} // verus!
