use vstd::prelude::*;

verus! {

/// True when `x` is representable as an `i64`.
pub open spec fn fits_i64(x: int) -> bool {
    i64::MIN <= x <= i64::MAX
}

/// The dot product of two integer triples.
pub open spec fn dot3(a: (int, int, int), b: (int, int, int)) -> int {
    a.0 * b.0 + a.1 * b.1 + a.2 * b.2
}

/// A three-component vector with integer coordinates.
#[derive(Clone, Copy, Debug, PartialEq, Eq, Structural)]
pub struct Vec3 {
    pub x: i64,
    pub y: i64,
    pub z: i64,
}

impl View for Vec3 {
    type V = (int, int, int);

    open spec fn view(&self) -> (int, int, int) {
        (self.x as int, self.y as int, self.z as int)
    }
}

impl Vec3 {
    /// Component `axis` (0 is x, 1 is y, anything else z).
    pub open spec fn coord(self, axis: int) -> i64 {
        if axis == 0 {
            self.x
        } else if axis == 1 {
            self.y
        } else {
            self.z
        }
    }

    /// True when every step of `self.dot(o)` stays within `i64`.
    pub open spec fn dot_fits(self, o: Vec3) -> bool {
        &&& fits_i64(self.x * o.x)
        &&& fits_i64(self.y * o.y)
        &&& fits_i64(self.z * o.z)
        &&& fits_i64(self.x * o.x + self.y * o.y)
        &&& fits_i64(dot3(self@, o@))
    }

    /// The vector `(x, y, z)`.
    pub fn new(x: i64, y: i64, z: i64) -> (v: Vec3)
        ensures
            v.x == x,
            v.y == y,
            v.z == z,
    {
        Vec3 { x, y, z }
    }

    /// The zero vector.
    pub fn zero() -> (v: Vec3)
        ensures
            v@ == (0int, 0int, 0int),
    {
        Vec3 { x: 0, y: 0, z: 0 }
    }

    /// Component `axis` of the vector; the index operator of the vector type.
    pub fn get(&self, axis: usize) -> (c: i64)
        requires
            axis < 3,
        ensures
            c == self.coord(axis as int),
    {
        if axis == 0 {
            self.x
        } else if axis == 1 {
            self.y
        } else {
            self.z
        }
    }

    /// The dot product.
    pub fn dot(&self, o: &Vec3) -> (d: i64)
        requires
            self.dot_fits(*o),
        ensures
            d == dot3(self@, o@),
    {
        self.x * o.x + self.y * o.y + self.z * o.z
    }

    /// Every component multiplied by `k`.
    pub fn scale(&self, k: i64) -> (v: Vec3)
        requires
            fits_i64(self.x * k),
            fits_i64(self.y * k),
            fits_i64(self.z * k),
        ensures
            v@ == (self.x * k, self.y * k, self.z * k),
    {
        Vec3 { x: self.x * k, y: self.y * k, z: self.z * k }
    }

    /// Component-wise difference.
    pub fn sub(&self, o: &Vec3) -> (v: Vec3)
        requires
            fits_i64(self.x - o.x),
            fits_i64(self.y - o.y),
            fits_i64(self.z - o.z),
        ensures
            v@ == (self.x - o.x, self.y - o.y, self.z - o.z),
    {
        Vec3 { x: self.x - o.x, y: self.y - o.y, z: self.z - o.z }
    }
}

} // verus!
