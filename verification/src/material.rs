use vstd::prelude::*;

use crate::vec3::{dot3, fits_i64, Vec3};

verus! {

/// `v` mirrored in the plane through the origin with normal `n`:
/// `v - n * (2 (v . n))`.
pub open spec fn reflect3(v: (int, int, int), n: (int, int, int)) -> (int, int, int) {
    let d = dot3(v, n);
    (v.0 - n.0 * (2 * d), v.1 - n.1 * (2 * d), v.2 - n.2 * (2 * d))
}

/// Every step of `reflect(v, n)` stays within `i64`.
pub open spec fn reflect_fits(v: Vec3, n: Vec3) -> bool {
    let d = dot3(v@, n@);
    &&& v.dot_fits(n)
    &&& fits_i64(2 * d)
    &&& fits_i64(n.x * (2 * d))
    &&& fits_i64(n.y * (2 * d))
    &&& fits_i64(n.z * (2 * d))
    &&& fits_i64(v.x - n.x * (2 * d))
    &&& fits_i64(v.y - n.y * (2 * d))
    &&& fits_i64(v.z - n.z * (2 * d))
}

/// The direction `v` reflected off a surface with normal `n`.
pub fn reflect(v: Vec3, n: Vec3) -> (r: Vec3)
    requires
        reflect_fits(v, n),
    ensures
        r@ == reflect3(v@, n@),
{
    let d = v.dot(&n);
    let twice = 2 * d;
    let along = n.scale(twice);
    v.sub(&along)
}

/// The dot product is symmetric.
proof fn lemma_dot_symmetric(a: (int, int, int), b: (int, int, int))
    ensures
        dot3(a, b) == dot3(b, a),
{
    let (a0, a1, a2) = a;
    let (b0, b1, b2) = b;
    assert(a0 * b0 + a1 * b1 + a2 * b2 == b0 * a0 + b1 * a1 + b2 * a2) by (nonlinear_arith);
}

/// One component of `lemma_dot_sub_scaled`.
proof fn lemma_sub_scaled_times(a: int, b: int, c: int, t: int)
    ensures
        (a - b * c) * t == a * t - c * (b * t),
{
    assert((a - b * c) * t == a * t - c * (b * t)) by (nonlinear_arith);
}

/// The dot product is linear in its first argument: `(v - c n) . t = v . t - c (n . t)`.
proof fn lemma_dot_sub_scaled(v: (int, int, int), n: (int, int, int), c: int, t: (int, int, int))
    ensures
        dot3((v.0 - n.0 * c, v.1 - n.1 * c, v.2 - n.2 * c), t) == dot3(v, t) - c * dot3(n, t),
{
    lemma_sub_scaled_times(v.0, n.0, c, t.0);
    lemma_sub_scaled_times(v.1, n.1, c, t.1);
    lemma_sub_scaled_times(v.2, n.2, c, t.2);
    assert(c * (n.0 * t.0) + c * (n.1 * t.1) + c * (n.2 * t.2) == c * (n.0 * t.0 + n.1 * t.1 + n.2
        * t.2)) by (nonlinear_arith);
}

/// Reflecting twice off the same unit normal gives the direction back.
pub proof fn lemma_reflect_involution(v: (int, int, int), n: (int, int, int))
    requires
        dot3(n, n) == 1,
    ensures
        reflect3(reflect3(v, n), n) == v,
{
    lemma_reflect_flips_normal(v, n);
    let d = dot3(v, n);
    let r = reflect3(v, n);
    assert(dot3(r, n) == -d);
    assert(n.0 * (2 * d) + n.0 * (2 * -d) == 0) by (nonlinear_arith);
    assert(n.1 * (2 * d) + n.1 * (2 * -d) == 0) by (nonlinear_arith);
    assert(n.2 * (2 * d) + n.2 * (2 * -d) == 0) by (nonlinear_arith);
}

/// Reflecting off `-n` is the same as reflecting off `n`, whatever the
/// normal's length.
pub proof fn lemma_reflect_negated_normal(v: (int, int, int), n: (int, int, int))
    ensures
        reflect3(v, (-n.0, -n.1, -n.2)) == reflect3(v, n),
{
    let m = (-n.0, -n.1, -n.2);
    let d = dot3(v, n);
    assert(dot3(v, m) == -d) by (nonlinear_arith)
        requires
            d == v.0 * n.0 + v.1 * n.1 + v.2 * n.2,
            m == (-n.0, -n.1, -n.2),
    ;
    assert(-n.0 * (2 * -d) == n.0 * (2 * d)) by (nonlinear_arith);
    assert(-n.1 * (2 * -d) == n.1 * (2 * d)) by (nonlinear_arith);
    assert(-n.2 * (2 * -d) == n.2 * (2 * d)) by (nonlinear_arith);
}

/// Off a unit normal, the reflected direction has the opposite component along
/// the normal.
pub proof fn lemma_reflect_flips_normal(v: (int, int, int), n: (int, int, int))
    requires
        dot3(n, n) == 1,
    ensures
        dot3(reflect3(v, n), n) == -dot3(v, n),
{
    let d = dot3(v, n);
    lemma_dot_sub_scaled(v, n, 2 * d, n);
}

/// Reflection keeps every component orthogonal to the normal.
pub proof fn lemma_reflect_keeps_tangent(
    v: (int, int, int),
    n: (int, int, int),
    t: (int, int, int),
)
    requires
        dot3(n, t) == 0,
    ensures
        dot3(reflect3(v, n), t) == dot3(v, t),
{
    let d = dot3(v, n);
    lemma_dot_sub_scaled(v, n, 2 * d, t);
}

/// Off a unit normal, reflection keeps the squared length.
pub proof fn lemma_reflect_keeps_length(v: (int, int, int), n: (int, int, int))
    requires
        dot3(n, n) == 1,
    ensures
        dot3(reflect3(v, n), reflect3(v, n)) == dot3(v, v),
{
    let d = dot3(v, n);
    let r = reflect3(v, n);
    lemma_dot_sub_scaled(v, n, 2 * d, r);
    lemma_dot_symmetric(v, r);
    lemma_dot_symmetric(n, r);
    lemma_dot_sub_scaled(v, n, 2 * d, v);
    lemma_dot_symmetric(n, v);
    lemma_reflect_flips_normal(v, n);
    assert(dot3(r, r) == dot3(v, v) - 2 * d * d + 2 * d * d) by (nonlinear_arith)
        requires
            dot3(r, r) == dot3(v, r) - 2 * d * dot3(n, r),
            dot3(v, r) == dot3(v, v) - 2 * d * dot3(n, v),
            dot3(n, v) == d,
            dot3(n, r) == -d,
    ;
}

} // verus!
