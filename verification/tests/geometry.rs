use raytracer::aabb::{getmax, getmin, surrounding_box, AABB};
use raytracer::hittable::{list_bounding_box, Boxes, Hlist, Xyrect, Xzrect, Yzrect};
use raytracer::render::job_rows;
use raytracer::material::reflect;
use raytracer::texture::{clamp_pixel, Solid};
use raytracer::vec3::Vec3;

fn bx(a: (i64, i64, i64), b: (i64, i64, i64)) -> AABB {
    AABB::new(&Vec3::new(a.0, a.1, a.2), &Vec3::new(b.0, b.1, b.2))
}

fn contains(outer: &AABB, inner: &AABB) -> bool {
    outer._min.x <= inner._min.x
        && outer._min.y <= inner._min.y
        && outer._min.z <= inner._min.z
        && inner._max.x <= outer._max.x
        && inner._max.y <= outer._max.y
        && inner._max.z <= outer._max.z
}

#[test]
fn aabb_new_keeps_corners() {
    let b = bx((1, 2, 3), (4, 5, 6));
    assert_eq!(b._min, Vec3::new(1, 2, 3));
    assert_eq!(b._max, Vec3::new(4, 5, 6));
}

#[test]
fn getmin_getmax_pick_the_right_value() {
    assert_eq!(getmin(3, 7), 3);
    assert_eq!(getmin(7, 3), 3);
    assert_eq!(getmin(-2, -2), -2);
    assert_eq!(getmax(3, 7), 7);
    assert_eq!(getmax(7, 3), 7);
    assert_eq!(getmax(i64::MIN, i64::MAX), i64::MAX);
}

#[test]
fn surrounding_box_exact_value() {
    let a = bx((0, 5, -3), (2, 6, 1));
    let b = bx((-1, 7, -4), (1, 9, 0));
    let s = surrounding_box(a, b);
    assert_eq!(s, bx((-1, 5, -4), (2, 9, 1)));
}

#[test]
fn surrounding_box_laws_on_values() {
    let a = bx((0, 5, -3), (2, 6, 1));
    let b = bx((-1, 7, -4), (1, 9, 0));
    let c = bx((10, -10, 3), (11, -9, 30));
    let ab = surrounding_box(a, b);
    assert!(contains(&ab, &a));
    assert!(contains(&ab, &b));
    assert_eq!(ab, surrounding_box(b, a));
    assert_eq!(surrounding_box(ab, c), surrounding_box(a, surrounding_box(b, c)));
    assert_eq!(surrounding_box(a, a), a);
    let big = bx((-100, -100, -100), (100, 100, 100));
    assert!(contains(&big, &ab));
}

#[test]
fn list_bounding_box_empty_is_none() {
    let boxes: Vec<Option<AABB>> = Vec::new();
    assert_eq!(list_bounding_box(&boxes), None);
}

#[test]
fn list_bounding_box_missing_box_is_none() {
    let boxes = vec![Some(bx((0, 0, 0), (1, 1, 1))), None, Some(bx((2, 2, 2), (3, 3, 3)))];
    assert_eq!(list_bounding_box(&boxes), None);
}

#[test]
fn list_bounding_box_surrounds_all() {
    let boxes = vec![
        Some(bx((0, 0, 0), (1, 1, 1))),
        Some(bx((-5, 2, 0), (0, 3, 4))),
        Some(bx((2, -2, 2), (3, 3, 3))),
    ];
    assert_eq!(list_bounding_box(&boxes), Some(bx((-5, -2, 0), (3, 3, 4))));
    let one = vec![Some(bx((7, 8, 9), (10, 11, 12)))];
    assert_eq!(list_bounding_box(&one), Some(bx((7, 8, 9), (10, 11, 12))));
}

#[test]
fn hlist_new_and_push() {
    let mut l: Hlist<u32> = Hlist::new(true);
    assert!(l.objects.is_empty());
    assert!(l.dark_flag);
    l.push(4);
    l.push(9);
    assert_eq!(l.objects, vec![4, 9]);
    assert!(l.dark_flag);
    let m: Hlist<u32> = Hlist::new(false);
    assert!(!m.dark_flag);
}

#[test]
fn vec3_operations() {
    let a = Vec3::new(1, -2, 3);
    let b = Vec3::new(4, 5, -6);
    assert_eq!(a.dot(&b), 4 - 10 - 18);
    assert_eq!(a.scale(3), Vec3::new(3, -6, 9));
    assert_eq!(a.sub(&b), Vec3::new(-3, -7, 9));
    assert_eq!(a.get(0), 1);
    assert_eq!(a.get(1), -2);
    assert_eq!(a.get(2), 3);
    assert_eq!(Vec3::zero(), Vec3::new(0, 0, 0));
}

#[test]
fn reflect_off_floor() {
    let v = Vec3::new(1, -1, 0);
    let n = Vec3::new(0, 1, 0);
    assert_eq!(reflect(v, n), Vec3::new(1, 1, 0));
}

#[test]
fn reflect_general_normal() {
    // v - n * (2 (v . n)) with v . n = 2 + 3 = 5
    let v = Vec3::new(2, 3, 4);
    let n = Vec3::new(1, 1, 0);
    assert_eq!(reflect(v, n), Vec3::new(-8, -7, 4));
}

#[test]
fn reflect_laws_on_values() {
    let v = Vec3::new(3, -7, 5);
    for n in [Vec3::new(1, 0, 0), Vec3::new(0, -1, 0), Vec3::new(0, 0, 1)] {
        let r = reflect(v, n);
        assert_eq!(reflect(r, n), v);
        assert_eq!(r.dot(&n), -v.dot(&n));
        assert_eq!(r.dot(&r), v.dot(&v));
    }
    // a tangent direction keeps its component, whatever the normal's length
    let n = Vec3::new(1, 1, 0);
    let t = Vec3::new(1, -1, 5);
    let r = reflect(v, n);
    assert_eq!(r.dot(&t), v.dot(&t));
}

#[test]
fn solid_texture_value() {
    let s = Solid::new((0.5f64, 0.25f64, 1.0f64));
    assert_eq!(s.value(), (0.5, 0.25, 1.0));
    let t = Solid::new(7u8);
    assert_eq!(t.value(), 7);
}

#[test]
fn clamp_pixel_edges() {
    assert_eq!(clamp_pixel(0, 10), 0);
    assert_eq!(clamp_pixel(9, 10), 9);
    assert_eq!(clamp_pixel(10, 10), 9);
    assert_eq!(clamp_pixel(u32::MAX, 1), 0);
}

#[test]
fn list_bounding_box_ignores_order_and_repeats() {
    let a = Some(bx((0, 0, 0), (1, 1, 1)));
    let b = Some(bx((-5, 2, 0), (0, 3, 4)));
    let c = Some(bx((2, -2, 2), (3, 3, 3)));
    let one = list_bounding_box(&vec![a, b, c]);
    assert_eq!(one, list_bounding_box(&vec![c, b, a]));
    assert_eq!(one, list_bounding_box(&vec![b, c, a, b, c]));
}

#[test]
fn rectangles_keep_their_span() {
    let r = Xyrect::new(1, 2, 3, 4, 5, "m");
    assert_eq!((r.x0, r.x1, r.y0, r.y1, r.k, r.mat_ptr), (1, 2, 3, 4, 5, "m"));
    let r = Xzrect::new(1, 2, 3, 4, 5, 7u8);
    assert_eq!((r.x0, r.x1, r.z0, r.z1, r.k, r.mat_ptr), (1, 2, 3, 4, 5, 7));
    let r = Yzrect::new(1, 2, 3, 4, 5, 'q');
    assert_eq!((r.y0, r.y1, r.z0, r.z1, r.k, r.mat_ptr), (1, 2, 3, 4, 5, 'q'));
}

#[test]
fn boxes_faces() {
    let p0 = Vec3::new(0, 1, 2);
    let p1 = Vec3::new(10, 11, 12);
    let b = Boxes::new(&p0, &p1, 9u32);
    assert_eq!(b.box_min, p0);
    assert_eq!(b.box_max, p1);
    let s = &b.sides;
    assert_eq!((s.0.x0, s.0.x1, s.0.y0, s.0.y1, s.0.k), (0, 10, 1, 11, 12));
    assert_eq!((s.1.x0, s.1.x1, s.1.y0, s.1.y1, s.1.k), (0, 10, 1, 11, 2));
    assert_eq!((s.2.x0, s.2.x1, s.2.z0, s.2.z1, s.2.k), (0, 10, 2, 12, 11));
    assert_eq!((s.3.x0, s.3.x1, s.3.z0, s.3.z1, s.3.k), (0, 10, 2, 12, 1));
    assert_eq!((s.4.y0, s.4.y1, s.4.z0, s.4.z1, s.4.k), (1, 11, 2, 12, 0));
    assert_eq!((s.5.y0, s.5.y1, s.5.z0, s.5.z1, s.5.k), (1, 11, 2, 12, 10));
    assert_eq!(
        [s.0.mat_ptr, s.1.mat_ptr, s.2.mat_ptr, s.3.mat_ptr, s.4.mat_ptr, s.5.mat_ptr],
        [9; 6]
    );
    assert_eq!(b.bounding_box(), AABB::new(&p0, &p1));
}

#[test]
fn job_rows_tile_the_image() {
    assert_eq!(job_rows(500, 0, 16), (0, 31));
    assert_eq!(job_rows(500, 15, 16), (468, 500));
    let mut next = 0;
    for i in 0..32 {
        let (a, b) = job_rows(500, i, 32);
        assert_eq!(a, next);
        assert!(a <= b);
        next = b;
    }
    assert_eq!(next, 500);
}
