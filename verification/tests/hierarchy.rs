use raytracer::aabb::{surrounding_box, AABB};
use raytracer::bvh::{BvhChild, BvhNode};
use raytracer::bvh_tree::{BvhNode as TreeNode, BvhTree};
use raytracer::hittable::{list_bounding_box, Hlist};
use raytracer::primitive::{sort_range, Primitive};
use raytracer::vec3::Vec3;

fn prim(id: usize, lo: (i64, i64, i64), hi: (i64, i64, i64)) -> Primitive {
    Primitive::new(id, AABB::new(&Vec3::new(lo.0, lo.1, lo.2), &Vec3::new(hi.0, hi.1, hi.2)))
}

fn scene(n: usize) -> Vec<Primitive> {
    let mut v = Vec::new();
    for i in 0..n {
        let a = ((i * 37) % 23) as i64 - 11;
        let b = ((i * 17) % 29) as i64 - 14;
        let c = ((i * 53) % 31) as i64 - 15;
        v.push(prim(i, (a, b, c), (a + 2, b + 1 + (i % 3) as i64, c + 3)));
    }
    v
}

fn hull(v: &[Primitive]) -> AABB {
    let mut b = v[0].bbox;
    for p in &v[1..] {
        b = surrounding_box(b, p.bbox);
    }
    b
}

fn contains(outer: &AABB, inner: &AABB) -> bool {
    (0..3).all(|a| outer._min.get(a) <= inner._min.get(a) && inner._max.get(a) <= outer._max.get(a))
}

fn key(p: &Primitive, axis: usize) -> i64 {
    p.bbox._min.get(axis)
}

fn child_leaves(c: &BvhChild, out: &mut Vec<Primitive>) {
    match c {
        BvhChild::Object(p) => out.push(*p),
        BvhChild::Node(n) => node_leaves(n, out),
    }
}

fn node_leaves(n: &BvhNode, out: &mut Vec<Primitive>) {
    child_leaves(&n.left, out);
    child_leaves(&n.right, out);
}

fn child_box(c: &BvhChild) -> AABB {
    match c {
        BvhChild::Object(p) => p.bbox,
        BvhChild::Node(n) => n._box,
    }
}

fn check_node(n: &BvhNode) {
    assert_eq!(n._box, surrounding_box(child_box(&n.left), child_box(&n.right)));
    let mut l = Vec::new();
    let mut r = Vec::new();
    child_leaves(&n.left, &mut l);
    child_leaves(&n.right, &mut r);
    let split = (0..3).any(|axis| {
        l.iter().all(|a| r.iter().all(|b| key(a, axis) <= key(b, axis)))
    });
    assert!(split);
    for p in l.iter().chain(r.iter()) {
        assert!(contains(&n._box, &p.bbox));
    }
    if let BvhChild::Node(c) = &n.left {
        check_node(c);
    }
    if let BvhChild::Node(c) = &n.right {
        check_node(c);
    }
}

fn tree_leaves(t: &BvhTree, out: &mut Vec<Primitive>) {
    match t {
        BvhTree::Object(p) => out.push(*p),
        BvhTree::Node(n) => {
            tree_leaves(&n.left, out);
            tree_leaves(&n.right, out);
        }
    }
}

fn check_tree(t: &BvhTree, dark: bool) -> usize {
    match t {
        BvhTree::Object(_) => 1,
        BvhTree::Node(n) => {
            assert_eq!(n.if_dark, dark);
            assert_eq!(
                n._box,
                surrounding_box(n.left.bounding_box(), n.right.bounding_box())
            );
            let nl = check_tree(&n.left, dark);
            let nr = check_tree(&n.right, dark);
            assert_eq!(nl, (nl + nr) / 2);
            let mut l = Vec::new();
            let mut r = Vec::new();
            tree_leaves(&n.left, &mut l);
            tree_leaves(&n.right, &mut r);
            let split = (0..3).any(|axis| {
                l.iter().all(|a| r.iter().all(|b| key(a, axis) <= key(b, axis)))
            });
            assert!(split);
            nl + nr
        }
    }
}

#[test]
fn sort_range_sorts_only_the_range() {
    let v0 = scene(12);
    let mut v = v0.clone();
    sort_range(&mut v, 3, 9, 1);
    assert_eq!(&v[..3], &v0[..3]);
    assert_eq!(&v[9..], &v0[9..]);
    for i in 3..8 {
        assert!(key(&v[i], 1) <= key(&v[i + 1], 1));
    }
    let mut a: Vec<usize> = v[3..9].iter().map(|p| p.id).collect();
    let mut b: Vec<usize> = v0[3..9].iter().map(|p| p.id).collect();
    a.sort();
    b.sort();
    assert_eq!(a, b);
}

#[test]
fn sort_range_is_stable() {
    let v0 = vec![
        prim(0, (5, 0, 0), (6, 1, 1)),
        prim(1, (1, 0, 0), (2, 1, 1)),
        prim(2, (5, 0, 0), (7, 1, 1)),
        prim(3, (1, 0, 0), (3, 1, 1)),
    ];
    let mut v = v0.clone();
    sort_range(&mut v, 0, 4, 0);
    let ids: Vec<usize> = v.iter().map(|p| p.id).collect();
    assert_eq!(ids, vec![1, 3, 0, 2]);
}

#[test]
fn bvh_single_object_fills_both_sides() {
    let v = vec![prim(7, (1, 2, 3), (4, 5, 6))];
    let n = BvhNode::new(v.clone(), 0, 1);
    assert!(matches!(n.left, BvhChild::Object(p) if p == v[0]));
    assert!(matches!(n.right, BvhChild::Object(p) if p == v[0]));
    assert_eq!(n._box, v[0].bbox);
}

#[test]
fn bvh_two_objects_ordered() {
    let v = vec![prim(0, (5, 5, 5), (6, 6, 6)), prim(1, (1, 1, 1), (2, 2, 2))];
    let n = BvhNode::new(v.clone(), 0, 2);
    // the lower box comes first on every axis
    assert!(matches!(n.left, BvhChild::Object(p) if p.id == 1));
    assert!(matches!(n.right, BvhChild::Object(p) if p.id == 0));
    assert_eq!(n._box, surrounding_box(v[0].bbox, v[1].bbox));
}

#[test]
fn bvh_over_a_range() {
    let v = scene(40);
    let n = BvhNode::new(v.clone(), 5, 33);
    check_node(&n);
    let mut leaves = Vec::new();
    node_leaves(&n, &mut leaves);
    for p in &leaves {
        assert!(v[5..33].contains(p));
    }
    for p in &v[5..33] {
        assert!(leaves.contains(p));
    }
    assert_eq!(n._box, hull(&v[5..33]));
}

#[test]
fn bvh_new_list_covers_the_list() {
    let mut list = Hlist::new(false);
    for p in scene(25) {
        list.push(p);
    }
    let all = list.objects.clone();
    let n = BvhNode::new_list(list);
    check_node(&n);
    let mut leaves = Vec::new();
    node_leaves(&n, &mut leaves);
    for p in &all {
        assert!(leaves.contains(p));
    }
    assert_eq!(n.bounding_box(), hull(&all));
}

#[test]
fn bvh_tree_single_object_is_the_object() {
    let v = vec![prim(3, (0, 0, 0), (1, 1, 1))];
    let t = TreeNode::initial(v.clone(), true);
    assert!(matches!(t, BvhTree::Object(p) if p == v[0]));
}

#[test]
fn bvh_tree_halves_and_keeps_objects() {
    let v = scene(37);
    let t = TreeNode::initial(v.clone(), true);
    assert_eq!(check_tree(&t, true), 37);
    let mut leaves = Vec::new();
    tree_leaves(&t, &mut leaves);
    let mut a: Vec<usize> = leaves.iter().map(|p| p.id).collect();
    a.sort();
    assert_eq!(a, (0..37).collect::<Vec<usize>>());
    assert_eq!(t.bounding_box(), hull(&v));
}

#[test]
fn bvh_tree_from_list_carries_flag() {
    let mut list = Hlist::new(false);
    for p in scene(9) {
        list.push(p);
    }
    let all = list.objects.clone();
    let t = TreeNode::new(list);
    assert_eq!(check_tree(&t, false), 9);
    assert_eq!(t.bounding_box(), hull(&all));
    if let BvhTree::Node(n) = &t {
        let mut l = Vec::new();
        tree_leaves(&n.left, &mut l);
        assert_eq!(l.len(), 4);
    } else {
        panic!("nine objects make a node");
    }
}

#[test]
fn bvh_box_is_the_list_box() {
    let v = scene(17);
    let boxes: Vec<Option<AABB>> = v.iter().map(|p| Some(p.bbox)).collect();
    let n = BvhNode::new(v.clone(), 0, v.len());
    assert_eq!(Some(n._box), list_bounding_box(&boxes));
    let t = TreeNode::initial(v, false);
    assert_eq!(Some(t.bounding_box()), list_bounding_box(&boxes));
}

#[test]
fn bvh_two_tied_objects_put_the_second_first() {
    let v = vec![prim(0, (1, 1, 1), (2, 2, 2)), prim(1, (1, 1, 1), (3, 3, 3))];
    let n = BvhNode::new(v, 0, 2);
    assert!(matches!(n.left, BvhChild::Object(p) if p.id == 1));
    assert!(matches!(n.right, BvhChild::Object(p) if p.id == 0));
}

#[test]
fn bvh_tree_ties_keep_input_order() {
    let v = vec![
        prim(0, (1, 1, 1), (2, 2, 2)),
        prim(1, (1, 1, 1), (3, 3, 3)),
        prim(2, (1, 1, 1), (4, 4, 4)),
    ];
    let t = TreeNode::initial(v, true);
    let mut leaves = Vec::new();
    tree_leaves(&t, &mut leaves);
    let ids: Vec<usize> = leaves.iter().map(|p| p.id).collect();
    assert_eq!(ids, vec![0, 1, 2]);
}

#[test]
fn bvh_counts_repeated_objects() {
    let a = prim(4, (0, 0, 0), (1, 1, 1));
    let b = prim(5, (3, 3, 3), (4, 4, 4));
    let v = vec![a, a, b];
    let n = BvhNode::new(v, 0, 3);
    // one object on the left, a node over the other two on the right
    assert!(matches!(n.left, BvhChild::Node(_)) && matches!(n.right, BvhChild::Node(_)));
    let mut leaves = Vec::new();
    node_leaves(&n, &mut leaves);
    // the single-object node repeats its object on both sides
    assert_eq!(leaves.len(), 4);
    let na = leaves.iter().filter(|p| **p == a).count();
    let nb = leaves.iter().filter(|p| **p == b).count();
    assert!((na, nb) == (2, 2) || (na, nb) == (3, 1));
}

#[test]
fn bvh_with_given_axes() {
    let v = vec![
        prim(0, (5, 1, 9), (6, 2, 10)),
        prim(1, (1, 8, 3), (2, 9, 4)),
        prim(2, (3, 2, 7), (4, 3, 8)),
        prim(3, (4, 6, 1), (5, 7, 2)),
        prim(4, (2, 4, 5), (3, 5, 6)),
    ];
    let n = BvhNode::new_with_axes(v.clone(), 0, 5, &vec![0, 1, 2, 0, 1]);
    check_node(&n);
    let mut leaves = Vec::new();
    node_leaves(&n, &mut leaves);
    let ids: Vec<usize> = leaves.iter().map(|p| p.id).collect();
    assert_eq!(ids, vec![4, 1, 3, 3, 0, 2]);
    assert_eq!(n._box, hull(&v));
}

#[test]
fn bvh_tree_with_given_axes() {
    let v = vec![
        prim(0, (3, 0, 0), (4, 1, 1)),
        prim(1, (1, 5, 0), (2, 6, 1)),
        prim(2, (2, 4, 0), (3, 5, 1)),
    ];
    let t = TreeNode::initial_with_axes(v.clone(), false, &vec![0, 1, 1, 0, 0]);
    assert_eq!(check_tree(&t, false), 3);
    let mut leaves = Vec::new();
    tree_leaves(&t, &mut leaves);
    let ids: Vec<usize> = leaves.iter().map(|p| p.id).collect();
    assert_eq!(ids, vec![1, 0, 2]);
    assert_eq!(t.bounding_box(), hull(&v));
}
