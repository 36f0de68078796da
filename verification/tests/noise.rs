use raytracer::perlin::{
    perlin_generate_perm, permute, permute_with, shuffle_step, Perlin, POINT_COUNT,
};

fn is_perm(p: &[usize], n: usize) -> bool {
    let mut s = p.to_vec();
    s.sort();
    s == (0..n).collect::<Vec<usize>>()
}

#[test]
fn generated_perm_is_a_permutation() {
    for _ in 0..5 {
        let p = perlin_generate_perm();
        assert_eq!(p.len(), POINT_COUNT);
        assert!(is_perm(&p, POINT_COUNT));
    }
}

#[test]
fn permute_nonpositive_count_changes_nothing() {
    let v0: Vec<usize> = vec![5, 1, 9, 2];
    let mut v = v0.clone();
    permute(&mut v, 0);
    assert_eq!(v, v0);
    permute(&mut v, -3);
    assert_eq!(v, v0);
}

#[test]
fn permute_shuffles_only_the_prefix() {
    let v0: Vec<usize> = (100..120).collect();
    for _ in 0..10 {
        let mut v = v0.clone();
        permute(&mut v, 8);
        assert_eq!(&v[8..], &v0[8..]);
        let mut head = v[..8].to_vec();
        head.sort();
        assert_eq!(head, (100..108).collect::<Vec<usize>>());
    }
}

#[test]
fn permute_whole_vector_keeps_elements() {
    let v0: Vec<usize> = vec![3, 3, 7, 0, 7, 1];
    let mut v = v0.clone();
    permute(&mut v, 6);
    let mut a = v.clone();
    let mut b = v0.clone();
    a.sort();
    b.sort();
    assert_eq!(a, b);
}

#[test]
fn perlin_hash_stays_in_range() {
    let grads: Vec<i64> = (0..POINT_COUNT as i64).map(|g| g * 10).collect();
    let p = Perlin::new(grads);
    for (i, j, k) in [(0, 0, 0), (-1, -1, -1), (255, 256, 257), (i32::MIN, i32::MAX, 12345)] {
        assert!(p.hash(i, j, k) < POINT_COUNT);
    }
    // lattice points 256 apart on an axis hash alike
    assert_eq!(p.hash(3, 4, 5), p.hash(3 + 256, 4 - 512, 5 + 1024));
}

#[test]
fn perlin_lattice_gathers_corner_gradients() {
    let grads: Vec<i64> = (0..POINT_COUNT as i64).map(|g| 1000 + g).collect();
    let p = Perlin::new(grads);
    let (i, j, k) = (-7, 12, 300);
    let c = p.lattice(i, j, k);
    for di in 0..2 {
        for dj in 0..2 {
            for dk in 0..2 {
                let g = p.gradient_at(i + di as i32, j + dj as i32, k + dk as i32);
                assert_eq!(c[di][dj][dk], g);
                let s = p.hash(i + di as i32, j + dj as i32, k + dk as i32);
                assert_eq!(g, 1000 + s as i64);
            }
        }
    }
}

#[test]
fn shuffle_step_exchanges_with_the_drawn_entry() {
    let mut v: Vec<usize> = vec![10, 11, 12, 13, 14];
    // 17 % 4 == 1: entry 3 trades places with entry 1
    shuffle_step(&mut v, 3, 17);
    assert_eq!(v, vec![10, 13, 12, 11, 14]);
    // 8 % 5 == 3
    shuffle_step(&mut v, 4, 8);
    assert_eq!(v, vec![10, 13, 12, 14, 11]);
    // a draw that lands on the entry itself leaves the vector alone
    shuffle_step(&mut v, 2, 5);
    assert_eq!(v, vec![10, 13, 12, 14, 11]);
}

#[test]
fn perlin_clone_hashes_alike() {
    let grads: Vec<i64> = (0..POINT_COUNT as i64).collect();
    let p = Perlin::new(grads);
    let q = p.clone();
    for (i, j, k) in [(0, 0, 0), (5, -9, 77), (-300, 12, 1)] {
        assert_eq!(p.hash(i, j, k), q.hash(i, j, k));
        assert_eq!(p.gradient_at(i, j, k), q.gradient_at(i, j, k));
    }
}

#[test]
fn permute_with_follows_the_draws() {
    let mut v: Vec<usize> = vec![10, 11, 12, 13];
    permute_with(&mut v, 4, &vec![5, 2, 7, 0]);
    assert_eq!(v, vec![10, 13, 12, 11]);
    let mut w: Vec<usize> = vec![10, 11, 12, 13];
    permute_with(&mut w, 4, &vec![0, 0, 0, 0]);
    assert_eq!(w, vec![11, 12, 13, 10]);
    let mut x: Vec<usize> = vec![10, 11, 12, 13];
    permute_with(&mut x, 2, &vec![0, 0]);
    assert_eq!(x, vec![11, 10, 12, 13]);
    let mut y: Vec<usize> = vec![10, 11, 12, 13];
    permute_with(&mut y, -2, &vec![]);
    assert_eq!(y, vec![10, 11, 12, 13]);
}

#[test]
fn perlin_from_tables_hashes_exactly() {
    let grads: Vec<i64> = (0..POINT_COUNT as i64).map(|g| 1000 + g).collect();
    let id: Vec<usize> = (0..POINT_COUNT).collect();
    let rev: Vec<usize> = (0..POINT_COUNT).rev().collect();
    let p = Perlin::from_tables(grads, id.clone(), rev, id);
    assert_eq!(p.hash(1, 0, 2), 1 ^ 255 ^ 2);
    assert_eq!(p.hash(-1, 3, 300), 255 ^ 252 ^ 44);
    assert_eq!(p.gradient_at(1, 0, 2), 1000 + (1 ^ 255 ^ 2));
    let c = p.lattice(0, 0, 0);
    assert_eq!(c[0][0][0], 1000 + 255);
    assert_eq!(c[1][0][0], 1000 + (1 ^ 255));
    assert_eq!(c[0][1][0], 1000 + 254);
    assert_eq!(c[1][1][1], 1000 + (1 ^ 254 ^ 1));
}
