use vstd::prelude::*;

use crate::rng::random_usize;

verus! {

broadcast use vstd::seq_lib::group_to_multiset_ensures;

/// The number of lattice gradients, and the length of each permutation.
pub const POINT_COUNT: usize = 256;

/// The sequence `0, 1, ..., n - 1`.
pub open spec fn index_range(n: nat) -> Seq<usize> {
    Seq::new(n, |i: int| i as usize)
}

/// `s` holds each of `0, 1, ..., n - 1` exactly once.
pub open spec fn is_permutation_of_range(s: Seq<usize>, n: nat) -> bool {
    s.to_multiset() == index_range(n).to_multiset()
}

/// How many leading entries `permute` shuffles for a count of `n`.
pub open spec fn shuffled_len(n: i32) -> int {
    if n > 0 {
        n as int
    } else {
        0
    }
}

/// A permutation of `0..n` has length `n`, holds only values below `n`, and
/// holds no value twice.
pub proof fn lemma_permutation_of_range(s: Seq<usize>, n: nat)
    requires
        is_permutation_of_range(s, n),
        n <= usize::MAX,
    ensures
        s.len() == n,
        forall|k: int| 0 <= k < s.len() ==> #[trigger] s[k] < n,
        s.no_duplicates(),
{
    let r = index_range(n);
    assert(s.to_multiset().len() == r.to_multiset().len());
    assert forall|k: int| 0 <= k < s.len() implies #[trigger] s[k] < n by {
        assert(s.to_multiset().count(s[k]) > 0);
        assert(r.contains(s[k]));
        let i = choose|i: int| 0 <= i < r.len() && r[i] == s[k];
    }
    assert forall|a: int, b: int| 0 <= a < r.len() && 0 <= b < r.len() && a != b implies r[a]
        != r[b] by {
        assert(r[a] == a && r[b] == b);
    }
    assert(r.no_duplicates());
    r.lemma_multiset_has_no_duplicates();
    s.lemma_multiset_has_no_duplicates_conv();
}

/// The Fisher-Yates shuffle of the first `i` entries of `s` driven by
/// `draws`: entry `i - 1` is exchanged with entry `draws[0] % i`, then the
/// first `i - 1` entries are shuffled with the remaining draws.
pub open spec fn fisher_yates(s: Seq<usize>, i: int, draws: Seq<usize>) -> Seq<usize>
    decreases i,
{
    if i <= 0 || draws.len() == 0 {
        s
    } else {
        fisher_yates(
            crate::primitive::swapped(s, i - 1, draws[0] as int % i),
            i - 1,
            draws.drop_first(),
        )
    }
}

/// Draws under which every step of the shuffle exchanges an entry with
/// itself: for the `m` entries shuffled, the draws `m - 1, m - 2, ..., 0`.
pub open spec fn staying_draws(m: int) -> Seq<usize> {
    Seq::new(m as nat, |j: int| (m - 1 - j) as usize)
}

/// Under draws that keep each entry in place, the shuffle changes nothing.
pub proof fn lemma_shuffle_staying_draws(s: Seq<usize>, m: int)
    requires
        0 <= m <= s.len(),
        s.len() <= usize::MAX,
    ensures
        fisher_yates(s, m, staying_draws(m)) == s,
    decreases m,
{
    if m > 0 {
        let d = staying_draws(m);
        assert(d[0] == m - 1);
        vstd::arithmetic::div_mod::lemma_small_mod((m - 1) as nat, m as nat);
        assert(crate::primitive::swapped(s, m - 1, m - 1) =~= s);
        assert(d.drop_first() =~= staying_draws(m - 1));
        lemma_shuffle_staying_draws(s, m - 1);
    }
}

/// Every step of the shuffle can send its entry to any position at or before
/// it: with first draw `k < n` (and the remaining draws keeping their entries
/// in place), shuffling the first `n` entries exchanges entry `n - 1` with
/// entry `k` and nothing else. So `permute_with` moves entry `n - 1` to
/// position `k` exactly when its first draw is `k` (modulo `n`).
pub proof fn lemma_shuffle_first_step_reaches(s: Seq<usize>, n: int, k: usize)
    requires
        k < n <= s.len(),
        s.len() <= usize::MAX,
    ensures
        fisher_yates(s, n, seq![k] + staying_draws(n - 1)) == crate::primitive::swapped(
            s,
            n - 1,
            k as int,
        ),
{
    let d = seq![k] + staying_draws(n - 1);
    assert(d[0] == k);
    vstd::arithmetic::div_mod::lemma_small_mod(k as nat, n as nat);
    assert(d.drop_first() =~= staying_draws(n - 1));
    let t = crate::primitive::swapped(s, n - 1, k as int);
    lemma_shuffle_staying_draws(t, n - 1);
}

/// Only the remainder of a draw by the number of entries still to shuffle
/// matters: a first draw `d` and a first draw `d + n` shuffle alike.
pub proof fn lemma_shuffle_draw_periodic(s: Seq<usize>, n: int, d: usize, rest: Seq<usize>)
    requires
        1 <= n,
        d + n <= usize::MAX,
    ensures
        fisher_yates(s, n, seq![(d + n) as usize] + rest) == fisher_yates(s, n, seq![d] + rest),
{
    let a = seq![(d + n) as usize] + rest;
    let b = seq![d] + rest;
    assert(a[0] == (d + n) as usize);
    assert(b[0] == d);
    assert((d + n) % n == d as int % n) by {
        vstd::arithmetic::div_mod::lemma_mod_add_multiples_vanish(d as int, n);
    }
    assert(a.drop_first() =~= rest);
    assert(b.drop_first() =~= rest);
}

/// A shuffle step exchanges entry `i` with entry `draw % (i + 1)`: with a
/// first draw `k`, the shuffled entry `n - 1` ends where draw `k` sends it,
/// the position `k % n` (the remaining draws keeping their entries).
pub proof fn lemma_shuffle_first_step_target(s: Seq<usize>, n: int, d: usize)
    requires
        1 <= n <= s.len(),
        s.len() <= usize::MAX,
    ensures
        fisher_yates(s, n, seq![d] + staying_draws(n - 1)) == crate::primitive::swapped(
            s,
            n - 1,
            d as int % n,
        ),
{
    let a = seq![d] + staying_draws(n - 1);
    assert(a[0] == d);
    assert(a.drop_first() =~= staying_draws(n - 1));
    let t = crate::primitive::swapped(s, n - 1, d as int % n);
    lemma_shuffle_staying_draws(t, n - 1);
}

/// One step of the shuffle: exchanges entry `i` with entry `r % (i + 1)`,
/// for a draw `r`.
pub fn shuffle_step(p: &mut Vec<usize>, i: usize, r: usize)
    requires
        i < old(p).len(),
    ensures
        final(p)@ == crate::primitive::swapped(old(p)@, i as int, r as int % (i as int + 1)),
{
    let target = r % (i + 1);
    let a = p[i];
    let b = p[target];
    p.set(i, b);
    p.set(target, a);
}

/// Shuffles the first `n` entries of `p` with the given draws (Fisher-Yates:
/// for `i` from the last of them down to the first, entry `i` is exchanged
/// with entry `draws[n - 1 - i] % (i + 1)`). Nothing happens for `n <= 0`.
pub fn permute_with(p: &mut Vec<usize>, n: i32, draws: &Vec<usize>)
    requires
        n <= old(p).len(),
        draws@.len() == shuffled_len(n),
    ensures
        final(p)@ == fisher_yates(old(p)@, shuffled_len(n), draws@),
        final(p).len() == old(p).len(),
        final(p)@.subrange(0, shuffled_len(n)).to_multiset() == old(p)@.subrange(
            0,
            shuffled_len(n),
        ).to_multiset(),
        forall|k: int|
            shuffled_len(n) <= k < old(p).len() ==> #[trigger] final(p)@[k] == old(p)@[k],
{
    let ghost orig = p@;
    let ghost m = shuffled_len(n);
    let mut i: i32 = if n > 0 {
        n
    } else {
        0
    };
    let mut k: usize = 0;
    assert(draws@.subrange(0, m) =~= draws@);
    while i > 0
        invariant
            0 <= i <= m <= p.len(),
            m == shuffled_len(n),
            draws@.len() == m,
            k == m - i,
            p.len() == orig.len(),
            fisher_yates(orig, m, draws@) == fisher_yates(p@, i as int, draws@.subrange(k as int, m)),
            p@.subrange(0, m).to_multiset() == orig.subrange(0, m).to_multiset(),
            forall|j: int| m <= j < orig.len() ==> #[trigger] p@[j] == orig[j],
        decreases i,
    {
        let ghost before = p@;
        let ghost rest = draws@.subrange(k as int, m);
        i = i - 1;
        let iu = i as usize;
        let r = draws[k];
        shuffle_step(p, iu, r);
        k = k + 1;
        proof {
            assert(rest[0] == r);
            assert(rest.drop_first() =~= draws@.subrange(k as int, m));
            let t = r as int % (iu as int + 1);
            assert(p@.subrange(0, m) =~= crate::primitive::swapped(
                before.subrange(0, m),
                iu as int,
                t,
            ));
            crate::primitive::lemma_swapped_multiset(before.subrange(0, m), iu as int, t);
        }
    }
    assert(draws@.subrange(k as int, m).len() == 0);
}

/// Shuffles the first `n` entries of `p` at random: draws one random value
/// per entry and shuffles with them (see `permute_with`). Nothing happens for
/// `n <= 0`.
pub fn permute(p: &mut Vec<usize>, n: i32)
    requires
        n <= old(p).len(),
    ensures
        final(p).len() == old(p).len(),
        exists|draws: Seq<usize>|
            draws.len() == shuffled_len(n) && final(p)@ == fisher_yates(
                old(p)@,
                shuffled_len(n),
                draws,
            ),
        final(p)@.subrange(0, shuffled_len(n)).to_multiset() == old(p)@.subrange(
            0,
            shuffled_len(n),
        ).to_multiset(),
        forall|k: int|
            shuffled_len(n) <= k < old(p).len() ==> #[trigger] final(p)@[k] == old(p)@[k],
{
    let count: usize = if n > 0 {
        n as usize
    } else {
        0
    };
    let mut draws: Vec<usize> = Vec::new();
    while draws.len() < count
        invariant
            draws@.len() <= count,
            count == shuffled_len(n),
        decreases count - draws@.len(),
    {
        draws.push(random_usize());
    }
    permute_with(p, n, &draws);
}

/// A random permutation of `0, 1, ..., POINT_COUNT - 1`.
pub fn perlin_generate_perm() -> (p: Vec<usize>)
    ensures
        p@.len() == POINT_COUNT,
        is_permutation_of_range(p@, POINT_COUNT as nat),
        exists|draws: Seq<usize>|
            draws.len() == POINT_COUNT && p@ == fisher_yates(
                index_range(POINT_COUNT as nat),
                POINT_COUNT as int,
                draws,
            ),
{
    let mut p: Vec<usize> = Vec::new();
    let mut i: usize = 0;
    while i < POINT_COUNT
        invariant
            i <= POINT_COUNT,
            p@ == index_range(i as nat),
        decreases POINT_COUNT - i,
    {
        p.push(i);
        i = i + 1;
        assert(p@ =~= index_range(i as nat));
    }
    let ghost before = p@;
    permute(&mut p, 256);
    assert(p@.subrange(0, 256) =~= p@);
    assert(before.subrange(0, 256) =~= before);
    p
}

/// The lattice cell coordinate `x` folded into `0..POINT_COUNT` (its low eight bits).
pub open spec fn wrap(x: i32) -> int {
    (x & 255i32) as int
}

/// Gradient noise over an integer lattice: a gradient per lattice slot, and
/// one random permutation of the slots per axis, which hash a lattice point
/// to a slot.
pub struct Perlin<G> {
    ranvec: Vec<G>,
    perm_x: Vec<usize>,
    perm_y: Vec<usize>,
    perm_z: Vec<usize>,
}

impl<G> Perlin<G> {
    #[verifier::type_invariant]
    spec fn inv(self) -> bool {
        &&& self.ranvec@.len() == POINT_COUNT
        &&& is_permutation_of_range(self.perm_x@, POINT_COUNT as nat)
        &&& is_permutation_of_range(self.perm_y@, POINT_COUNT as nat)
        &&& is_permutation_of_range(self.perm_z@, POINT_COUNT as nat)
    }

    /// The gradients, one per lattice slot.
    pub closed spec fn gradients(self) -> Seq<G> {
        self.ranvec@
    }

    /// The permutation for `axis` (0 is x, 1 is y, anything else z).
    pub closed spec fn perm(self, axis: int) -> Seq<usize> {
        if axis == 0 {
            self.perm_x@
        } else if axis == 1 {
            self.perm_y@
        } else {
            self.perm_z@
        }
    }

    /// The slot that lattice point `(i, j, k)` hashes to.
    pub open spec fn slot(self, i: i32, j: i32, k: i32) -> int {
        (self.perm(0)[wrap(i)] ^ self.perm(1)[wrap(j)] ^ self.perm(2)[wrap(k)]) as int
    }

    /// Noise over the given gradients, one per slot, and the given
    /// permutations of the slots for the three axes.
    pub fn from_tables(
        ranvec: Vec<G>,
        perm_x: Vec<usize>,
        perm_y: Vec<usize>,
        perm_z: Vec<usize>,
    ) -> (p: Perlin<G>)
        requires
            ranvec@.len() == POINT_COUNT,
            is_permutation_of_range(perm_x@, POINT_COUNT as nat),
            is_permutation_of_range(perm_y@, POINT_COUNT as nat),
            is_permutation_of_range(perm_z@, POINT_COUNT as nat),
        ensures
            p.gradients() == ranvec@,
            p.perm(0) == perm_x@,
            p.perm(1) == perm_y@,
            p.perm(2) == perm_z@,
    {
        Perlin { ranvec, perm_x, perm_y, perm_z }
    }

    /// Noise over the given gradients, one per slot, with three fresh random
    /// permutations of the slots, each a Fisher-Yates shuffle of the slots.
    pub fn new(ranvec: Vec<G>) -> (p: Perlin<G>)
        requires
            ranvec@.len() == POINT_COUNT,
        ensures
            p.gradients() == ranvec@,
            forall|a: int|
                0 <= a < 3 ==> is_permutation_of_range(#[trigger] p.perm(a), POINT_COUNT as nat),
            forall|a: int|
                0 <= a < 3 ==> exists|d: Seq<usize>|
                    d.len() == POINT_COUNT && #[trigger] p.perm(a) == fisher_yates(
                        index_range(POINT_COUNT as nat),
                        POINT_COUNT as int,
                        d,
                    ),
    {
        let perm_x = perlin_generate_perm();
        let perm_y = perlin_generate_perm();
        let perm_z = perlin_generate_perm();
        let p = Perlin::from_tables(ranvec, perm_x, perm_y, perm_z);
        assert forall|a: int| 0 <= a < 3 implies is_permutation_of_range(
            #[trigger] p.perm(a),
            POINT_COUNT as nat,
        ) by {}
        p
    }

    /// The slot that lattice point `(i, j, k)` hashes to; always a valid slot.
    pub fn hash(&self, i: i32, j: i32, k: i32) -> (s: usize)
        ensures
            s == self.slot(i, j, k),
            s < POINT_COUNT,
    {
        proof {
            use_type_invariant(self);
            lemma_permutation_of_range(self.perm_x@, POINT_COUNT as nat);
            lemma_permutation_of_range(self.perm_y@, POINT_COUNT as nat);
            lemma_permutation_of_range(self.perm_z@, POINT_COUNT as nat);
            assert(0 <= i & 255 <= 255) by (bit_vector);
            assert(0 <= j & 255 <= 255) by (bit_vector);
            assert(0 <= k & 255 <= 255) by (bit_vector);
        }
        let a = self.perm_x[(i & 255) as usize];
        let b = self.perm_y[(j & 255) as usize];
        let c = self.perm_z[(k & 255) as usize];
        proof {
            assert(a < 256 && b < 256 && c < 256 ==> (a ^ b ^ c) < 256) by (bit_vector);
        }
        a ^ b ^ c
    }
}

impl<G: Clone> Clone for Perlin<G> {
    /// A copy with the same permutations and a clone of each gradient.
    fn clone(&self) -> (p: Self)
        ensures
            p.perm(0) == self.perm(0),
            p.perm(1) == self.perm(1),
            p.perm(2) == self.perm(2),
            p.gradients().len() == self.gradients().len(),
            forall|k: int|
                0 <= k < self.gradients().len() ==> cloned::<G>(
                    self.gradients()[k],
                    #[trigger] p.gradients()[k],
                ),
    {
        proof {
            use_type_invariant(self);
        }
        let ranvec = self.ranvec.clone();
        let perm_x = self.perm_x.clone();
        let perm_y = self.perm_y.clone();
        let perm_z = self.perm_z.clone();
        proof {
            assert(perm_x@ =~= self.perm_x@);
            assert(perm_y@ =~= self.perm_y@);
            assert(perm_z@ =~= self.perm_z@);
        }
        Perlin { ranvec, perm_x, perm_y, perm_z }
    }
}

/// Lattice coordinates that differ by `POINT_COUNT` fold to the same slot.
pub proof fn lemma_wrap_periodic(x: i32)
    requires
        x <= i32::MAX - 256,
    ensures
        wrap((x + 256) as i32) == wrap(x),
{
    let y = (x + 256) as i32;
    assert(y == x + 256);
    assert(y == x + 256 ==> y & 255 == x & 255) by (bit_vector);
}

/// The noise lattice repeats every `POINT_COUNT` cells along each axis.
pub proof fn lemma_slot_periodic<G>(p: Perlin<G>, i: i32, j: i32, k: i32)
    requires
        i <= i32::MAX - 256,
        j <= i32::MAX - 256,
        k <= i32::MAX - 256,
    ensures
        p.slot((i + 256) as i32, j, k) == p.slot(i, j, k),
        p.slot(i, (j + 256) as i32, k) == p.slot(i, j, k),
        p.slot(i, j, (k + 256) as i32) == p.slot(i, j, k),
{
    lemma_wrap_periodic(i);
    lemma_wrap_periodic(j);
    lemma_wrap_periodic(k);
}

/// The slot of lattice point `(i, j, k)` is `perm_x[i & 255] ^ perm_y[j & 255]
/// ^ perm_z[k & 255]`: each coordinate is cut to its low eight bits and looked up
/// in the permutation of its own axis.
pub proof fn lemma_slot_lookup<G>(p: Perlin<G>, i: i32, j: i32, k: i32)
    ensures
        p.slot(i, j, k) == (p.perm(0)[(i & 255i32) as int] ^ p.perm(1)[(j & 255i32) as int]
            ^ p.perm(2)[(k & 255i32) as int]) as int,
{
}

/// A coordinate reaches the slot through its low eight bits alone, and all of
/// them: two lattice points that differ in one coordinate hash to the same slot
/// exactly when that coordinate agrees in its low eight bits.
pub proof fn lemma_slot_separates<G>(p: Perlin<G>, i: i32, j: i32, k: i32, m: i32)
    requires
        is_permutation_of_range(p.perm(0), POINT_COUNT as nat),
        is_permutation_of_range(p.perm(1), POINT_COUNT as nat),
        is_permutation_of_range(p.perm(2), POINT_COUNT as nat),
    ensures
        (p.slot(m, j, k) == p.slot(i, j, k)) <==> (m & 255i32 == i & 255i32),
        (p.slot(i, m, k) == p.slot(i, j, k)) <==> (m & 255i32 == j & 255i32),
        (p.slot(i, j, m) == p.slot(i, j, k)) <==> (m & 255i32 == k & 255i32),
{
    lemma_permutation_of_range(p.perm(0), POINT_COUNT as nat);
    lemma_permutation_of_range(p.perm(1), POINT_COUNT as nat);
    lemma_permutation_of_range(p.perm(2), POINT_COUNT as nat);
    assert(0 <= i & 255i32 <= 255) by (bit_vector);
    assert(0 <= j & 255i32 <= 255) by (bit_vector);
    assert(0 <= k & 255i32 <= 255) by (bit_vector);
    assert(0 <= m & 255i32 <= 255) by (bit_vector);
    let a = p.perm(0)[wrap(i)];
    let b = p.perm(1)[wrap(j)];
    let c = p.perm(2)[wrap(k)];
    let am = p.perm(0)[wrap(m)];
    let bm = p.perm(1)[wrap(m)];
    let cm = p.perm(2)[wrap(m)];
    assert(am != a ==> am ^ b ^ c != a ^ b ^ c) by (bit_vector);
    assert(bm != b ==> a ^ bm ^ c != a ^ b ^ c) by (bit_vector);
    assert(cm != c ==> a ^ b ^ cm != a ^ b ^ c) by (bit_vector);
    if wrap(m) != wrap(i) {
        assert(am != a);
    }
    if wrap(m) != wrap(j) {
        assert(bm != b);
    }
    if wrap(m) != wrap(k) {
        assert(cm != c);
    }
}

impl<G: Copy> Perlin<G> {
    /// The gradient of lattice point `(i, j, k)`.
    pub fn gradient_at(&self, i: i32, j: i32, k: i32) -> (g: G)
        ensures
            g == self.gradients()[self.slot(i, j, k)],
    {
        proof {
            use_type_invariant(self);
        }
        let s = self.hash(i, j, k);
        self.ranvec[s]
    }

    /// The gradients at the eight corners of the lattice cell whose lowest
    /// corner is `(i, j, k)`: entry `[di][dj][dk]` belongs to corner
    /// `(i + di, j + dj, k + dk)`.
    pub fn lattice(&self, i: i32, j: i32, k: i32) -> (c: [[[G; 2]; 2]; 2])
        requires
            i < i32::MAX,
            j < i32::MAX,
            k < i32::MAX,
        ensures
            forall|di: int, dj: int, dk: int|
                0 <= di < 2 && 0 <= dj < 2 && 0 <= dk < 2 ==> #[trigger] c@[di]@[dj]@[dk]
                    == self.gradients()[self.slot(
                    (i + di) as i32,
                    (j + dj) as i32,
                    (k + dk) as i32,
                )],
    {
        let i1 = i + 1;
        let j1 = j + 1;
        let k1 = k + 1;
        let c = [
            [
                [self.gradient_at(i, j, k), self.gradient_at(i, j, k1)],
                [self.gradient_at(i, j1, k), self.gradient_at(i, j1, k1)],
            ],
            [
                [self.gradient_at(i1, j, k), self.gradient_at(i1, j, k1)],
                [self.gradient_at(i1, j1, k), self.gradient_at(i1, j1, k1)],
            ],
        ];
        c
    }
}

} // verus!
