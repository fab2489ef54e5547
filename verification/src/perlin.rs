//! Gradient noise on the grid.

use vstd::prelude::*;
use vstd::seq_lib::to_multiset_update;
use crate::scalar::{
    abs_spec, floor_div, floor_div_spec, fmul, fmul_spec, lemma_floor_div_bounds, sat_add, sat_sub,
    saturate, UNIT,
};
use crate::utils::{fabs, fdot, fdot_spec, random_int_range, random_vec3, unit_vec};
use crate::vec3::Vec3;

verus! {

/// How many gradients there are, and how long each permutation is.
pub const PERLIN_POINT_COUNT: usize = 256;

/// Random gradients and three random permutations that pick one of them
/// for every corner of every cell of space.
pub struct Perlin {
    pub randvec: Vec<Vec3>,
    pub perm_x: Vec<i32>,
    pub perm_y: Vec<i32>,
    pub perm_z: Vec<i32>,
}

/// The numbers from 0 up to, but not including, `n`, in order.
pub open spec fn counting(n: int) -> Seq<i32> {
    Seq::new(n as nat, |i: int| i as i32)
}

/// Every entry is the number of a gradient.
pub open spec fn in_table(p: Seq<i32>) -> bool {
    forall|i: int| 0 <= i < p.len() ==> 0 <= #[trigger] p[i] < PERLIN_POINT_COUNT
}

/// The sequence in which the entries at `i` and `j` have changed places.
pub open spec fn swapped(s: Seq<i32>, i: int, j: int) -> Seq<i32> {
    s.update(i, s[j]).update(j, s[i])
}

/// What the first `n` entries of `s` become when, from the last of them
/// down, each changes places with its target: `targets[k]` is the target of
/// the entry at `n − 1 − k`.
pub open spec fn shuffled(s: Seq<i32>, n: int, targets: Seq<int>) -> Seq<i32>
    decreases targets.len(),
{
    if targets.len() == 0 {
        s
    } else {
        swapped(shuffled(s, n, targets.drop_last()), n - targets.len(), targets.last())
    }
}

/// There is a target for each of the first `n` entries but the first, and
/// no target stands after the entry that it is the target of.
pub open spec fn targets_fit(n: int, targets: Seq<int>) -> bool {
    &&& targets.len() == n - 1
    &&& forall|k: int| 0 <= k < targets.len() ==> 0 <= #[trigger] targets[k] <= n - 1 - k
}

/// The cell, counted along one axis, in which the coordinate `c` lies.
pub open spec fn cell_of(c: int) -> int {
    floor_div_spec(c, UNIT as int)
}

/// How far into its cell the coordinate `c` lies, from 0 up to one unit.
pub open spec fn within_cell(c: int) -> int {
    c - cell_of(c) * UNIT
}

/// The number of a cell as a place in a permutation.
pub open spec fn wrap_spec(c: int) -> int {
    c % (PERLIN_POINT_COUNT as int)
}

/// One corner's share of the noise at the point that lies `u`, `v` and `w`
/// into its cell: the gradient `g` of the corner `n` times the way from the
/// corner to the point, weighted by how near the point is on each axis.
pub open spec fn corner_share(g: Vec3, u: int, v: int, w: int, n: int) -> int {
    let i = n / 4;
    let j = (n / 2) % 2;
    let k = n % 2;
    let weight = Vec3 {
        x: saturate(u - i * UNIT) as i64,
        y: saturate(v - j * UNIT) as i64,
        z: saturate(w - k * UNIT) as i64,
    };
    let near_x = if i == 1 {
        u
    } else {
        saturate(UNIT - u)
    };
    let near_y = if j == 1 {
        v
    } else {
        saturate(UNIT - v)
    };
    let near_z = if k == 1 {
        w
    } else {
        saturate(UNIT - w)
    };
    fmul_spec(fmul_spec(fmul_spec(fdot_spec(g, weight), near_x), near_y), near_z)
}

/// The shares of the first `n` corners, added up.
pub open spec fn interp_spec(c: Seq<Vec3>, u: int, v: int, w: int, n: int) -> int
    decreases n,
{
    if n <= 0 {
        0
    } else {
        saturate(interp_spec(c, u, v, w, n - 1) + corner_share(c[n - 1], u, v, w, n - 1))
    }
}

impl Perlin {
    /// There is a gradient for every number, and the permutations name
    /// nothing but numbers of gradients.
    pub open spec fn wf(&self) -> bool {
        &&& self.randvec@.len() == PERLIN_POINT_COUNT
        &&& self.perm_x@.len() == PERLIN_POINT_COUNT
        &&& self.perm_y@.len() == PERLIN_POINT_COUNT
        &&& self.perm_z@.len() == PERLIN_POINT_COUNT
        &&& in_table(self.perm_x@)
        &&& in_table(self.perm_y@)
        &&& in_table(self.perm_z@)
    }

    /// The number of the gradient at the corner of the cell `(i, j, k)`.
    pub open spec fn gradient_at(&self, i: int, j: int, k: int) -> int {
        ((self.perm_x@[wrap_spec(i)] as u32) ^ (self.perm_y@[wrap_spec(j)] as u32) ^ (
        self.perm_z@[wrap_spec(k)] as u32)) as int
    }

    /// The gradients at the eight corners of the cell of `p`.
    pub open spec fn corners(&self, p: Vec3) -> Seq<Vec3> {
        Seq::new(
            8,
            |n: int|
                self.randvec@[self.gradient_at(
                    cell_of(p.x as int) + n / 4,
                    cell_of(p.y as int) + (n / 2) % 2,
                    cell_of(p.z as int) + n % 2,
                )],
        )
    }

    /// The noise at `p`: the shares of the eight corners of its cell.
    pub open spec fn noise_spec(&self, p: Vec3) -> int {
        interp_spec(
            self.corners(p),
            within_cell(p.x as int),
            within_cell(p.y as int),
            within_cell(p.z as int),
            8,
        )
    }

    /// The first `n` octaves of the noise at `p`, each at twice the
    /// frequency and half the weight of the one before.
    pub open spec fn turb_sum(&self, p: Vec3, n: int) -> (int, int, Vec3)
        decreases n,
    {
        if n <= 0 {
            (0, UNIT as int, p)
        } else {
            let (accum, weight, at) = self.turb_sum(p, n - 1);
            (
                saturate(accum + fmul_spec(weight, self.noise_spec(at))),
                fmul_spec(weight, UNIT / 2),
                at.scale_spec(2 * UNIT),
            )
        }
    }

    /// Each permutation holds every number of a gradient once, and no
    /// gradient is longer than one unit on any axis.
    pub open spec fn is_fresh(&self) -> bool {
        &&& self.perm_x@.to_multiset() == counting(PERLIN_POINT_COUNT as int).to_multiset()
        &&& self.perm_y@.to_multiset() == counting(PERLIN_POINT_COUNT as int).to_multiset()
        &&& self.perm_z@.to_multiset() == counting(PERLIN_POINT_COUNT as int).to_multiset()
        &&& forall|i: int|
            0 <= i < self.randvec@.len() ==> (#[trigger] self.randvec@[i]).within(UNIT as int)
    }

    /// Fresh gradients and permutations from the thread's generator: each
    /// gradient is the direction of a random point of the cube of side 2,
    /// and each permutation a shuffle of the numbers of the gradients.
    pub fn new() -> (r: Self)
        ensures
            r.wf(),
            r.is_fresh(),
    {
        let mut randvec: Vec<Vec3> = Vec::new();
        let mut i: usize = 0;
        while i < PERLIN_POINT_COUNT
            invariant
                i <= PERLIN_POINT_COUNT,
                randvec@.len() == i,
                forall|k: int| 0 <= k < i ==> (#[trigger] randvec@[k]).within(UNIT as int),
            decreases PERLIN_POINT_COUNT - i,
        {
            randvec.push(unit_vec(random_vec3()));
            i = i + 1;
        }
        Self {
            randvec,
            perm_x: Self::generate_perm(),
            perm_y: Self::generate_perm(),
            perm_z: Self::generate_perm(),
        }
    }

    /// A random order of the numbers of the gradients: each of them once.
    pub fn generate_perm() -> (p: Vec<i32>)
        ensures
            p@.len() == PERLIN_POINT_COUNT,
            p@.to_multiset() == counting(PERLIN_POINT_COUNT as int).to_multiset(),
            in_table(p@),
    {
        let mut p: Vec<i32> = Vec::new();
        let mut i: usize = 0;
        while i < PERLIN_POINT_COUNT
            invariant
                i <= PERLIN_POINT_COUNT,
                p@ == counting(i as int),
            decreases PERLIN_POINT_COUNT - i,
        {
            p.push(i as i32);
            assert(p@ =~= counting(i + 1));
            i = i + 1;
        }
        let shuffled = Self::random_permutation(p, PERLIN_POINT_COUNT);
        proof {
            lemma_same_members(counting(PERLIN_POINT_COUNT as int), shuffled@);
        }
        shuffled
    }

    /// Lets the entries at `i` and `j` change places.
    pub fn exchange(p: Vec<i32>, i: usize, j: usize) -> (r: Vec<i32>)
        requires
            i < p@.len(),
            j < p@.len(),
        ensures
            r@ == swapped(p@, i as int, j as int),
            r@.to_multiset() == p@.to_multiset(),
    {
        let mut p = p;
        let ghost s = p@;
        let tmp: i32 = p[i];
        let other: i32 = p[j];
        p[i] = other;
        p[j] = tmp;
        proof {
            lemma_swap_keeps_members(s, i as int, j as int);
        }
        p
    }

    /// Shuffles the first `n` entries of `p`: from the last of them down,
    /// each changes places with a random one that is not after it. The
    /// result is [`shuffled`] for the targets that were drawn; it holds
    /// what `p` held, and the entries from `n` on stay where they are.
    pub fn random_permutation(p: Vec<i32>, n: usize) -> (r: Vec<i32>)
        requires
            1 <= n <= p@.len(),
            n <= i32::MAX,
        ensures
            exists|targets: Seq<int>| #[trigger]
                targets_fit(n as int, targets) && r@ == shuffled(p@, n as int, targets),
            r@.len() == p@.len(),
            r@.to_multiset() == p@.to_multiset(),
            forall|i: int| n <= i < p@.len() ==> r@[i] == p@[i],
    {
        let ghost before = p@;
        let ghost mut targets: Seq<int> = Seq::empty();
        let mut p = p;
        let mut i: usize = n - 1;
        while i >= 1
            invariant
                i < n <= p@.len(),
                n <= i32::MAX,
                p@.len() == before.len(),
                p@.to_multiset() == before.to_multiset(),
                forall|k: int| n <= k < p@.len() ==> p@[k] == before[k],
                targets.len() == n - 1 - i,
                forall|k: int| 0 <= k < targets.len() ==> 0 <= #[trigger] targets[k] <= n - 1 - k,
                p@ == shuffled(before, n as int, targets),
            decreases i,
        {
            let target: usize = random_int_range(0, i as i32) as usize;
            proof {
                let longer = targets.push(target as int);
                assert(longer.drop_last() =~= targets);
                targets = longer;
            }
            p = Self::exchange(p, i, target);
            i = i - 1;
        }
        assert(targets_fit(n as int, targets) && p@ == shuffled(before, n as int, targets));
        p
    }

    /// The noise at `p`, see [`Perlin::noise_spec`].
    pub fn noise(&self, p: Vec3) -> (r: i64)
        requires
            self.wf(),
        ensures
            r == self.noise_spec(p),
    {
        let (i, u): (i64, i64) = split_cell(p.x);
        let (j, v): (i64, i64) = split_cell(p.y);
        let (k, w): (i64, i64) = split_cell(p.z);
        let mut c: Vec<Vec3> = Vec::new();
        let mut n: u8 = 0;
        while n < 8
            invariant
                n <= 8,
                self.wf(),
                i == cell_of(p.x as int),
                j == cell_of(p.y as int),
                k == cell_of(p.z as int),
                c@.len() == n,
                forall|m: int| 0 <= m < n ==> #[trigger] c@[m] == self.corners(p)[m],
            decreases 8 - n,
        {
            let x: usize = wrap(i as i128 + (n / 4) as i128);
            let y: usize = wrap(j as i128 + ((n / 2) % 2) as i128);
            let z: usize = wrap(k as i128 + (n % 2) as i128);
            let a: u32 = self.perm_x[x] as u32;
            let b: u32 = self.perm_y[y] as u32;
            let d: u32 = self.perm_z[z] as u32;
            assert((a ^ b ^ d) < 256) by (bit_vector)
                requires
                    a < 256,
                    b < 256,
                    d < 256,
            ;
            c.push(self.randvec[(a ^ b ^ d) as usize]);
            n = n + 1;
        }
        assert(c@ =~= self.corners(p));
        Self::trilinear_interp(&c, u, v, w)
    }

    /// Adds up the shares of the eight corners, see [`interp_spec`].
    pub fn trilinear_interp(c: &Vec<Vec3>, u: i64, v: i64, w: i64) -> (r: i64)
        requires
            c@.len() == 8,
        ensures
            r == interp_spec(c@, u as int, v as int, w as int, 8),
    {
        let mut accum: i64 = 0;
        let mut n: u8 = 0;
        while n < 8
            invariant
                n <= 8,
                c@.len() == 8,
                accum == interp_spec(c@, u as int, v as int, w as int, n as int),
            decreases 8 - n,
        {
            let i: i64 = (n / 4) as i64;
            let j: i64 = ((n / 2) % 2) as i64;
            let k: i64 = (n % 2) as i64;
            let weight_vec = Vec3::new(
                sat_sub(u, i * UNIT),
                sat_sub(v, j * UNIT),
                sat_sub(w, k * UNIT),
            );
            let near_x: i64 = if i == 1 {
                u
            } else {
                sat_sub(UNIT, u)
            };
            let near_y: i64 = if j == 1 {
                v
            } else {
                sat_sub(UNIT, v)
            };
            let near_z: i64 = if k == 1 {
                w
            } else {
                sat_sub(UNIT, w)
            };
            let share: i64 = fmul(fmul(fmul(fdot(c[n as usize], weight_vec), near_x), near_y), near_z);
            accum = sat_add(accum, share);
            n = n + 1;
        }
        accum
    }

    /// Turbulence: the magnitude of `depth` octaves of noise.
    pub fn turb(&self, p: Vec3, depth: usize) -> (r: i64)
        requires
            self.wf(),
        ensures
            r == saturate(abs_spec(self.turb_sum(p, depth as int).0)),
    {
        let mut accum: i64 = 0;
        let mut weight: i64 = UNIT;
        let mut at: Vec3 = p;
        let mut i: usize = 0;
        while i < depth
            invariant
                i <= depth,
                self.wf(),
                (accum as int, weight as int, at) == self.turb_sum(p, i as int),
            decreases depth - i,
        {
            accum = sat_add(accum, fmul(weight, self.noise(at)));
            weight = fmul(weight, UNIT / 2);
            at = at * (2 * UNIT);
            i = i + 1;
        }
        fabs(accum)
    }
}

/// The cell of a coordinate and how far into the cell it lies.
pub fn split_cell(c: i64) -> (r: (i64, i64))
    ensures
        r.0 == cell_of(c as int),
        r.1 == within_cell(c as int),
        0 <= r.1 < UNIT,
{
    proof {
        lemma_floor_div_bounds(c as int, UNIT as int);
    }
    let cell: i64 = floor_div(c as i128, UNIT as i128) as i64;
    assert(cell * 100_000 <= c < (cell + 1) * 100_000);
    (cell, (c as i128 - (cell as i128) * 100_000) as i64)
}

/// Computes [`wrap_spec`].
pub fn wrap(c: i128) -> (r: usize)
    requires
        -0x1_0000_0000_0000_0000 <= c <= 0x1_0000_0000_0000_0000,
    ensures
        r == wrap_spec(c as int),
        r < PERLIN_POINT_COUNT,
{
    let m: i128 = c % 256;
    if m < 0 {
        (m + 256) as usize
    } else {
        m as usize
    }
}

/// A sequence in which two entries have changed places has the members
/// that it had.
pub proof fn lemma_swap_keeps_members(s: Seq<i32>, i: int, j: int)
    requires
        0 <= i < s.len(),
        0 <= j < s.len(),
    ensures
        s.update(i, s[j]).update(j, s[i]).to_multiset() == s.to_multiset(),
{
    broadcast use vstd::multiset::group_multiset_axioms;

    let s1 = s.update(i, s[j]);
    let s2 = s1.update(j, s[i]);
    to_multiset_update(s, i, s[j]);
    to_multiset_update(s1, j, s[i]);
    assert(s1[j] == s[j]);
    assert(s.contains(s[i]));
    assert(s1.contains(s1[j]));
    vstd::seq_lib::to_multiset_contains(s, s[i]);
    vstd::seq_lib::to_multiset_contains(s1, s1[j]);
    assert forall|x: i32| s2.to_multiset().count(x) == s.to_multiset().count(x) by {
        let m = s.to_multiset();
        let m1 = s1.to_multiset();
        assert(m1 == m.insert(s[j]).remove(s[i]));
        assert(s2.to_multiset() == m1.insert(s[i]).remove(s[j]));
    }
    assert(s2.to_multiset() =~= s.to_multiset());
}

/// Two sequences with the same members have members from the same table.
pub proof fn lemma_same_members(a: Seq<i32>, b: Seq<i32>)
    requires
        a.to_multiset() == b.to_multiset(),
        in_table(a),
    ensures
        in_table(b),
{
    assert forall|i: int| 0 <= i < b.len() implies 0 <= #[trigger] b[i] < PERLIN_POINT_COUNT by {
        vstd::seq_lib::to_multiset_contains(b, b[i]);
        vstd::seq_lib::to_multiset_contains(a, b[i]);
        assert(b.contains(b[i]));
        let k = choose|k: int| 0 <= k < a.len() && a[k] == b[i];
        assert(0 <= a[k] < PERLIN_POINT_COUNT);
    }
}

} // verus!
