//! Closed ranges of scalars.

use vstd::prelude::*;
use crate::scalar::{
    ext_add, ext_add_spec, ext_sub, ext_sub_spec, halved, halved_spec, INFINITY, max_spec,
    min_spec, NEG_INFINITY,
};
use crate::utils::{fmax, fmin};

verus! {

/// The closed range `[tmin, tmax]`. It holds no scalar at all when
/// `tmin > tmax`; the canonical empty range is `[+∞, −∞]`.
#[derive(Clone, Copy, Debug, PartialEq, Eq, Structural)]
pub struct Interval {
    pub tmin: i64,
    pub tmax: i64,
}

impl Interval {
    /// The scalars of the range, as a set of integers.
    pub open spec fn view(&self) -> Set<int> {
        Set::new(|t: int| self.tmin <= t <= self.tmax)
    }

    /// The range holds at least one scalar.
    pub open spec fn is_proper(&self) -> bool {
        self.tmin <= self.tmax
    }

    /// The range holds a finite scalar.
    pub open spec fn is_solid(&self) -> bool {
        self.tmin <= self.tmax && self.tmin < INFINITY && self.tmax > NEG_INFINITY
    }

    pub open spec fn size_spec(&self) -> int {
        ext_sub_spec(self.tmax as int, self.tmin as int)
    }

    pub open spec fn shift_spec(&self, offset: int) -> Interval {
        Interval {
            tmin: ext_add_spec(self.tmin as int, offset) as i64,
            tmax: ext_add_spec(self.tmax as int, offset) as i64,
        }
    }

    pub open spec fn clamp_spec(&self, t: int) -> int {
        if t > self.tmax {
            self.tmax as int
        } else if t < self.tmin {
            self.tmin as int
        } else {
            t
        }
    }

    /// Half of `delta`, rounded towards zero.
    pub open spec fn padding(delta: int) -> int {
        halved_spec(delta)
    }

    pub open spec fn expand_spec(&self, delta: int) -> Interval {
        Interval {
            tmin: ext_add_spec(self.tmin as int, -Self::padding(delta)) as i64,
            tmax: ext_add_spec(self.tmax as int, Self::padding(delta)) as i64,
        }
    }

    pub open spec fn empty_spec() -> Interval {
        Interval { tmin: INFINITY, tmax: NEG_INFINITY }
    }

    pub open spec fn universe_spec() -> Interval {
        Interval { tmin: NEG_INFINITY, tmax: INFINITY }
    }

    pub open spec fn union_spec(a: Interval, b: Interval) -> Interval {
        Interval {
            tmin: min_spec(a.tmin as int, b.tmin as int) as i64,
            tmax: max_spec(a.tmax as int, b.tmax as int) as i64,
        }
    }

    pub open spec fn overlap_spec(a: Interval, b: Interval) -> Interval {
        Interval {
            tmin: max_spec(a.tmin as int, b.tmin as int) as i64,
            tmax: min_spec(a.tmax as int, b.tmax as int) as i64,
        }
    }

    pub fn new(tmin: i64, tmax: i64) -> (r: Self)
        ensures
            r.tmin == tmin,
            r.tmax == tmax,
    {
        Self { tmin, tmax }
    }

    /// The smallest range that holds both `a` and `b`.
    pub fn new_union(a: Interval, b: Interval) -> (r: Interval)
        ensures
            r == Self::union_spec(a, b),
            a@.subset_of(r@),
            b@.subset_of(r@),
    {
        Interval { tmin: fmin(a.tmin, b.tmin), tmax: fmax(a.tmax, b.tmax) }
    }

    /// The scalars that `a` and `b` share.
    pub fn new_overlap(a: Interval, b: Interval) -> (r: Interval)
        ensures
            r == Self::overlap_spec(a, b),
            r@ =~= a@.intersect(b@),
    {
        Interval { tmin: fmax(a.tmin, b.tmin), tmax: fmin(a.tmax, b.tmax) }
    }

    /// The canonical empty range.
    pub fn default() -> (r: Interval)
        ensures
            r == Self::empty_spec(),
            r@ =~= Set::<int>::empty(),
    {
        Interval { tmin: INFINITY, tmax: NEG_INFINITY }
    }

    /// The range of all scalars.
    pub fn universe() -> (r: Interval)
        ensures
            r == Self::universe_spec(),
    {
        Interval { tmin: NEG_INFINITY, tmax: INFINITY }
    }

    /// Width of the range as an extended scalar: `+∞` for the universe,
    /// `−∞` for the canonical empty range.
    pub fn size(&self) -> (r: i64)
        ensures
            r == self.size_spec(),
    {
        ext_sub(self.tmax, self.tmin)
    }

    /// The range moved by `offset`. An infinite bound stays where it is.
    pub fn shift(&self, offset: i64) -> (r: Interval)
        ensures
            r == self.shift_spec(offset as int),
    {
        Interval { tmin: ext_add(self.tmin, offset), tmax: ext_add(self.tmax, offset) }
    }

    pub fn contains(&self, t: i64) -> (r: bool)
        ensures
            r == (self.tmin <= t && t <= self.tmax),
            r == self@.contains(t as int),
    {
        self.tmin <= t && t <= self.tmax
    }

    pub fn surrounds(&self, t: i64) -> (r: bool)
        ensures
            r == (self.tmin < t && t < self.tmax),
    {
        self.tmin < t && t < self.tmax
    }

    /// The scalar of the range nearest to `t`, for a proper range.
    pub fn clamp(&self, t: i64) -> (r: i64)
        ensures
            r == self.clamp_spec(t as int),
            self.is_proper() ==> self@.contains(r as int),
            self@.contains(t as int) ==> r == t,
    {
        if t > self.tmax {
            self.tmax
        } else if t < self.tmin {
            self.tmin
        } else {
            t
        }
    }

    /// Widens the range by `delta` in all, half of it on each side. An
    /// infinite bound stays where it is.
    pub fn expand(&self, delta: i64) -> (r: Interval)
        ensures
            r == self.expand_spec(delta as int),
    {
        let padding: i64 = halved(delta);
        Interval { tmin: ext_add(self.tmin, -padding), tmax: ext_add(self.tmax, padding) }
    }
}

} // verus!
