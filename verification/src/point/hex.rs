//! An axial hexagonal coordinate (q, r) with the derived cube coordinate
//! `s = -q - r`, hex distance, and the six-neighbor ring.

use vstd::prelude::*;

verus! {

use crate::num::{div_trunc, iabs, idiv, irem, rem_trunc};

/// An axial hexagonal coordinate.
#[derive(Clone, Copy, PartialEq, Eq, Structural, Hash, Debug)]
pub struct HexPoint {
    pub q: isize,
    pub r: isize,
}

/// The hex length of the axial offset (q, r): half the sum of the three
/// cube coordinate magnitudes.
pub open spec fn hex_len(q: int, r: int) -> int {
    (iabs(q) + iabs(r) + iabs(-q - r)) / 2
}

/// The hex distance between two axial coordinates: the length of their
/// difference.
pub open spec fn hex_dist(q1: int, r1: int, q2: int, r2: int) -> int {
    hex_len(q1 - q2, r1 - r2)
}

/// The six neighbors of `p` in fixed ring order: (+1,0), (+1,-1), (0,-1),
/// (-1,0), (-1,+1), (0,+1).
pub open spec fn hex_ring(p: HexPoint) -> Seq<HexPoint>
    recommends
        isize::MIN < p.q < isize::MAX,
        isize::MIN < p.r < isize::MAX,
{
    seq![
        HexPoint { q: (p.q + 1) as isize, r: p.r },
        HexPoint { q: (p.q + 1) as isize, r: (p.r - 1) as isize },
        HexPoint { q: p.q, r: (p.r - 1) as isize },
        HexPoint { q: (p.q - 1) as isize, r: p.r },
        HexPoint { q: (p.q - 1) as isize, r: (p.r + 1) as isize },
        HexPoint { q: p.q, r: (p.r + 1) as isize },
    ]
}

impl HexPoint {
    pub fn new(q: isize, r: isize) -> (p: Self)
        ensures
            p == (HexPoint { q, r }),
    {
        HexPoint { q, r }
    }

    /// The axial q component.
    pub fn q(&self) -> (v: isize)
        ensures
            v == self.q,
    {
        self.q
    }

    /// The axial r component.
    pub fn r(&self) -> (v: isize)
        ensures
            v == self.r,
    {
        self.r
    }

    /// The derived cube coordinate `s = -q - r`.
    pub fn s(&self) -> (v: isize)
        requires
            self.q != isize::MIN,
            isize::MIN <= -self.q - self.r <= isize::MAX,
        ensures
            v == -self.q - self.r,
    {
        -self.q - self.r
    }

    /// The hex length: `(|q| + |r| + |s|) / 2`.
    pub fn length(self) -> (l: isize)
        requires
            self.q != isize::MIN,
            self.r != isize::MIN,
            isize::MIN < -self.q - self.r <= isize::MAX,
            iabs(self.q as int) + iabs(self.r as int) + iabs(-self.q - self.r) <= isize::MAX,
        ensures
            l == hex_len(self.q as int, self.r as int),
    {
        let s = -self.q - self.r;
        let aq = if self.q < 0 {
            -self.q
        } else {
            self.q
        };
        let ar = if self.r < 0 {
            -self.r
        } else {
            self.r
        };
        let as_ = if s < 0 {
            -s
        } else {
            s
        };
        (aq + ar + as_) / 2
    }

    /// The hex distance to `other`: the length of the componentwise
    /// difference. Symmetric in its arguments (`lemma_hex_distance_symmetric`).
    pub fn distance(self, other: Self) -> (d: isize)
        requires
            isize::MIN < self.q - other.q <= isize::MAX,
            isize::MIN < self.r - other.r <= isize::MAX,
            isize::MIN < -(self.q - other.q) - (self.r - other.r) <= isize::MAX,
            iabs(self.q - other.q) + iabs(self.r - other.r) + iabs(
                -(self.q - other.q) - (self.r - other.r),
            ) <= isize::MAX,
        ensures
            d == hex_dist(self.q as int, self.r as int, other.q as int, other.r as int),
    {
        let diff = HexPoint { q: self.q - other.q, r: self.r - other.r };
        diff.length()
    }

    /// The six neighboring hexes, in fixed ring order.
    pub fn neighbors(&self) -> (ns: [HexPoint; 6])
        requires
            isize::MIN < self.q < isize::MAX,
            isize::MIN < self.r < isize::MAX,
        ensures
            ns@ == hex_ring(*self),
    {
        let ns = [
            HexPoint { q: self.q + 1, r: self.r },
            HexPoint { q: self.q + 1, r: self.r - 1 },
            HexPoint { q: self.q, r: self.r - 1 },
            HexPoint { q: self.q - 1, r: self.r },
            HexPoint { q: self.q - 1, r: self.r + 1 },
            HexPoint { q: self.q, r: self.r + 1 },
        ];
        proof {
            assert(ns@ =~= hex_ring(*self));
        }
        ns
    }

    /// Componentwise sum of two axial coordinates.
    pub fn add(self, other: Self) -> (p: Self)
        requires
            isize::MIN <= self.q + other.q <= isize::MAX,
            isize::MIN <= self.r + other.r <= isize::MAX,
        ensures
            p.q == self.q + other.q,
            p.r == self.r + other.r,
    {
        HexPoint { q: self.q + other.q, r: self.r + other.r }
    }

    /// Componentwise difference of two axial coordinates.
    pub fn sub(self, other: Self) -> (p: Self)
        requires
            isize::MIN <= self.q - other.q <= isize::MAX,
            isize::MIN <= self.r - other.r <= isize::MAX,
        ensures
            p.q == self.q - other.q,
            p.r == self.r - other.r,
    {
        HexPoint { q: self.q - other.q, r: self.r - other.r }
    }

    /// Componentwise product of two axial coordinates.
    pub fn mul(self, other: Self) -> (p: Self)
        requires
            isize::MIN <= self.q * other.q <= isize::MAX,
            isize::MIN <= self.r * other.r <= isize::MAX,
        ensures
            p.q == self.q * other.q,
            p.r == self.r * other.r,
    {
        HexPoint { q: self.q * other.q, r: self.r * other.r }
    }

    /// Componentwise truncating quotient.
    pub fn div(self, other: Self) -> (p: Self)
        requires
            other.q != 0,
            other.r != 0,
            !(self.q == isize::MIN && other.q == -1),
            !(self.r == isize::MIN && other.r == -1),
        ensures
            p.q as int == div_trunc(self.q as int, other.q as int),
            p.r as int == div_trunc(self.r as int, other.r as int),
    {
        HexPoint { q: idiv(self.q, other.q), r: idiv(self.r, other.r) }
    }

    /// Componentwise truncating remainder.
    pub fn rem(self, other: Self) -> (p: Self)
        requires
            other.q != 0,
            other.r != 0,
            !(self.q == isize::MIN && other.q == -1),
            !(self.r == isize::MIN && other.r == -1),
        ensures
            p.q as int == rem_trunc(self.q as int, other.q as int),
            p.r as int == rem_trunc(self.r as int, other.r as int),
    {
        HexPoint { q: irem(self.q, other.q), r: irem(self.r, other.r) }
    }

    /// Adds a scalar to both components.
    pub fn add_scalar(self, rhs: isize) -> (p: Self)
        requires
            isize::MIN <= self.q + rhs <= isize::MAX,
            isize::MIN <= self.r + rhs <= isize::MAX,
        ensures
            p.q == self.q + rhs,
            p.r == self.r + rhs,
    {
        HexPoint { q: self.q + rhs, r: self.r + rhs }
    }

    /// Subtracts a scalar from both components.
    pub fn sub_scalar(self, rhs: isize) -> (p: Self)
        requires
            isize::MIN <= self.q - rhs <= isize::MAX,
            isize::MIN <= self.r - rhs <= isize::MAX,
        ensures
            p.q == self.q - rhs,
            p.r == self.r - rhs,
    {
        HexPoint { q: self.q - rhs, r: self.r - rhs }
    }

    /// Multiplies both components by a scalar.
    pub fn mul_scalar(self, rhs: isize) -> (p: Self)
        requires
            isize::MIN <= self.q * rhs <= isize::MAX,
            isize::MIN <= self.r * rhs <= isize::MAX,
        ensures
            p.q == self.q * rhs,
            p.r == self.r * rhs,
    {
        HexPoint { q: self.q * rhs, r: self.r * rhs }
    }

    /// Divides both components by a scalar, truncating toward zero.
    pub fn div_scalar(self, rhs: isize) -> (p: Self)
        requires
            rhs != 0,
            !(self.q == isize::MIN && rhs == -1),
            !(self.r == isize::MIN && rhs == -1),
        ensures
            p.q as int == div_trunc(self.q as int, rhs as int),
            p.r as int == div_trunc(self.r as int, rhs as int),
    {
        HexPoint { q: idiv(self.q, rhs), r: idiv(self.r, rhs) }
    }

    /// The remainder of both components by a scalar.
    pub fn rem_scalar(self, rhs: isize) -> (p: Self)
        requires
            rhs != 0,
            !(self.q == isize::MIN && rhs == -1),
            !(self.r == isize::MIN && rhs == -1),
        ensures
            p.q as int == rem_trunc(self.q as int, rhs as int),
            p.r as int == rem_trunc(self.r as int, rhs as int),
    {
        HexPoint { q: irem(self.q, rhs), r: irem(self.r, rhs) }
    }

    /// Adds a scalar on the left: `lhs + p`, componentwise.
    pub fn scalar_add(lhs: isize, rhs: Self) -> (p: Self)
        requires
            isize::MIN <= lhs + rhs.q <= isize::MAX,
            isize::MIN <= lhs + rhs.r <= isize::MAX,
        ensures
            p.q == lhs + rhs.q,
            p.r == lhs + rhs.r,
    {
        HexPoint { q: lhs + rhs.q, r: lhs + rhs.r }
    }

    /// Subtracts each component from a scalar: `lhs - p`.
    pub fn scalar_sub(lhs: isize, rhs: Self) -> (p: Self)
        requires
            isize::MIN <= lhs - rhs.q <= isize::MAX,
            isize::MIN <= lhs - rhs.r <= isize::MAX,
        ensures
            p.q == lhs - rhs.q,
            p.r == lhs - rhs.r,
    {
        HexPoint { q: lhs - rhs.q, r: lhs - rhs.r }
    }

    /// Multiplies a scalar by each component: `lhs * p`.
    pub fn scalar_mul(lhs: isize, rhs: Self) -> (p: Self)
        requires
            isize::MIN <= lhs * rhs.q <= isize::MAX,
            isize::MIN <= lhs * rhs.r <= isize::MAX,
        ensures
            p.q == lhs * rhs.q,
            p.r == lhs * rhs.r,
    {
        HexPoint { q: lhs * rhs.q, r: lhs * rhs.r }
    }

    /// Divides a scalar by each component: `lhs / p`, truncating.
    pub fn scalar_div(lhs: isize, rhs: Self) -> (p: Self)
        requires
            rhs.q != 0,
            rhs.r != 0,
            !(lhs == isize::MIN && rhs.q == -1),
            !(lhs == isize::MIN && rhs.r == -1),
        ensures
            p.q as int == div_trunc(lhs as int, rhs.q as int),
            p.r as int == div_trunc(lhs as int, rhs.r as int),
    {
        HexPoint { q: idiv(lhs, rhs.q), r: idiv(lhs, rhs.r) }
    }

    /// The remainder of a scalar by each component: `lhs % p`.
    pub fn scalar_rem(lhs: isize, rhs: Self) -> (p: Self)
        requires
            rhs.q != 0,
            rhs.r != 0,
            !(lhs == isize::MIN && rhs.q == -1),
            !(lhs == isize::MIN && rhs.r == -1),
        ensures
            p.q as int == rem_trunc(lhs as int, rhs.q as int),
            p.r as int == rem_trunc(lhs as int, rhs.r as int),
    {
        HexPoint { q: irem(lhs, rhs.q), r: irem(lhs, rhs.r) }
    }
}

/// Hex distance is symmetric: the distance from `a` to `b` equals the
/// distance from `b` to `a`.
pub proof fn lemma_hex_distance_symmetric(q1: int, r1: int, q2: int, r2: int)
    ensures
        hex_dist(q1, r1, q2, r2) == hex_dist(q2, r2, q1, r1),
{
    assert(iabs(q1 - q2) == iabs(q2 - q1));
    assert(iabs(r1 - r2) == iabs(r2 - r1));
    assert(iabs(-(q1 - q2) - (r1 - r2)) == iabs(-(q2 - q1) - (r2 - r1)));
}

} // verus!
