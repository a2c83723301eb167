//! An unsigned 2D point whose arithmetic wraps modulo the integer width.
//! Wrapping subtraction from zero yields the maximum representable value,
//! used as a "negative direction" sentinel; such a coordinate is only
//! meaningful together with a bounds check, as the dense grid performs.

use vstd::prelude::*;

verus! {

/// An unsigned two-dimensional coordinate, addressed as (row, column).
#[derive(Clone, Copy, PartialEq, Eq, Structural, Hash, Debug)]
pub struct UPoint {
    pub r: usize,
    pub c: usize,
}

/// `x - 1` with wraparound: 0 steps down to `usize::MAX`.
pub open spec fn wrap_dec(x: usize) -> usize {
    if x == 0 {
        usize::MAX
    } else {
        (x - 1) as usize
    }
}

/// `x + 1` with wraparound: `usize::MAX` steps up to 0.
pub open spec fn wrap_inc(x: usize) -> usize {
    if x == usize::MAX {
        0
    } else {
        (x + 1) as usize
    }
}

/// The four wrapping cardinal neighbors of `p`, in the fixed order up,
/// down, left, right.
pub open spec fn u_cardinal_points(p: UPoint) -> Seq<UPoint> {
    seq![
        UPoint { r: wrap_dec(p.r), c: p.c },
        UPoint { r: wrap_inc(p.r), c: p.c },
        UPoint { r: p.r, c: wrap_dec(p.c) },
        UPoint { r: p.r, c: wrap_inc(p.c) },
    ]
}

/// The eight wrapping neighbors of `p`: the cardinal four followed by the
/// four diagonals.
pub open spec fn u_ring_points(p: UPoint) -> Seq<UPoint> {
    u_cardinal_points(p) + seq![
        UPoint { r: wrap_dec(p.r), c: wrap_dec(p.c) },
        UPoint { r: wrap_dec(p.r), c: wrap_inc(p.c) },
        UPoint { r: wrap_inc(p.r), c: wrap_dec(p.c) },
        UPoint { r: wrap_inc(p.r), c: wrap_inc(p.c) },
    ]
}

impl UPoint {
    pub fn new(r: usize, c: usize) -> (p: Self)
        ensures
            p == (UPoint { r, c }),
    {
        UPoint { r, c }
    }

    /// The four points one wrapping step away on a single axis. A
    /// coordinate of 0 wraps to `usize::MAX` rather than going negative.
    pub fn cardinal_neighbors(&self) -> (ns: [UPoint; 4])
        ensures
            ns@ == u_cardinal_points(*self),
    {
        let ns = [
            UPoint { r: self.r.wrapping_add(usize::MAX), c: self.c },
            UPoint { r: self.r.wrapping_add(1), c: self.c },
            UPoint { r: self.r, c: self.c.wrapping_add(usize::MAX) },
            UPoint { r: self.r, c: self.c.wrapping_add(1) },
        ];
        proof {
            assert(ns@ =~= u_cardinal_points(*self));
        }
        ns
    }

    /// The eight wrapping neighbors: cardinal neighbors and diagonals.
    pub fn all_neighbors(&self) -> (ns: [UPoint; 8])
        ensures
            ns@ == u_ring_points(*self),
    {
        let up = self.r.wrapping_add(usize::MAX);
        let down = self.r.wrapping_add(1);
        let left = self.c.wrapping_add(usize::MAX);
        let right = self.c.wrapping_add(1);
        let ns = [
            UPoint { r: up, c: self.c },
            UPoint { r: down, c: self.c },
            UPoint { r: self.r, c: left },
            UPoint { r: self.r, c: right },
            UPoint { r: up, c: left },
            UPoint { r: up, c: right },
            UPoint { r: down, c: left },
            UPoint { r: down, c: right },
        ];
        proof {
            assert(ns@ =~= u_ring_points(*self));
        }
        ns
    }

    /// Componentwise wrapping sum of two points.
    pub fn add(self, other: Self) -> (p: Self)
        ensures
            p.r == self.r.wrapping_add(other.r),
            p.c == self.c.wrapping_add(other.c),
    {
        UPoint { r: self.r.wrapping_add(other.r), c: self.c.wrapping_add(other.c) }
    }

    /// Componentwise wrapping difference of two points.
    pub fn sub(self, other: Self) -> (p: Self)
        ensures
            p.r == self.r.wrapping_sub(other.r),
            p.c == self.c.wrapping_sub(other.c),
    {
        UPoint { r: self.r.wrapping_sub(other.r), c: self.c.wrapping_sub(other.c) }
    }

    /// Componentwise wrapping product of two points.
    pub fn mul(self, other: Self) -> (p: Self)
        ensures
            p.r == self.r.wrapping_mul(other.r),
            p.c == self.c.wrapping_mul(other.c),
    {
        UPoint { r: self.r.wrapping_mul(other.r), c: self.c.wrapping_mul(other.c) }
    }

    /// Componentwise quotient. A zero component in `other` is a contract
    /// violation, as in native division.
    pub fn div(self, other: Self) -> (p: Self)
        requires
            other.r != 0,
            other.c != 0,
        ensures
            p.r == self.r as int / other.r as int,
            p.c == self.c as int / other.c as int,
    {
        UPoint { r: self.r / other.r, c: self.c / other.c }
    }

    /// Componentwise remainder.
    pub fn rem(self, other: Self) -> (p: Self)
        requires
            other.r != 0,
            other.c != 0,
        ensures
            p.r == self.r as int % other.r as int,
            p.c == self.c as int % other.c as int,
    {
        UPoint { r: self.r % other.r, c: self.c % other.c }
    }

    /// Adds a scalar to both components, wrapping.
    pub fn add_scalar(self, rhs: usize) -> (p: Self)
        ensures
            p.r == self.r.wrapping_add(rhs),
            p.c == self.c.wrapping_add(rhs),
    {
        UPoint { r: self.r.wrapping_add(rhs), c: self.c.wrapping_add(rhs) }
    }

    /// Subtracts a scalar from both components, wrapping.
    pub fn sub_scalar(self, rhs: usize) -> (p: Self)
        ensures
            p.r == self.r.wrapping_sub(rhs),
            p.c == self.c.wrapping_sub(rhs),
    {
        UPoint { r: self.r.wrapping_sub(rhs), c: self.c.wrapping_sub(rhs) }
    }

    /// Multiplies both components by a scalar, wrapping.
    pub fn mul_scalar(self, rhs: usize) -> (p: Self)
        ensures
            p.r == self.r.wrapping_mul(rhs),
            p.c == self.c.wrapping_mul(rhs),
    {
        UPoint { r: self.r.wrapping_mul(rhs), c: self.c.wrapping_mul(rhs) }
    }

    /// Divides both components by a scalar.
    pub fn div_scalar(self, rhs: usize) -> (p: Self)
        requires
            rhs != 0,
        ensures
            p.r == self.r as int / rhs as int,
            p.c == self.c as int / rhs as int,
    {
        UPoint { r: self.r / rhs, c: self.c / rhs }
    }

    /// The remainder of both components by a scalar.
    pub fn rem_scalar(self, rhs: usize) -> (p: Self)
        requires
            rhs != 0,
        ensures
            p.r == self.r as int % rhs as int,
            p.c == self.c as int % rhs as int,
    {
        UPoint { r: self.r % rhs, c: self.c % rhs }
    }

    /// Adds a scalar on the left: `lhs + p`, wrapping componentwise.
    pub fn scalar_add(lhs: usize, rhs: Self) -> (p: Self)
        ensures
            p.r == lhs.wrapping_add(rhs.r),
            p.c == lhs.wrapping_add(rhs.c),
    {
        UPoint { r: lhs.wrapping_add(rhs.r), c: lhs.wrapping_add(rhs.c) }
    }

    /// Subtracts each component from a scalar: `lhs - p`, wrapping.
    pub fn scalar_sub(lhs: usize, rhs: Self) -> (p: Self)
        ensures
            p.r == lhs.wrapping_sub(rhs.r),
            p.c == lhs.wrapping_sub(rhs.c),
    {
        UPoint { r: lhs.wrapping_sub(rhs.r), c: lhs.wrapping_sub(rhs.c) }
    }

    /// Multiplies a scalar by each component: `lhs * p`, wrapping.
    pub fn scalar_mul(lhs: usize, rhs: Self) -> (p: Self)
        ensures
            p.r == lhs.wrapping_mul(rhs.r),
            p.c == lhs.wrapping_mul(rhs.c),
    {
        UPoint { r: lhs.wrapping_mul(rhs.r), c: lhs.wrapping_mul(rhs.c) }
    }

    /// Divides a scalar by each component: `lhs / p`.
    pub fn scalar_div(lhs: usize, rhs: Self) -> (p: Self)
        requires
            rhs.r != 0,
            rhs.c != 0,
        ensures
            p.r == lhs as int / rhs.r as int,
            p.c == lhs as int / rhs.c as int,
    {
        UPoint { r: lhs / rhs.r, c: lhs / rhs.c }
    }

    /// The remainder of a scalar by each component: `lhs % p`.
    pub fn scalar_rem(lhs: usize, rhs: Self) -> (p: Self)
        requires
            rhs.r != 0,
            rhs.c != 0,
        ensures
            p.r == lhs as int % rhs.r as int,
            p.c == lhs as int % rhs.c as int,
    {
        UPoint { r: lhs % rhs.r, c: lhs % rhs.c }
    }
}

} // verus!
