//! A signed 2D point: a (row, column) pair of `isize`, with componentwise
//! arithmetic and the cardinal and diagonal neighbor rings.

use vstd::prelude::*;

verus! {

use crate::num::{div_trunc, iabs, idiv, irem, rem_trunc};

/// A signed two-dimensional coordinate, addressed as (row, column).
#[derive(Clone, Copy, PartialEq, Eq, Structural, Hash, Debug)]
pub struct Point {
    pub r: isize,
    pub c: isize,
}

/// The Manhattan distance between two points: the sum of the axis gaps.
pub open spec fn manhattan(p: Point, q: Point) -> int {
    iabs(q.r - p.r) + iabs(q.c - p.c)
}

/// The Chebyshev distance between two points: the larger axis gap.
pub open spec fn chebyshev(p: Point, q: Point) -> int {
    if iabs(q.r - p.r) >= iabs(q.c - p.c) {
        iabs(q.r - p.r)
    } else {
        iabs(q.c - p.c)
    }
}

/// The four cardinal neighbors of `p`, in the fixed order up, down,
/// left, right.
pub open spec fn cardinal_points(p: Point) -> Seq<Point>
    recommends
        isize::MIN < p.r < isize::MAX,
        isize::MIN < p.c < isize::MAX,
{
    seq![
        Point { r: (p.r - 1) as isize, c: p.c },
        Point { r: (p.r + 1) as isize, c: p.c },
        Point { r: p.r, c: (p.c - 1) as isize },
        Point { r: p.r, c: (p.c + 1) as isize },
    ]
}

/// The eight neighbors of `p`: the cardinal four followed by the four
/// diagonals, in the fixed order of `all_neighbors`.
pub open spec fn ring_points(p: Point) -> Seq<Point>
    recommends
        isize::MIN < p.r < isize::MAX,
        isize::MIN < p.c < isize::MAX,
{
    cardinal_points(p) + seq![
        Point { r: (p.r - 1) as isize, c: (p.c - 1) as isize },
        Point { r: (p.r - 1) as isize, c: (p.c + 1) as isize },
        Point { r: (p.r + 1) as isize, c: (p.c - 1) as isize },
        Point { r: (p.r + 1) as isize, c: (p.c + 1) as isize },
    ]
}

impl Point {
    pub fn new(r: isize, c: isize) -> (p: Self)
        ensures
            p == (Point { r, c }),
    {
        Point { r, c }
    }

    /// The four points one step away on a single axis. They are exactly
    /// the points at Manhattan distance 1 from `self`
    /// (`lemma_cardinal_neighbors_exact`).
    pub fn cardinal_neighbors(&self) -> (ns: [Point; 4])
        requires
            isize::MIN < self.r < isize::MAX,
            isize::MIN < self.c < isize::MAX,
        ensures
            ns@ == cardinal_points(*self),
    {
        let ns = [
            Point { r: self.r - 1, c: self.c },
            Point { r: self.r + 1, c: self.c },
            Point { r: self.r, c: self.c - 1 },
            Point { r: self.r, c: self.c + 1 },
        ];
        proof {
            assert(ns@ =~= cardinal_points(*self));
        }
        ns
    }

    /// The eight surrounding points: cardinal neighbors and diagonals.
    /// They are exactly the points at Chebyshev distance 1 from `self`
    /// (`lemma_all_neighbors_exact`).
    pub fn all_neighbors(&self) -> (ns: [Point; 8])
        requires
            isize::MIN < self.r < isize::MAX,
            isize::MIN < self.c < isize::MAX,
        ensures
            ns@ == ring_points(*self),
    {
        let ns = [
            Point { r: self.r - 1, c: self.c },
            Point { r: self.r + 1, c: self.c },
            Point { r: self.r, c: self.c - 1 },
            Point { r: self.r, c: self.c + 1 },
            Point { r: self.r - 1, c: self.c - 1 },
            Point { r: self.r - 1, c: self.c + 1 },
            Point { r: self.r + 1, c: self.c - 1 },
            Point { r: self.r + 1, c: self.c + 1 },
        ];
        proof {
            assert(ns@ =~= ring_points(*self));
        }
        ns
    }

    /// Componentwise sum of two points.
    pub fn add(self, other: Self) -> (p: Self)
        requires
            isize::MIN <= self.r + other.r <= isize::MAX,
            isize::MIN <= self.c + other.c <= isize::MAX,
        ensures
            p.r == self.r + other.r,
            p.c == self.c + other.c,
    {
        Point { r: self.r + other.r, c: self.c + other.c }
    }

    /// Componentwise difference of two points.
    pub fn sub(self, other: Self) -> (p: Self)
        requires
            isize::MIN <= self.r - other.r <= isize::MAX,
            isize::MIN <= self.c - other.c <= isize::MAX,
        ensures
            p.r == self.r - other.r,
            p.c == self.c - other.c,
    {
        Point { r: self.r - other.r, c: self.c - other.c }
    }

    /// Componentwise product of two points.
    pub fn mul(self, other: Self) -> (p: Self)
        requires
            isize::MIN <= self.r * other.r <= isize::MAX,
            isize::MIN <= self.c * other.c <= isize::MAX,
        ensures
            p.r == self.r * other.r,
            p.c == self.c * other.c,
    {
        Point { r: self.r * other.r, c: self.c * other.c }
    }

    /// Componentwise truncating quotient. A zero component in `other`
    /// is a contract violation, as in native division.
    pub fn div(self, other: Self) -> (p: Self)
        requires
            other.r != 0,
            other.c != 0,
            !(self.r == isize::MIN && other.r == -1),
            !(self.c == isize::MIN && other.c == -1),
        ensures
            p.r as int == div_trunc(self.r as int, other.r as int),
            p.c as int == div_trunc(self.c as int, other.c as int),
    {
        Point { r: idiv(self.r, other.r), c: idiv(self.c, other.c) }
    }

    /// Componentwise truncating remainder.
    pub fn rem(self, other: Self) -> (p: Self)
        requires
            other.r != 0,
            other.c != 0,
            !(self.r == isize::MIN && other.r == -1),
            !(self.c == isize::MIN && other.c == -1),
        ensures
            p.r as int == rem_trunc(self.r as int, other.r as int),
            p.c as int == rem_trunc(self.c as int, other.c as int),
    {
        Point { r: irem(self.r, other.r), c: irem(self.c, other.c) }
    }

    /// Adds a scalar to both components.
    pub fn add_scalar(self, rhs: isize) -> (p: Self)
        requires
            isize::MIN <= self.r + rhs <= isize::MAX,
            isize::MIN <= self.c + rhs <= isize::MAX,
        ensures
            p.r == self.r + rhs,
            p.c == self.c + rhs,
    {
        Point { r: self.r + rhs, c: self.c + rhs }
    }

    /// Subtracts a scalar from both components.
    pub fn sub_scalar(self, rhs: isize) -> (p: Self)
        requires
            isize::MIN <= self.r - rhs <= isize::MAX,
            isize::MIN <= self.c - rhs <= isize::MAX,
        ensures
            p.r == self.r - rhs,
            p.c == self.c - rhs,
    {
        Point { r: self.r - rhs, c: self.c - rhs }
    }

    /// Multiplies both components by a scalar.
    pub fn mul_scalar(self, rhs: isize) -> (p: Self)
        requires
            isize::MIN <= self.r * rhs <= isize::MAX,
            isize::MIN <= self.c * rhs <= isize::MAX,
        ensures
            p.r == self.r * rhs,
            p.c == self.c * rhs,
    {
        Point { r: self.r * rhs, c: self.c * rhs }
    }

    /// Divides both components by a scalar, truncating toward zero.
    pub fn div_scalar(self, rhs: isize) -> (p: Self)
        requires
            rhs != 0,
            !(self.r == isize::MIN && rhs == -1),
            !(self.c == isize::MIN && rhs == -1),
        ensures
            p.r as int == div_trunc(self.r as int, rhs as int),
            p.c as int == div_trunc(self.c as int, rhs as int),
    {
        Point { r: idiv(self.r, rhs), c: idiv(self.c, rhs) }
    }

    /// The remainder of both components by a scalar.
    pub fn rem_scalar(self, rhs: isize) -> (p: Self)
        requires
            rhs != 0,
            !(self.r == isize::MIN && rhs == -1),
            !(self.c == isize::MIN && rhs == -1),
        ensures
            p.r as int == rem_trunc(self.r as int, rhs as int),
            p.c as int == rem_trunc(self.c as int, rhs as int),
    {
        Point { r: irem(self.r, rhs), c: irem(self.c, rhs) }
    }

    /// Adds a scalar on the left: `lhs + p`, componentwise.
    pub fn scalar_add(lhs: isize, rhs: Self) -> (p: Self)
        requires
            isize::MIN <= lhs + rhs.r <= isize::MAX,
            isize::MIN <= lhs + rhs.c <= isize::MAX,
        ensures
            p.r == lhs + rhs.r,
            p.c == lhs + rhs.c,
    {
        Point { r: lhs + rhs.r, c: lhs + rhs.c }
    }

    /// Subtracts each component from a scalar: `lhs - p`.
    pub fn scalar_sub(lhs: isize, rhs: Self) -> (p: Self)
        requires
            isize::MIN <= lhs - rhs.r <= isize::MAX,
            isize::MIN <= lhs - rhs.c <= isize::MAX,
        ensures
            p.r == lhs - rhs.r,
            p.c == lhs - rhs.c,
    {
        Point { r: lhs - rhs.r, c: lhs - rhs.c }
    }

    /// Multiplies a scalar by each component: `lhs * p`.
    pub fn scalar_mul(lhs: isize, rhs: Self) -> (p: Self)
        requires
            isize::MIN <= lhs * rhs.r <= isize::MAX,
            isize::MIN <= lhs * rhs.c <= isize::MAX,
        ensures
            p.r == lhs * rhs.r,
            p.c == lhs * rhs.c,
    {
        Point { r: lhs * rhs.r, c: lhs * rhs.c }
    }

    /// Divides a scalar by each component: `lhs / p`, truncating.
    pub fn scalar_div(lhs: isize, rhs: Self) -> (p: Self)
        requires
            rhs.r != 0,
            rhs.c != 0,
            !(lhs == isize::MIN && rhs.r == -1),
            !(lhs == isize::MIN && rhs.c == -1),
        ensures
            p.r as int == div_trunc(lhs as int, rhs.r as int),
            p.c as int == div_trunc(lhs as int, rhs.c as int),
    {
        Point { r: idiv(lhs, rhs.r), c: idiv(lhs, rhs.c) }
    }

    /// The remainder of a scalar by each component: `lhs % p`.
    pub fn scalar_rem(lhs: isize, rhs: Self) -> (p: Self)
        requires
            rhs.r != 0,
            rhs.c != 0,
            !(lhs == isize::MIN && rhs.r == -1),
            !(lhs == isize::MIN && rhs.c == -1),
        ensures
            p.r as int == rem_trunc(lhs as int, rhs.r as int),
            p.c as int == rem_trunc(lhs as int, rhs.c as int),
    {
        Point { r: irem(lhs, rhs.r), c: irem(lhs, rhs.c) }
    }
}

/// The cardinal neighbors of a point are exactly the points at Manhattan
/// distance 1 from it, and the four of them are pairwise distinct.
pub proof fn lemma_cardinal_neighbors_exact(p: Point, q: Point)
    requires
        isize::MIN < p.r < isize::MAX,
        isize::MIN < p.c < isize::MAX,
    ensures
        cardinal_points(p).contains(q) <==> manhattan(p, q) == 1,
        forall|i: int, j: int|
            0 <= i < j < cardinal_points(p).len() ==> cardinal_points(p)[i] != cardinal_points(
                p,
            )[j],
{
    let s = cardinal_points(p);
    if manhattan(p, q) == 1 {
        if q.r == p.r - 1 && q.c == p.c {
            assert(s[0] == q);
        } else if q.r == p.r + 1 && q.c == p.c {
            assert(s[1] == q);
        } else if q.r == p.r && q.c == p.c - 1 {
            assert(s[2] == q);
        } else {
            assert(q.r == p.r && q.c == p.c + 1);
            assert(s[3] == q);
        }
        assert(s.contains(q));
    }
    if s.contains(q) {
        let i = choose|i: int| 0 <= i < s.len() && s[i] == q;
        assert(manhattan(p, q) == 1);
    }
}

/// The eight surrounding points of `all_neighbors` are exactly the points
/// at Chebyshev distance 1, and the eight of them are pairwise distinct.
pub proof fn lemma_all_neighbors_exact(p: Point, q: Point)
    requires
        isize::MIN < p.r < isize::MAX,
        isize::MIN < p.c < isize::MAX,
    ensures
        ring_points(p).contains(q) <==> chebyshev(p, q) == 1,
        forall|i: int, j: int|
            0 <= i < j < ring_points(p).len() ==> ring_points(p)[i] != ring_points(p)[j],
{
    let s = ring_points(p);
    if chebyshev(p, q) == 1 {
        let dr = q.r - p.r;
        let dc = q.c - p.c;
        assert(-1 <= dr <= 1 && -1 <= dc <= 1 && !(dr == 0 && dc == 0));
        if dr == -1 && dc == 0 {
            assert(s[0] == q);
        } else if dr == 1 && dc == 0 {
            assert(s[1] == q);
        } else if dr == 0 && dc == -1 {
            assert(s[2] == q);
        } else if dr == 0 && dc == 1 {
            assert(s[3] == q);
        } else if dr == -1 && dc == -1 {
            assert(s[4] == q);
        } else if dr == -1 && dc == 1 {
            assert(s[5] == q);
        } else if dr == 1 && dc == -1 {
            assert(s[6] == q);
        } else {
            assert(dr == 1 && dc == 1);
            assert(s[7] == q);
        }
        assert(s.contains(q));
    }
    if s.contains(q) {
        let i = choose|i: int| 0 <= i < s.len() && s[i] == q;
        assert(chebyshev(p, q) == 1);
    }
}

} // verus!
