//! An integer 2D line in implicit form `a*x + b*y + c == 0`, stored in a
//! normalized representation. A point's column is its x coordinate and
//! its row is its y coordinate.

use vstd::prelude::*;

verus! {

use crate::math::spec_gcd;
use crate::num::{div_trunc, iabs, idiv};
use crate::point::signed::Point;

/// A line `a*x + b*y + c == 0` with integer coefficients.
#[derive(Clone, Copy, PartialEq, Eq, Structural, Hash, Debug)]
pub struct Line {
    pub a: isize,
    pub b: isize,
    pub c: isize,
}

/// The positive common divisor the coefficients are reduced by: their
/// greatest common divisor, or 1 when all are zero.
pub open spec fn line_gcd(a: int, b: int, c: int) -> int {
    let g = spec_gcd(spec_gcd(iabs(a) as nat, iabs(b) as nat), iabs(c) as nat) as int;
    if g < 1 {
        1
    } else {
        g
    }
}

/// The normalized coefficient triple: reduced by the common divisor,
/// then negated if needed so the leading nonzero coefficient is
/// positive.
pub open spec fn normalize_spec(a: int, b: int, c: int) -> (int, int, int) {
    let g = line_gcd(a, b, c);
    let a2 = div_trunc(a, g);
    let b2 = div_trunc(b, g);
    let c2 = div_trunc(c, g);
    if a2 < 0 || (a2 == 0 && b2 < 0) {
        (-a2, -b2, -c2)
    } else {
        (a2, b2, c2)
    }
}

impl Line {
    /// The line through two distinct points; equal points are a
    /// contract violation. The raw coefficients are
    /// `a = y1 - y2`, `b = x2 - x1`, `c = x1*y2 - x2*y1`, normalized.
    pub fn new(p1: Point, p2: Point) -> (l: Self)
        requires
            !(p1.r == p2.r && p1.c == p2.c),
            p1.r != isize::MIN && p1.c != isize::MIN && p2.r != isize::MIN && p2.c != isize::MIN,
            isize::MIN < p1.r - p2.r <= isize::MAX,
            isize::MIN < p2.c - p1.c <= isize::MAX,
            isize::MIN <= p1.c * p2.r <= isize::MAX,
            isize::MIN <= p2.c * p1.r <= isize::MAX,
            isize::MIN < p1.c * p2.r - p2.c * p1.r <= isize::MAX,
        ensures
            (l.a as int, l.b as int, l.c as int) == normalize_spec(
                p1.r - p2.r,
                p2.c - p1.c,
                p1.c * p2.r - p2.c * p1.r,
            ),
    {
        let a = p1.r - p2.r;
        let b = p2.c - p1.c;
        let c = p1.c * p2.r - p2.c * p1.r;
        let raw = Line { a, b, c };
        raw.normalized()
    }

    /// The same line with its coefficients reduced by their greatest
    /// common divisor and the leading nonzero coefficient made
    /// positive.
    pub fn normalized(self) -> (l: Self)
        requires
            self.a != isize::MIN,
            self.b != isize::MIN,
            self.c != isize::MIN,
        ensures
            (l.a as int, l.b as int, l.c as int) == normalize_spec(
                self.a as int,
                self.b as int,
                self.c as int,
            ),
    {
        let g0 = crate::math::gcd(crate::math::gcd(self.a, self.b), self.c);
        let g = if g0 < 1 {
            1
        } else {
            g0
        };
        let mut a = idiv(self.a, g);
        let mut b = idiv(self.b, g);
        let mut c = idiv(self.c, g);
        proof {
            crate::num::lemma_div_trunc_magnitude(self.a as int, g as int);
            crate::num::lemma_div_trunc_magnitude(self.b as int, g as int);
            crate::num::lemma_div_trunc_magnitude(self.c as int, g as int);
        }
        if a < 0 || (a == 0 && b < 0) {
            a = -a;
            b = -b;
            c = -c;
        }
        Line { a, b, c }
    }

    /// Whether the point lies on the line: `a*x + b*y + c == 0`.
    pub fn contains(&self, p: Point) -> (r: bool)
        requires
            isize::MIN <= self.a * p.c <= isize::MAX,
            isize::MIN <= self.b * p.r <= isize::MAX,
            isize::MIN <= self.a * p.c + self.b * p.r <= isize::MAX,
            isize::MIN <= self.a * p.c + self.b * p.r + self.c <= isize::MAX,
        ensures
            r == (self.a * p.c + self.b * p.r + self.c == 0),
    {
        self.a * p.c + self.b * p.r + self.c == 0
    }

    /// The signed-distance numerator `a*x + b*y + c`: zero on the line,
    /// and of one sign on each side.
    pub fn signed_distance_num(&self, p: Point) -> (d: isize)
        requires
            isize::MIN <= self.a * p.c <= isize::MAX,
            isize::MIN <= self.b * p.r <= isize::MAX,
            isize::MIN <= self.a * p.c + self.b * p.r <= isize::MAX,
            isize::MIN <= self.a * p.c + self.b * p.r + self.c <= isize::MAX,
        ensures
            d == self.a * p.c + self.b * p.r + self.c,
    {
        self.a * p.c + self.b * p.r + self.c
    }

    /// Whether the two lines are parallel: their direction cross
    /// product vanishes.
    pub fn parallel(&self, other: &Self) -> (r: bool)
        requires
            isize::MIN <= self.a * other.b <= isize::MAX,
            isize::MIN <= self.b * other.a <= isize::MAX,
        ensures
            r == (self.a * other.b == self.b * other.a),
    {
        self.a * other.b == self.b * other.a
    }

    /// Whether the two lines are the same line: parallel with
    /// proportional constant terms.
    pub fn same(&self, other: &Self) -> (r: bool)
        requires
            isize::MIN <= self.a * other.b <= isize::MAX,
            isize::MIN <= self.b * other.a <= isize::MAX,
            isize::MIN <= self.a * other.c <= isize::MAX,
            isize::MIN <= self.c * other.a <= isize::MAX,
            isize::MIN <= self.b * other.c <= isize::MAX,
            isize::MIN <= self.c * other.b <= isize::MAX,
        ensures
            r == (self.a * other.b == self.b * other.a && self.a * other.c == self.c * other.a
                && self.b * other.c == self.c * other.b),
    {
        self.parallel(other) && self.a * other.c == self.c * other.a && self.b * other.c == self.c
            * other.b
    }

    /// A direction vector of the line: `(x, y) = (b, -a)`.
    pub fn direction(&self) -> (p: Point)
        requires
            self.a != isize::MIN,
        ensures
            p.r == -self.a,
            p.c == self.b,
    {
        Point { r: -self.a, c: self.b }
    }

    /// A normal vector of the line: `(x, y) = (a, b)`.
    pub fn normal(&self) -> (p: Point)
        ensures
            p.r == self.b,
            p.c == self.a,
    {
        Point { r: self.b, c: self.a }
    }

    /// Which side of the line the point lies on: 0 on the line, 1 where
    /// the signed distance is positive, -1 where it is negative.
    pub fn side(&self, p: Point) -> (s: i8)
        requires
            isize::MIN <= self.a * p.c <= isize::MAX,
            isize::MIN <= self.b * p.r <= isize::MAX,
            isize::MIN <= self.a * p.c + self.b * p.r <= isize::MAX,
            isize::MIN <= self.a * p.c + self.b * p.r + self.c <= isize::MAX,
        ensures
            s == 0 <==> self.a * p.c + self.b * p.r + self.c == 0,
            s == 1 <==> self.a * p.c + self.b * p.r + self.c > 0,
            s == -1 <==> self.a * p.c + self.b * p.r + self.c < 0,
    {
        let v = self.signed_distance_num(p);
        if v == 0 {
            0
        } else if v > 0 {
            1
        } else {
            -1
        }
    }
}

} // verus!
