//! An n-dimensional coordinate: an ordered sequence of signed integers of
//! fixed length. Two coordinates combined arithmetically must share
//! dimensionality; mismatch is a contract violation, not a recoverable
//! error. Neighbor enumeration walks every combination of {-1, 0, +1}
//! across all axes except the all-zero one, in lexicographic order with
//! the last axis fastest-varying.

use vstd::prelude::*;

verus! {

use crate::num::{div_trunc, idiv, irem, rem_trunc};
use vstd::arithmetic::div_mod::{
    lemma_div_denominator, lemma_div_multiples_vanish, lemma_div_multiples_vanish_fancy,
    lemma_div_pos_is_pos, lemma_fundamental_div_mod, lemma_mod_division_less_than_divisor,
    lemma_multiply_divide_lt,
};

/// An n-dimensional signed coordinate.
#[derive(Clone, Eq, Hash, Debug)]
pub struct NDPoint {
    pub coords: Vec<isize>,
}

impl PartialEq for NDPoint {
    fn eq(&self, other: &NDPoint) -> (r: bool) {
        let mut i: usize = 0;
        if self.coords.len() != other.coords.len() {
            return false;
        }
        while i < self.coords.len()
            invariant
                0 <= i <= self.coords@.len(),
                self.coords@.len() == other.coords@.len(),
                forall|j: int| #![trigger self.coords@[j]] 0 <= j < i ==> self.coords@[j] == other.coords@[j],
            decreases self.coords@.len() - i,
        {
            if self.coords[i] != other.coords[i] {
                return false;
            }
            i += 1;
        }
        proof {
            assert(self.coords@ =~= other.coords@);
        }
        true
    }
}

impl vstd::std_specs::cmp::PartialEqSpecImpl for NDPoint {
    open spec fn obeys_eq_spec() -> bool {
        true
    }

    open spec fn eq_spec(&self, other: &NDPoint) -> bool {
        self.coords@ == other.coords@
    }
}

impl NDPoint {
    pub fn new(coords: Vec<isize>) -> (p: Self)
        ensures
            p.coords@ == coords@,
    {
        NDPoint { coords }
    }

    /// The dimensionality of the coordinate.
    pub fn ndim(&self) -> (n: usize)
        ensures
            n == self.coords@.len(),
    {
        self.coords.len()
    }

    /// The coordinate moved by `deltas`, componentwise. The two lengths
    /// must agree; mismatch is a contract violation.
    pub fn offset(&self, deltas: &[isize]) -> (p: Self)
        requires
            deltas@.len() == self.coords@.len(),
            forall|i: int| #![trigger self.coords@[i]]
                0 <= i < self.coords@.len() ==> isize::MIN <= self.coords@[i] + deltas@[i]
                    <= isize::MAX,
        ensures
            p.coords@.len() == self.coords@.len(),
            forall|i: int| #![trigger self.coords@[i]]
                0 <= i < self.coords@.len() ==> p.coords@[i] == self.coords@[i] + deltas@[i],
    {
        let n = self.coords.len();
        let mut out: Vec<isize> = Vec::new();
        let mut i: usize = 0;
        while i < n
            invariant
                n == self.coords@.len(),
                deltas@.len() == n,
                forall|j: int| #![trigger self.coords@[j]]
                    0 <= j < n ==> isize::MIN <= self.coords@[j] + deltas@[j] <= isize::MAX,
                0 <= i <= n,
                out@.len() == i,
                forall|j: int| #![trigger self.coords@[j]] 0 <= j < i ==> out@[j] == self.coords@[j] + deltas@[j],
            decreases n - i,
        {
            out.push(self.coords[i] + deltas[i]);
            i += 1;
        }
        NDPoint { coords: out }
    }

    /// Componentwise sum of two coordinates of equal dimension.
    pub fn add(self, other: Self) -> (p: Self)
        requires
            self.coords@.len() == other.coords@.len(),
            forall|i: int| #![trigger self.coords@[i]]
                0 <= i < self.coords@.len() ==> isize::MIN <= self.coords@[i] + other.coords@[i]
                    <= isize::MAX,
        ensures
            p.coords@.len() == self.coords@.len(),
            forall|i: int| #![trigger self.coords@[i]]
                0 <= i < self.coords@.len() ==> p.coords@[i] == self.coords@[i] + other.coords@[i],
    {
        let n = self.coords.len();
        let mut out: Vec<isize> = Vec::new();
        let mut i: usize = 0;
        while i < n
            invariant
                n == self.coords@.len(),
                other.coords@.len() == n,
                forall|j: int| #![trigger self.coords@[j]]
                    0 <= j < n ==> isize::MIN <= self.coords@[j] + other.coords@[j] <= isize::MAX,
                0 <= i <= n,
                out@.len() == i,
                forall|j: int| #![trigger self.coords@[j]] 0 <= j < i ==> out@[j] == self.coords@[j] + other.coords@[j],
            decreases n - i,
        {
            out.push(self.coords[i] + other.coords[i]);
            i += 1;
        }
        NDPoint { coords: out }
    }

    /// Componentwise difference of two coordinates of equal dimension.
    pub fn sub(self, other: Self) -> (p: Self)
        requires
            self.coords@.len() == other.coords@.len(),
            forall|i: int| #![trigger self.coords@[i]]
                0 <= i < self.coords@.len() ==> isize::MIN <= self.coords@[i] - other.coords@[i]
                    <= isize::MAX,
        ensures
            p.coords@.len() == self.coords@.len(),
            forall|i: int| #![trigger self.coords@[i]]
                0 <= i < self.coords@.len() ==> p.coords@[i] == self.coords@[i] - other.coords@[i],
    {
        let n = self.coords.len();
        let mut out: Vec<isize> = Vec::new();
        let mut i: usize = 0;
        while i < n
            invariant
                n == self.coords@.len(),
                other.coords@.len() == n,
                forall|j: int| #![trigger self.coords@[j]]
                    0 <= j < n ==> isize::MIN <= self.coords@[j] - other.coords@[j] <= isize::MAX,
                0 <= i <= n,
                out@.len() == i,
                forall|j: int| #![trigger self.coords@[j]] 0 <= j < i ==> out@[j] == self.coords@[j] - other.coords@[j],
            decreases n - i,
        {
            out.push(self.coords[i] - other.coords[i]);
            i += 1;
        }
        NDPoint { coords: out }
    }

    /// Componentwise product of two coordinates of equal dimension.
    pub fn mul(self, other: Self) -> (p: Self)
        requires
            self.coords@.len() == other.coords@.len(),
            forall|i: int| #![trigger self.coords@[i]]
                0 <= i < self.coords@.len() ==> isize::MIN <= self.coords@[i] * other.coords@[i]
                    <= isize::MAX,
        ensures
            p.coords@.len() == self.coords@.len(),
            forall|i: int| #![trigger self.coords@[i]]
                0 <= i < self.coords@.len() ==> p.coords@[i] == self.coords@[i] * other.coords@[i],
    {
        let n = self.coords.len();
        let mut out: Vec<isize> = Vec::new();
        let mut i: usize = 0;
        while i < n
            invariant
                n == self.coords@.len(),
                other.coords@.len() == n,
                forall|j: int| #![trigger self.coords@[j]]
                    0 <= j < n ==> isize::MIN <= self.coords@[j] * other.coords@[j] <= isize::MAX,
                0 <= i <= n,
                out@.len() == i,
                forall|j: int| #![trigger self.coords@[j]] 0 <= j < i ==> out@[j] == self.coords@[j] * other.coords@[j],
            decreases n - i,
        {
            out.push(self.coords[i] * other.coords[i]);
            i += 1;
        }
        NDPoint { coords: out }
    }

    /// Componentwise truncating quotient of two coordinates of equal
    /// dimension. A zero component in `other` is a contract violation.
    pub fn div(self, other: Self) -> (p: Self)
        requires
            self.coords@.len() == other.coords@.len(),
            forall|i: int| #![trigger other.coords@[i]] 0 <= i < other.coords@.len() ==> other.coords@[i] != 0,
            forall|i: int| #![trigger self.coords@[i]]
                0 <= i < self.coords@.len() ==> !(self.coords@[i] == isize::MIN
                    && other.coords@[i] == -1),
        ensures
            p.coords@.len() == self.coords@.len(),
            forall|i: int| #![trigger self.coords@[i]]
                0 <= i < self.coords@.len() ==> p.coords@[i] as int == div_trunc(
                    self.coords@[i] as int,
                    other.coords@[i] as int,
                ),
    {
        let n = self.coords.len();
        let mut out: Vec<isize> = Vec::new();
        let mut i: usize = 0;
        while i < n
            invariant
                n == self.coords@.len(),
                other.coords@.len() == n,
                forall|j: int| #![trigger other.coords@[j]] 0 <= j < n ==> other.coords@[j] != 0,
                forall|j: int| #![trigger self.coords@[j]]
                    0 <= j < n ==> !(self.coords@[j] == isize::MIN && other.coords@[j] == -1),
                0 <= i <= n,
                out@.len() == i,
                forall|j: int| #![trigger self.coords@[j]]
                    0 <= j < i ==> out@[j] as int == div_trunc(
                        self.coords@[j] as int,
                        other.coords@[j] as int,
                    ),
            decreases n - i,
        {
            out.push(idiv(self.coords[i], other.coords[i]));
            i += 1;
        }
        NDPoint { coords: out }
    }

    /// Componentwise truncating remainder of two coordinates of equal
    /// dimension. A zero component in `other` is a contract violation.
    pub fn rem(self, other: Self) -> (p: Self)
        requires
            self.coords@.len() == other.coords@.len(),
            forall|i: int| #![trigger other.coords@[i]] 0 <= i < other.coords@.len() ==> other.coords@[i] != 0,
            forall|i: int| #![trigger self.coords@[i]]
                0 <= i < self.coords@.len() ==> !(self.coords@[i] == isize::MIN
                    && other.coords@[i] == -1),
        ensures
            p.coords@.len() == self.coords@.len(),
            forall|i: int| #![trigger self.coords@[i]]
                0 <= i < self.coords@.len() ==> p.coords@[i] as int == rem_trunc(
                    self.coords@[i] as int,
                    other.coords@[i] as int,
                ),
    {
        let n = self.coords.len();
        let mut out: Vec<isize> = Vec::new();
        let mut i: usize = 0;
        while i < n
            invariant
                n == self.coords@.len(),
                other.coords@.len() == n,
                forall|j: int| #![trigger other.coords@[j]] 0 <= j < n ==> other.coords@[j] != 0,
                forall|j: int| #![trigger self.coords@[j]]
                    0 <= j < n ==> !(self.coords@[j] == isize::MIN && other.coords@[j] == -1),
                0 <= i <= n,
                out@.len() == i,
                forall|j: int| #![trigger self.coords@[j]]
                    0 <= j < i ==> out@[j] as int == rem_trunc(
                        self.coords@[j] as int,
                        other.coords@[j] as int,
                    ),
            decreases n - i,
        {
            out.push(irem(self.coords[i], other.coords[i]));
            i += 1;
        }
        NDPoint { coords: out }
    }

    /// Adds a scalar to every component.
    pub fn add_scalar(self, rhs: isize) -> (p: Self)
        requires
            forall|i: int| #![trigger self.coords@[i]]
                0 <= i < self.coords@.len() ==> isize::MIN <= self.coords@[i] + rhs <= isize::MAX,
        ensures
            p.coords@.len() == self.coords@.len(),
            forall|i: int| #![trigger self.coords@[i]] 0 <= i < self.coords@.len() ==> p.coords@[i] == self.coords@[i] + rhs,
    {
        let n = self.coords.len();
        let mut out: Vec<isize> = Vec::new();
        let mut i: usize = 0;
        while i < n
            invariant
                n == self.coords@.len(),
                forall|j: int| #![trigger self.coords@[j]] 0 <= j < n ==> isize::MIN <= self.coords@[j] + rhs <= isize::MAX,
                0 <= i <= n,
                out@.len() == i,
                forall|j: int| #![trigger self.coords@[j]] 0 <= j < i ==> out@[j] == self.coords@[j] + rhs,
            decreases n - i,
        {
            out.push(self.coords[i] + rhs);
            i += 1;
        }
        NDPoint { coords: out }
    }

    /// Subtracts a scalar from every component.
    pub fn sub_scalar(self, rhs: isize) -> (p: Self)
        requires
            forall|i: int| #![trigger self.coords@[i]]
                0 <= i < self.coords@.len() ==> isize::MIN <= self.coords@[i] - rhs <= isize::MAX,
        ensures
            p.coords@.len() == self.coords@.len(),
            forall|i: int| #![trigger self.coords@[i]] 0 <= i < self.coords@.len() ==> p.coords@[i] == self.coords@[i] - rhs,
    {
        let n = self.coords.len();
        let mut out: Vec<isize> = Vec::new();
        let mut i: usize = 0;
        while i < n
            invariant
                n == self.coords@.len(),
                forall|j: int| #![trigger self.coords@[j]] 0 <= j < n ==> isize::MIN <= self.coords@[j] - rhs <= isize::MAX,
                0 <= i <= n,
                out@.len() == i,
                forall|j: int| #![trigger self.coords@[j]] 0 <= j < i ==> out@[j] == self.coords@[j] - rhs,
            decreases n - i,
        {
            out.push(self.coords[i] - rhs);
            i += 1;
        }
        NDPoint { coords: out }
    }

    /// Multiplies every component by a scalar.
    pub fn mul_scalar(self, rhs: isize) -> (p: Self)
        requires
            forall|i: int| #![trigger self.coords@[i]]
                0 <= i < self.coords@.len() ==> isize::MIN <= self.coords@[i] * rhs <= isize::MAX,
        ensures
            p.coords@.len() == self.coords@.len(),
            forall|i: int| #![trigger self.coords@[i]] 0 <= i < self.coords@.len() ==> p.coords@[i] == self.coords@[i] * rhs,
    {
        let n = self.coords.len();
        let mut out: Vec<isize> = Vec::new();
        let mut i: usize = 0;
        while i < n
            invariant
                n == self.coords@.len(),
                forall|j: int| #![trigger self.coords@[j]] 0 <= j < n ==> isize::MIN <= self.coords@[j] * rhs <= isize::MAX,
                0 <= i <= n,
                out@.len() == i,
                forall|j: int| #![trigger self.coords@[j]] 0 <= j < i ==> out@[j] == self.coords@[j] * rhs,
            decreases n - i,
        {
            out.push(self.coords[i] * rhs);
            i += 1;
        }
        NDPoint { coords: out }
    }

    /// Divides every component by a scalar, truncating toward zero.
    pub fn div_scalar(self, rhs: isize) -> (p: Self)
        requires
            rhs != 0,
            forall|i: int| #![trigger self.coords@[i]]
                0 <= i < self.coords@.len() ==> !(self.coords@[i] == isize::MIN && rhs == -1),
        ensures
            p.coords@.len() == self.coords@.len(),
            forall|i: int| #![trigger self.coords@[i]]
                0 <= i < self.coords@.len() ==> p.coords@[i] as int == div_trunc(
                    self.coords@[i] as int,
                    rhs as int,
                ),
    {
        let n = self.coords.len();
        let mut out: Vec<isize> = Vec::new();
        let mut i: usize = 0;
        while i < n
            invariant
                n == self.coords@.len(),
                rhs != 0,
                forall|j: int| #![trigger self.coords@[j]] 0 <= j < n ==> !(self.coords@[j] == isize::MIN && rhs == -1),
                0 <= i <= n,
                out@.len() == i,
                forall|j: int| #![trigger self.coords@[j]]
                    0 <= j < i ==> out@[j] as int == div_trunc(self.coords@[j] as int, rhs as int),
            decreases n - i,
        {
            out.push(idiv(self.coords[i], rhs));
            i += 1;
        }
        NDPoint { coords: out }
    }

    /// The remainder of every component by a scalar.
    pub fn rem_scalar(self, rhs: isize) -> (p: Self)
        requires
            rhs != 0,
            forall|i: int| #![trigger self.coords@[i]]
                0 <= i < self.coords@.len() ==> !(self.coords@[i] == isize::MIN && rhs == -1),
        ensures
            p.coords@.len() == self.coords@.len(),
            forall|i: int| #![trigger self.coords@[i]]
                0 <= i < self.coords@.len() ==> p.coords@[i] as int == rem_trunc(
                    self.coords@[i] as int,
                    rhs as int,
                ),
    {
        let n = self.coords.len();
        let mut out: Vec<isize> = Vec::new();
        let mut i: usize = 0;
        while i < n
            invariant
                n == self.coords@.len(),
                rhs != 0,
                forall|j: int| #![trigger self.coords@[j]] 0 <= j < n ==> !(self.coords@[j] == isize::MIN && rhs == -1),
                0 <= i <= n,
                out@.len() == i,
                forall|j: int| #![trigger self.coords@[j]]
                    0 <= j < i ==> out@[j] as int == rem_trunc(self.coords@[j] as int, rhs as int),
            decreases n - i,
        {
            out.push(irem(self.coords[i], rhs));
            i += 1;
        }
        NDPoint { coords: out }
    }

    /// Adds a scalar on the left: `lhs + p`, componentwise.
    pub fn scalar_add(lhs: isize, rhs: Self) -> (p: Self)
        requires
            forall|i: int| #![trigger rhs.coords@[i]]
                0 <= i < rhs.coords@.len() ==> isize::MIN <= lhs + rhs.coords@[i] <= isize::MAX,
        ensures
            p.coords@.len() == rhs.coords@.len(),
            forall|i: int| #![trigger rhs.coords@[i]] 0 <= i < rhs.coords@.len() ==> p.coords@[i] == lhs + rhs.coords@[i],
    {
        let n = rhs.coords.len();
        let mut out: Vec<isize> = Vec::new();
        let mut i: usize = 0;
        while i < n
            invariant
                n == rhs.coords@.len(),
                forall|j: int| #![trigger rhs.coords@[j]] 0 <= j < n ==> isize::MIN <= lhs + rhs.coords@[j] <= isize::MAX,
                0 <= i <= n,
                out@.len() == i,
                forall|j: int| #![trigger rhs.coords@[j]] 0 <= j < i ==> out@[j] == lhs + rhs.coords@[j],
            decreases n - i,
        {
            out.push(lhs + rhs.coords[i]);
            i += 1;
        }
        NDPoint { coords: out }
    }

    /// Subtracts every component from a scalar: `lhs - p`.
    pub fn scalar_sub(lhs: isize, rhs: Self) -> (p: Self)
        requires
            forall|i: int| #![trigger rhs.coords@[i]]
                0 <= i < rhs.coords@.len() ==> isize::MIN <= lhs - rhs.coords@[i] <= isize::MAX,
        ensures
            p.coords@.len() == rhs.coords@.len(),
            forall|i: int| #![trigger rhs.coords@[i]] 0 <= i < rhs.coords@.len() ==> p.coords@[i] == lhs - rhs.coords@[i],
    {
        let n = rhs.coords.len();
        let mut out: Vec<isize> = Vec::new();
        let mut i: usize = 0;
        while i < n
            invariant
                n == rhs.coords@.len(),
                forall|j: int| #![trigger rhs.coords@[j]] 0 <= j < n ==> isize::MIN <= lhs - rhs.coords@[j] <= isize::MAX,
                0 <= i <= n,
                out@.len() == i,
                forall|j: int| #![trigger rhs.coords@[j]] 0 <= j < i ==> out@[j] == lhs - rhs.coords@[j],
            decreases n - i,
        {
            out.push(lhs - rhs.coords[i]);
            i += 1;
        }
        NDPoint { coords: out }
    }

    /// Multiplies a scalar by every component: `lhs * p`.
    pub fn scalar_mul(lhs: isize, rhs: Self) -> (p: Self)
        requires
            forall|i: int| #![trigger rhs.coords@[i]]
                0 <= i < rhs.coords@.len() ==> isize::MIN <= lhs * rhs.coords@[i] <= isize::MAX,
        ensures
            p.coords@.len() == rhs.coords@.len(),
            forall|i: int| #![trigger rhs.coords@[i]] 0 <= i < rhs.coords@.len() ==> p.coords@[i] == lhs * rhs.coords@[i],
    {
        let n = rhs.coords.len();
        let mut out: Vec<isize> = Vec::new();
        let mut i: usize = 0;
        while i < n
            invariant
                n == rhs.coords@.len(),
                forall|j: int| #![trigger rhs.coords@[j]] 0 <= j < n ==> isize::MIN <= lhs * rhs.coords@[j] <= isize::MAX,
                0 <= i <= n,
                out@.len() == i,
                forall|j: int| #![trigger rhs.coords@[j]] 0 <= j < i ==> out@[j] == lhs * rhs.coords@[j],
            decreases n - i,
        {
            out.push(lhs * rhs.coords[i]);
            i += 1;
        }
        NDPoint { coords: out }
    }

    /// Divides a scalar by every component: `lhs / p`, truncating.
    pub fn scalar_div(lhs: isize, rhs: Self) -> (p: Self)
        requires
            forall|i: int| #![trigger rhs.coords@[i]] 0 <= i < rhs.coords@.len() ==> rhs.coords@[i] != 0,
            forall|i: int| #![trigger rhs.coords@[i]]
                0 <= i < rhs.coords@.len() ==> !(lhs == isize::MIN && rhs.coords@[i] == -1),
        ensures
            p.coords@.len() == rhs.coords@.len(),
            forall|i: int| #![trigger rhs.coords@[i]]
                0 <= i < rhs.coords@.len() ==> p.coords@[i] as int == div_trunc(
                    lhs as int,
                    rhs.coords@[i] as int,
                ),
    {
        let n = rhs.coords.len();
        let mut out: Vec<isize> = Vec::new();
        let mut i: usize = 0;
        while i < n
            invariant
                n == rhs.coords@.len(),
                forall|j: int| #![trigger rhs.coords@[j]] 0 <= j < n ==> rhs.coords@[j] != 0,
                forall|j: int| #![trigger rhs.coords@[j]] 0 <= j < n ==> !(lhs == isize::MIN && rhs.coords@[j] == -1),
                0 <= i <= n,
                out@.len() == i,
                forall|j: int| #![trigger rhs.coords@[j]]
                    0 <= j < i ==> out@[j] as int == div_trunc(lhs as int, rhs.coords@[j] as int),
            decreases n - i,
        {
            out.push(idiv(lhs, rhs.coords[i]));
            i += 1;
        }
        NDPoint { coords: out }
    }

    /// The remainder of a scalar by every component: `lhs % p`.
    pub fn scalar_rem(lhs: isize, rhs: Self) -> (p: Self)
        requires
            forall|i: int| #![trigger rhs.coords@[i]] 0 <= i < rhs.coords@.len() ==> rhs.coords@[i] != 0,
            forall|i: int| #![trigger rhs.coords@[i]]
                0 <= i < rhs.coords@.len() ==> !(lhs == isize::MIN && rhs.coords@[i] == -1),
        ensures
            p.coords@.len() == rhs.coords@.len(),
            forall|i: int| #![trigger rhs.coords@[i]]
                0 <= i < rhs.coords@.len() ==> p.coords@[i] as int == rem_trunc(
                    lhs as int,
                    rhs.coords@[i] as int,
                ),
    {
        let n = rhs.coords.len();
        let mut out: Vec<isize> = Vec::new();
        let mut i: usize = 0;
        while i < n
            invariant
                n == rhs.coords@.len(),
                forall|j: int| #![trigger rhs.coords@[j]] 0 <= j < n ==> rhs.coords@[j] != 0,
                forall|j: int| #![trigger rhs.coords@[j]] 0 <= j < n ==> !(lhs == isize::MIN && rhs.coords@[j] == -1),
                0 <= i <= n,
                out@.len() == i,
                forall|j: int| #![trigger rhs.coords@[j]]
                    0 <= j < i ==> out@[j] as int == rem_trunc(lhs as int, rhs.coords@[j] as int),
            decreases n - i,
        {
            out.push(irem(lhs, rhs.coords[i]));
            i += 1;
        }
        NDPoint { coords: out }
    }
}


/// 3 to the power `n`: the number of delta vectors over {-1, 0, +1}.
pub open spec fn pow3(n: nat) -> nat
    decreases n,
{
    if n == 0 {
        1
    } else {
        3 * pow3((n - 1) as nat)
    }
}

/// The index of the all-zero delta vector in the base-3 enumeration:
/// the middle index, `(pow3(n) - 1) / 2`.
pub open spec fn mid3(n: nat) -> nat
    decreases n,
{
    if n == 0 {
        0
    } else {
        3 * mid3((n - 1) as nat) + 1
    }
}

/// Every power of 3 is at least 1.
pub broadcast proof fn lemma_pow3_pos(n: nat)
    ensures
        #[trigger] pow3(n) >= 1,
    decreases n,
{
    if n > 0 {
        lemma_pow3_pos((n - 1) as nat);
    }
}

/// `mid3` really is the middle index: `2 * mid3(n) + 1 == pow3(n)`.
pub broadcast proof fn lemma_mid3_pow3(n: nat)
    ensures
        2 * #[trigger] mid3(n) + 1 == pow3(n),
    decreases n,
{
    if n > 0 {
        lemma_mid3_pow3((n - 1) as nat);
    }
}

proof fn lemma_pow3_mono(a: nat, b: nat)
    requires
        a <= b,
    ensures
        pow3(a) <= pow3(b),
    decreases b,
{
    broadcast use lemma_pow3_pos;

    if a < b {
        lemma_pow3_mono(a, (b - 1) as nat);
    }
}

/// The `n` low base-3 digits of `i`, each shifted down by one into
/// {-1, 0, +1}; digit `m` is `(i / 3^(n-1-m)) % 3 - 1`, so the last
/// position varies fastest as `i` counts up.
pub open spec fn trits(i: int, n: nat) -> Seq<int>
    decreases n,
{
    if n == 0 {
        Seq::empty()
    } else {
        trits(i / 3, (n - 1) as nat).push(i % 3 - 1)
    }
}

/// The all-zero delta vector of length `n`.
pub open spec fn zero_delta(n: nat) -> Seq<int> {
    Seq::new(n, |m: int| 0)
}

/// A sequence of `isize` read as a sequence of mathematical integers.
pub open spec fn to_ints(s: Seq<isize>) -> Seq<int> {
    s.map_values(|x: isize| x as int)
}

/// The coordinates `c` moved componentwise by the delta vector `d`.
pub open spec fn offset_ints(c: Seq<isize>, d: Seq<int>) -> Seq<int>
    recommends
        d.len() == c.len(),
{
    Seq::new(c.len(), |m: int| c[m] + d[m])
}

/// The enumeration index behind neighbor `k`: the all-zero delta at
/// `mid3(n)` is skipped.
pub open spec fn nbr_index(k: int, n: nat) -> int {
    if k < mid3(n) {
        k
    } else {
        k + 1
    }
}

pub broadcast proof fn lemma_trits_len(i: int, n: nat)
    ensures
        (#[trigger] trits(i, n)).len() == n,
    decreases n,
{
    if n > 0 {
        lemma_trits_len(i / 3, (n - 1) as nat);
    }
}

/// Every digit of a nonnegative index lies in {-1, 0, +1}.
proof fn lemma_trits_bounds(i: int, n: nat)
    requires
        i >= 0,
    ensures
        forall|m: int| 0 <= m < n ==> -1 <= #[trigger] trits(i, n)[m] <= 1,
    decreases n,
{
    broadcast use lemma_trits_len;

    if n > 0 {
        lemma_div_pos_is_pos(i, 3);
        lemma_mod_division_less_than_divisor(i, 3);
        lemma_trits_bounds(i / 3, (n - 1) as nat);
        assert forall|m: int| 0 <= m < n implies -1 <= #[trigger] trits(i, n)[m] <= 1 by {
            if m < n - 1 {
                assert(trits(i, n)[m] == trits(i / 3, (n - 1) as nat)[m]);
            }
        }
    }
}

/// Splitting the digit sequence: the high `n - j` digits come from
/// `i / 3^j`, the low `j` digits from `i` itself.
proof fn lemma_trits_split(i: int, n: nat, j: nat)
    requires
        i >= 0,
        j <= n,
    ensures
        trits(i, n) == trits(i / pow3(j) as int, (n - j) as nat) + trits(i, j),
    decreases j,
{
    broadcast use lemma_trits_len, lemma_pow3_pos;

    if j == 0 {
        assert(i / pow3(0) as int == i) by {
            lemma_div_multiples_vanish(i, 1);
        }
        assert(trits(i, n) =~= trits(i, n) + trits(i, 0));
    } else {
        let nm = (n - 1) as nat;
        let jm = (j - 1) as nat;
        lemma_div_pos_is_pos(i, 3);
        lemma_trits_split(i / 3, nm, jm);
        lemma_div_denominator(i, 3, pow3(jm) as int);
        assert(3 * pow3(jm) == pow3(jm) as int * 3);
        assert((i / 3) / pow3(jm) as int == i / pow3(j) as int);
        assert(trits(i, n) =~= trits(i / pow3(j) as int, (n - j) as nat) + trits(i, j));
    }
}

/// Digit `m` of `trits(i, n)` in closed form.
proof fn lemma_trits_index(i: int, n: nat, m: int)
    requires
        i >= 0,
        0 <= m < n,
    ensures
        trits(i, n)[m] == (i / pow3((n - 1 - m) as nat) as int) % 3 - 1,
{
    broadcast use lemma_trits_len, lemma_pow3_pos;

    let j = (n - 1 - m) as nat;
    lemma_trits_split(i, n, j);
    lemma_div_pos_is_pos(i, pow3(j) as int);
    assert(trits(i, n)[m] == trits(i / pow3(j) as int, (n - j) as nat)[m]);
}

/// Distinct indices have distinct digit sequences.
proof fn lemma_trits_injective(i: int, j: int, n: nat)
    requires
        0 <= i < pow3(n),
        0 <= j < pow3(n),
        i != j,
    ensures
        trits(i, n) != trits(j, n),
    decreases n,
{
    broadcast use lemma_trits_len;

    if n == 0 {
        assert(false);
    } else {
        let nm = (n - 1) as nat;
        let ti = trits(i, n);
        let tj = trits(j, n);
        assert(ti == trits(i / 3, nm).push(i % 3 - 1));
        assert(tj == trits(j / 3, nm).push(j % 3 - 1));
        lemma_fundamental_div_mod(i, 3);
        lemma_fundamental_div_mod(j, 3);
        if i % 3 != j % 3 {
            assert(ti[n - 1] == i % 3 - 1);
            assert(tj[n - 1] == j % 3 - 1);
            if ti == tj {
                assert(false);
            }
        } else {
            assert(i / 3 != j / 3);
            lemma_div_pos_is_pos(i, 3);
            lemma_div_pos_is_pos(j, 3);
            lemma_multiply_divide_lt(i, 3, pow3(nm) as int);
            lemma_multiply_divide_lt(j, 3, pow3(nm) as int);
            lemma_trits_injective(i / 3, j / 3, nm);
            if ti == tj {
                assert forall|m: int| 0 <= m < nm implies #[trigger] trits(i / 3, nm)[m]
                    == trits(j / 3, nm)[m] by {
                    assert(trits(i / 3, nm)[m] == ti[m]);
                    assert(trits(j / 3, nm)[m] == tj[m]);
                }
                assert(trits(i / 3, nm) =~= trits(j / 3, nm));
                assert(false);
            }
        }
    }
}

/// The digit sequence is all-zero exactly at the middle index.
proof fn lemma_trits_zero(i: int, n: nat)
    requires
        0 <= i < pow3(n),
    ensures
        (trits(i, n) == zero_delta(n)) <==> (i == mid3(n)),
    decreases n,
{
    broadcast use lemma_trits_len;

    if n == 0 {
        assert(trits(i, n) =~= zero_delta(n));
    } else {
        let nm = (n - 1) as nat;
        lemma_mid3_pow3(nm);
        lemma_div_pos_is_pos(i, 3);
        lemma_multiply_divide_lt(i, 3, pow3(nm) as int);
        lemma_trits_zero(i / 3, nm);
        lemma_fundamental_div_mod(i, 3);
        lemma_mod_division_less_than_divisor(i, 3);
        if i == mid3(n) {
            assert((3 * mid3(nm) as int + 1) / 3 == mid3(nm) as int) by {
                lemma_div_multiples_vanish_fancy(mid3(nm) as int, 1, 3);
            }
            assert(i / 3 == mid3(nm));
            assert(i % 3 == 1);
            assert forall|m: int| 0 <= m < n implies #[trigger] trits(i, n)[m] == 0 by {
                if m < n - 1 {
                    assert(trits(i, n)[m] == trits(i / 3, nm)[m]);
                    assert(trits(i / 3, nm)[m] == zero_delta(nm)[m]);
                }
            }
            assert(trits(i, n) =~= zero_delta(n));
        }
        if trits(i, n) == zero_delta(n) {
            assert(trits(i, n)[n - 1] == i % 3 - 1);
            assert(i % 3 == 1);
            assert forall|m: int|
                0 <= m < nm implies #[trigger] trits(i / 3, nm)[m] == zero_delta(nm)[m] by {
                assert(trits(i / 3, nm)[m] == trits(i, n)[m]);
            }
            assert(trits(i / 3, nm) =~= zero_delta(nm));
            assert(i / 3 == mid3(nm));
            assert(i == mid3(n));
        }
    }
}

/// 3 to the power `n`, executably.
fn three_pow(n: usize) -> (t: usize)
    requires
        pow3(n as nat) <= usize::MAX,
    ensures
        t == pow3(n as nat),
{
    let mut t: usize = 1;
    let mut j: usize = 0;
    while j < n
        invariant
            j <= n,
            t == pow3(j as nat),
            pow3(n as nat) <= usize::MAX,
        decreases n - j,
    {
        proof {
            lemma_pow3_mono((j + 1) as nat, n as nat);
        }
        t = t * 3;
        j += 1;
    }
    t
}

/// The delta vector for enumeration index `i`, as `isize` components.
fn trit_deltas(i: usize, n: usize) -> (ds: Vec<isize>)
    ensures
        ds@.len() == n,
        to_ints(ds@) == trits(i as int, n as nat),
{
    broadcast use lemma_trits_len, lemma_pow3_pos;

    let mut ds: Vec<isize> = Vec::new();
    let mut j: usize = 0;
    while j < n
        invariant
            j <= n,
            ds@.len() == j,
        decreases n - j,
    {
        ds.push(0);
        j += 1;
    }
    let mut t: usize = i;
    proof {
        lemma_div_multiples_vanish(i as int, 1);
    }
    let mut j: usize = 0;
    while j < n
        invariant
            j <= n,
            ds@.len() == n,
            t as int == i as int / pow3(j as nat) as int,
            forall|m: int|
                n - j <= m < n ==> #[trigger] ds@[m] as int == (i as int / pow3(
                    (n - 1 - m) as nat,
                ) as int) % 3 - 1,
        decreases n - j,
    {
        let idx = n - 1 - j;
        let d: isize = (t % 3) as isize - 1;
        let slot = &mut ds[idx];
        *slot = d;
        proof {
            lemma_pow3_pos(j as nat);
            lemma_div_pos_is_pos(i as int, pow3(j as nat) as int);
            lemma_mod_division_less_than_divisor(t as int, 3);
            lemma_div_denominator(i as int, pow3(j as nat) as int, 3);
            assert(pow3((j + 1) as nat) == 3 * pow3(j as nat));
            assert(pow3(j as nat) as int * 3 == 3 * pow3(j as nat));
            assert((i as int / pow3(j as nat) as int) / 3 == i as int / pow3((j + 1) as nat) as int);
        }
        t = t / 3;
        j += 1;
    }
    proof {
        assert forall|m: int|
            0 <= m < n implies #[trigger] to_ints(ds@)[m] == trits(i as int, n as nat)[m] by {
            lemma_trits_index(i as int, n as nat, m);
        }
        assert(to_ints(ds@) =~= trits(i as int, n as nat));
    }
    ds
}

impl NDPoint {
    /// Every neighboring coordinate: each combination of {-1, 0, +1}
    /// applied across all axes except the all-zero combination, giving
    /// exactly `pow3(n) - 1` neighbors in lexicographic order with the
    /// last axis fastest-varying. The neighbors are pairwise distinct and
    /// none equals the point itself (`lemma_nd_neighbors_distinct`).
    pub fn neighbors(&self) -> (ns: Vec<NDPoint>)
        requires
            forall|m: int|
                0 <= m < self.coords@.len() ==> isize::MIN < #[trigger] self.coords@[m]
                    < isize::MAX,
            pow3(self.coords@.len() as nat) <= usize::MAX,
        ensures
            ns@.len() == pow3(self.coords@.len() as nat) - 1,
            forall|k: int|
                0 <= k < ns@.len() ==> to_ints(#[trigger] ns@[k].coords@) == offset_ints(
                    self.coords@,
                    trits(
                        nbr_index(k, self.coords@.len() as nat),
                        self.coords@.len() as nat,
                    ),
                ),
    {
        broadcast use lemma_trits_len, lemma_pow3_pos;

        let n = self.coords.len();
        let total = three_pow(n);
        let mid = (total - 1) / 2;
        proof {
            lemma_mid3_pow3(n as nat);
            assert((2 * mid3(n as nat) as int) / 2 == mid3(n as nat) as int) by {
                lemma_div_multiples_vanish(mid3(n as nat) as int, 2);
            }
        }
        let mut ns: Vec<NDPoint> = Vec::new();
        let mut i: usize = 0;
        while i < total
            invariant
                n == self.coords@.len(),
                forall|m: int|
                    0 <= m < n ==> isize::MIN < #[trigger] self.coords@[m] < isize::MAX,
                total == pow3(n as nat),
                mid == mid3(n as nat),
                2 * mid + 1 == total,
                i <= total,
                ns@.len() == if i <= mid {
                    i as int
                } else {
                    i - 1
                },
                forall|k: int|
                    0 <= k < ns@.len() ==> to_ints(#[trigger] ns@[k].coords@) == offset_ints(
                        self.coords@,
                        trits(nbr_index(k, n as nat), n as nat),
                    ),
            decreases total - i,
        {
            if i != mid {
                let ds = trit_deltas(i, n);
                proof {
                    lemma_trits_bounds(i as int, n as nat);
                    assert forall|m: int|
                        0 <= m < n implies isize::MIN <= #[trigger] self.coords@[m] + ds@[m]
                        <= isize::MAX by {
                        assert(ds@[m] as int == to_ints(ds@)[m]);
                        assert(-1 <= trits(i as int, n as nat)[m] <= 1);
                    }
                }
                let q = self.offset(ds.as_slice());
                ns.push(q);
                proof {
                    let k0 = ns@.len() - 1;
                    assert(nbr_index(k0, n as nat) == i as int);
                    assert forall|m: int|
                        0 <= m < n implies #[trigger] to_ints(q.coords@)[m] == offset_ints(
                        self.coords@,
                        trits(i as int, n as nat),
                    )[m] by {
                        assert(q.coords@[m] == self.coords@[m] + ds@[m]);
                        assert(ds@[m] as int == to_ints(ds@)[m]);
                    }
                    assert(to_ints(q.coords@) =~= offset_ints(
                        self.coords@,
                        trits(i as int, n as nat),
                    ));
                }
            }
            i += 1;
        }
        ns
    }
}

/// The neighbor deltas enumerate without repetition and never yield the
/// point itself: for distinct `k1` and `k2`, the two neighbor coordinate
/// vectors differ, and neither equals the original coordinates.
pub proof fn lemma_nd_neighbors_distinct(c: Seq<isize>, k1: int, k2: int)
    requires
        0 <= k1 < pow3(c.len()) - 1,
        0 <= k2 < pow3(c.len()) - 1,
        k1 != k2,
    ensures
        offset_ints(c, trits(nbr_index(k1, c.len()), c.len())) != offset_ints(
            c,
            trits(nbr_index(k2, c.len()), c.len()),
        ),
        offset_ints(c, trits(nbr_index(k1, c.len()), c.len())) != to_ints(c),
{
    broadcast use lemma_trits_len;

    let n = c.len();
    lemma_mid3_pow3(n);
    let i1 = nbr_index(k1, n);
    let i2 = nbr_index(k2, n);
    assert(0 <= i1 < pow3(n) && i1 != mid3(n));
    assert(0 <= i2 < pow3(n) && i2 != mid3(n));
    assert(i1 != i2);
    let d1 = trits(i1, n);
    let d2 = trits(i2, n);
    lemma_trits_injective(i1, i2, n);
    assert(exists|m: int| 0 <= m < n && d1[m] != d2[m]) by {
        if forall|m: int| 0 <= m < n ==> #[trigger] d1[m] == d2[m] {
            assert(d1 =~= d2);
            assert(false);
        }
    }
    let m0 = choose|m: int| 0 <= m < n && d1[m] != d2[m];
    assert(offset_ints(c, d1)[m0] != offset_ints(c, d2)[m0]);
    lemma_trits_zero(i1, n);
    assert(exists|m: int| 0 <= m < n && d1[m] != 0) by {
        if forall|m: int| 0 <= m < n ==> #[trigger] d1[m] == 0 {
            assert(d1 =~= zero_delta(n));
            assert(false);
        }
    }
    let m1 = choose|m: int| 0 <= m < n && d1[m] != 0;
    assert(offset_ints(c, d1)[m1] != to_ints(c)[m1]);
    assert(to_ints(c).len() == n);
}

} // verus!
