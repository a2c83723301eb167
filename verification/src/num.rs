//! Truncating signed division and remainder, the arithmetic that the
//! coordinate types share.

use vstd::prelude::*;

verus! {

use vstd::arithmetic::div_mod::{
    lemma_div_is_ordered_by_denominator, lemma_div_nonincreasing, lemma_div_pos_is_pos,
    lemma_mod_division_less_than_divisor,
};

/// The absolute value of a mathematical integer.
pub open spec fn iabs(a: int) -> int {
    if a >= 0 {
        a
    } else {
        -a
    }
}

/// The quotient of Rust's `/` on signed integers: division that rounds
/// toward zero, written over the Euclidean `/` of specifications.
pub open spec fn div_trunc(a: int, b: int) -> int
    recommends
        b != 0,
{
    if a == 0 {
        0
    } else if a > 0 && b > 0 {
        a / b
    } else if a < 0 && b < 0 {
        (a * -1) / (b * -1)
    } else if a < 0 {
        ((a * -1) / b) * -1
    } else {
        (a / (b * -1)) * -1
    }
}

/// The remainder of Rust's `%` on signed integers: it takes the sign of the
/// dividend, and satisfies `a == b * div_trunc(a, b) + rem_trunc(a, b)`.
pub open spec fn rem_trunc(a: int, b: int) -> int
    recommends
        b != 0,
{
    if a == 0 {
        0
    } else if a > 0 && b > 0 {
        a % b
    } else if a < 0 && b < 0 {
        ((a * -1) % (b * -1)) * -1
    } else if a < 0 {
        ((a * -1) % b) * -1
    } else {
        a % (b * -1)
    }
}

/// The truncating quotient of `a` and `b` never exceeds `a` in magnitude,
/// so it stays representable whenever `a` does (barring `isize::MIN / -1`).
proof fn lemma_div_trunc_in_range(a: int, b: int)
    requires
        isize::MIN <= a <= isize::MAX,
        b != 0,
        !(a == isize::MIN && b == -1),
    ensures
        isize::MIN <= div_trunc(a, b) <= isize::MAX,
{
    if a == 0 {
    } else if a > 0 && b > 0 {
        lemma_div_pos_is_pos(a, b);
        lemma_div_nonincreasing(a, b);
    } else if a < 0 && b < 0 {
        lemma_div_pos_is_pos(a * -1, b * -1);
        if b == -1 {
            assert(a != isize::MIN);
            lemma_div_nonincreasing(a * -1, 1);
        } else {
            lemma_div_is_ordered_by_denominator(a * -1, 2, b * -1);
            lemma_div_nonincreasing(a * -1, 2);
        }
    } else if a < 0 {
        lemma_div_pos_is_pos(a * -1, b);
        if b == 1 {
            lemma_div_nonincreasing(a * -1, 1);
        } else {
            lemma_div_is_ordered_by_denominator(a * -1, 2, b);
            lemma_div_nonincreasing(a * -1, 2);
        }
    } else {
        lemma_div_pos_is_pos(a, b * -1);
        lemma_div_nonincreasing(a, b * -1);
    }
}

/// The truncating remainder is strictly smaller than `b` in magnitude and
/// shares the sign of `a`, so it is always representable.
proof fn lemma_rem_trunc_in_range(a: int, b: int)
    requires
        isize::MIN <= a <= isize::MAX,
        isize::MIN <= b <= isize::MAX,
        b != 0,
    ensures
        iabs(rem_trunc(a, b)) < iabs(b),
        a >= 0 ==> rem_trunc(a, b) >= 0,
        a <= 0 ==> rem_trunc(a, b) <= 0,
{
    if a == 0 {
    } else if a > 0 && b > 0 {
        lemma_mod_division_less_than_divisor(a, b);
    } else if a < 0 && b < 0 {
        lemma_mod_division_less_than_divisor(a * -1, b * -1);
    } else if a < 0 {
        lemma_mod_division_less_than_divisor(a * -1, b);
    } else {
        lemma_mod_division_less_than_divisor(a, b * -1);
    }
}

/// A truncating quotient by a positive divisor never exceeds the
/// dividend in magnitude.
pub proof fn lemma_div_trunc_magnitude(a: int, b: int)
    requires
        b >= 1,
    ensures
        iabs(div_trunc(a, b)) <= iabs(a),
{
    if a == 0 {
    } else if a > 0 {
        lemma_div_pos_is_pos(a, b);
        lemma_div_nonincreasing(a, b);
    } else {
        lemma_div_pos_is_pos(a * -1, b);
        lemma_div_nonincreasing(a * -1, b);
    }
}

/// Rust's truncating `/` on `isize`, with its exact value as the contract.
/// The two inputs that make native division fault are excluded: a zero
/// divisor, and the one overflowing quotient `isize::MIN / -1`.
pub fn idiv(a: isize, b: isize) -> (q: isize)
    requires
        b != 0,
        !(a == isize::MIN && b == -1),
    ensures
        q as int == div_trunc(a as int, b as int),
{
    proof {
        lemma_div_trunc_in_range(a as int, b as int);
    }
    a.checked_div(b).unwrap()
}

/// Rust's truncating `%` on `isize`, with its exact value as the contract.
pub fn irem(a: isize, b: isize) -> (m: isize)
    requires
        b != 0,
        !(a == isize::MIN && b == -1),
    ensures
        m as int == rem_trunc(a as int, b as int),
{
    proof {
        lemma_rem_trunc_in_range(a as int, b as int);
    }
    a.checked_rem(b).unwrap()
}

} // verus!
