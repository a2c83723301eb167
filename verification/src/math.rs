//! Elementary number-theory helpers: primality, greatest common divisor,
//! least common multiple, factorials, binomial coefficients, and integer
//! exponentiation.

pub mod matrix;

use vstd::prelude::*;

verus! {

use crate::num::{div_trunc, iabs, idiv};
use vstd::arithmetic::div_mod::{
    lemma_div_decreases, lemma_div_multiples_vanish, lemma_fundamental_div_mod,
    lemma_mod_division_less_than_divisor, lemma_mod_multiples_basic,
};

/// Primality of a mathematical integer: at least 2, with no divisor
/// strictly between 1 and itself.
pub open spec fn is_prime_spec(n: int) -> bool {
    n >= 2 && forall|d: int| 2 <= d < n ==> #[trigger] (n % d) != 0
}

/// The greatest common divisor of two nonnegative integers, by Euclid's
/// rule.
pub open spec fn spec_gcd(a: nat, b: nat) -> nat
    decreases b,
{
    if b == 0 {
        a
    } else {
        spec_gcd(b, (a % b) as nat)
    }
}

/// The factorial of a nonnegative integer.
pub open spec fn spec_factorial(n: nat) -> nat
    decreases n,
{
    if n == 0 {
        1
    } else {
        n * spec_factorial((n - 1) as nat)
    }
}

/// The binomial coefficient, by Pascal's rule.
pub open spec fn spec_binom(n: nat, k: nat) -> nat
    decreases n, k,
{
    if k == 0 {
        1
    } else if k > n {
        0
    } else {
        spec_binom((n - 1) as nat, (k - 1) as nat) + spec_binom((n - 1) as nat, k)
    }
}

/// An integer power with a nonnegative exponent.
pub open spec fn spec_pow(b: int, e: nat) -> int
    decreases e,
{
    if e == 0 {
        1
    } else {
        b * spec_pow(b, (e - 1) as nat)
    }
}

/// Whether the squaring-and-halving evaluation of `pow` stays within
/// `isize` at every step when started from accumulator `res`, base `b`
/// and exponent `e`.
pub open spec fn pow_steps_ok(res: int, b: int, e: int) -> bool
    decreases e,
{
    if e <= 0 {
        true
    } else {
        let res2 = if e % 2 == 1 {
            res * b
        } else {
            res
        };
        &&& (e % 2 == 1 ==> isize::MIN <= res * b <= isize::MAX)
        &&& isize::MIN <= b * b <= isize::MAX
        &&& pow_steps_ok(res2, b * b, e / 2)
    }
}

/// A divisor of a divisor divides the original number.
proof fn lemma_divisor_transitive(n: int, d: int, p: int)
    requires
        d > 0,
        p > 0,
        n >= 0,
        n % d == 0,
        d % p == 0,
    ensures
        n % p == 0,
{
    lemma_fundamental_div_mod(n, d);
    lemma_fundamental_div_mod(d, p);
    let q = n / d;
    let m = d / p;
    assert(n == (m * q) * p) by (nonlinear_arith)
        requires
            n == d * q,
            d == p * m,
    ;
    lemma_mod_multiples_basic(m * q, p);
    assert((m * q) * p == p * (m * q)) by (nonlinear_arith);
}

/// A composite number has a divisor no larger than its square root.
proof fn lemma_small_divisor(n: int, d: int)
    requires
        n >= 2,
        2 <= d < n,
        n % d == 0,
    ensures
        exists|e: int| 2 <= e && #[trigger] (e * e) <= n && n % e == 0,
{
    lemma_fundamental_div_mod(n, d);
    let q = n / d;
    assert(q >= 1) by (nonlinear_arith)
        requires
            n == d * q + n % d,
            n % d == 0,
            n >= 2,
            d >= 2,
    ;
    if d * d <= n {
        assert(2 <= d && d * d <= n && n % d == 0);
    } else {
        assert(q * q <= n) by (nonlinear_arith)
            requires
                n == d * q,
                d * d > n,
                q >= 1,
                d >= 2,
        ;
        assert(q >= 2) by (nonlinear_arith)
            requires
                n == d * q,
                q >= 1,
                d < n,
                n % d == 0,
        ;
        assert(n % q == 0) by {
            assert(n == q * d) by (nonlinear_arith)
                requires
                    n == d * q,
            ;
            lemma_mod_multiples_basic(d, q);
            assert(d * q == q * d) by (nonlinear_arith);
        }
        assert(2 <= q && q * q <= n && n % q == 0);
    }
}

/// Whether `n` is prime. The wheel skips multiples of 2 and 3 and probes
/// candidate divisors up to the square root.
pub fn is_prime(n: isize) -> (r: bool)
    ensures
        r == is_prime_spec(n as int),
{
    if n < 2 {
        return false;
    }
    if n == 2 || n == 3 {
        proof {
            assert forall|d: int| 2 <= d < n as int implies #[trigger] (n as int % d) != 0 by {
                assert(d == 2 && n == 3);
            }
        }
        return true;
    }
    if n % 2 == 0 {
        proof {
            assert(n as int % 2 == 0);
        }
        return false;
    }
    if n % 3 == 0 {
        proof {
            assert(n as int % 3 == 0);
        }
        return false;
    }
    let mut i: isize = 5;
    proof {
        assert forall|d: int| 2 <= d < 5 implies #[trigger] (n as int % d) != 0 by {
            if d == 4 && n as int % 4 == 0 {
                lemma_divisor_transitive(n as int, 4, 2);
            }
        }
    }
    while i <= n / i
        invariant
            n >= 5,
            n as int % 2 != 0,
            n as int % 3 != 0,
            5 <= i,
            i as int % 6 == 5,
            forall|d: int| 2 <= d < i ==> #[trigger] (n as int % d) != 0,
        decreases n - i,
    {
        proof {
            lemma_fundamental_div_mod(n as int, i as int);
            lemma_mod_division_less_than_divisor(n as int, i as int);
            assert((n as int / i as int) * i as int <= n as int) by (nonlinear_arith)
                requires
                    n as int == i as int * (n as int / i as int) + n as int % i as int,
                    n as int % i as int >= 0,
            ;
            assert(i as int * i as int <= n as int) by (nonlinear_arith)
                requires
                    i as int <= n as int / i as int,
                    i >= 5,
                    (n as int / i as int) * i as int <= n as int,
            ;
            assert(i + 2 < n) by (nonlinear_arith)
                requires
                    i >= 5,
                    i as int * i as int <= n as int,
            ;
        }
        if n % i == 0 {
            proof {
                assert(n as int % i as int == 0);
            }
            return false;
        }
        if n % (i + 2) == 0 {
            proof {
                assert(n as int % (i + 2) == 0);
            }
            return false;
        }
        proof {
            assert forall|d: int| 2 <= d < i + 6 implies #[trigger] (n as int % d) != 0 by {
                if d >= i {
                    if d == i || d == i + 2 {
                    } else if d % 2 == 0 {
                        if n as int % d == 0 {
                            lemma_divisor_transitive(n as int, d, 2);
                        }
                    } else {
                        assert(d == i + 4 || d == i + 1 || d == i + 3 || d == i + 5);
                        assert(d % 2 != 0 ==> d == i + 4);
                        assert(d == i + 4 ==> d % 3 == 0);
                        if n as int % d == 0 {
                            lemma_divisor_transitive(n as int, d, 3);
                        }
                    }
                }
            }
        }
        i += 6;
    }
    proof {
        lemma_fundamental_div_mod(n as int, i as int);
        lemma_mod_division_less_than_divisor(n as int, i as int);
        assert(i as int * i as int > n as int) by (nonlinear_arith)
            requires
                i as int > n as int / i as int,
                i >= 5,
                n as int == i as int * (n as int / i as int) + n as int % i as int,
                n as int % i as int >= 0,
                (n as int % i as int) < i as int,
        ;
        assert forall|d: int| 2 <= d < n as int implies #[trigger] (n as int % d) != 0 by {
            if n as int % d == 0 {
                lemma_small_divisor(n as int, d);
                let e = choose|e: int| 2 <= e && #[trigger] (e * e) <= n as int && n as int % e
                    == 0;
                assert(e < i) by (nonlinear_arith)
                    requires
                        e * e <= n as int,
                        i as int * i as int > n as int,
                        e >= 2,
                        i >= 5,
                ;
            }
        }
    }
    true
}

/// The greatest common divisor of the magnitudes of `a` and `b`, by
/// Euclid's algorithm.
pub fn gcd(a: isize, b: isize) -> (r: isize)
    requires
        a != isize::MIN,
        b != isize::MIN,
    ensures
        r == spec_gcd(iabs(a as int) as nat, iabs(b as int) as nat),
{
    let mut x = if a < 0 {
        -a
    } else {
        a
    };
    let mut y = if b < 0 {
        -b
    } else {
        b
    };
    while y != 0
        invariant
            x >= 0,
            y >= 0,
            spec_gcd(x as nat, y as nat) == spec_gcd(
                iabs(a as int) as nat,
                iabs(b as int) as nat,
            ),
        decreases y,
    {
        let tmp = y;
        proof {
            lemma_mod_division_less_than_divisor(x as int, y as int);
        }
        y = x % y;
        x = tmp;
    }
    x
}

/// The greatest common divisor of nonzero inputs is positive.
pub proof fn lemma_gcd_pos(a: nat, b: nat)
    requires
        a > 0 || b > 0,
    ensures
        spec_gcd(a, b) > 0,
    decreases b,
{
    if b > 0 {
        lemma_mod_division_less_than_divisor(a as int, b as int);
        lemma_gcd_pos(b, (a as int % b as int) as nat);
    }
}

/// The least common multiple, computed as `(a / gcd(a, b)) * b` with
/// truncating division; the result carries the signs of the inputs.
pub fn lcm(a: isize, b: isize) -> (r: isize)
    requires
        a != isize::MIN,
        b != isize::MIN,
        !(a == 0 && b == 0),
        isize::MIN <= div_trunc(a as int, spec_gcd(iabs(a as int) as nat, iabs(b as int) as nat) as int)
            * b <= isize::MAX,
    ensures
        r as int == div_trunc(
            a as int,
            spec_gcd(iabs(a as int) as nat, iabs(b as int) as nat) as int,
        ) * b,
{
    let g = gcd(a, b);
    proof {
        lemma_gcd_pos(iabs(a as int) as nat, iabs(b as int) as nat);
    }
    let q = idiv(a, g);
    q * b
}

/// Each factorial is at least 1, and factorials grow with their
/// argument.
pub proof fn lemma_factorial_monotone(a: nat, b: nat)
    requires
        a <= b,
    ensures
        1 <= spec_factorial(a) <= spec_factorial(b),
    decreases b,
{
    if b > 0 {
        if a <= b - 1 {
            lemma_factorial_monotone(a, (b - 1) as nat);
            assert(spec_factorial(b) == b * spec_factorial((b - 1) as nat));
            assert(b * spec_factorial((b - 1) as nat) >= 1 * spec_factorial((b - 1) as nat))
                by (nonlinear_arith)
                requires
                    b >= 1,
                    spec_factorial((b - 1) as nat) >= 1,
            ;
        } else {
            lemma_factorial_monotone((b - 1) as nat, (b - 1) as nat);
            assert(spec_factorial(b) == b * spec_factorial((b - 1) as nat));
            assert(b * spec_factorial((b - 1) as nat) >= 1 * spec_factorial((b - 1) as nat))
                by (nonlinear_arith)
                requires
                    b >= 1,
                    spec_factorial((b - 1) as nat) >= 1,
            ;
        }
    }
}

/// The product of 1 through `n`. Only defined for nonnegative `n`; the
/// result must be representable.
pub fn factorial(n: isize) -> (r: isize)
    requires
        n >= 0,
        spec_factorial(n as nat) <= isize::MAX,
    ensures
        r == spec_factorial(n as nat),
{
    let mut acc: isize = 1;
    let mut j: isize = 0;
    while j < n
        invariant
            0 <= j <= n,
            acc == spec_factorial(j as nat),
            spec_factorial(n as nat) <= isize::MAX,
        decreases n - j,
    {
        proof {
            lemma_factorial_monotone((j + 1) as nat, n as nat);
            lemma_factorial_monotone(j as nat, n as nat);
            assert(spec_factorial((j + 1) as nat) == (j + 1) * spec_factorial(j as nat));
            assert(acc * (j + 1) == (j + 1) * spec_factorial(j as nat)) by (nonlinear_arith)
                requires
                    acc == spec_factorial(j as nat),
            ;
        }
        acc = acc * (j + 1);
        j += 1;
    }
    acc
}

proof fn lemma_binom_edge(n: nat)
    ensures
        spec_binom(n, n) == 1,
        spec_binom(n, 0) == 1,
    decreases n,
{
    if n > 0 {
        lemma_binom_edge((n - 1) as nat);
        assert(spec_binom((n - 1) as nat, n) == 0);
        assert(spec_binom(n, n) == spec_binom((n - 1) as nat, (n - 1) as nat) + spec_binom(
            (n - 1) as nat,
            n,
        ));
    }
}

/// The absorption identity: `k * C(n, k) == n * C(n-1, k-1)`.
proof fn lemma_binom_absorb(n: nat, k: nat)
    requires
        1 <= k <= n,
    ensures
        k * spec_binom(n, k) == n * spec_binom((n - 1) as nat, (k - 1) as nat),
    decreases n,
{
    let n1 = (n - 1) as nat;
    let k1 = (k - 1) as nat;
    if k == n {
        lemma_binom_edge(n);
        lemma_binom_edge(n1);
        assert(k * spec_binom(n, k) == k) by (nonlinear_arith)
            requires
                spec_binom(n, k) == 1,
        ;
        assert(n * spec_binom(n1, k1) == n) by (nonlinear_arith)
            requires
                spec_binom(n1, k1) == 1,
        ;
    } else if k == 1 {
        lemma_binom_n_one(n);
        lemma_binom_edge(n1);
        assert(k * spec_binom(n, k) == spec_binom(n, k)) by (nonlinear_arith)
            requires
                k == 1,
        ;
        assert(n * spec_binom(n1, k1) == n) by (nonlinear_arith)
            requires
                spec_binom(n1, k1) == 1,
        ;
    } else {
        lemma_binom_absorb(n1, k1);
        lemma_binom_absorb(n1, k);
        assert(k * spec_binom(n, k) == k * spec_binom(n1, k1) + k * spec_binom(n1, k))
            by (nonlinear_arith)
            requires
                spec_binom(n, k) == spec_binom(n1, k1) + spec_binom(n1, k),
        ;
        assert(k * spec_binom(n1, k1) == (k - 1) * spec_binom(n1, k1) + spec_binom(n1, k1))
            by (nonlinear_arith);
        let n2 = (n - 2) as nat;
        let k2 = (k - 2) as nat;
        assert((k - 1) * spec_binom(n1, k1) == n1 * spec_binom(n2, k2));
        assert(k * spec_binom(n1, k) == n1 * spec_binom(n2, k1));
        assert(n1 * spec_binom(n2, k2) + n1 * spec_binom(n2, k1) == n1 * (spec_binom(n2, k2)
            + spec_binom(n2, k1))) by (nonlinear_arith);
        assert(spec_binom(n1, k1) == spec_binom(n2, k2) + spec_binom(n2, k1));
        assert(n1 * spec_binom(n1, k1) + spec_binom(n1, k1) == n * spec_binom(n1, k1))
            by (nonlinear_arith)
            requires
                n1 == n - 1,
        ;
    }
}

proof fn lemma_binom_n_one(n: nat)
    requires
        n >= 1,
    ensures
        spec_binom(n, 1) == n,
    decreases n,
{
    if n > 1 {
        lemma_binom_n_one((n - 1) as nat);
        assert(spec_binom((n - 1) as nat, 0) == 1);
        assert(spec_binom(n, 1) == spec_binom((n - 1) as nat, 0) + spec_binom((n - 1) as nat, 1));
    } else {
        assert(spec_binom(1nat, 1nat) == spec_binom(0nat, 0nat) + spec_binom(0nat, 1nat));
        assert(spec_binom(0nat, 0nat) == 1);
        assert(spec_binom(0nat, 1nat) == 0);
    }
}

/// The complement absorption identity: `(n-k) * C(n, k) == n * C(n-1, k)`.
proof fn lemma_binom_absorb_comp(n: nat, k: nat)
    requires
        k < n,
    ensures
        (n - k) * spec_binom(n, k) == n * spec_binom((n - 1) as nat, k),
    decreases n,
{
    let n1 = (n - 1) as nat;
    if k == 0 {
        lemma_binom_edge(n);
        lemma_binom_edge(n1);
        assert((n - k) * spec_binom(n, k) == n) by (nonlinear_arith)
            requires
                k == 0,
                spec_binom(n, k) == 1,
        ;
        assert(n * spec_binom(n1, k) == n) by (nonlinear_arith)
            requires
                spec_binom(n1, k) == 1,
        ;
    } else if k == n - 1 {
        lemma_binom_n_nm1(n);
        lemma_binom_edge(n1);
        assert((n - k) * spec_binom(n, k) == spec_binom(n, k)) by (nonlinear_arith)
            requires
                n - k == 1,
        ;
        assert(n * spec_binom(n1, k) == n) by (nonlinear_arith)
            requires
                spec_binom(n1, k) == 1,
        ;
    } else {
        let k1 = (k - 1) as nat;
        let n2 = (n - 2) as nat;
        lemma_binom_absorb_comp(n1, k1);
        lemma_binom_absorb_comp(n1, k);
        assert((n - k) * spec_binom(n, k) == (n - k) * spec_binom(n1, k1) + (n - k) * spec_binom(
            n1,
            k,
        )) by (nonlinear_arith)
            requires
                spec_binom(n, k) == spec_binom(n1, k1) + spec_binom(n1, k),
        ;
        assert((n - k) * spec_binom(n1, k1) == (n1 - k1) * spec_binom(n1, k1))
            by (nonlinear_arith)
            requires
                n1 == n - 1,
                k1 == k - 1,
        ;
        assert((n - k) * spec_binom(n1, k) == (n1 - k) * spec_binom(n1, k) + spec_binom(n1, k))
            by (nonlinear_arith)
            requires
                n1 == n - 1,
        ;
        assert((n1 - k1) * spec_binom(n1, k1) == n1 * spec_binom(n2, k1));
        assert((n1 - k) * spec_binom(n1, k) == n1 * spec_binom(n2, k));
        assert(n1 * spec_binom(n2, k1) + n1 * spec_binom(n2, k) == n1 * (spec_binom(n2, k1)
            + spec_binom(n2, k))) by (nonlinear_arith);
        assert(spec_binom(n1, k) == spec_binom(n2, k1) + spec_binom(n2, k));
        assert(n1 * spec_binom(n1, k) + spec_binom(n1, k) == n * spec_binom(n1, k))
            by (nonlinear_arith)
            requires
                n1 == n - 1,
        ;
    }
}

proof fn lemma_binom_n_nm1(n: nat)
    requires
        n >= 1,
    ensures
        spec_binom(n, (n - 1) as nat) == n,
    decreases n,
{
    if n > 1 {
        lemma_binom_n_nm1((n - 1) as nat);
        lemma_binom_edge((n - 1) as nat);
    }
}

/// The stepping identity behind the multiplicative evaluation:
/// `(k+1) * C(n, k+1) == (n-k) * C(n, k)`.
proof fn lemma_binom_step(n: nat, k: nat)
    requires
        k < n,
    ensures
        (k + 1) * spec_binom(n, (k + 1) as nat) == (n - k) * spec_binom(n, k),
{
    lemma_binom_absorb(n, (k + 1) as nat);
    lemma_binom_absorb_comp(n, k);
}

/// The number of `k`-element subsets of an `n`-element set; 0 when `k`
/// is negative or exceeds `n`. Every intermediate product must be
/// representable.
pub fn n_choose_k(n: isize, k: isize) -> (r: isize)
    requires
        0 <= k <= n ==> forall|i: int|
            1 <= i <= k ==> #[trigger] spec_binom(n as nat, (i - 1) as nat) * (n - i + 1)
                <= isize::MAX,
    ensures
        0 <= k <= n ==> r == spec_binom(n as nat, k as nat),
        !(0 <= k <= n) ==> r == 0,
{
    if k < 0 || k > n {
        return 0;
    }
    let mut acc: isize = 1;
    let mut done: isize = 0;
    proof {
        lemma_binom_edge(n as nat);
    }
    while done < k
        invariant
            0 <= k <= n,
            0 <= done <= k,
            acc == spec_binom(n as nat, done as nat),
            forall|j: int|
                1 <= j <= k ==> #[trigger] spec_binom(n as nat, (j - 1) as nat) * (n - j + 1)
                    <= isize::MAX,
        decreases k - done,
    {
        let i = done + 1;
        proof {
            lemma_binom_step(n as nat, (i - 1) as nat);
            assert(spec_binom(n as nat, (i - 1) as nat) * (n - i + 1) <= isize::MAX);
            assert(acc * (n - i + 1) == spec_binom(n as nat, (i - 1) as nat) * (n as int - i + 1))
                by (nonlinear_arith)
                requires
                    acc == spec_binom(n as nat, (i - 1) as nat),
            ;
            assert(i * spec_binom(n as nat, i as nat) == (n - i + 1) * spec_binom(
                n as nat,
                (i - 1) as nat,
            ));
            assert((n - i + 1) * spec_binom(n as nat, (i - 1) as nat) == spec_binom(
                n as nat,
                (i - 1) as nat,
            ) * (n - i + 1)) by (nonlinear_arith);
            assert(acc * (n - i + 1) >= 0) by (nonlinear_arith)
                requires
                    acc >= 0,
                    n - i + 1 >= 0,
            ;
            lemma_div_multiples_vanish(spec_binom(n as nat, i as nat) as int, i as int);
            assert(i as int * spec_binom(n as nat, i as nat) == spec_binom(n as nat, i as nat)
                * i as int) by (nonlinear_arith);
        }
        acc = acc * (n - i + 1) / i;
        done = i;
    }
    acc
}

proof fn lemma_pow_square(b: int, m: nat)
    ensures
        spec_pow(b, 2 * m) == spec_pow(b * b, m),
    decreases m,
{
    if m > 0 {
        lemma_pow_square(b, (m - 1) as nat);
        assert(spec_pow(b, (2 * m - 1) as nat) == b * spec_pow(b, (2 * m - 2) as nat));
        assert(spec_pow(b, 2 * m) == b * spec_pow(b, (2 * m - 1) as nat));
        assert(spec_pow(b, 2 * m) == b * (b * spec_pow(b, (2 * m - 2) as nat)));
        assert(spec_pow(b * b, m) == (b * b) * spec_pow(b * b, (m - 1) as nat));
        assert(b * (b * spec_pow(b, (2 * m - 2) as nat)) == (b * b) * spec_pow(
            b,
            (2 * m - 2) as nat,
        )) by (nonlinear_arith);
    }
}

/// `base` raised to `exp` by squaring and halving. The exponent must be
/// nonnegative and every intermediate product representable, squarings
/// included, exactly as the evaluation performs them.
pub fn pow(base: isize, exp: isize) -> (r: isize)
    requires
        exp >= 0,
        pow_steps_ok(1, base as int, exp as int),
    ensures
        r == spec_pow(base as int, exp as nat),
{
    let mut result: isize = 1;
    let mut b = base;
    let mut e = exp;
    while e > 0
        invariant
            e >= 0,
            pow_steps_ok(result as int, b as int, e as int),
            result as int * spec_pow(b as int, e as nat) == spec_pow(base as int, exp as nat),
        decreases e,
    {
        proof {
            lemma_fundamental_div_mod(e as int, 2);
            lemma_mod_division_less_than_divisor(e as int, 2);
            lemma_div_decreases(e as int, 2);
            lemma_pow_square(b as int, (e as int / 2) as nat);
            assert(pow_steps_ok(result as int, b as int, e as int));
            assert(e as int > 0);
            if e as int % 2 == 1 {
                assert(spec_pow(b as int, e as nat) == b as int * spec_pow(
                    b as int,
                    (e - 1) as nat,
                ));
                assert((e - 1) as nat == 2 * ((e as int / 2) as nat));
                assert((result * b) as int * spec_pow((b * b) as int, (e as int / 2) as nat)
                    == result as int * spec_pow(b as int, e as nat)) by (nonlinear_arith)
                    requires
                        spec_pow(b as int, e as nat) == b as int * spec_pow(
                            (b * b) as int,
                            (e as int / 2) as nat,
                        ),
                ;
            } else {
                assert(e as nat == 2 * ((e as int / 2) as nat));
            }
        }
        if e % 2 == 1 {
            result = result * b;
        }
        b = b * b;
        e = e / 2;
    }
    result
}

} // verus!
