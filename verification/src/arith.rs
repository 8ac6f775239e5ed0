//! Integer helpers of the sieves: a rounded-up quotient and a rounded-down
//! square root, both free of overflow on every input.

use vstd::prelude::*;
use vstd::arithmetic::div_mod::{lemma_fundamental_div_mod, lemma_fundamental_div_mod_converse};
use crate::primes::{floor_sqrt, lemma_floor_sqrt_unique};

verus! {

/// `numerator / denominator`, rounded up.
pub open spec fn div_ceil(numerator: int, denominator: int) -> int {
    (numerator + denominator - 1) / denominator
}

/// The rounded-up quotient `q` is the least number of `denominator`s that
/// reach `numerator`.
pub proof fn lemma_div_ceil(numerator: int, denominator: int)
    requires
        0 <= numerator,
        0 < denominator,
    ensures
        div_ceil(numerator, denominator) == numerator / denominator + if numerator % denominator
            == 0 {
            0int
        } else {
            1int
        },
        (div_ceil(numerator, denominator) - 1) * denominator < numerator,
        numerator <= div_ceil(numerator, denominator) * denominator,
        0 <= div_ceil(numerator, denominator) <= numerator,
{
    let n = numerator;
    let d = denominator;
    let q = n / d;
    let r = n % d;
    lemma_fundamental_div_mod(n, d);
    assert(0 <= q <= n) by (nonlinear_arith)
        requires
            n == d * q + r,
            0 <= r < d,
            0 <= n,
    ;
    if r == 0 {
        assert(n + d - 1 == q * d + (d - 1)) by (nonlinear_arith)
            requires
                n == d * q + r,
                r == 0,
        ;
        lemma_fundamental_div_mod_converse(n + d - 1, d, q, d - 1);
        assert((q - 1) * d < n) by (nonlinear_arith)
            requires
                n == d * q + r,
                r == 0,
                d > 0,
        ;
        assert(n <= q * d) by (nonlinear_arith)
            requires
                n == d * q + r,
                r == 0,
        ;
    } else {
        assert(n + d - 1 == (q + 1) * d + (r - 1)) by (nonlinear_arith)
            requires
                n == d * q + r,
        ;
        lemma_fundamental_div_mod_converse(n + d - 1, d, q + 1, r - 1);
        assert(q * d < n) by (nonlinear_arith)
            requires
                n == d * q + r,
                r > 0,
        ;
        assert(n <= (q + 1) * d) by (nonlinear_arith)
            requires
                n == d * q + r,
                r < d,
        ;
        assert(q + 1 <= n) by (nonlinear_arith)
            requires
                n == d * q + r,
                r > 0,
                d >= 1,
                q >= 0,
        ;
    }
}

/// The quotient of `numerator` by `denominator`, rounded up.
pub fn usize_div_ceil(numerator: usize, denominator: usize) -> (quotient: usize)
    requires
        denominator > 0,
    ensures
        quotient == div_ceil(numerator as int, denominator as int),
{
    proof {
        lemma_div_ceil(numerator as int, denominator as int);
    }
    let whole = numerator / denominator;
    if numerator % denominator == 0 {
        whole
    } else {
        whole + 1
    }
}

/// The square root of `n`, rounded down.
pub fn integer_sqrt(n: usize) -> (root: usize)
    ensures
        root == floor_sqrt(n as int),
        root * root <= n < (root + 1) * (root + 1),
{
    if n < 2 {
        proof {
            assert(n * n <= n < (n + 1) * (n + 1)) by (nonlinear_arith)
                requires
                    0 <= n < 2,
            ;
            lemma_floor_sqrt_unique(n as int, n as int);
        }
        return n;
    }
    let mut low: usize = 1;
    let mut high: usize = n;
    proof {
        assert(n < n * n) by (nonlinear_arith)
            requires
                n >= 2,
        ;
    }
    while high - low > 1
        invariant
            1 <= low < high <= n,
            low * low <= n < high * high,
        decreases high - low,
    {
        let middle: usize = low + (high - low) / 2;
        let fits = match middle.checked_mul(middle) {
            Some(square) => square <= n,
            None => false,
        };
        if fits {
            low = middle;
        } else {
            high = middle;
        }
    }
    proof {
        lemma_floor_sqrt_unique(low as int, n as int);
    }
    low
}

} // verus!
