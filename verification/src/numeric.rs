//! Exact integer helpers: square roots and rounded quotients.

use vstd::arithmetic::div_mod::{lemma_fundamental_div_mod, lemma_fundamental_div_mod_converse};
use vstd::prelude::*;

verus! {

/// The integer square root: the largest `r` with `r * r <= n`.
pub open spec fn isqrt(n: nat) -> nat
    decreases n,
{
    if n == 0 {
        0
    } else {
        let r = isqrt((n - 1) as nat);
        if (r + 1) * (r + 1) <= n {
            r + 1
        } else {
            r
        }
    }
}

/// `isqrt(n)` squared does not exceed `n`, and the next square does.
pub proof fn lemma_isqrt_bounds(n: nat)
    ensures
        isqrt(n) * isqrt(n) <= n < (isqrt(n) + 1) * (isqrt(n) + 1),
    decreases n,
{
    let s = isqrt(n);
    if n > 0 {
        lemma_isqrt_bounds((n - 1) as nat);
        let r = isqrt((n - 1) as nat);
        if (r + 1) * (r + 1) <= n {
            assert(s * s <= n < (s + 1) * (s + 1)) by (nonlinear_arith)
                requires
                    s == r + 1,
                    (r + 1) * (r + 1) <= n,
                    n - 1 < (r + 1) * (r + 1),
            ;
        } else {
            assert(s * s <= n < (s + 1) * (s + 1)) by (nonlinear_arith)
                requires
                    s == r,
                    r * r <= n - 1,
                    !((r + 1) * (r + 1) <= n),
            ;
        }
    } else {
        assert(s * s <= n < (s + 1) * (s + 1)) by (nonlinear_arith)
            requires
                s == 0,
                n == 0,
        ;
    }
}

/// Only one number lies between the two squares.
pub proof fn lemma_isqrt_unique(n: nat, r: nat)
    requires
        r * r <= n < (r + 1) * (r + 1),
    ensures
        r == isqrt(n),
{
    lemma_isqrt_bounds(n);
    let s = isqrt(n);
    assert(r == s) by (nonlinear_arith)
        requires
            r * r <= n < (r + 1) * (r + 1),
            s * s <= n < (s + 1) * (s + 1),
    ;
}

/// The integer square root of `n`, by bisection.
pub fn integer_sqrt(n: u128) -> (r: u128)
    ensures
        r == isqrt(n as nat),
        r < 0x1_0000_0000_0000_0000,
{
    let mut lo: u128 = 0;
    let mut hi: u128 = 0x1_0000_0000_0000_0000;
    assert(n < hi * hi) by (nonlinear_arith)
        requires
            hi == 0x1_0000_0000_0000_0000,
            n <= u128::MAX,
    ;
    while hi - lo > 1
        invariant
            lo < hi <= 0x1_0000_0000_0000_0000,
            lo * lo <= n < hi * hi,
        decreases hi - lo,
    {
        let mid: u128 = lo + (hi - lo) / 2;
        assert(mid * mid <= 0xffff_ffff_ffff_ffff * 0xffff_ffff_ffff_ffff) by (nonlinear_arith)
            requires
                mid <= 0xffff_ffff_ffff_ffff,
        ;
        if mid * mid <= n {
            lo = mid;
        } else {
            hi = mid;
        }
    }
    proof {
        lemma_isqrt_unique(n as nat, lo as nat);
    }
    lo
}

/// The quotient `n / d` rounded to the nearest whole number, a half rounding
/// up. The divisor may have either sign but is not zero.
pub open spec fn round_div(n: int, d: int) -> int {
    if d > 0 {
        (2 * n + d) / (2 * d)
    } else {
        (-2 * n - d) / (-2 * d)
    }
}

/// A quotient that is a whole number is its own rounding.
pub proof fn lemma_round_div_exact(q: int, d: int)
    requires
        d != 0,
    ensures
        round_div(q * d, d) == q,
{
    if d > 0 {
        assert(2 * (q * d) + d == q * (2 * d) + d) by (nonlinear_arith);
        lemma_fundamental_div_mod_converse(2 * (q * d) + d, 2 * d, q, d);
    } else {
        assert(-2 * (q * d) - d == q * (-2 * d) + (-d)) by (nonlinear_arith);
        lemma_fundamental_div_mod_converse(-2 * (q * d) - d, -2 * d, q, -d);
    }
}

/// The largest magnitude of a dividend that [`rounded_quotient`] accepts.
pub const DIVIDEND_MAX: i128 = 0x1_0000_0000_0000_0000_0000_0000_0000;

/// The largest magnitude of a divisor that [`rounded_quotient`] accepts.
pub const DIVISOR_MAX: i128 = 0x1_0000_0000_0000_0000_0000;

/// `n / d` rounded to the nearest whole number: see [`round_div`].
#[verifier::rlimit(40)]
pub(crate) fn rounded_quotient(n: i128, d: i128) -> (q: i128)
    requires
        d != 0,
        -DIVIDEND_MAX <= n <= DIVIDEND_MAX,
        -DIVISOR_MAX <= d <= DIVISOR_MAX,
    ensures
        q == round_div(n as int, d as int),
        -4 * DIVIDEND_MAX <= q <= 4 * DIVIDEND_MAX,
{
    assert(DIVIDEND_MAX == 0x1_0000_0000_0000_0000_0000_0000_0000);
    assert(DIVISOR_MAX == 0x1_0000_0000_0000_0000_0000);
    let twice: i128 = 2 * n;
    let num: i128 = if d > 0 {
        twice + d
    } else {
        -twice - d
    };
    let den: i128 = if d > 0 {
        2 * d
    } else {
        -(2 * d)
    };
    proof {
        lemma_fundamental_div_mod(num as int, den as int);
        let whole = (num as int) / (den as int);
        assert(whole >= 0 ==> den * whole >= whole) by (nonlinear_arith)
            requires
                den >= 1,
        ;
        assert(whole < 0 ==> den * whole <= whole) by (nonlinear_arith)
            requires
                den >= 1,
        ;
    }
    if num >= 0 {
        ((num as u128) / (den as u128)) as i128
    } else {
        let up: u128 = ((-num) as u128) + (den as u128) - 1;
        let c: u128 = up / (den as u128);
        proof {
            lemma_fundamental_div_mod(up as int, den as int);
            let rest = (up as int) % (den as int);
            assert(num == (-(c as int)) * den + (den - 1 - rest)) by (nonlinear_arith)
                requires
                    up == -num + den - 1,
                    up == den * (c as int) + rest,
            ;
            lemma_fundamental_div_mod_converse(
                num as int,
                den as int,
                -(c as int),
                den - 1 - rest,
            );
        }
        -(c as i128)
    }
}

} // verus!
