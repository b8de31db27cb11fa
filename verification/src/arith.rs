//! Floor division and remainder on machine integers.
//!
//! The `/` and `%` of signed machine integers round toward zero; the
//! calendar needs the quotient rounded down and a remainder that is never
//! negative, which is what `/` and `%` mean on `int` in specifications.

use vstd::arithmetic::div_mod::{lemma_fundamental_div_mod, lemma_fundamental_div_mod_converse};
use vstd::prelude::*;

verus! {

/// The quotient and remainder of a negative number by a positive one, from
/// those of its magnitude: where the magnitude leaves no remainder the
/// quotient changes its sign, and where it leaves one the quotient lies one
/// further down and the remainder is what is missing to the divisor. The
/// quotient is never below the number itself.
pub proof fn lemma_division_of_negative(a: int, b: int)
    requires
        a < 0,
        b > 0,
    ensures
        (-a) % b == 0 ==> a / b == -((-a) / b) && a % b == 0,
        (-a) % b != 0 ==> a / b == -((-a) / b) - 1 && a % b == b - (-a) % b,
        a <= a / b,
{
    let n = -a;
    let qn = n / b;
    let rn = n % b;
    lemma_fundamental_div_mod(n, b);
    assert(qn >= 0) by (nonlinear_arith)
        requires
            n == b * qn + rn,
            n > 0,
            b > 0,
            0 <= rn < b,
    ;
    if rn == 0 {
        assert(a == (-qn) * b + 0 && a <= -qn) by (nonlinear_arith)
            requires
                n == b * qn + rn,
                rn == 0,
                a == -n,
                qn >= 0,
                b > 0,
        ;
        lemma_fundamental_div_mod_converse(a, b, -qn, 0);
    } else {
        assert(a == (-qn - 1) * b + (b - rn) && a <= -qn - 1) by (nonlinear_arith)
            requires
                n == b * qn + rn,
                a == -n,
                qn >= 0,
                b > 0,
                0 < rn < b,
        ;
        lemma_fundamental_div_mod_converse(a, b, -qn - 1, b - rn);
    }
}

/// `a` divided by a positive `b`, rounded toward negative infinity.
pub fn div_floor(a: i128, b: i128) -> (q: i128)
    requires
        b > 0,
    ensures
        q == a as int / b as int,
{
    let q0: i128 = a / b;
    let r0: i128 = a % b;
    proof {
        if a < 0 {
            lemma_division_of_negative(a as int, b as int);
        }
    }
    if r0 < 0 {
        q0 - 1
    } else {
        q0
    }
}

/// The remainder of `a` by a positive `b` that goes with [`div_floor`]: it
/// lies in `0..b`.
pub fn mod_floor(a: i128, b: i128) -> (r: i128)
    requires
        b > 0,
    ensures
        r == a as int % b as int,
        0 <= r < b,
{
    let r0: i128 = a % b;
    proof {
        lemma_fundamental_div_mod(a as int, b as int);
        if a < 0 {
            lemma_division_of_negative(a as int, b as int);
        }
    }
    if r0 < 0 {
        r0 + b
    } else {
        r0
    }
}

} // verus!
