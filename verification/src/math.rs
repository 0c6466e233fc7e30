//! Small integer helpers shared by the reaction engine: `gcd` and `lcm` on
//! `i64`, with the truncating remainder of Rust's `%`.
use vstd::arithmetic::div_mod::{
    lemma_fundamental_div_mod, lemma_fundamental_div_mod_converse_div,
    lemma_fundamental_div_mod_converse_mod,
};
use vstd::prelude::*;

verus! {

/// Absolute value of a mathematical integer.
pub open spec fn abs(x: int) -> int {
    if x < 0 {
        -x
    } else {
        x
    }
}

/// Rust's `%` on signed integers: the remainder takes the sign of the dividend.
pub open spec fn trunc_rem(a: int, b: int) -> int {
    if a >= 0 {
        abs(a) % abs(b)
    } else {
        -(abs(a) % abs(b))
    }
}

/// Rust's `/` on signed integers: the quotient is rounded towards zero.
pub open spec fn trunc_div(a: int, b: int) -> int {
    if (a >= 0) == (b >= 0) || a == 0 {
        abs(a) / abs(b)
    } else {
        -(abs(a) / abs(b))
    }
}

/// The Euclidean recursion `gcd(a, b) = gcd(b, a % b)`, `gcd(a, 0) = a`, with
/// Rust's truncating remainder.
pub open spec fn spec_gcd(a: int, b: int) -> int
    decreases abs(b),
{
    if b == 0 {
        a
    } else {
        proof {
            lemma_trunc_rem_smaller(a, b);
        }
        spec_gcd(b, trunc_rem(a, b))
    }
}

/// Whether the recursion of [`spec_gcd`] reaches `i64::MIN % -1`, the one
/// remainder that overflows (and panics) on `i64`.
pub open spec fn gcd_overflows(a: int, b: int) -> bool
    decreases abs(b),
{
    if b == 0 {
        false
    } else if a == i64::MIN && b == -1 {
        true
    } else {
        proof {
            lemma_trunc_rem_smaller(a, b);
        }
        gcd_overflows(b, trunc_rem(a, b))
    }
}

/// `d` is a positive divisor of `x`.
pub open spec fn divides(d: int, x: int) -> bool {
    d > 0 && x % d == 0
}

/// What `lcm(a, b)` returns: 0 when either is 0, else `a / gcd(a, b) * b`.
pub open spec fn spec_lcm(a: int, b: int) -> int {
    if a == 0 || b == 0 {
        0
    } else {
        trunc_div(a, spec_gcd(a, b)) * b
    }
}

/// Whether `lcm(a, b)` stays within `i64` (and so does not panic).
pub open spec fn lcm_fits(a: int, b: int) -> bool {
    a == 0 || b == 0 || {
        &&& !gcd_overflows(a, b)
        &&& !(a == i64::MIN && spec_gcd(a, b) == -1)
        &&& i64::MIN <= spec_lcm(a, b) <= i64::MAX
    }
}

pub proof fn lemma_trunc_rem_smaller(a: int, b: int)
    requires
        b != 0,
    ensures
        abs(trunc_rem(a, b)) < abs(b),
        b > 0 && a >= 0 ==> trunc_rem(a, b) == a % b,
        a >= 0 ==> trunc_rem(a, b) >= 0,
{
}

/// For non-negative arguments the recursion never overflows and stays non-negative.
pub proof fn lemma_gcd_nonneg(a: int, b: int)
    requires
        0 <= a <= i64::MAX,
        0 <= b <= i64::MAX,
    ensures
        !gcd_overflows(a, b),
        0 <= spec_gcd(a, b) <= i64::MAX,
        spec_gcd(a, b) == 0 <==> (a == 0 && b == 0),
        b > 0 ==> spec_gcd(a, b) <= b,
        a > 0 && b == 0 ==> spec_gcd(a, b) == a,
    decreases b,
{
    if b != 0 {
        lemma_trunc_rem_smaller(a, b);
        lemma_gcd_nonneg(b, trunc_rem(a, b));
    }
}

proof fn lemma_multiple_mod(d: int, k: int)
    requires
        d > 0,
    ensures
        (d * k) % d == 0,
{
    assert(d * k == k * d + 0) by (nonlinear_arith);
    lemma_fundamental_div_mod_converse_mod(d * k, d, k, 0);
}

proof fn lemma_mod_zero_factor(d: int, x: int)
    requires
        d > 0,
        x % d == 0,
    ensures
        x == d * (x / d),
{
    lemma_fundamental_div_mod(x, d);
}

/// `gcd(a, b)` divides both arguments, and every positive common divisor of
/// the two divides it: it is their greatest common divisor.
pub proof fn lemma_gcd_is_gcd(a: int, b: int)
    requires
        0 <= a <= i64::MAX,
        0 <= b <= i64::MAX,
        a > 0 || b > 0,
    ensures
        divides(spec_gcd(a, b), a),
        divides(spec_gcd(a, b), b),
        forall|d: int| divides(d, a) && divides(d, b) ==> #[trigger] divides(d, spec_gcd(a, b)),
    decreases b,
{
    lemma_gcd_nonneg(a, b);
    if b == 0 {
        lemma_multiple_mod(a, 0);
        assert(0int % a == 0) by {
            assert(a * 0 == 0);
        }
    } else {
        let r = a % b;
        lemma_trunc_rem_smaller(a, b);
        lemma_gcd_is_gcd(b, r);
        let g = spec_gcd(b, r);
        assert(spec_gcd(a, b) == g);
        // g divides a = b * (a / b) + r
        lemma_mod_zero_factor(g, b);
        lemma_mod_zero_factor(g, r);
        lemma_fundamental_div_mod(a, b);
        let q = a / b;
        let kb = b / g;
        let kr = r / g;
        assert(a == g * (kb * q + kr)) by (nonlinear_arith)
            requires
                a == b * q + r,
                b == g * kb,
                r == g * kr,
        ;
        lemma_multiple_mod(g, kb * q + kr);
        assert forall|d: int| divides(d, a) && divides(d, b) implies #[trigger] divides(
            d,
            spec_gcd(a, b),
        ) by {
            lemma_mod_zero_factor(d, a);
            lemma_mod_zero_factor(d, b);
            let ka = a / d;
            let kd = b / d;
            assert(r == d * (ka - kd * q)) by (nonlinear_arith)
                requires
                    a == b * q + r,
                    a == d * ka,
                    b == d * kd,
            ;
            lemma_multiple_mod(d, ka - kd * q);
            assert(divides(d, r));
        }
    }
}

/// Remainder with Rust's truncating semantics, computed on magnitudes.
pub(crate) fn trunc_rem_exec(a: i64, b: i64) -> (r: i64)
    requires
        b != 0,
        !(a == i64::MIN && b == -1),
    ensures
        r == trunc_rem(a as int, b as int),
{
    let aa: i128 = if a < 0 { -(a as i128) } else { a as i128 };
    let bb: i128 = if b < 0 { -(b as i128) } else { b as i128 };
    let m: i128 = aa % bb;
    if a >= 0 {
        m as i64
    } else {
        (-m) as i64
    }
}

/// Quotient with Rust's truncating semantics, computed on magnitudes.
pub(crate) fn trunc_div_exec(a: i64, b: i64) -> (r: i64)
    requires
        b != 0,
        !(a == i64::MIN && b == -1),
    ensures
        r == trunc_div(a as int, b as int),
{
    let aa: i128 = if a < 0 { -(a as i128) } else { a as i128 };
    let bb: i128 = if b < 0 { -(b as i128) } else { b as i128 };
    let q: i128 = aa / bb;
    proof {
        assert(q <= aa) by {
            vstd::arithmetic::div_mod::lemma_div_is_ordered_by_denominator(aa as int, 1, bb as int);
        }
        if bb >= 2 {
            vstd::arithmetic::div_mod::lemma_div_is_ordered_by_denominator(aa as int, 2, bb as int);
            assert(q < 0x8000_0000_0000_0000);
        }
    }
    if (a >= 0) == (b >= 0) || a == 0 {
        q as i64
    } else {
        (-q) as i64
    }
}

/// Greatest common divisor (Euclidean). `gcd(a, 0) == a`.
pub fn gcd(a: i64, b: i64) -> (r: i64)
    requires
        !gcd_overflows(a as int, b as int),
    ensures
        r == spec_gcd(a as int, b as int),
    decreases abs(b as int),
{
    if b == 0 {
        a
    } else {
        let m = trunc_rem_exec(a, b);
        proof {
            lemma_trunc_rem_smaller(a as int, b as int);
        }
        gcd(b, m)
    }
}

/// The gcd of `a` and `b`, or `None` when its recursion reaches
/// `i64::MIN % -1`, the one remainder that overflows.
pub fn gcd_checked(a: i64, b: i64) -> (r: Option<i64>)
    ensures
        r is None <==> gcd_overflows(a as int, b as int),
        r matches Some(g) ==> g == spec_gcd(a as int, b as int),
    decreases abs(b as int),
{
    if b == 0 {
        Some(a)
    } else if a == i64::MIN && b == -1 {
        None
    } else {
        let m = trunc_rem_exec(a, b);
        proof {
            lemma_trunc_rem_smaller(a as int, b as int);
        }
        gcd_checked(b, m)
    }
}

/// Least common multiple. `lcm(a, 0) == 0`.
pub fn lcm(a: i64, b: i64) -> (r: i64)
    requires
        lcm_fits(a as int, b as int),
    ensures
        r == spec_lcm(a as int, b as int),
{
    if a == 0 || b == 0 {
        0
    } else {
        let g = gcd(a, b);
        proof {
            lemma_gcd_nonzero(a as int, b as int);
        }
        let q = trunc_div_exec(a, g);
        q * b
    }
}

/// `gcd(a, b)` is zero only when both arguments are.
pub proof fn lemma_gcd_nonzero(a: int, b: int)
    requires
        a != 0 || b != 0,
    ensures
        spec_gcd(a, b) != 0,
    decreases abs(b),
{
    if b != 0 {
        lemma_trunc_rem_smaller(a, b);
        lemma_gcd_nonzero(b, trunc_rem(a, b));
    }
}

/// For positive arguments `lcm(a, b)` is a common multiple of both, and
/// `gcd(a, b) * lcm(a, b) == a * b`.
pub proof fn lemma_gcd_times_lcm(a: int, b: int)
    requires
        0 < a <= i64::MAX,
        0 < b <= i64::MAX,
    ensures
        spec_gcd(a, b) * spec_lcm(a, b) == a * b,
        spec_lcm(a, b) > 0,
        spec_lcm(a, b) % a == 0,
        spec_lcm(a, b) % b == 0,
{
    lemma_gcd_is_gcd(a, b);
    lemma_gcd_nonneg(a, b);
    let g = spec_gcd(a, b);
    lemma_mod_zero_factor(g, a);
    lemma_mod_zero_factor(g, b);
    let ka = a / g;
    let kb = b / g;
    assert(trunc_div(a, g) == ka);
    assert(ka > 0) by (nonlinear_arith)
        requires
            a == g * ka,
            a > 0,
            g > 0,
    ;
    assert(g * (ka * b) == a * b) by (nonlinear_arith)
        requires
            a == g * ka,
    ;
    assert(ka * b == a * kb) by (nonlinear_arith)
        requires
            a == g * ka,
            b == g * kb,
            g > 0,
    ;
    assert(ka * b > 0) by (nonlinear_arith)
        requires
            ka > 0,
            b > 0,
    ;
    lemma_multiple_mod(b, ka);
    assert(b * ka == ka * b) by (nonlinear_arith);
    lemma_multiple_mod(a, kb);
}

} // verus!
