//! Exact rational, always stored reduced with a positive denominator.
use crate::math::{abs, divides, gcd, lemma_gcd_is_gcd, lemma_gcd_nonneg, spec_gcd, trunc_div};
use vstd::arithmetic::div_mod::lemma_fundamental_div_mod;
use vstd::prelude::*;

verus! {

/// Exact rational number, always reduced with a positive denominator.
#[derive(Clone, Copy, PartialEq, Eq, Debug, Structural)]
pub struct Fraction {
    pub num: i64,
    pub den: i64,
}

/// The numerator of the reduced form of `num / den` (sign carried here).
pub open spec fn reduced_num(num: int, den: int) -> int {
    let n = if den < 0 { -num } else { num };
    if n == 0 {
        0
    } else {
        trunc_div(n, spec_gcd(abs(n), abs(den)))
    }
}

/// The (positive) denominator of the reduced form of `num / den`.
pub open spec fn reduced_den(num: int, den: int) -> int {
    let n = if den < 0 { -num } else { num };
    if n == 0 {
        1
    } else {
        abs(den) / spec_gcd(abs(n), abs(den))
    }
}

/// Whether `Fraction::new(num, den)` succeeds without panicking.
pub open spec fn fraction_args_ok(num: int, den: int) -> bool {
    den != 0 && i64::MIN < num <= i64::MAX && i64::MIN < den <= i64::MAX
}

impl Fraction {
    /// A fraction in lowest terms with a positive denominator.
    pub open spec fn wf(self) -> bool {
        &&& self.den > 0
        &&& self.num > i64::MIN
        &&& spec_gcd(abs(self.num as int), self.den as int) == 1
    }

    /// The rational number this fraction denotes equals `n / d`.
    pub open spec fn denotes(self, n: int, d: int) -> bool {
        self.num * d == n * self.den
    }

    /// Builds a reduced fraction, moving the sign to the numerator.
    pub fn new(num: i64, den: i64) -> (r: Fraction)
        requires
            fraction_args_ok(num as int, den as int),
        ensures
            r.num == reduced_num(num as int, den as int),
            r.den == reduced_den(num as int, den as int),
            r.wf(),
            r.denotes(num as int, den as int),
    {
        let n = if den < 0 {
            -num
        } else {
            num
        };
        let d = if den < 0 {
            -den
        } else {
            den
        };
        if n == 0 {
            proof {
                lemma_gcd_nonneg(0, 1);
                assert(spec_gcd(0, 1) == 1) by {
                    reveal_with_fuel(spec_gcd, 3);
                }
            }
            return Fraction { num: 0, den: 1 };
        }
        let na = if n < 0 {
            -n
        } else {
            n
        };
        proof {
            lemma_gcd_nonneg(na as int, d as int);
        }
        let g = gcd(na, d);
        proof {
            lemma_reduce(n as int, d as int);
            lemma_new_is_canonical(num as int, den as int);
        }
        let rn = if n < 0 {
            -(na / g)
        } else {
            na / g
        };
        Fraction { num: rn, den: d / g }
    }

    /// True when the fraction is exactly zero.
    pub fn is_zero(&self) -> (b: bool)
        ensures
            b == (self.num == 0),
    {
        self.num == 0
    }

    /// Sum of two fractions, reduced.
    pub fn add(self, other: Fraction) -> (r: Fraction)
        requires
            fraction_args_ok(
                self.num * other.den + other.num * self.den,
                self.den * other.den,
            ),
            i64::MIN < self.num * other.den <= i64::MAX,
            i64::MIN < other.num * self.den <= i64::MAX,
        ensures
            r.num == reduced_num(self.num * other.den + other.num * self.den, self.den * other.den),
            r.den == reduced_den(self.num * other.den + other.num * self.den, self.den * other.den),
            r.wf(),
            r.denotes(self.num * other.den + other.num * self.den, self.den * other.den),
    {
        Fraction::new(self.num * other.den + other.num * self.den, self.den * other.den)
    }

    /// Product of two fractions, reduced.
    pub fn mul(self, other: Fraction) -> (r: Fraction)
        requires
            fraction_args_ok(self.num * other.num, self.den * other.den),
        ensures
            r.num == reduced_num(self.num * other.num, self.den * other.den),
            r.den == reduced_den(self.num * other.num, self.den * other.den),
            r.wf(),
            r.denotes(self.num * other.num, self.den * other.den),
    {
        Fraction::new(self.num * other.num, self.den * other.den)
    }
}

/// Dividing `n / d` by `g = gcd(|n|, d)` leaves coprime parts that denote the same rational.
proof fn lemma_reduce(n: int, d: int)
    requires
        n != 0,
        i64::MIN < n <= i64::MAX,
        0 < d <= i64::MAX,
    ensures
        ({
            let g = spec_gcd(abs(n), d);
            &&& g > 0
            &&& abs(n) % g == 0
            &&& d % g == 0
            &&& abs(n) / g > 0
            &&& d / g > 0
            &&& d / g <= d
            &&& abs(n) / g <= abs(n)
            &&& spec_gcd(abs(n) / g, d / g) == 1
            &&& trunc_div(n, g) == (if n < 0 { -(abs(n) / g) } else { abs(n) / g })
            &&& trunc_div(n, g) * d == n * (d / g)
        }),
{
    let a = abs(n);
    lemma_gcd_is_gcd(a, d);
    lemma_gcd_nonneg(a, d);
    let g = spec_gcd(a, d);
    lemma_fundamental_div_mod(a, g);
    lemma_fundamental_div_mod(d, g);
    let ka = a / g;
    let kd = d / g;
    assert(ka > 0 && kd > 0) by (nonlinear_arith)
        requires
            a == g * ka,
            d == g * kd,
            a > 0,
            d > 0,
            g > 0,
    ;
    assert(ka <= a && kd <= d) by (nonlinear_arith)
        requires
            a == g * ka,
            d == g * kd,
            ka > 0,
            kd > 0,
            g > 0,
    ;
    lemma_gcd_nonneg(ka, kd);
    lemma_gcd_is_gcd(ka, kd);
    let h = spec_gcd(ka, kd);
    // h * g divides a and d, hence divides g, hence h == 1.
    lemma_fundamental_div_mod(ka, h);
    lemma_fundamental_div_mod(kd, h);
    let hg = h * g;
    assert(h > 0);
    assert(hg > 0) by (nonlinear_arith)
        requires
            hg == h * g,
            h > 0,
            g > 0,
    ;
    assert(a == hg * (ka / h) && d == hg * (kd / h)) by (nonlinear_arith)
        requires
            a == g * ka,
            d == g * kd,
            ka == h * (ka / h),
            kd == h * (kd / h),
            hg == h * g,
    ;
    lemma_mult_divides(hg, ka / h);
    lemma_mult_divides(hg, kd / h);
    assert(divides(hg, g));
    lemma_fundamental_div_mod(g, hg);
    let m = g / hg;
    assert(h == 1) by (nonlinear_arith)
        requires
            g == hg * m,
            hg == h * g,
            g > 0,
            h > 0,
    ;
    if n < 0 {
        assert(trunc_div(n, g) == -ka);
        assert(-ka * d == n * kd) by (nonlinear_arith)
            requires
                a == g * ka,
                d == g * kd,
                n == -a,
        ;
    } else {
        assert(trunc_div(n, g) == ka);
        assert(ka * d == n * kd) by (nonlinear_arith)
            requires
                a == g * ka,
                d == g * kd,
                n == a,
        ;
    }
}

proof fn lemma_mult_divides(d: int, k: int)
    requires
        d > 0,
    ensures
        (d * k) % d == 0,
{
    assert(d * k == k * d + 0) by (nonlinear_arith);
    vstd::arithmetic::div_mod::lemma_fundamental_div_mod_converse_mod(d * k, d, k, 0);
}

/// The law of the type: every fraction that `new` builds is in lowest terms,
/// has a positive denominator, and denotes the rational it was given.
pub proof fn lemma_new_is_canonical(num: int, den: int)
    requires
        fraction_args_ok(num, den),
    ensures
        reduced_den(num, den) > 0,
        spec_gcd(abs(reduced_num(num, den)), reduced_den(num, den)) == 1,
        reduced_num(num, den) * den == num * reduced_den(num, den),
{
    let n = if den < 0 {
        -num
    } else {
        num
    };
    if n == 0 {
        assert(spec_gcd(0, 1) == 1) by {
            reveal_with_fuel(spec_gcd, 3);
        }
    } else {
        lemma_reduce(n, abs(den));
        let g = spec_gcd(abs(n), abs(den));
        if den < 0 {
            assert(trunc_div(n, g) * abs(den) == n * (abs(den) / g));
            assert(trunc_div(n, g) * den == num * (abs(den) / g)) by (nonlinear_arith)
                requires
                    trunc_div(n, g) * abs(den) == n * (abs(den) / g),
                    den < 0,
                    abs(den) == -den,
                    n == -num,
            ;
        }
    }
}

} // verus!
