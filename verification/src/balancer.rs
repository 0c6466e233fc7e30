//! General integer chemical-equation balancer.
//!
//! Builds an element × species matrix (reactants positive, products
//! negative), reduces it to row echelon form over exact rationals, requires
//! exactly one free column for a unique solution ratio, then scales to the
//! smallest positive integer coefficients.
use crate::composition::{count_in, lemma_lookup_found_pub, lookup, Composition};
use crate::fraction::{reduced_den, reduced_num, Fraction};
use crate::math::{divides, gcd, lemma_gcd_is_gcd, lemma_gcd_nonneg, spec_gcd};
use crate::row_algebra::{
    dens_pos, dot_den, dot_num, lemma_dot_add, lemma_dot_den_pos, lemma_dot_pair, lemma_dot_scale, lemma_dot_vanish_pair,
    lemma_dot_zero_row, row_zero,
};
use vstd::prelude::*;

verus! {

/// A composition's entries: `(symbol, count)`.
pub type Entries = Seq<(Seq<char>, i64)>;

/// `Σ coeffs[t] · count(species[t], s)` over `t` in `i..hi`.
pub open spec fn weighted(species: Seq<Entries>, coeffs: Seq<i64>, s: Seq<char>, i: int, hi: int) -> int
    decreases hi - i,
{
    if i >= hi {
        0
    } else {
        coeffs[i] * count_in(species[i], s) + weighted(species, coeffs, s, i + 1, hi)
    }
}

/// The coefficients (reactants then products) conserve every element: each
/// symbol counts as many atoms on the left as on the right.
pub open spec fn balances(reactants: Seq<Entries>, products: Seq<Entries>, coeffs: Seq<i64>) -> bool {
    let sp = reactants + products;
    &&& coeffs.len() == sp.len()
    &&& forall|s: Seq<char>|
        #[trigger] weighted(sp, coeffs, s, 0, reactants.len() as int) == weighted(
            sp,
            coeffs,
            s,
            reactants.len() as int,
            sp.len() as int,
        )
}

/// No integer greater than 1 divides every coefficient.
pub open spec fn lowest_terms(c: Seq<i64>) -> bool {
    forall|d: int| d > 1 ==> !#[trigger] divides_all(d, c)
}

/// `d` divides every coefficient.
pub open spec fn divides_all(d: int, c: Seq<i64>) -> bool {
    forall|i: int| 0 <= i < c.len() ==> #[trigger] divides(d, c[i] as int)
}

/// The compositions' entries.
pub open spec fn views(s: Seq<Composition>) -> Seq<Entries> {
    s.map_values(|c: Composition| c@)
}

/// The entries of borrowed compositions.
pub open spec fn ref_views(s: Seq<&Composition>) -> Seq<Entries> {
    s.map_values(|c: &Composition| c@)
}

/// `gcd(…gcd(gcd(0, c[0]), c[1])…, c[i-1])`.
pub open spec fn gcd_fold(c: Seq<i64>, i: int) -> int
    decreases i,
{
    if i <= 0 {
        0
    } else {
        spec_gcd(gcd_fold(c, i - 1), c[i - 1] as int)
    }
}

proof fn lemma_divides_trans(a: int, b: int, c: int)
    requires
        divides(a, b),
        divides(b, c),
    ensures
        divides(a, c),
{
    vstd::arithmetic::div_mod::lemma_fundamental_div_mod(b, a);
    vstd::arithmetic::div_mod::lemma_fundamental_div_mod(c, b);
    let kb = b / a;
    let kc = c / b;
    assert(c == a * (kb * kc)) by (nonlinear_arith)
        requires
            b == a * kb + 0,
            c == b * kc + 0,
    ;
    vstd::arithmetic::div_mod::lemma_mod_multiples_basic(kb * kc, a);
    assert(a * (kb * kc) == (kb * kc) * a) by (nonlinear_arith);
}

/// Over positive values the running gcd is positive, divides every value so
/// far, and every common divisor of those values divides it.
proof fn lemma_gcd_fold(c: Seq<i64>, i: int)
    requires
        0 <= i <= c.len(),
        forall|t: int| 0 <= t < c.len() ==> #[trigger] c[t] > 0,
    ensures
        0 <= gcd_fold(c, i) <= i64::MAX,
        i > 0 ==> gcd_fold(c, i) > 0,
        forall|t: int| 0 <= t < i ==> divides(gcd_fold(c, i), #[trigger] c[t] as int),
        forall|d: int|
            d > 0 && (forall|t: int| 0 <= t < i ==> #[trigger] divides(d, c[t] as int)) ==> divides(
                d,
                gcd_fold(c, i),
            ) || i == 0,
    decreases i,
{
    if i > 0 {
        lemma_gcd_fold(c, i - 1);
        let a = gcd_fold(c, i - 1);
        let x = c[i - 1] as int;
        lemma_gcd_nonneg(a, x);
        lemma_gcd_is_gcd(a, x);
        let g = gcd_fold(c, i);
        assert forall|t: int| 0 <= t < i implies divides(g, #[trigger] c[t] as int) by {
            if t < i - 1 {
                lemma_divides_trans(g, a, c[t] as int);
            }
        }
        assert forall|d: int|
            d > 0 && (forall|t: int| 0 <= t < i ==> #[trigger] divides(d, c[t] as int)) implies divides(
            d,
            g,
        ) by {
            assert(divides(d, c[i - 1] as int));
            if i > 1 {
                assert forall|t: int| 0 <= t < i - 1 implies #[trigger] divides(d, c[t] as int) by {
                    assert(divides(d, c[t] as int));
                }
                assert(divides(d, a));
            } else {
                assert(a == 0);
                assert(0int % d == 0);
            }
        }
    }
}

/// A positive divisor of every value divides their gcd.
proof fn lemma_lowest_after_division(c: Seq<i64>, g: int, r: Seq<i64>)
    requires
        c.len() > 0,
        forall|t: int| 0 <= t < c.len() ==> #[trigger] c[t] > 0,
        g == gcd_fold(c, c.len() as int),
        g > 0,
        r.len() == c.len(),
        forall|t: int| 0 <= t < c.len() ==> #[trigger] r[t] * g == c[t],
    ensures
        lowest_terms(r),
{
    lemma_gcd_fold(c, c.len() as int);
    assert forall|d: int| d > 1 implies !#[trigger] divides_all(d, r) by {
        if divides_all(d, r) {
            assert forall|t: int| 0 <= t < c.len() implies #[trigger] divides(d * g, c[t] as int) by {
                assert(divides(d, r[t] as int));
                vstd::arithmetic::div_mod::lemma_fundamental_div_mod(r[t] as int, d);
                let q = (r[t] as int) / d;
                assert(c[t] == (d * g) * q) by (nonlinear_arith)
                    requires
                        r[t] == d * q + 0,
                        r[t] * g == c[t],
                ;
                assert(d * g > 0) by (nonlinear_arith)
                    requires
                        d > 1,
                        g > 0,
                ;
                vstd::arithmetic::div_mod::lemma_mod_multiples_basic(q, d * g);
                assert((d * g) * q == q * (d * g)) by (nonlinear_arith);
            }
            assert(d * g > 0) by (nonlinear_arith)
                requires
                    d > 1,
                    g > 0,
            ;
            assert(divides(d * g, g));
            vstd::arithmetic::div_mod::lemma_fundamental_div_mod(g, d * g);
            let q = g / (d * g);
            assert(false) by (nonlinear_arith)
                requires
                    g == (d * g) * q + 0,
                    d > 1,
                    g > 0,
            ;
        }
    }
}

/// When no species holds `s`, both sides weigh nothing of it.
proof fn lemma_weighted_absent(species: Seq<Entries>, coeffs: Seq<i64>, s: Seq<char>, i: int, hi: int)
    requires
        forall|t: int| i <= t < hi ==> count_in(#[trigger] species[t], s) == 0,
    ensures
        weighted(species, coeffs, s, i, hi) == 0,
    decreases hi - i,
{
    if i < hi {
        lemma_weighted_absent(species, coeffs, s, i + 1, hi);
        assert(count_in(species[i], s) == 0);
    }
}

/// `Σ coeffs[t] · count(species[t], s)` over `t` in `lo..k`, summed from the front.
pub open spec fn partial_sum(species: Seq<Entries>, coeffs: Seq<i64>, s: Seq<char>, lo: int, k: int) -> int
    decreases k - lo,
{
    if k <= lo {
        0
    } else {
        partial_sum(species, coeffs, s, lo, k - 1) + coeffs[k - 1] * count_in(species[k - 1], s)
    }
}

/// Summing from `lo` up to `k` keeps every product and every running sum within `i64`.
pub open spec fn sum_fits(species: Seq<Entries>, coeffs: Seq<i64>, s: Seq<char>, lo: int, k: int) -> bool
    decreases k - lo,
{
    if k <= lo {
        true
    } else {
        &&& sum_fits(species, coeffs, s, lo, k - 1)
        &&& i64::MIN <= coeffs[k - 1] * count_in(species[k - 1], s) <= i64::MAX
        &&& i64::MIN <= partial_sum(species, coeffs, s, lo, k) <= i64::MAX
    }
}

proof fn lemma_weighted_split_last(species: Seq<Entries>, coeffs: Seq<i64>, s: Seq<char>, i: int, hi: int)
    requires
        i < hi,
    ensures
        weighted(species, coeffs, s, i, hi) == weighted(species, coeffs, s, i, hi - 1) + coeffs[hi - 1]
            * count_in(species[hi - 1], s),
    decreases hi - i,
{
    if i < hi - 1 {
        lemma_weighted_split_last(species, coeffs, s, i + 1, hi);
    } else {
        assert(weighted(species, coeffs, s, i + 1, hi) == 0);
        assert(weighted(species, coeffs, s, i, hi - 1) == 0);
    }
}

proof fn lemma_weighted_is_partial(species: Seq<Entries>, coeffs: Seq<i64>, s: Seq<char>, lo: int, k: int)
    requires
        lo <= k,
    ensures
        weighted(species, coeffs, s, lo, k) == partial_sum(species, coeffs, s, lo, k),
    decreases k - lo,
{
    if lo < k {
        lemma_weighted_split_last(species, coeffs, s, lo, k);
        lemma_weighted_is_partial(species, coeffs, s, lo, k - 1);
    }
}

proof fn lemma_sum_fits_prefix(species: Seq<Entries>, coeffs: Seq<i64>, s: Seq<char>, lo: int, j: int, k: int)
    requires
        lo <= j <= k,
        sum_fits(species, coeffs, s, lo, k),
    ensures
        sum_fits(species, coeffs, s, lo, j),
    decreases k - j,
{
    if j < k {
        lemma_sum_fits_prefix(species, coeffs, s, lo, j, k - 1);
    }
}

/// `Σ coeffs[t] · count(species[t], s)` over `t` in `lo..hi`, or `None` if a
/// partial sum leaves `i64`.
fn weighted_exec(species: &Vec<&Composition>, coeffs: &Vec<i64>, s: &str, lo: usize, hi: usize) -> (r:
    Option<i64>)
    requires
        lo <= hi <= species@.len(),
        coeffs@.len() == species@.len(),
    ensures
        r matches Some(v) ==> v == weighted(ref_views(species@), coeffs@, s@, lo as int, hi as int),
        r is None <==> !sum_fits(ref_views(species@), coeffs@, s@, lo as int, hi as int),
{
    let ghost sp = ref_views(species@);
    let mut acc: i64 = 0;
    let mut i: usize = lo;
    while i < hi
        invariant
            lo <= i <= hi <= species@.len(),
            coeffs@.len() == species@.len(),
            sp == ref_views(species@),
            acc == partial_sum(sp, coeffs@, s@, lo as int, i as int),
            sum_fits(sp, coeffs@, s@, lo as int, i as int),
        decreases hi - i,
    {
        let have: i64 = match species[i].get(s) {
            Some(v) => v,
            None => 0,
        };
        assert(have == count_in(sp[i as int], s@));
        let term = match coeffs[i].checked_mul(have) {
            Some(t) => t,
            None => {
                proof {
                    if sum_fits(sp, coeffs@, s@, lo as int, hi as int) {
                        lemma_sum_fits_prefix(sp, coeffs@, s@, lo as int, i + 1, hi as int);
                    }
                }
                return None;
            },
        };
        acc = match acc.checked_add(term) {
            Some(a) => a,
            None => {
                proof {
                    if sum_fits(sp, coeffs@, s@, lo as int, hi as int) {
                        lemma_sum_fits_prefix(sp, coeffs@, s@, lo as int, i + 1, hi as int);
                    }
                }
                return None;
            },
        };
        i = i + 1;
    }
    proof {
        lemma_weighted_is_partial(sp, coeffs@, s@, lo as int, hi as int);
    }
    Some(acc)
}

/// Both sides of `sym` sum within `i64`, and they are equal.
pub open spec fn entry_checks(sp: Seq<Entries>, coeffs: Seq<i64>, nr: int, sym: Seq<char>) -> bool {
    &&& sum_fits(sp, coeffs, sym, 0, nr)
    &&& sum_fits(sp, coeffs, sym, nr, sp.len() as int)
    &&& weighted(sp, coeffs, sym, 0, nr) == weighted(sp, coeffs, sym, nr, sp.len() as int)
}

/// Every symbol that occurs in a species passes [`entry_checks`].
pub open spec fn all_checks(sp: Seq<Entries>, coeffs: Seq<i64>, nr: int) -> bool {
    forall|u: int, e: int| 0 <= u < sp.len() && 0 <= e < sp[u].len() ==> #[trigger] entry_checks(sp, coeffs, nr, sp[u][e].0)
}

/// Whether the coefficients conserve every element of every species; `false`
/// also when a sum leaves `i64`.
fn check_balanced(species: &Vec<&Composition>, nr: usize, coeffs: &Vec<i64>) -> (b: bool)
    requires
        nr <= species@.len(),
        coeffs@.len() == species@.len(),
    ensures
        b ==> forall|s: Seq<char>|
            #[trigger] weighted(ref_views(species@), coeffs@, s, 0, nr as int)
                == weighted(ref_views(species@), coeffs@, s, nr as int, species@.len() as int),
        b == all_checks(ref_views(species@), coeffs@, nr as int),
{
    let ghost sp = ref_views(species@);
    let n = species.len();
    let mut t: usize = 0;
    while t < n
        invariant
            n == species@.len(),
            nr <= n,
            t <= n,
            coeffs@.len() == n,
            sp == ref_views(species@),
            forall|u: int, e: int|
                0 <= u < t && 0 <= e < sp[u].len() ==> #[trigger] entry_checks(sp, coeffs@, nr as int, sp[u][e].0),
        decreases n - t,
    {
        let len = species[t].len();
        let mut e: usize = 0;
        while e < len
            invariant
                n == species@.len(),
                nr <= n,
                t < n,
                coeffs@.len() == n,
                sp == ref_views(species@),
                len == sp[t as int].len(),
                e <= len,
                forall|u: int, f: int|
                    (0 <= u < t && 0 <= f < sp[u].len()) || (u == t && 0 <= f < e) ==> #[trigger] entry_checks(
                        sp,
                        coeffs@,
                        nr as int,
                        sp[u][f].0,
                    ),
            decreases len - e,
        {
            let (sym, _) = species[t].entry(e);
            let left = weighted_exec(species, coeffs, sym.as_str(), 0, nr);
            let right = weighted_exec(species, coeffs, sym.as_str(), nr, n);
            match (left, right) {
                (Some(l), Some(r)) => {
                    if l != r {
                        assert(!entry_checks(sp, coeffs@, nr as int, sp[t as int][e as int].0));
                        return false;
                    }
                },
                _ => {
                    assert(!entry_checks(sp, coeffs@, nr as int, sp[t as int][e as int].0));
                    return false;
                },
            }
            e = e + 1;
        }
        t = t + 1;
    }
    proof {
        lemma_all_checks_balance(sp, coeffs@, nr as int);
    }
    true
}

/// Passing the check for every symbol that occurs balances every symbol.
proof fn lemma_all_checks_balance(sp: Seq<Entries>, coeffs: Seq<i64>, nr: int)
    requires
        all_checks(sp, coeffs, nr),
        0 <= nr <= sp.len(),
    ensures
        forall|s: Seq<char>|
            #[trigger] weighted(sp, coeffs, s, 0, nr) == weighted(sp, coeffs, s, nr, sp.len() as int),
{
    let n = sp.len() as int;
    assert forall|s: Seq<char>| #[trigger] weighted(sp, coeffs, s, 0, nr) == weighted(sp, coeffs, s, nr, n) by {
        if exists|u: int| 0 <= u < n && count_in(#[trigger] sp[u], s) != 0 {
            let u = choose|u: int| 0 <= u < n && count_in(#[trigger] sp[u], s) != 0;
            lemma_lookup_found_pub(sp[u], s);
            let f = choose|f: int| 0 <= f < sp[u].len() && sp[u][f].0 == s && Some(sp[u][f].1) == lookup(sp[u], s);
            assert(entry_checks(sp, coeffs, nr, sp[u][f].0));
        } else {
            lemma_weighted_absent(sp, coeffs, s, 0, nr);
            lemma_weighted_absent(sp, coeffs, s, nr, n);
        }
    }
}

/// The product's numerator and denominator fit `i64` (the numerator above `i64::MIN`).
pub open spec fn mul_fits(a: Fraction, b: Fraction) -> bool {
    i64::MIN < a.num * b.num <= i64::MAX && a.den * b.den <= i64::MAX
}

/// The reduced product of two fractions.
pub open spec fn mul_of(a: Fraction, b: Fraction) -> Fraction {
    Fraction {
        num: reduced_num(a.num * b.num, a.den * b.den) as i64,
        den: reduced_den(a.num * b.num, a.den * b.den) as i64,
    }
}

/// The cross products, the common denominator and the sum's numerator fit
/// `i64` (numerators above `i64::MIN`).
pub open spec fn add_fits(a: Fraction, b: Fraction) -> bool {
    &&& i64::MIN < a.num * b.den <= i64::MAX
    &&& i64::MIN < b.num * a.den <= i64::MAX
    &&& a.den * b.den <= i64::MAX
    &&& i64::MIN < a.num * b.den + b.num * a.den <= i64::MAX
}

/// The reduced sum of two fractions.
pub open spec fn add_of(a: Fraction, b: Fraction) -> Fraction {
    Fraction {
        num: reduced_num(a.num * b.den + b.num * a.den, a.den * b.den) as i64,
        den: reduced_den(a.num * b.den + b.num * a.den, a.den * b.den) as i64,
    }
}

/// Eliminating one entry, `o + f · p`, stays within `i64`.
pub open spec fn elim_fits(o: Fraction, f: Fraction, p: Fraction) -> bool {
    mul_fits(f, p) && add_fits(o, mul_of(f, p))
}

/// `a · b`, or `None` when the product leaves `i64`.
fn frac_mul(a: Fraction, b: Fraction) -> (r: Option<Fraction>)
    requires
        a.wf(),
        b.wf(),
    ensures
        r matches Some(f) ==> f.wf() && f.num * (a.den * b.den) == (a.num * b.num) * f.den,
        r is None <==> !mul_fits(a, b),
        r matches Some(f) ==> f == mul_of(a, b),
{
    assert(-0x4000_0000_0000_0000_0000_0000_0000_0000 <= (a.num as int) * (b.num as int)
        <= 0x4000_0000_0000_0000_0000_0000_0000_0000) by (nonlinear_arith)
        requires
            i64::MIN <= a.num <= i64::MAX,
            i64::MIN <= b.num <= i64::MAX,
    ;
    assert(0 < (a.den as int) * (b.den as int) <= 0x4000_0000_0000_0000_0000_0000_0000_0000)
        by (nonlinear_arith)
        requires
            0 < a.den <= i64::MAX,
            0 < b.den <= i64::MAX,
    ;
    let n: i128 = (a.num as i128) * (b.num as i128);
    let d: i128 = (a.den as i128) * (b.den as i128);
    if n <= i64::MIN as i128 || n > i64::MAX as i128 || d > i64::MAX as i128 {
        return None;
    }
    Some(a.mul(b))
}

/// `a + b`, or `None` when an intermediate value leaves `i64`.
fn frac_add(a: Fraction, b: Fraction) -> (r: Option<Fraction>)
    requires
        a.wf(),
        b.wf(),
    ensures
        r matches Some(f) ==> f.wf() && f.num * (a.den * b.den) == (a.num * b.den + b.num * a.den) * f.den,
        r is None <==> !add_fits(a, b),
        r matches Some(f) ==> f == add_of(a, b),
{
    assert(-0x4000_0000_0000_0000_0000_0000_0000_0000 <= (a.num as int) * (b.den as int)
        <= 0x4000_0000_0000_0000_0000_0000_0000_0000) by (nonlinear_arith)
        requires
            i64::MIN <= a.num <= i64::MAX,
            0 < b.den <= i64::MAX,
    ;
    assert(-0x4000_0000_0000_0000_0000_0000_0000_0000 <= (b.num as int) * (a.den as int)
        <= 0x4000_0000_0000_0000_0000_0000_0000_0000) by (nonlinear_arith)
        requires
            i64::MIN <= b.num <= i64::MAX,
            0 < a.den <= i64::MAX,
    ;
    assert(0 < (a.den as int) * (b.den as int) <= 0x4000_0000_0000_0000_0000_0000_0000_0000)
        by (nonlinear_arith)
        requires
            0 < a.den <= i64::MAX,
            0 < b.den <= i64::MAX,
    ;
    let x: i128 = (a.num as i128) * (b.den as i128);
    let y: i128 = (b.num as i128) * (a.den as i128);
    let d: i128 = (a.den as i128) * (b.den as i128);
    if x <= i64::MIN as i128 || x > i64::MAX as i128 || y <= i64::MIN as i128 || y > i64::MAX as i128
        || d > i64::MAX as i128 {
        return None;
    }
    let s: i128 = x + y;
    if s <= i64::MIN as i128 || s > i64::MAX as i128 {
        return None;
    }
    Some(a.add(b))
}

/// `-f`, reduced.
fn frac_neg(f: Fraction) -> (r: Fraction)
    requires
        f.wf(),
    ensures
        r.wf(),
        r.num * f.den == -f.num * r.den,
        r == neg_of(f),
{
    Fraction::new(-f.num, f.den)
}

/// `lcm(a, b)` for positive arguments, or `None` when it leaves `i64`.
fn lcm_checked(a: i64, b: i64) -> (r: Option<i64>)
    requires
        a > 0,
        b > 0,
    ensures
        r matches Some(v) ==> v > 0 && divides(a as int, v as int) && divides(b as int, v as int),
        r matches Some(v) ==> v == ((a as int) / spec_gcd(a as int, b as int)) * b,
        r is None <==> ((a as int) / spec_gcd(a as int, b as int)) * b > i64::MAX,
{
    proof {
        lemma_gcd_nonneg(a as int, b as int);
    }
    let g = gcd(a, b);
    let q: i64 = ((a as u64) / (g as u64)) as i64;
    proof {
        vstd::arithmetic::div_mod::lemma_div_is_ordered_by_denominator(a as int, 1, g as int);
        assert(q >= 1) by (nonlinear_arith)
            requires
                q == (a as int) / (g as int),
                1 <= g <= b,
                g <= a || a >= 1,
                a >= 1,
                spec_gcd(a as int, b as int) == g,
        {
            lemma_gcd_is_gcd(a as int, b as int);
            vstd::arithmetic::div_mod::lemma_fundamental_div_mod(a as int, g as int);
        }
        assert(1 <= q * b <= 0x4000_0000_0000_0000_0000_0000_0000_0000) by (nonlinear_arith)
            requires
                1 <= q <= i64::MAX,
                1 <= b <= i64::MAX,
        ;
    }
    let l: i128 = (q as i128) * (b as i128);
    if l > i64::MAX as i128 {
        None
    } else {
        proof {
            lemma_gcd_is_gcd(a as int, b as int);
            vstd::arithmetic::div_mod::lemma_fundamental_div_mod(a as int, g as int);
            vstd::arithmetic::div_mod::lemma_fundamental_div_mod(b as int, g as int);
            let kb = (b as int) / (g as int);
            assert(q * b == a * kb) by (nonlinear_arith)
                requires
                    a == g * q + 0,
                    b == g * kb + 0,
            ;
            vstd::arithmetic::div_mod::lemma_mod_multiples_basic(q as int, b as int);
            vstd::arithmetic::div_mod::lemma_mod_multiples_basic(kb, a as int);
            assert(kb * a == a * kb) by (nonlinear_arith);
        }
        Some(l as i64)
    }
}

/// A copy of a matrix row.
fn copy_row(r: &Vec<Fraction>) -> (c: Vec<Fraction>)
    ensures
        c@ == r@,
{
    let mut c: Vec<Fraction> = Vec::new();
    let mut i: usize = 0;
    while i < r.len()
        invariant
            i <= r@.len(),
            c@ == r@.subrange(0, i as int),
        decreases r@.len() - i,
    {
        c.push(r[i]);
        i = i + 1;
        assert(c@ =~= r@.subrange(0, i as int));
    }
    assert(r@.subrange(0, r@.len() as int) =~= r@);
    c
}

/// A `rows × n` matrix of reduced fractions.
pub open spec fn matrix_ok(m: Seq<Vec<Fraction>>, rows: int, n: int) -> bool {
    &&& m.len() == rows
    &&& forall|r: int| 0 <= r < rows ==> (#[trigger] m[r])@.len() == n
    &&& forall|r: int, c: int| 0 <= r < rows && 0 <= c < n ==> (#[trigger] m[r]@[c]).wf()
}

/// Whether the symbol is one of the strings.
fn contains_str(v: &Vec<String>, s: &str) -> (b: bool)
    ensures
        b == exists|i: int| 0 <= i < v@.len() && (#[trigger] v@[i])@ == s@,
{
    let mut i: usize = 0;
    while i < v.len()
        invariant
            i <= v@.len(),
            forall|j: int| 0 <= j < i ==> (#[trigger] v@[j])@ != s@,
        decreases v@.len() - i,
    {
        if crate::text::str_eq(v[i].as_str(), s) {
            return true;
        }
        i = i + 1;
    }
    false
}

/// Every row of `m` dots to zero with `x`.
pub open spec fn all_zero(m: Seq<Vec<Fraction>>, x: Seq<int>) -> bool {
    forall|r: int| 0 <= r < m.len() ==> row_zero(#[trigger] m[r]@, x)
}

/// Every entry of the row is a reduced fraction.
pub open spec fn row_ok(v: Seq<Fraction>) -> bool {
    forall|j: int| 0 <= j < v.len() ==> (#[trigger] v[j]).wf()
}

proof fn lemma_cancel(a: int, b: int, c: int)
    by (nonlinear_arith)
    requires
        b > 0,
        a * b == c * b,
    ensures
        a == c,
{
}

proof fn lemma_zero_factor(a: int, b: int)
    by (nonlinear_arith)
    requires
        b != 0,
        a * b == 0,
    ensures
        a == 0,
{
}

proof fn lemma_pos_prod(a: int, b: int)
    by (nonlinear_arith)
    requires
        a > 0,
        b > 0,
    ensures
        a * b > 0,
{
}

proof fn lemma_regroup(f: int, ad: int, bd: int, an: int, bn: int, fd: int)
    by (nonlinear_arith)
    requires
        f * (ad * bd) == (an * bn) * fd,
    ensures
        f * ad * bd == bn * an * fd,
{
}

proof fn lemma_regroup_add(f: int, ad: int, bd: int, an: int, bn: int, fd: int)
    by (nonlinear_arith)
    requires
        f * (ad * bd) == (an * bd + bn * ad) * fd,
    ensures
        f * ad * bd == (an * bd + bn * ad) * fd,
{
}

/// A row scaled by the inverse of a dot product that is zero stays zero.
proof fn lemma_zero_after_scale(old: Seq<Fraction>, new: Seq<Fraction>, x: Seq<int>, p: int, q: int)
    requires
        new.len() == old.len(),
        dens_pos(old),
        dens_pos(new),
        q > 0,
        forall|j: int| 0 <= j < old.len() ==> #[trigger] new[j].num * old[j].den * q == p * old[j].num * new[j].den,
        row_zero(old, x),
    ensures
        row_zero(new, x),
{
    let k = old.len() as int;
    lemma_dot_scale(old, new, x, p, q, k);
    lemma_dot_den_pos(old, k);
    lemma_dot_den_pos(new, k);
    assert(p * 0 * dot_den(new, k) == 0) by (nonlinear_arith);
    lemma_pos_prod(dot_den(old, k), q);
    assert(dot_num(new, x, k) * (dot_den(old, k) * q) == 0) by (nonlinear_arith)
        requires
            dot_num(new, x, k) * dot_den(old, k) * q == 0,
    ;
    lemma_zero_factor(dot_num(new, x, k), dot_den(old, k) * q);
}

/// `old` scaled entry by entry by `inv`, the inverse of its entry at `col`;
/// `None` when an entry leaves `i64`.
fn scale_row(old: &Vec<Fraction>, inv: Fraction, col: usize) -> (r: Option<Vec<Fraction>>)
    requires
        inv.wf(),
        inv.num != 0,
        row_ok(old@),
        col < old@.len(),
        inv.num * old@[col as int].num == old@[col as int].den * inv.den,
    ensures
        r matches Some(v) ==> {
            &&& v@.len() == old@.len()
            &&& row_ok(v@)
            &&& forall|j: int| 0 <= j < old@.len() && (#[trigger] old@[j]).num == 0 ==> v@[j].num == 0
            &&& v@[col as int].num == v@[col as int].den
            &&& forall|x: Seq<int>| row_zero(old@, x) ==> #[trigger] row_zero(v@, x)
            &&& forall|x: Seq<int>| #[trigger] row_zero(v@, x) ==> row_zero(old@, x)
            &&& forall|j: int| 0 <= j < old@.len() ==> #[trigger] v@[j] == mul_of(old@[j], inv)
        },
        r is None <==> exists|j: int| 0 <= j < old@.len() && !mul_fits(#[trigger] old@[j], inv),
{
    let n = old.len();
    let mut v: Vec<Fraction> = Vec::new();
    let mut c: usize = 0;
    while c < n
        invariant
            n == old@.len(),
            inv.wf(),
            row_ok(old@),
            c <= n,
            v@.len() == c,
            row_ok(v@),
            forall|j: int| 0 <= j < c ==> #[trigger] v@[j].num * old@[j].den * inv.den == inv.num * old@[j].num * v@[j].den,
            forall|j: int| 0 <= j < c ==> #[trigger] v@[j] == mul_of(old@[j], inv) && mul_fits(old@[j], inv),
        decreases n - c,
    {
        let f = match frac_mul(old[c], inv) {
            Some(f) => f,
            None => {
                assert(!mul_fits(old@[c as int], inv));
                return None;
            },
        };
        proof {
            lemma_regroup(f.num as int, old@[c as int].den as int, inv.den as int, old@[c as int].num as int, inv.num as int, f.den as int);
        }
        v.push(f);
        c = c + 1;
    }
    proof {
        assert forall|j: int| 0 <= j < old@.len() && (#[trigger] old@[j]).num == 0 implies v@[j].num == 0 by {
            assert(inv.num * old@[j].num * v@[j].den == 0) by (nonlinear_arith)
                requires
                    old@[j].num == 0,
            ;
            lemma_pos_prod(old@[j].den as int, inv.den as int);
            assert(v@[j].num * (old@[j].den * inv.den) == 0) by (nonlinear_arith)
                requires
                    v@[j].num * old@[j].den * inv.den == 0,
            ;
            lemma_zero_factor(v@[j].num as int, old@[j].den * inv.den);
        }
        let o = old@[col as int];
        let w = v@[col as int];
        assert(w.num * o.den * inv.den == w.den * (o.den * inv.den)) by (nonlinear_arith)
            requires
                w.num * o.den * inv.den == inv.num * o.num * w.den,
                inv.num * o.num == o.den * inv.den,
        ;
        lemma_pos_prod(o.den as int, inv.den as int);
        assert(w.num * (o.den * inv.den) == w.den * (o.den * inv.den)) by (nonlinear_arith)
            requires
                w.num * o.den * inv.den == w.den * (o.den * inv.den),
        ;
        lemma_cancel(w.num as int, o.den * inv.den, w.den as int);
        assert forall|x: Seq<int>| row_zero(old@, x) implies #[trigger] row_zero(v@, x) by {
            lemma_zero_after_scale(old@, v@, x, inv.num as int, inv.den as int);
        }
        assert forall|x: Seq<int>| #[trigger] row_zero(v@, x) implies row_zero(old@, x) by {
            let k = n as int;
            lemma_dot_scale(old@, v@, x, inv.num as int, inv.den as int, k);
            lemma_dot_den_pos(old@, k);
            lemma_dot_den_pos(v@, k);
            let dv = dot_den(v@, k);
            let dn = dot_num(old@, x, k);
            assert(inv.num * dn * dv == 0) by (nonlinear_arith)
                requires
                    dot_num(v@, x, k) * dot_den(old@, k) * inv.den == inv.num * dn * dv,
                    dot_num(v@, x, k) == 0,
            ;
            assert(dn == 0) by (nonlinear_arith)
                requires
                    inv.num * dn * dv == 0,
                    inv.num != 0,
                    dv > 0,
            ;
        }
        assert forall|j: int| 0 <= j < old@.len() implies mul_fits(#[trigger] old@[j], inv) by {
            assert(v@[j] == mul_of(old@[j], inv));
        }
    }
    Some(v)
}

/// `old` plus `nf` times the pivot row, entry by entry; `None` when an
/// entry leaves `i64`. With `nf` minus `old`'s entry at the pivot column,
/// that entry becomes zero.
fn eliminate_row(old: &Vec<Fraction>, piv: &Vec<Fraction>, nf: Fraction, col: usize) -> (r: Option<Vec<Fraction>>)
    requires
        nf.wf(),
        row_ok(old@),
        row_ok(piv@),
        piv@.len() == old@.len(),
        col < old@.len(),
        piv@[col as int].num == piv@[col as int].den,
        nf.num * old@[col as int].den == -old@[col as int].num * nf.den,
    ensures
        r matches Some(v) ==> {
            &&& v@.len() == old@.len()
            &&& row_ok(v@)
            &&& forall|j: int|
                0 <= j < old@.len() && (#[trigger] piv@[j]).num == 0 ==> v@[j].num * old@[j].den == old@[j].num
                    * v@[j].den
            &&& v@[col as int].num == 0
            &&& forall|x: Seq<int>| row_zero(piv@, x) && row_zero(old@, x) ==> #[trigger] row_zero(v@, x)
            &&& forall|x: Seq<int>| row_zero(piv@, x) && #[trigger] row_zero(v@, x) ==> row_zero(old@, x)
            &&& forall|j: int| 0 <= j < old@.len() ==> #[trigger] v@[j] == add_of(old@[j], mul_of(nf, piv@[j]))
        },
        r is None <==> exists|j: int| 0 <= j < old@.len() && !elim_fits(#[trigger] old@[j], nf, piv@[j]),
{
    let n = old.len();
    let mut v: Vec<Fraction> = Vec::new();
    let ghost mut prods: Seq<Fraction> = Seq::empty();
    let mut c: usize = 0;
    while c < n
        invariant
            n == old@.len() == piv@.len(),
            nf.wf(),
            row_ok(old@),
            row_ok(piv@),
            c <= n,
            v@.len() == c,
            prods.len() == c,
            row_ok(v@),
            row_ok(prods),
            forall|j: int|
                0 <= j < c ==> #[trigger] prods[j].num * piv@[j].den * nf.den == nf.num * piv@[j].num
                    * prods[j].den,
            forall|j: int|
                0 <= j < c ==> #[trigger] v@[j].num * old@[j].den * prods[j].den == (old@[j].num
                    * prods[j].den + prods[j].num * old@[j].den) * v@[j].den,
            forall|j: int|
                0 <= j < c ==> #[trigger] v@[j] == add_of(old@[j], mul_of(nf, piv@[j])) && elim_fits(old@[j], nf, piv@[j]),
        decreases n - c,
    {
        let prod = match frac_mul(nf, piv[c]) {
            Some(f) => f,
            None => {
                assert(!elim_fits(old@[c as int], nf, piv@[c as int]));
                return None;
            },
        };
        let f = match frac_add(old[c], prod) {
            Some(f) => f,
            None => {
                assert(!elim_fits(old@[c as int], nf, piv@[c as int]));
                return None;
            },
        };
        proof {
            lemma_regroup(prod.num as int, nf.den as int, piv@[c as int].den as int, nf.num as int, piv@[c as int].num as int, prod.den as int);
            assert(prod.num * piv@[c as int].den * nf.den == nf.num * piv@[c as int].num * prod.den) by (nonlinear_arith)
                requires
                    prod.num * nf.den * piv@[c as int].den == piv@[c as int].num * nf.num * prod.den,
            ;
            lemma_regroup_add(f.num as int, old@[c as int].den as int, prod.den as int, old@[c as int].num as int, prod.num as int, f.den as int);
            prods = prods.push(prod);
        }
        let ghost before = v@;
        v.push(f);
        proof {
            assert(elim_fits(old@[c as int], nf, piv@[c as int]));
            assert forall|j: int| 0 <= j < c + 1 implies #[trigger] v@[j] == add_of(old@[j], mul_of(nf, piv@[j]))
                && elim_fits(old@[j], nf, piv@[j]) by {
                if j < c {
                    assert(v@[j] == before[j]);
                }
            }
        }
        c = c + 1;
    }
    proof {
        assert forall|j: int| 0 <= j < old@.len() implies elim_fits(#[trigger] old@[j], nf, piv@[j]) by {
            assert(v@[j] == add_of(old@[j], mul_of(nf, piv@[j])));
        }
        assert forall|j: int|
            0 <= j < old@.len() && (#[trigger] piv@[j]).num == 0 implies v@[j].num * old@[j].den == old@[j].num
            * v@[j].den by {
            let pr = prods[j];
            assert(nf.num * piv@[j].num * pr.den == 0) by (nonlinear_arith)
                requires
                    piv@[j].num == 0,
            ;
            lemma_pos_prod(piv@[j].den as int, nf.den as int);
            assert(pr.num * (piv@[j].den * nf.den) == 0) by (nonlinear_arith)
                requires
                    pr.num * piv@[j].den * nf.den == 0,
            ;
            lemma_zero_factor(pr.num as int, piv@[j].den * nf.den);
            assert(v@[j].num * old@[j].den * pr.den == old@[j].num * v@[j].den * pr.den) by (nonlinear_arith)
                requires
                    v@[j].num * old@[j].den * pr.den == (old@[j].num * pr.den + pr.num * old@[j].den)
                        * v@[j].den,
                    pr.num == 0,
            ;
            lemma_cancel(v@[j].num * old@[j].den, pr.den as int, old@[j].num * v@[j].den);
        }
        let o = old@[col as int];
        let pv = piv@[col as int];
        let pr = prods[col as int];
        let w = v@[col as int];
        // the product is minus the old entry
        assert(pr.num * nf.den * pv.den == nf.num * pr.den * pv.den) by (nonlinear_arith)
            requires
                pr.num * pv.den * nf.den == nf.num * pv.num * pr.den,
                pv.num == pv.den,
        ;
        lemma_cancel(pr.num * nf.den, pv.den as int, nf.num * pr.den);
        assert(pr.num * o.den * nf.den == -o.num * pr.den * nf.den) by (nonlinear_arith)
            requires
                pr.num * nf.den == nf.num * pr.den,
                nf.num * o.den == -o.num * nf.den,
        ;
        lemma_cancel(pr.num * o.den, nf.den as int, -o.num * pr.den);
        assert(w.num * (o.den * pr.den) == 0) by (nonlinear_arith)
            requires
                w.num * o.den * pr.den == (o.num * pr.den + pr.num * o.den) * w.den,
                pr.num * o.den == -o.num * pr.den,
        ;
        lemma_pos_prod(o.den as int, pr.den as int);
        lemma_zero_factor(w.num as int, o.den * pr.den);
        assert forall|x: Seq<int>| row_zero(piv@, x) && row_zero(old@, x) implies #[trigger] row_zero(v@, x) by {
            let k = n as int;
            lemma_zero_after_scale(piv@, prods, x, nf.num as int, nf.den as int);
            lemma_dot_add(old@, prods, v@, x, k);
            lemma_dot_den_pos(old@, k);
            lemma_dot_den_pos(prods, k);
            lemma_dot_den_pos(v@, k);
            assert((0 * dot_den(prods, k) + 0 * dot_den(old@, k)) * dot_den(v@, k) == 0) by (nonlinear_arith);
            lemma_pos_prod(dot_den(old@, k), dot_den(prods, k));
            assert(dot_num(v@, x, k) * (dot_den(old@, k) * dot_den(prods, k)) == 0) by (nonlinear_arith)
                requires
                    dot_num(v@, x, k) * dot_den(old@, k) * dot_den(prods, k) == 0,
            ;
            lemma_zero_factor(dot_num(v@, x, k), dot_den(old@, k) * dot_den(prods, k));
        }
        assert forall|x: Seq<int>| row_zero(piv@, x) && #[trigger] row_zero(v@, x) implies row_zero(old@, x) by {
            let k = n as int;
            lemma_zero_after_scale(piv@, prods, x, nf.num as int, nf.den as int);
            lemma_dot_add(old@, prods, v@, x, k);
            lemma_dot_den_pos(old@, k);
            lemma_dot_den_pos(prods, k);
            lemma_dot_den_pos(v@, k);
            let dn = dot_num(old@, x, k);
            let dp = dot_den(prods, k);
            let dv = dot_den(v@, k);
            assert(dn * dp * dv == 0) by (nonlinear_arith)
                requires
                    dot_num(v@, x, k) * dot_den(old@, k) * dp == (dn * dp + dot_num(prods, x, k) * dot_den(old@, k)) * dv,
                    dot_num(v@, x, k) == 0,
                    dot_num(prods, x, k) == 0,
            ;
            assert(dn == 0) by (nonlinear_arith)
                requires
                    dn * dp * dv == 0,
                    dp > 0,
                    dv > 0,
            ;
        }
    }
    Some(v)
}

/// The state reached by elimination: the first `row` pivots each have a one
/// in their column and zeros above and below it, and the rows past them are
/// zero in every column before `col`.
pub open spec fn echelon(m: Seq<Vec<Fraction>>, rows: int, pc: Seq<usize>, row: int, col: int) -> bool {
    &&& pc.len() == row
    &&& forall|i: int| 0 <= i < row ==> (#[trigger] m[i]@[pc[i] as int]).num == m[i]@[pc[i] as int].den
    &&& forall|i: int, r: int| 0 <= i < row && 0 <= r < rows && r != i ==> (#[trigger] m[r]@[pc[i] as int]).num == 0
    &&& forall|r: int, c: int| row <= r < rows && 0 <= c < col ==> (#[trigger] m[r]@[c]).num == 0
}

/// The rows' entries.
pub open spec fn rows_view(m: Seq<Vec<Fraction>>) -> Seq<Seq<Fraction>> {
    m.map_values(|v: Vec<Fraction>| v@)
}

/// The first row from `from` on with a non-zero entry in column `col`, or
/// `rows` when there is none.
pub open spec fn first_nonzero(m: Seq<Seq<Fraction>>, col: int, from: int, rows: int) -> int
    decreases rows - from,
{
    if from >= rows {
        rows
    } else if m[from][col].num != 0 {
        from
    } else {
        first_nonzero(m, col, from + 1, rows)
    }
}

/// The reduced inverse of a fraction.
pub open spec fn inv_of(f: Fraction) -> Fraction {
    Fraction { num: reduced_num(f.den as int, f.num as int) as i64, den: reduced_den(f.den as int, f.num as int) as i64 }
}

/// The reduced negation of a fraction.
pub open spec fn neg_of(f: Fraction) -> Fraction {
    Fraction { num: reduced_num(-f.num, f.den as int) as i64, den: reduced_den(-f.num, f.den as int) as i64 }
}

/// Scaling the row by `inv` keeps every entry within `i64`.
pub open spec fn row_scale_fits(row: Seq<Fraction>, inv: Fraction) -> bool {
    forall|j: int| 0 <= j < row.len() ==> mul_fits(#[trigger] row[j], inv)
}

/// The row scaled by `inv`.
pub open spec fn scaled_row(row: Seq<Fraction>, inv: Fraction) -> Seq<Fraction> {
    Seq::new(row.len(), |j: int| mul_of(row[j], inv))
}

/// Adding `nf` times the pivot row keeps every entry within `i64`.
pub open spec fn row_elim_fits(old: Seq<Fraction>, nf: Fraction, piv: Seq<Fraction>) -> bool {
    forall|j: int| 0 <= j < old.len() ==> elim_fits(#[trigger] old[j], nf, piv[j])
}

/// The row plus `nf` times the pivot row.
pub open spec fn eliminated_row(old: Seq<Fraction>, piv: Seq<Fraction>, nf: Fraction) -> Seq<Fraction> {
    Seq::new(old.len(), |j: int| add_of(old[j], mul_of(nf, piv[j])))
}

/// Clearing column `col` in rows `r..rows` other than the pivot row `row`,
/// or `None` when an entry leaves `i64`.
pub open spec fn elim_pass(m: Seq<Seq<Fraction>>, row: int, col: int, r: int, rows: int) -> Option<Seq<Seq<Fraction>>>
    decreases rows - r,
{
    if r >= rows {
        Some(m)
    } else if r != row && m[r][col].num != 0 {
        let nf = neg_of(m[r][col]);
        if !row_elim_fits(m[r], nf, m[row]) {
            None
        } else {
            elim_pass(m.update(r, eliminated_row(m[r], m[row], nf)), row, col, r + 1, rows)
        }
    } else {
        elim_pass(m, row, col, r + 1, rows)
    }
}

/// Gauss-Jordan elimination from pivot row `row` and column `col` on: the
/// reduced rows and the pivot columns, or `None` when an entry leaves `i64`.
pub open spec fn reduce_from(m: Seq<Seq<Fraction>>, rows: int, n: int, row: int, col: int, pcs: Seq<usize>) -> Option<
    (Seq<Seq<Fraction>>, Seq<usize>),
>
    decreases n - col,
{
    if !(col < n && row < rows) {
        Some((m, pcs))
    } else {
        let p = first_nonzero(m, col, row, rows);
        if p >= rows {
            reduce_from(m, rows, n, row, col + 1, pcs)
        } else {
            let m1 = if p != row {
                m.update(row, m[p]).update(p, m[row])
            } else {
                m
            };
            let inv = inv_of(m1[row][col]);
            if !row_scale_fits(m1[row], inv) {
                None
            } else {
                let m2 = m1.update(row, scaled_row(m1[row], inv));
                match elim_pass(m2, row, col, 0, rows) {
                    Some(m3) => reduce_from(m3, rows, n, row + 1, col + 1, pcs.push(col as usize)),
                    None => None,
                }
            }
        }
    }
}

/// Reduce `m` (rows × n) to reduced row echelon form; returns the pivot
/// columns in increasing order, or `None` when an entry leaves `i64`. Every
/// `x` that the input rows send to zero is sent to zero by the reduced rows.
fn reduce(m: &mut Vec<Vec<Fraction>>, rows: usize, n: usize) -> (r: Option<Vec<usize>>)
    requires
        matrix_ok(old(m)@, rows as int, n as int),
    ensures
        matrix_ok(final(m)@, rows as int, n as int),
        r matches Some(p) ==> p@.len() <= rows && forall|i: int| 0 <= i < p@.len() ==> (#[trigger] p@[i]) < n,
        r matches Some(p) ==> forall|i: int, j: int| 0 <= i < j < p@.len() ==> (#[trigger] p@[i]) < (#[trigger] p@[j]),
        r matches Some(p) ==> echelon(final(m)@, rows as int, p@, p@.len() as int, n as int),
        r matches Some(p) ==> forall|x: Seq<int>| all_zero(old(m)@, x) ==> #[trigger] all_zero(final(m)@, x),
        r matches Some(p) ==> forall|x: Seq<int>| #[trigger] all_zero(final(m)@, x) ==> all_zero(old(m)@, x),
        r is None <==> reduce_from(rows_view(old(m)@), rows as int, n as int, 0, 0, Seq::empty()) is None,
        r matches Some(p) ==> reduce_from(rows_view(old(m)@), rows as int, n as int, 0, 0, Seq::empty()) == Some(
            (rows_view(final(m)@), p@),
        ),
{
    let ghost m0 = m@;
    let ghost target = reduce_from(rows_view(m0), rows as int, n as int, 0, 0, Seq::empty());
    let mut pivot_cols: Vec<usize> = Vec::new();
    let mut row: usize = 0;
    let mut col: usize = 0;
    while col < n && row < rows
        invariant
            matrix_ok(m@, rows as int, n as int),
            m0.len() == rows,
            col <= n,
            row <= rows,
            pivot_cols@.len() == row,
            forall|i: int| 0 <= i < pivot_cols@.len() ==> (#[trigger] pivot_cols@[i]) < col,
            forall|i: int, j: int|
                0 <= i < j < pivot_cols@.len() ==> (#[trigger] pivot_cols@[i]) < (#[trigger] pivot_cols@[j]),
            echelon(m@, rows as int, pivot_cols@, row as int, col as int),
            forall|x: Seq<int>| all_zero(m0, x) ==> #[trigger] all_zero(m@, x),
            forall|x: Seq<int>| #[trigger] all_zero(m@, x) ==> all_zero(m0, x),
            target == reduce_from(rows_view(m0), rows as int, n as int, 0, 0, Seq::empty()),
            m0 == old(m)@,
            reduce_from(rows_view(m@), rows as int, n as int, row as int, col as int, pivot_cols@) == target,
        decreases n - col,
    {
        let ghost mv = rows_view(m@);
        let mut p: usize = row;
        let mut found = false;
        while p < rows && !found
            invariant
                matrix_ok(m@, rows as int, n as int),
                row <= p <= rows,
                col < n,
                found ==> p < rows && m@[p as int]@[col as int].num != 0,
                !found ==> forall|r: int| row <= r < p ==> (#[trigger] m@[r]@[col as int]).num == 0,
                mv == rows_view(m@),
                first_nonzero(mv, col as int, row as int, rows as int) == first_nonzero(mv, col as int, p as int, rows as int),
            decreases rows - p + (if found { 0int } else { 1int }),
        {
            if !m[p][col].is_zero() {
                found = true;
            } else {
                p = p + 1;
            }
        }
        proof {
            if found {
                assert(mv[p as int][col as int] == m@[p as int]@[col as int]);
            } else {
                assert(p == rows);
            }
        }
        if found {
            if p != row {
                let ghost before = m@;
                let a = copy_row(&m[row]);
                let b = copy_row(&m[p]);
                m.set(row, b);
                m.set(p, a);
                proof {
                    assert forall|x: Seq<int>| #[trigger] all_zero(m@, x) implies all_zero(m0, x) by {
                        assert forall|r: int| 0 <= r < before.len() implies row_zero(#[trigger] before[r]@, x) by {
                            if r == row {
                                assert(m@[p as int]@ == before[r]@);
                            } else if r == p {
                                assert(m@[row as int]@ == before[r]@);
                            } else {
                                assert(m@[r] == before[r]);
                            }
                        }
                        assert(all_zero(before, x));
                    }
                    assert forall|x: Seq<int>| all_zero(m0, x) implies #[trigger] all_zero(m@, x) by {
                        assert(all_zero(before, x));
                        assert forall|r: int| 0 <= r < m@.len() implies row_zero(#[trigger] m@[r]@, x) by {
                            if r == row {
                                assert(m@[r]@ == before[p as int]@);
                            } else if r == p {
                                assert(m@[r]@ == before[row as int]@);
                            } else {
                                assert(m@[r] == before[r]);
                            }
                        }
                    }
                    assert forall|i: int| 0 <= i < row implies (#[trigger] m@[i]@[pivot_cols@[i] as int]).num
                        == m@[i]@[pivot_cols@[i] as int].den by {
                        assert(m@[i] == before[i]);
                    }
                    assert forall|i: int, r: int| 0 <= i < row && 0 <= r < rows && r != i implies (
                    #[trigger] m@[r]@[pivot_cols@[i] as int]).num == 0 by {
                        if r == row {
                            assert(m@[r]@ == before[p as int]@);
                        } else if r == p {
                            assert(m@[r]@ == before[row as int]@);
                        } else {
                            assert(m@[r] == before[r]);
                        }
                    }
                    assert forall|r: int, c: int| row <= r < rows && 0 <= c < col implies (
                    #[trigger] m@[r]@[c]).num == 0 by {
                        if r == row {
                            assert(m@[r]@ == before[p as int]@);
                        } else if r == p {
                            assert(m@[r]@ == before[row as int]@);
                        } else {
                            assert(m@[r] == before[r]);
                        }
                    }
                    assert(m@[row as int]@[col as int].num != 0);
                }
            }
            let ghost m1 = rows_view(m@);
            proof {
                if p != row {
                    assert(m1 =~= mv.update(row as int, mv[p as int]).update(p as int, mv[row as int]));
                } else {
                    assert(m1 =~= mv);
                }
            }
            let pv = m[row][col];
            let inv = Fraction::new(pv.den, pv.num);
            assert(inv == inv_of(m1[row as int][col as int]));
            proof {
                assert(inv.num * pv.num == pv.den * inv.den);
                if inv.num == 0 {
                    assert(pv.den * inv.den == 0) by (nonlinear_arith)
                        requires
                            inv.num * pv.num == pv.den * inv.den,
                            inv.num == 0,
                    ;
                    lemma_pos_prod(pv.den as int, inv.den as int);
                }
            }
            let scaled = match scale_row(&m[row], inv, col) {
                Some(v) => v,
                None => {
                    proof {
                        assert(m1[row as int] == m@[row as int]@);
                        assert(!row_scale_fits(m1[row as int], inv));
                        assert(first_nonzero(mv, col as int, p as int, rows as int) == p);
                        assert(first_nonzero(mv, col as int, row as int, rows as int) == p);
                        assert(reduce_from(mv, rows as int, n as int, row as int, col as int, pivot_cols@) is None);
                    }
                    return None;
                },
            };
            let ghost before_scale = m@;
            m.set(row, scaled);
            let ghost m2v = rows_view(m@);
            proof {
                assert(m1[row as int] == before_scale[row as int]@);
                assert(row_scale_fits(m1[row as int], inv));
                assert(scaled@ =~= scaled_row(m1[row as int], inv));
                assert(m2v =~= m1.update(row as int, scaled_row(m1[row as int], inv)));
            }
            proof {
                assert forall|x: Seq<int>| #[trigger] all_zero(m@, x) implies all_zero(m0, x) by {
                    assert forall|r: int| 0 <= r < before_scale.len() implies row_zero(#[trigger] before_scale[r]@, x) by {
                        if r == row {
                            assert(row_zero(m@[row as int]@, x));
                            assert(row_zero(scaled@, x));
                        } else {
                            assert(m@[r] == before_scale[r]);
                        }
                    }
                    assert(all_zero(before_scale, x));
                }
                assert forall|x: Seq<int>| all_zero(m0, x) implies #[trigger] all_zero(m@, x) by {
                    assert(all_zero(before_scale, x));
                    assert forall|r: int| 0 <= r < m@.len() implies row_zero(#[trigger] m@[r]@, x) by {
                        if r == row {
                            assert(row_zero(before_scale[row as int]@, x));
                        } else {
                            assert(m@[r] == before_scale[r]);
                        }
                    }
                }
                assert forall|i: int| 0 <= i < row implies (#[trigger] m@[i]@[pivot_cols@[i] as int]).num
                    == m@[i]@[pivot_cols@[i] as int].den by {
                    assert(m@[i] == before_scale[i]);
                }
                assert forall|i: int, r: int| 0 <= i < row && 0 <= r < rows && r != i implies (
                #[trigger] m@[r]@[pivot_cols@[i] as int]).num == 0 by {
                    if r == row {
                        assert(before_scale[row as int]@[pivot_cols@[i] as int].num == 0);
                    } else {
                        assert(m@[r] == before_scale[r]);
                    }
                }
                assert forall|r: int, c: int| row <= r < rows && 0 <= c < col implies (
                #[trigger] m@[r]@[c]).num == 0 by {
                    if r == row {
                        assert(before_scale[row as int]@[c].num == 0);
                    } else {
                        assert(m@[r] == before_scale[r]);
                    }
                }
            }
            let ghost step = reduce_from(mv, rows as int, n as int, row as int, col as int, pivot_cols@);
            assert(step == match elim_pass(m2v, row as int, col as int, 0, rows as int) {
                Some(m3) => reduce_from(m3, rows as int, n as int, row + 1, col + 1, pivot_cols@.push(col)),
                None => None,
            });
            let pivot_row = copy_row(&m[row]);
            let mut r: usize = 0;
            while r < rows
                invariant
                    matrix_ok(m@, rows as int, n as int),
                    m0.len() == rows,
                    row < rows,
                    col < n,
                    r <= rows,
                    pivot_cols@.len() == row,
                    forall|i: int| 0 <= i < pivot_cols@.len() ==> (#[trigger] pivot_cols@[i]) < col,
                    pivot_row@ == m@[row as int]@,
                    pivot_row@[col as int].num == pivot_row@[col as int].den,
                    echelon(m@, rows as int, pivot_cols@, row as int, col as int),
                    forall|r2: int| 0 <= r2 < r && r2 != row ==> (#[trigger] m@[r2]@[col as int]).num == 0,
                    forall|r2: int| row < r2 < rows ==> (#[trigger] m@[r2]@[col as int]).num == 0 || r2 >= r,
                    forall|x: Seq<int>| all_zero(m0, x) ==> #[trigger] all_zero(m@, x),
                    forall|x: Seq<int>| #[trigger] all_zero(m@, x) ==> all_zero(m0, x),
            forall|x: Seq<int>| #[trigger] all_zero(m@, x) ==> all_zero(m0, x),
                    elim_pass(rows_view(m@), row as int, col as int, r as int, rows as int) == elim_pass(
                        m2v,
                        row as int,
                        col as int,
                        0,
                        rows as int,
                    ),
                    target == step,
                    m0 == old(m)@,
                    target == reduce_from(rows_view(m0), rows as int, n as int, 0, 0, Seq::empty()),
                    step == match elim_pass(m2v, row as int, col as int, 0, rows as int) {
                        Some(m3) => reduce_from(m3, rows as int, n as int, row + 1, col + 1, pivot_cols@.push(col)),
                        None => None,
                    },
                decreases rows - r,
            {
                let ghost vr = rows_view(m@);
                if r != row && !m[r][col].is_zero() {
                    let neg_factor = frac_neg(m[r][col]);
                    proof {
                        assert(vr[r as int] == m@[r as int]@);
                        assert(vr[row as int] == pivot_row@);
                    }
                    let new_row = match eliminate_row(&m[r], &pivot_row, neg_factor, col) {
                        Some(v) => v,
                        None => {
                            proof {
                                assert(!row_elim_fits(vr[r as int], neg_factor, vr[row as int]));
                                assert(elim_pass(vr, row as int, col as int, r as int, rows as int) is None);
                                assert(elim_pass(m2v, row as int, col as int, 0, rows as int) is None);
                                assert(step is None);
                            }
                            return None;
                        },
                    };
                    proof {
                        assert(row_elim_fits(vr[r as int], neg_factor, vr[row as int]));
                        assert(new_row@ =~= eliminated_row(vr[r as int], vr[row as int], neg_factor));
                    }
                    let ghost before = m@;
                    m.set(r, new_row);
                    proof {
                        assert(rows_view(m@) =~= vr.update(r as int, eliminated_row(vr[r as int], vr[row as int], neg_factor)));
                        assert forall|x: Seq<int>| #[trigger] all_zero(m@, x) implies all_zero(m0, x) by {
                            assert(m@[row as int] == before[row as int]);
                            assert(row_zero(m@[row as int]@, x));
                            assert(row_zero(pivot_row@, x));
                            assert(row_zero(m@[r as int]@, x));
                            assert(row_zero(new_row@, x));
                            assert forall|r2: int| 0 <= r2 < before.len() implies row_zero(#[trigger] before[r2]@, x) by {
                                if r2 != r {
                                    assert(m@[r2] == before[r2]);
                                }
                            }
                            assert(all_zero(before, x));
                        }
                        assert forall|x: Seq<int>| all_zero(m0, x) implies #[trigger] all_zero(m@, x) by {
                            assert(all_zero(before, x));
                            assert(row_zero(before[row as int]@, x));
                            assert(row_zero(before[r as int]@, x));
                            assert forall|r2: int| 0 <= r2 < m@.len() implies row_zero(#[trigger] m@[r2]@, x) by {
                                if r2 != r {
                                    assert(m@[r2] == before[r2]);
                                }
                            }
                        }
                        assert forall|i: int| 0 <= i < row implies (#[trigger] m@[i]@[pivot_cols@[i] as int]).num
                            == m@[i]@[pivot_cols@[i] as int].den by {
                            if i == r {
                                let c = pivot_cols@[i] as int;
                                assert(pivot_row@[c].num == 0);
                                let o = before[r as int]@[c];
                                let w = m@[r as int]@[c];
                                assert(w.num * o.den == o.num * w.den);
                                assert(o.num == o.den);
                                assert(w.num * o.den == w.den * o.den) by (nonlinear_arith)
                                    requires
                                        w.num * o.den == o.num * w.den,
                                        o.num == o.den,
                                ;
                                lemma_cancel(w.num as int, o.den as int, w.den as int);
                            } else {
                                assert(m@[i] == before[i]);
                            }
                        }
                        assert forall|i: int, r2: int| 0 <= i < row && 0 <= r2 < rows && r2 != i implies (
                        #[trigger] m@[r2]@[pivot_cols@[i] as int]).num == 0 by {
                            if r2 == r {
                                let c = pivot_cols@[i] as int;
                                assert(pivot_row@[c].num == 0);
                                let o = before[r as int]@[c];
                                let w = m@[r as int]@[c];
                                assert(w.num * o.den == o.num * w.den);
                                assert(o.num == 0);
                                assert(w.num * o.den == 0) by (nonlinear_arith)
                                    requires
                                        w.num * o.den == o.num * w.den,
                                        o.num == 0,
                                ;
                                lemma_zero_factor(w.num as int, o.den as int);
                            } else {
                                assert(m@[r2] == before[r2]);
                            }
                        }
                        assert forall|r2: int, c: int| row <= r2 < rows && 0 <= c < col implies (
                        #[trigger] m@[r2]@[c]).num == 0 by {
                            if r2 == r {
                                assert(pivot_row@[c].num == 0);
                                let o = before[r as int]@[c];
                                let w = m@[r as int]@[c];
                                assert(w.num * o.den == o.num * w.den);
                                assert(o.num == 0);
                                assert(w.num * o.den == 0) by (nonlinear_arith)
                                    requires
                                        w.num * o.den == o.num * w.den,
                                        o.num == 0,
                                ;
                                lemma_zero_factor(w.num as int, o.den as int);
                            } else {
                                assert(m@[r2] == before[r2]);
                            }
                        }
                        assert forall|r2: int| 0 <= r2 < r + 1 && r2 != row implies (#[trigger] m@[r2]@[col as int]).num == 0 by {
                            if r2 != r {
                                assert(m@[r2] == before[r2]);
                            }
                        }
                        assert forall|r2: int| row < r2 < rows implies (#[trigger] m@[r2]@[col as int]).num == 0 || r2 >= r + 1 by {
                            if r2 != r {
                                assert(m@[r2] == before[r2]);
                            }
                        }
                        assert(m@[row as int] == before[row as int]);
                    }
                }
                r = r + 1;
            }
            proof {
                let pc2 = pivot_cols@.push(col);
                assert forall|i: int| 0 <= i < row + 1 implies (#[trigger] m@[i]@[pc2[i] as int]).num
                    == m@[i]@[pc2[i] as int].den by {
                    if i < row {
                        assert(pc2[i] == pivot_cols@[i]);
                    }
                }
                assert forall|i: int, r2: int| 0 <= i < row + 1 && 0 <= r2 < rows && r2 != i implies (
                #[trigger] m@[r2]@[pc2[i] as int]).num == 0 by {
                    if i < row {
                        assert(pc2[i] == pivot_cols@[i]);
                    }
                }
                assert forall|r2: int, c: int| row + 1 <= r2 < rows && 0 <= c < col + 1 implies (
                #[trigger] m@[r2]@[c]).num == 0 by {
                    if c == col {
                        assert(m@[r2]@[col as int].num == 0);
                    }
                }
            }
            proof {
                assert(elim_pass(rows_view(m@), row as int, col as int, rows as int, rows as int) == Some(rows_view(m@)));
            }
            pivot_cols.push(col);
            row = row + 1;
        } else {
            proof {
                assert forall|r2: int, c: int| row <= r2 < rows && 0 <= c < col + 1 implies (
                #[trigger] m@[r2]@[c]).num == 0 by {
                    if c == col {
                        assert(m@[r2]@[col as int].num == 0);
                    }
                }
            }
        }
        col = col + 1;
    }
    proof {
        assert forall|r2: int, c: int| row <= r2 < rows && 0 <= c < n implies (#[trigger] m@[r2]@[c]).num == 0 by {
            if col < n {
                assert(row == rows);
            }
        }
    }
    Some(pivot_cols)
}

/// `+1` for a reactant (the first `nr` species), `-1` for a product.
pub open spec fn side(nr: int, j: int) -> int {
    if j < nr {
        1
    } else {
        -1
    }
}

/// Atoms of `s` among the first `k` species weighted by `x`, reactants
/// counted positively and products negatively.
pub open spec fn net_atoms(species: Seq<Entries>, nr: int, x: Seq<int>, s: Seq<char>, k: int) -> int
    decreases k,
{
    if k <= 0 {
        0
    } else {
        net_atoms(species, nr, x, s, k - 1) + side(nr, k - 1) * x[k - 1] * count_in(species[k - 1], s)
    }
}

/// The integer coefficients `x` (reactants then products) conserve every element.
pub open spec fn conserves(reactants: Seq<Entries>, products: Seq<Entries>, x: Seq<int>) -> bool {
    let sp = reactants + products;
    &&& x.len() == sp.len()
    &&& forall|s: Seq<char>| #[trigger] net_atoms(sp, reactants.len() as int, x, s, sp.len() as int) == 0
}

/// Column `c` is among the first `hi` pivot columns.
pub open spec fn pivot_in(pc: Seq<usize>, hi: int, c: int) -> bool {
    exists|t: int| 0 <= t < hi && pc[t] == c
}

/// `x` and `c` are proportional: `x[i] · c[j] == x[j] · c[i]` throughout.
pub open spec fn proportional(x: Seq<int>, c: Seq<i64>) -> bool {
    forall|i: int, j: int| 0 <= i < x.len() && 0 <= j < x.len() ==> #[trigger] (x[i] * c[j]) == x[j] * c[i]
}

/// Every coefficient vector that conserves the elements is proportional to `c`.
pub open spec fn unique_ratio(reactants: Seq<Entries>, products: Seq<Entries>, c: Seq<i64>) -> bool {
    forall|x: Seq<int>| #[trigger] conserves(reactants, products, x) ==> proportional(x, c)
}

proof fn lemma_gcd_one(a: int)
    ensures
        spec_gcd(crate::math::abs(a), 1) == 1,
{
    reveal_with_fuel(spec_gcd, 3);
}

/// A matrix row of signed atom counts of `e` dots with `x` to the net atoms of `e`.
proof fn lemma_side_row(row: Seq<Fraction>, sp: Seq<Entries>, nr: int, x: Seq<int>, e: Seq<char>, k: int)
    requires
        0 <= k <= row.len(),
        forall|j: int|
            0 <= j < row.len() ==> (#[trigger] row[j]) == (Fraction {
                num: (side(nr, j) * count_in(sp[j], e)) as i64,
                den: 1,
            }),
        forall|j: int| 0 <= j < row.len() ==> i64::MIN < #[trigger] count_in(sp[j], e) <= i64::MAX,
    ensures
        dot_num(row, x, k) == net_atoms(sp, nr, x, e, k),
        dot_den(row, k) == 1,
    decreases k,
{
    if k > 0 {
        lemma_side_row(row, sp, nr, x, e, k - 1);
        let j = k - 1;
        let c = count_in(sp[j], e);
        assert(row[j].num == side(nr, j) * c);
        assert(side(nr, j) * c * x[j] == side(nr, j) * x[j] * c) by (nonlinear_arith);
    }
}

/// A pivot row with a one at `j`, the free entry at `f` and zeros elsewhere,
/// vanishing at `x`, fixes `x[j]` by `x[f]`: the solution entry `sj`, minus
/// the free entry, satisfies `x[j] / x[f] == sj`.
proof fn lemma_pivot_equation(row: Seq<Fraction>, x: Seq<int>, j: int, f: int, sj: Fraction)
    requires
        0 <= j < row.len(),
        0 <= f < row.len(),
        j != f,
        dens_pos(row),
        sj.den > 0,
        row[j].num == row[j].den,
        forall|c: int| 0 <= c < row.len() && c != j && c != f ==> (#[trigger] row[c]).num == 0,
        row_zero(row, x),
        sj.num * row[f].den == -row[f].num * sj.den,
    ensures
        x[j] * sj.den == x[f] * sj.num,
{
    let k = row.len() as int;
    lemma_dot_pair(row, x, j, f, k);
    lemma_dot_den_pos(row, k);
    let dj = row[j].den as int;
    let df = row[f].den as int;
    let nf = row[f].num as int;
    assert((row[j].num * x[j] * df + nf * x[f] * dj) * dot_den(row, k) == 0) by (nonlinear_arith)
        requires
            dot_num(row, x, k) * row[j].den * row[f].den == (row[j].num * x[j] * df + nf * x[f] * dj) * dot_den(row, k),
            dot_num(row, x, k) == 0,
    ;
    lemma_zero_factor(row[j].num * x[j] * df + nf * x[f] * dj, dot_den(row, k));
    assert((x[j] * df + nf * x[f]) * dj == 0) by (nonlinear_arith)
        requires
            row[j].num * x[j] * df + nf * x[f] * dj == 0,
            row[j].num == dj,
    ;
    lemma_zero_factor(x[j] * df + nf * x[f], dj);
    assert(x[j] * df == -nf * x[f]) by (nonlinear_arith)
        requires
            x[j] * df + nf * x[f] == 0,
    ;
    assert(x[j] * sj.den * df == x[f] * sj.num * df) by (nonlinear_arith)
        requires
            x[j] * df == -nf * x[f],
            sj.num * df == -nf * sj.den,
    ;
    lemma_cancel(x[j] * sj.den, df, x[f] * sj.num);
}

/// Two coefficient vectors that are both fixed by one free entry are
/// proportional entry by entry.
proof fn lemma_proportional(
    xi: int,
    xj: int,
    xf: int,
    sni: int,
    snj: int,
    sdi: int,
    sdj: int,
    ci: int,
    cj: int,
    g: int,
    sigma: int,
    qi: int,
    qj: int,
    l: int,
)
    requires
        xi * sdi == xf * sni,
        xj * sdj == xf * snj,
        ci * g == sigma * (sni * qi),
        cj * g == sigma * (snj * qj),
        qi * sdi == l,
        qj * sdj == l,
        g > 0,
        sdi > 0,
        sdj > 0,
    ensures
        xi * cj == xj * ci,
{
    let d = g * sdi * sdj;
    assert(xi * cj * d == (xi * sdi) * (cj * g) * sdj) by (nonlinear_arith)
        requires
            d == g * sdi * sdj,
    ;
    assert((xi * sdi) * (cj * g) * sdj == (xf * sni) * (sigma * (snj * qj)) * sdj);
    assert((xf * sni) * (sigma * (snj * qj)) * sdj == xf * sni * sigma * snj * (qj * sdj)) by (nonlinear_arith);
    assert(xj * ci * d == (xj * sdj) * (ci * g) * sdi) by (nonlinear_arith)
        requires
            d == g * sdi * sdj,
    ;
    assert((xj * sdj) * (ci * g) * sdi == (xf * snj) * (sigma * (sni * qi)) * sdi);
    assert((xf * snj) * (sigma * (sni * qi)) * sdi == xf * snj * sigma * sni * (qi * sdi)) by (nonlinear_arith);
    assert(xf * sni * sigma * snj * l == xf * snj * sigma * sni * l) by (nonlinear_arith);
    assert(d > 0) by (nonlinear_arith)
        requires
            d == g * sdi * sdj,
            g > 0,
            sdi > 0,
            sdj > 0,
    ;
    lemma_cancel(xi * cj, d, xj * ci);
}

/// The strings' characters.
pub open spec fn elem_view(v: Seq<String>) -> Seq<Seq<char>> {
    v.map_values(|s: String| s@)
}

/// `acc` with the symbols of `c`'s first `e` entries appended, each once.
pub open spec fn add_syms(acc: Seq<Seq<char>>, c: Entries, e: int) -> Seq<Seq<char>>
    decreases e,
{
    if e <= 0 {
        acc
    } else {
        let a = add_syms(acc, c, e - 1);
        if a.contains(c[e - 1].0) {
            a
        } else {
            a.push(c[e - 1].0)
        }
    }
}

/// The distinct symbols of the first `t` species, in order of first occurrence.
pub open spec fn elements_upto(sp: Seq<Entries>, t: int) -> Seq<Seq<char>>
    decreases t,
{
    if t <= 0 {
        Seq::empty()
    } else {
        add_syms(elements_upto(sp, t - 1), sp[t - 1], sp[t - 1].len() as int)
    }
}

/// One row per element: its signed atom count in each species.
pub open spec fn matrix_of(sp: Seq<Entries>, nr: int, els: Seq<Seq<char>>) -> Seq<Seq<Fraction>> {
    Seq::new(
        els.len(),
        |k: int| Seq::new(sp.len(), |j: int| Fraction { num: (side(nr, j) * count_in(sp[j], els[k])) as i64, den: 1 }),
    )
}

/// No atom count is `i64::MIN` (so every count can be negated).
pub open spec fn counts_fit(sp: Seq<Entries>, els: Seq<Seq<char>>) -> bool {
    forall|k: int, j: int| 0 <= k < els.len() && 0 <= j < sp.len() ==> #[trigger] count_in(sp[j], els[k]) != i64::MIN
}

/// How many of the columns `0..c` are not pivot columns.
pub open spec fn nonpivot_count(pcs: Seq<usize>, c: int) -> int
    decreases c,
{
    if c <= 0 {
        0
    } else {
        nonpivot_count(pcs, c - 1) + if pcs.contains((c - 1) as usize) {
            0int
        } else {
            1int
        }
    }
}

/// The last of the columns `0..c` that is not a pivot column (0 when none is).
pub open spec fn last_free(pcs: Seq<usize>, c: int) -> int
    decreases c,
{
    if c <= 0 {
        0
    } else if !pcs.contains((c - 1) as usize) {
        c - 1
    } else {
        last_free(pcs, c - 1)
    }
}

/// The pivot row whose pivot column is `j`.
pub open spec fn pivot_row_of(pcs: Seq<usize>, j: int) -> int {
    choose|i: int| 0 <= i < pcs.len() && pcs[i] == j
}

/// The solution with the free variable 1: each pivot variable is minus its
/// row's entry in the free column.
pub open spec fn solution_of(mr: Seq<Seq<Fraction>>, pcs: Seq<usize>, free: int, n: int) -> Seq<Fraction> {
    Seq::new(
        n as nat,
        |j: int| if j == free {
            Fraction { num: 1, den: 1 }
        } else {
            neg_of(mr[pivot_row_of(pcs, j)][free])
        },
    )
}

/// The lcm of the first `j` denominators, or `None` when a step leaves `i64`.
pub open spec fn lcm_fold(sol: Seq<Fraction>, j: int) -> Option<int>
    decreases j,
{
    if j <= 0 {
        Some(1)
    } else {
        match lcm_fold(sol, j - 1) {
            None => None,
            Some(l) => {
                let v = (l / spec_gcd(l, sol[j - 1].den as int)) * sol[j - 1].den;
                if v > i64::MAX {
                    None
                } else {
                    Some(v)
                }
            },
        }
    }
}

/// The solution scaled by `l` to integers.
pub open spec fn scaled_ints(sol: Seq<Fraction>, l: int) -> Seq<int> {
    Seq::new(sol.len(), |j: int| (sol[j].num as int) * (l / (sol[j].den as int)))
}

/// The integers' values.
pub open spec fn int_view(v: Seq<i64>) -> Seq<int> {
    Seq::new(v.len(), |j: int| v[j] as int)
}

/// Every value lies in `i64`.
pub open spec fn fits_i64(raw: Seq<int>) -> bool {
    forall|j: int| 0 <= j < raw.len() ==> i64::MIN <= #[trigger] raw[j] <= i64::MAX
}

/// Some value is negative and none is positive: the signs are turned.
pub open spec fn flip_of(raw: Seq<int>) -> bool {
    &&& exists|j: int| 0 <= j < raw.len() && #[trigger] raw[j] < 0
    &&& forall|j: int| 0 <= j < raw.len() ==> #[trigger] raw[j] <= 0
}

/// `raw` with its signs turned when [`flip_of`] holds.
pub open spec fn signed_of(raw: Seq<int>) -> Seq<int> {
    if flip_of(raw) {
        Seq::new(raw.len(), |j: int| -raw[j])
    } else {
        raw
    }
}

/// `raw` made positive and divided by its gcd; `None` when a value leaves
/// `i64` before or after the signs are turned, or a value is not positive.
pub open spec fn normalized_of(raw: Seq<int>) -> Option<Seq<i64>> {
    let s = signed_of(raw);
    let g = gcd_fold(Seq::new(raw.len(), |j: int| s[j] as i64), raw.len() as int);
    if !fits_i64(raw) {
        None
    } else if flip_of(raw) && exists|j: int| 0 <= j < raw.len() && #[trigger] raw[j] == i64::MIN {
        None
    } else if exists|j: int| 0 <= j < raw.len() && #[trigger] s[j] <= 0 {
        None
    } else {
        Some(Seq::new(raw.len(), |j: int| (s[j] / g) as i64))
    }
}

/// The coefficients from the integer solution `raw`: normalised, then
/// checked against every element; `None` when either step fails.
pub open spec fn balance_from_ints(sp: Seq<Entries>, nr: int, raw: Seq<int>) -> Option<Seq<i64>> {
    match normalized_of(raw) {
        None => None,
        Some(res) => if all_checks(sp, res, nr) {
            Some(res)
        } else {
            None
        },
    }
}

/// The coefficients from the reduced matrix `mr` with pivot columns `pcs`:
/// exactly one free column, whose solution is scaled by the lcm of its
/// denominators.
pub open spec fn balance_from_pivots(sp: Seq<Entries>, nr: int, n: int, mr: Seq<Seq<Fraction>>, pcs: Seq<usize>) -> Option<
    Seq<i64>,
> {
    let sol = solution_of(mr, pcs, last_free(pcs, n), n);
    if nonpivot_count(pcs, n) != 1 {
        None
    } else {
        match lcm_fold(sol, n) {
            None => None,
            Some(l) => balance_from_ints(sp, nr, scaled_ints(sol, l)),
        }
    }
}

/// What [`balance`] computes: reduce the element × species matrix, require
/// exactly one free column, scale the solution to integers, make it positive
/// and divide by the gcd, and check it; `None` at the first step that fails
/// or leaves `i64`.
pub open spec fn balance_of(reactants: Seq<Entries>, products: Seq<Entries>) -> Option<Seq<i64>> {
    let sp = reactants + products;
    let n = sp.len() as int;
    let nr = reactants.len() as int;
    let els = elements_upto(sp, n);
    if n < 2 || !counts_fit(sp, els) {
        None
    } else {
        match reduce_from(matrix_of(sp, nr, els), els.len() as int, n, 0, 0, Seq::empty()) {
            None => None,
            Some((mr, pcs)) => balance_from_pivots(sp, nr, n, mr, pcs),
        }
    }
}

proof fn lemma_lcm_fold_none(sol: Seq<Fraction>, j: int, k: int)
    requires
        j <= k,
        lcm_fold(sol, j) is None,
    ensures
        lcm_fold(sol, k) is None,
    decreases k - j,
{
    if j < k {
        lemma_lcm_fold_none(sol, j, k - 1);
    }
}

/// Scale a solution of reduced fractions to integers by the lcm of its
/// denominators: the integers and the lcm, or `None` when the lcm or a
/// scaled value leaves `i64`.
fn scale_to_integers(solution: &Vec<Fraction>) -> (r: Option<(Vec<i64>, i64)>)
    requires
        forall|t: int| 0 <= t < solution@.len() ==> (#[trigger] solution@[t]).wf(),
    ensures
        match r {
            None => match lcm_fold(solution@, solution@.len() as int) {
                None => true,
                Some(l) => !fits_i64(scaled_ints(solution@, l)),
            },
            Some((ints, l)) => {
                &&& lcm_fold(solution@, solution@.len() as int) == Some(l as int)
                &&& l > 0
                &&& int_view(ints@) == scaled_ints(solution@, l as int)
                &&& forall|t: int|
                    0 <= t < solution@.len() ==> ((l as int) / ((#[trigger] solution@[t]).den as int)) * (
                    solution@[t].den as int) == l
            },
        },
{
    let n = solution.len();
    let ghost sol = solution@;
    let mut den_lcm: i64 = 1;
    let mut j: usize = 0;
    while j < n
        invariant
            j <= n == solution@.len(),
            solution@ == sol,
            forall|t: int| 0 <= t < n ==> (#[trigger] solution@[t]).wf(),
            den_lcm > 0,
            forall|t: int| 0 <= t < j ==> divides((#[trigger] solution@[t]).den as int, den_lcm as int),
            lcm_fold(sol, j as int) == Some(den_lcm as int),
        decreases n - j,
    {
        let old_lcm = den_lcm;
        den_lcm = match lcm_checked(den_lcm, solution[j].den) {
            Some(l) => l,
            None => {
                proof {
                    assert(lcm_fold(sol, j + 1) is None);
                    lemma_lcm_fold_none(sol, j + 1, n as int);
                }
                return None;
            },
        };
        proof {
            assert forall|t: int| 0 <= t < j + 1 implies divides((#[trigger] solution@[t]).den as int, den_lcm as int) by {
                if t < j {
                    lemma_divides_trans(solution@[t].den as int, old_lcm as int, den_lcm as int);
                }
            }
        }
        j = j + 1;
    }
    let ghost raw = scaled_ints(sol, den_lcm as int);
    let mut ints: Vec<i64> = Vec::new();
    let mut j: usize = 0;
    while j < n
        invariant
            j <= n == solution@.len(),
            solution@ == sol,
            raw == scaled_ints(sol, den_lcm as int),
            forall|t: int| 0 <= t < n ==> (#[trigger] solution@[t]).wf(),
            den_lcm > 0,
            lcm_fold(sol, n as int) == Some(den_lcm as int),
            forall|t: int| 0 <= t < n ==> divides((#[trigger] solution@[t]).den as int, den_lcm as int),
            ints@.len() == j,
            forall|t: int| 0 <= t < j ==> #[trigger] ints@[t] == raw[t],
            forall|t: int| 0 <= t < j ==> (den_lcm / (#[trigger] sol[t]).den) * sol[t].den == den_lcm,
        decreases n - j,
    {
        let f = solution[j];
        let scale: i64 = ((den_lcm as u64) / (f.den as u64)) as i64;
        proof {
            vstd::arithmetic::div_mod::lemma_div_is_ordered_by_denominator(den_lcm as int, 1, f.den as int);
            assert(divides(f.den as int, den_lcm as int));
            vstd::arithmetic::div_mod::lemma_fundamental_div_mod(den_lcm as int, f.den as int);
            assert(scale * f.den == den_lcm) by (nonlinear_arith)
                requires
                    den_lcm == f.den * (den_lcm / f.den) + den_lcm % f.den,
                    den_lcm % f.den == 0,
                    scale == den_lcm / f.den,
            ;
            assert(f == sol[j as int]);
            assert(raw[j as int] == f.num * scale);
        }
        let v = match f.num.checked_mul(scale) {
            Some(v) => v,
            None => {
                assert(!(i64::MIN <= raw[j as int] <= i64::MAX));
                return None;
            },
        };
        ints.push(v);
        j = j + 1;
    }
    assert(int_view(ints@) =~= raw);
    Some((ints, den_lcm))
}

/// Make integer coefficients positive when none is positive, and divide
/// them by their gcd: the result and the gcd, or `None` when a value cannot
/// be negated in `i64` or is not positive.
fn normalize_coefficients(raw: &Vec<i64>) -> (r: Option<(Vec<i64>, i64)>)
    requires
        raw@.len() > 0,
    ensures
        match r {
            None => normalized_of(int_view(raw@)) is None,
            Some((res, g)) => {
                &&& normalized_of(int_view(raw@)) == Some(res@)
                &&& g > 0
                &&& res@.len() == raw@.len()
                &&& forall|t: int|
                    0 <= t < raw@.len() ==> #[trigger] res@[t] * g == signed_of(int_view(raw@))[t] && res@[t] > 0
                &&& lowest_terms(res@)
            },
        },
{
    let n = raw.len();
    let ghost rv = int_view(raw@);
    assert(fits_i64(rv));
    let mut any_neg = false;
    let mut all_nonpos = true;
    let mut j: usize = 0;
    while j < n
        invariant
            j <= n == raw@.len(),
            rv == int_view(raw@),
            any_neg == exists|t: int| 0 <= t < j && #[trigger] rv[t] < 0,
            all_nonpos == forall|t: int| 0 <= t < j ==> #[trigger] rv[t] <= 0,
        decreases n - j,
    {
        if raw[j] < 0 {
            any_neg = true;
        }
        if raw[j] > 0 {
            all_nonpos = false;
        }
        proof {
            if any_neg {
                if raw[j as int] < 0 {
                    assert(rv[j as int] < 0);
                }
            }
            if !all_nonpos {
                if raw[j as int] > 0 {
                    assert(rv[j as int] > 0);
                }
            }
        }
        j = j + 1;
    }
    let flip = any_neg && all_nonpos;
    assert(flip == flip_of(rv));
    let ghost s = signed_of(rv);
    assert(s.len() == n);
    let mut ints: Vec<i64> = Vec::new();
    let mut j: usize = 0;
    while j < n
        invariant
            j <= n == raw@.len(),
            rv == int_view(raw@),
            s == signed_of(rv),
            flip == flip_of(rv),
            ints@.len() == j,
            forall|t: int| 0 <= t < j ==> #[trigger] ints@[t] == s[t],
            flip ==> forall|t: int| 0 <= t < j ==> #[trigger] rv[t] != i64::MIN,
        decreases n - j,
    {
        let x = raw[j];
        assert(rv[j as int] == x);
        if flip {
            if x == i64::MIN {
                return None;
            }
            ints.push(-x);
        } else {
            ints.push(x);
        }
        j = j + 1;
    }
    assert(flip ==> forall|t: int| 0 <= t < n ==> #[trigger] rv[t] != i64::MIN);
    let mut j: usize = 0;
    while j < n
        invariant
            j <= n == ints@.len(),
            rv == int_view(raw@),
            s == signed_of(rv),
            s.len() == n,
            flip == flip_of(rv),
            flip ==> forall|t: int| 0 <= t < n ==> #[trigger] rv[t] != i64::MIN,
            forall|t: int| 0 <= t < n ==> #[trigger] ints@[t] == s[t],
            forall|t: int| 0 <= t < j ==> #[trigger] ints@[t] > 0,
        decreases n - j,
    {
        if ints[j] <= 0 {
            assert(s[j as int] <= 0);
            return None;
        }
        j = j + 1;
    }
    assert(ints@ =~= Seq::new(rv.len(), |j: int| s[j] as i64));
    let mut g: i64 = 0;
    let mut j: usize = 0;
    while j < n
        invariant
            j <= n == ints@.len(),
            rv == int_view(raw@),
            s == signed_of(rv),
            s.len() == n,
            flip == flip_of(rv),
            flip ==> forall|t: int| 0 <= t < n ==> #[trigger] rv[t] != i64::MIN,
            forall|t: int| 0 <= t < n ==> #[trigger] ints@[t] == s[t],
            ints@ == Seq::new(rv.len(), |j: int| s[j] as i64),
            forall|t: int| 0 <= t < n ==> #[trigger] ints@[t] > 0,
            g == gcd_fold(ints@, j as int),
        decreases n - j,
    {
        proof {
            lemma_gcd_fold(ints@, j as int);
            lemma_gcd_nonneg(g as int, ints@[j as int] as int);
        }
        g = gcd(g, ints[j]);
        j = j + 1;
    }
    proof {
        lemma_gcd_fold(ints@, n as int);
    }
    let mut result: Vec<i64> = Vec::new();
    let mut j: usize = 0;
    while j < n
        invariant
            j <= n == ints@.len(),
            rv == int_view(raw@),
            s == signed_of(rv),
            s.len() == n,
            flip == flip_of(rv),
            flip ==> forall|t: int| 0 <= t < n ==> #[trigger] rv[t] != i64::MIN,
            forall|t: int| 0 <= t < n ==> #[trigger] ints@[t] == s[t],
            ints@ == Seq::new(rv.len(), |j: int| s[j] as i64),
            forall|t: int| 0 <= t < n ==> #[trigger] ints@[t] > 0,
            g == gcd_fold(ints@, n as int),
            g > 0,
            forall|t: int| 0 <= t < n ==> divides(g as int, #[trigger] ints@[t] as int),
            result@.len() == j,
            forall|t: int| 0 <= t < j ==> #[trigger] result@[t] * g == ints@[t] && result@[t] > 0,
            forall|t: int| 0 <= t < j ==> #[trigger] result@[t] == (ints@[t] as int / g as int) as i64,
        decreases n - j,
    {
        let x = ints[j];
        let q: u64 = (x as u64) / (g as u64);
        proof {
            assert(divides(g as int, x as int));
            vstd::arithmetic::div_mod::lemma_fundamental_div_mod(x as int, g as int);
            vstd::arithmetic::div_mod::lemma_div_is_ordered_by_denominator(x as int, 1, g as int);
            assert(q > 0) by (nonlinear_arith)
                requires
                    x == g * q + 0,
                    x > 0,
                    g > 0,
                    q >= 0,
            ;
            assert(q * g == x) by (nonlinear_arith)
                requires
                    x == g * q + 0,
            ;
        }
        result.push(q as i64);
        j = j + 1;
    }
    proof {
        lemma_lowest_after_division(ints@, g as int, result@);
        assert(result@ =~= Seq::new(rv.len(), |j: int| (s[j] / g as int) as i64));
        assert(fits_i64(rv));
        assert(!(flip_of(rv) && exists|j: int| 0 <= j < rv.len() && #[trigger] rv[j] == i64::MIN));
        assert forall|j: int| 0 <= j < rv.len() implies #[trigger] s[j] > 0 by {
            assert(ints@[j] == s[j]);
        }
        assert(normalized_of(rv) == Some(Seq::new(rv.len(), |j: int| (s[j] / g as int) as i64)));
    }
    Some((result, g))
}

/// Some exact value that [`balance_of`] computes leaves `i64`: an atom
/// count, a step of the elimination, the lcm of the denominators, a scaled
/// coefficient, or a sum of the final check.
pub open spec fn balance_overflows(reactants: Seq<Entries>, products: Seq<Entries>) -> bool {
    let sp = reactants + products;
    let n = sp.len() as int;
    let nr = reactants.len() as int;
    let els = elements_upto(sp, n);
    if !counts_fit(sp, els) {
        true
    } else {
        match reduce_from(matrix_of(sp, nr, els), els.len() as int, n, 0, 0, Seq::empty()) {
            None => true,
            Some((mr, pcs)) => {
                let sol = solution_of(mr, pcs, last_free(pcs, n), n);
                nonpivot_count(pcs, n) == 1 && match lcm_fold(sol, n) {
                    None => true,
                    Some(l) => !fits_i64(scaled_ints(sol, l)) || match normalized_of(scaled_ints(sol, l)) {
                        None => false,
                        Some(c) => exists|u: int, e: int|
                            0 <= u < sp.len() && 0 <= e < sp[u].len() && !(#[trigger] sum_fits(sp, c, sp[u][e].0, 0, nr)
                                && sum_fits(sp, c, sp[u][e].0, nr, n)),
                    },
                }
            },
        }
    }
}

/// Balance a reaction to the smallest positive integer coefficients, ordered
/// reactants-then-products. Returns `None` when no all-positive solution
/// exists (including degenerate, underdetermined or overdetermined systems),
/// and when an exact intermediate value leaves `i64`. A returned solution is
/// the only one up to scale: every integer vector that conserves the
/// elements is proportional to it.
#[verifier::rlimit(100)]
pub fn balance(reactants: &[Composition], products: &[Composition]) -> (r: Option<Vec<i64>>)
    ensures
        reactants@.len() + products@.len() < 2 ==> r is None,
        r matches Some(c) ==> {
            &&& c@.len() == reactants@.len() + products@.len()
            &&& forall|i: int| 0 <= i < c@.len() ==> #[trigger] c@[i] > 0
            &&& balances(views(reactants@), views(products@), c@)
            &&& lowest_terms(c@)
            &&& unique_ratio(views(reactants@), views(products@), c@)
        },
        match r {
            Some(c) => balance_of(views(reactants@), views(products@)) == Some(c@),
            None => balance_of(views(reactants@), views(products@)) is None,
        },
        reactants@.len() + products@.len() >= 2 && positive_unique(views(reactants@), views(products@)) ==> r is Some
            || balance_overflows(views(reactants@), views(products@)),
{
    let mut species: Vec<&Composition> = Vec::new();
    let mut i: usize = 0;
    while i < reactants.len()
        invariant
            i <= reactants@.len(),
            species@.len() == i,
            ref_views(species@) == views(reactants@).subrange(0, i as int),
        decreases reactants@.len() - i,
    {
        let ghost before = species@;
        species.push(&reactants[i]);
        proof {
            assert(ref_views(species@).len() == i + 1);
            assert forall|t: int| 0 <= t < i + 1 implies #[trigger] ref_views(species@)[t] == views(
                reactants@,
            ).subrange(0, i + 1)[t] by {
                if t < i {
                    assert(species@[t] == before[t]);
                    assert(ref_views(before)[t] == views(reactants@).subrange(0, i as int)[t]);
                }
            }
        }
        i = i + 1;
        assert(ref_views(species@) =~= views(reactants@).subrange(0, i as int));
    }
    let nr = species.len();
    let mut i: usize = 0;
    while i < products.len()
        invariant
            i <= products@.len(),
            nr == reactants@.len(),
            species@.len() == nr + i,
            ref_views(species@) == views(reactants@) + views(products@).subrange(0, i as int),
        decreases products@.len() - i,
    {
        let ghost before = species@;
        species.push(&products[i]);
        proof {
            let target = views(reactants@) + views(products@).subrange(0, i + 1);
            assert(ref_views(species@).len() == target.len());
            assert forall|t: int| 0 <= t < target.len() implies #[trigger] ref_views(species@)[t]
                == target[t] by {
                if t < before.len() {
                    assert(species@[t] == before[t]);
                    assert(ref_views(before)[t] == (views(reactants@) + views(products@).subrange(
                        0,
                        i as int,
                    ))[t]);
                }
            }
        }
        i = i + 1;
        assert(ref_views(species@) =~= views(reactants@) + views(products@).subrange(0, i as int));
    }
    assert(views(products@).subrange(0, products@.len() as int) =~= views(products@));
    assert(views(reactants@).subrange(0, reactants@.len() as int) =~= views(reactants@));
    let n = species.len();
    if n < 2 {
        return None;
    }
    // Distinct elements, one matrix row each.
    let ghost sp = ref_views(species@);
    let mut elements: Vec<String> = Vec::new();
    let mut t: usize = 0;
    assert(elem_view(elements@) =~= elements_upto(sp, 0));
    while t < n
        invariant
            t <= n == species@.len(),
            sp == ref_views(species@),
            elem_view(elements@) == elements_upto(sp, t as int),
        decreases n - t,
    {
        let len = species[t].len();
        let mut e: usize = 0;
        while e < len
            invariant
                t < n == species@.len(),
                e <= len == species@[t as int]@.len(),
                sp == ref_views(species@),
                elem_view(elements@) == add_syms(elements_upto(sp, t as int), sp[t as int], e as int),
            decreases len - e,
        {
            let (sym, _) = species[t].entry(e);
            let ghost acc = elem_view(elements@);
            assert(sym@ == sp[t as int][e as int].0);
            let present = contains_str(&elements, sym.as_str());
            proof {
                if present {
                    let i = choose|i: int| 0 <= i < elements@.len() && (#[trigger] elements@[i])@ == sym@;
                    assert(acc[i] == sym@);
                } else {
                    assert forall|i: int| 0 <= i < acc.len() implies acc[i] != sym@ by {
                        assert(acc[i] == elements@[i]@);
                    }
                }
                assert(present == acc.contains(sym@));
            }
            if !present {
                elements.push(sym);
                assert(elem_view(elements@) =~= acc.push(sym@));
            }
            e = e + 1;
        }
        t = t + 1;
    }
    let rows = elements.len();
    let ghost els = elem_view(elements@);
    let ghost bo = balance_of(views(reactants@), views(products@));
    assert(sp == views(reactants@) + views(products@));
    let mut m: Vec<Vec<Fraction>> = Vec::new();
    let mut k: usize = 0;
    while k < rows
        invariant
            k <= rows == elements@.len(),
            n == species@.len(),
            nr <= n,
            sp == ref_views(species@),
            n >= 2,
            nr == reactants@.len(),
            sp == views(reactants@) + views(products@),
            els == elem_view(elements@),
            els == elements_upto(sp, n as int),
            bo == balance_of(views(reactants@), views(products@)),
            matrix_ok(m@, k as int, n as int),
            forall|r: int, j: int|
                0 <= r < k && 0 <= j < n ==> (#[trigger] m@[r]@[j]) == (Fraction {
                    num: (side(nr as int, j) * count_in(sp[j], elements@[r]@)) as i64,
                    den: 1,
                }),
            forall|r: int, j: int| 0 <= r < k && 0 <= j < n ==> i64::MIN < #[trigger] count_in(sp[j], elements@[r]@) <= i64::MAX,
        decreases rows - k,
    {
        let mut row: Vec<Fraction> = Vec::new();
        let mut j: usize = 0;
        while j < n
            invariant
                k < rows == elements@.len(),
                n == species@.len(),
                nr <= n,
                sp == ref_views(species@),
                n >= 2,
                nr == reactants@.len(),
                sp == views(reactants@) + views(products@),
                els == elem_view(elements@),
                els == elements_upto(sp, n as int),
                bo == balance_of(views(reactants@), views(products@)),
                j <= n,
                row@.len() == j,
                forall|c: int| 0 <= c < j ==> (#[trigger] row@[c]).wf(),
                forall|c: int|
                    0 <= c < j ==> (#[trigger] row@[c]) == (Fraction {
                        num: (side(nr as int, c) * count_in(sp[c], elements@[k as int]@)) as i64,
                        den: 1,
                    }),
                forall|c: int| 0 <= c < j ==> i64::MIN < #[trigger] count_in(sp[c], elements@[k as int]@) <= i64::MAX,
            decreases n - j,
        {
            let count: i64 = match species[j].get(elements[k].as_str()) {
                Some(v) => v,
                None => 0,
            };
            assert(count == count_in(sp[j as int], elements@[k as int]@));
            if count == i64::MIN {
                proof {
                    assert(els[k as int] == elements@[k as int]@);
                    assert(count_in(sp[j as int], els[k as int]) == i64::MIN);
                    assert(!counts_fit(sp, els));
                    assert(bo is None);
                }
                return None;
            }
            let signed: i64 = if j < nr {
                count
            } else {
                -count
            };
            proof {
                lemma_gcd_one(signed as int);
            }
            row.push(Fraction { num: signed, den: 1 });
            j = j + 1;
        }
        let ghost before = m@;
        m.push(row);
        k = k + 1;
        assert(matrix_ok(m@, k as int, n as int)) by {
            assert forall|r: int, c: int| 0 <= r < k && 0 <= c < n implies (#[trigger] m@[r]@[c]).wf() by {
                if r < k - 1 {
                    assert(m@[r] == before[r]);
                }
            }
        }
        assert forall|r: int, j: int| 0 <= r < k && 0 <= j < n implies (#[trigger] m@[r]@[j]) == (Fraction {
            num: (side(nr as int, j) * count_in(sp[j], elements@[r]@)) as i64,
            den: 1,
        }) by {
            if r < k - 1 {
                assert(m@[r] == before[r]);
            }
        }
        assert forall|r: int, j: int| 0 <= r < k && 0 <= j < n implies i64::MIN < #[trigger] count_in(sp[j], elements@[r]@) <= i64::MAX by {
        }
    }
    let ghost m0 = m@;
    proof {
        assert(rows_view(m0) =~= matrix_of(sp, nr as int, els)) by {
            assert forall|k2: int| 0 <= k2 < rows implies #[trigger] rows_view(m0)[k2] =~= matrix_of(sp, nr as int, els)[k2] by {
                assert(els[k2] == elements@[k2]@);
            }
        }
        assert(counts_fit(sp, els)) by {
            assert forall|k2: int, j2: int| 0 <= k2 < els.len() && 0 <= j2 < sp.len() implies #[trigger] count_in(sp[j2], els[k2]) != i64::MIN by {
                assert(els[k2] == elements@[k2]@);
            }
        }
    }
    let pivot_cols = match reduce(&mut m, rows, n) {
        Some(p) => p,
        None => {
            assert(bo is None);
            return None;
        },
    };
    let ghost mr = m@;
    let ghost rv = rows_view(mr);
    assert(bo == balance_from_pivots(sp, nr as int, n as int, rv, pivot_cols@));
    let ghost rr = views(reactants@);
    let ghost pp = views(products@);
    // conserving vectors are exactly those at which the reduced rows vanish
    assert((forall|x: Seq<int>| #[trigger] conserves(rr, pp, x) ==> all_zero(mr, x)) && (forall|x: Seq<int>|
        x.len() == n && #[trigger] all_zero(mr, x) ==> conserves(rr, pp, x))) by {
        assert forall|r: int, j: int| 0 <= r < m0.len() && 0 <= j < (rr + pp).len() implies (#[trigger] m0[r]@[j])
            == (Fraction { num: (side(rr.len() as int, j) * count_in((rr + pp)[j], els[r])) as i64, den: 1 }) by {
            assert(els[r] == elements@[r]@);
        }
        assert forall|r: int, j: int| 0 <= r < m0.len() && 0 <= j < (rr + pp).len() implies i64::MIN
            < #[trigger] count_in((rr + pp)[j], els[r]) <= i64::MAX by {
            assert(els[r] == elements@[r]@);
            assert(m0[r]@[j] == m0[r]@[j]);
        }
        lemma_matrix_conserves(rr, pp, m0, els);
    }
    // Exactly one free column gives a unique ratio.
    let mut free_count: usize = 0;
    let mut free: usize = 0;
    let ghost mut f_prev: int = 0;
    let mut c: usize = 0;
    let mut pi: usize = 0;
    while c < n
        invariant
            free_count >= 1 ==> free < c && forall|t: int| 0 <= t < pivot_cols@.len() ==> pivot_cols@[t] != free,
            free_count >= 2 ==> 0 <= f_prev < n && f_prev != free && forall|t: int|
                0 <= t < pivot_cols@.len() ==> pivot_cols@[t] != f_prev,
            c <= n,
            free_count <= c,
            pivot_cols@.len() <= rows,
            forall|i: int| 0 <= i < pivot_cols@.len() ==> (#[trigger] pivot_cols@[i]) < n,
            forall|i: int, j: int|
                0 <= i < j < pivot_cols@.len() ==> (#[trigger] pivot_cols@[i]) < (#[trigger] pivot_cols@[j]),
            pi <= pivot_cols@.len(),
            forall|t: int| 0 <= t < pi ==> (#[trigger] pivot_cols@[t]) < c,
            pi < pivot_cols@.len() ==> pivot_cols@[pi as int] >= c,
            free_count == 0 ==> forall|c2: int| 0 <= c2 < c ==> #[trigger] pivot_in(pivot_cols@, pi as int, c2),
            free_count == 1 ==> free < c && (forall|t: int| 0 <= t < pivot_cols@.len() ==> pivot_cols@[t] != free)
                && forall|c2: int| 0 <= c2 < c && c2 != free ==> #[trigger] pivot_in(pivot_cols@, pi as int, c2),
            free_count == nonpivot_count(pivot_cols@, c as int),
            free_count >= 1 ==> free == last_free(pivot_cols@, c as int),
        decreases n - c,
    {
        if pi < pivot_cols.len() && pivot_cols[pi] == c {
            proof {
                assert forall|c2: int| 0 <= c2 < c + 1 && pivot_in(pivot_cols@, pi as int, c2) implies #[trigger] pivot_in(
                    pivot_cols@,
                    pi + 1,
                    c2,
                ) by {
                    let t = choose|t: int| 0 <= t < pi && pivot_cols@[t] == c2;
                    assert(0 <= t < pi + 1 && pivot_cols@[t] == c2);
                }
                assert(pivot_in(pivot_cols@, pi + 1, c as int)) by {
                    assert(pivot_cols@[pi as int] == c);
                }
                assert(pivot_cols@.contains(c));
                assert(pivot_cols@.contains(((c + 1) - 1) as usize));
            }
            pi = pi + 1;
        } else {
            proof {
                assert forall|t: int| 0 <= t < pivot_cols@.len() implies pivot_cols@[t] != c by {
                    if t >= pi {
                        if t > pi {
                            assert(pivot_cols@[pi as int] < pivot_cols@[t]);
                        }
                    }
                }
            }
            proof {
                assert(!pivot_cols@.contains(((c + 1) - 1) as usize));
            }
            proof {
                if free_count >= 1 {
                    f_prev = free as int;
                }
            }
            free_count = free_count + 1;
            free = c;
        }
        c = c + 1;
    }
    if free_count != 1 {
        assert(bo is None);
        proof {
            if n >= 2 {
                assert(free_count == 0 ==> forall|c2: int| 0 <= c2 < n ==> #[trigger] pivot_in(
                    pivot_cols@,
                    pivot_cols@.len() as int,
                    c2,
                )) by {
                    if free_count == 0 {
                        assert forall|c2: int| 0 <= c2 < n implies #[trigger] pivot_in(
                            pivot_cols@,
                            pivot_cols@.len() as int,
                            c2,
                        ) by {
                            assert(pivot_in(pivot_cols@, pi as int, c2));
                            let t = choose|t: int| 0 <= t < pi && pivot_cols@[t] == c2;
                            assert(0 <= t < pivot_cols@.len() && pivot_cols@[t] == c2);
                        }
                    }
                }
                lemma_free_columns(rr, pp, mr, rows as int, pivot_cols@, free as int, f_prev, free_count == 0);
            }
        }
        return None;
    }
    // The free variable is 1; each pivot variable is minus its row's free entry.
    let mut solution: Vec<Fraction> = Vec::new();
    let mut j: usize = 0;
    while j < n
        invariant
            j <= n,
            free < n,
            solution@.len() == j,
            forall|t: int| 0 <= t < j ==> (#[trigger] solution@[t]).wf(),
            forall|t: int| 0 <= t < j && t == free ==> (#[trigger] solution@[t]).num == 1 && solution@[t].den == 1,
            forall|t: int| 0 <= t < j && t == free ==> (#[trigger] solution@[t]) == (Fraction { num: 1, den: 1 }),
        decreases n - j,
    {
        if j == free {
            solution.push(Fraction::new(1, 1));
            proof {
                lemma_gcd_one(1);
            }
        } else {
            solution.push(Fraction::new(0, 1));
        }
        j = j + 1;
    }
    let mut ri: usize = 0;
    while ri < pivot_cols.len()
        invariant
            matrix_ok(m@, rows as int, n as int),
            m@ == mr,
            pivot_cols@.len() <= rows,
            forall|t: int| 0 <= t < pivot_cols@.len() ==> (#[trigger] pivot_cols@[t]) < n,
            forall|i: int, j: int|
                0 <= i < j < pivot_cols@.len() ==> (#[trigger] pivot_cols@[i]) < (#[trigger] pivot_cols@[j]),
            forall|t: int| 0 <= t < pivot_cols@.len() ==> pivot_cols@[t] != free,
            free < n,
            ri <= pivot_cols@.len(),
            solution@.len() == n,
            forall|t: int| 0 <= t < n ==> (#[trigger] solution@[t]).wf(),
            solution@[free as int].num == 1 && solution@[free as int].den == 1,
            forall|i: int|
                0 <= i < ri ==> #[trigger] solution@[pivot_cols@[i] as int].num * mr[i]@[free as int].den
                    == -mr[i]@[free as int].num * solution@[pivot_cols@[i] as int].den,
            solution@[free as int] == (Fraction { num: 1, den: 1 }),
            forall|i: int| 0 <= i < ri ==> #[trigger] solution@[pivot_cols@[i] as int] == neg_of(mr[i]@[free as int]),
        decreases pivot_cols@.len() - ri,
    {
        let col = pivot_cols[ri];
        let pv = m[ri][free];
        let ghost before = solution@;
        solution.set(col, frac_neg(pv));
        proof {
            assert forall|i: int| 0 <= i < ri + 1 implies #[trigger] solution@[pivot_cols@[i] as int].num
                * mr[i]@[free as int].den == -mr[i]@[free as int].num * solution@[pivot_cols@[i] as int].den by {
                if i < ri {
                    assert(pivot_cols@[i] < pivot_cols@[ri as int]);
                    assert(solution@[pivot_cols@[i] as int] == before[pivot_cols@[i] as int]);
                }
            }
            assert forall|i: int| 0 <= i < ri + 1 implies #[trigger] solution@[pivot_cols@[i] as int] == neg_of(mr[i]@[free as int]) by {
                if i < ri {
                    assert(pivot_cols@[i] < pivot_cols@[ri as int]);
                    assert(solution@[pivot_cols@[i] as int] == before[pivot_cols@[i] as int]);
                }
            }
        }
        ri = ri + 1;
    }
    let ghost sol = solution@;
    proof {
        let pcs = pivot_cols@;
        let solspec = solution_of(rv, pcs, free as int, n as int);
        assert forall|j2: int| 0 <= j2 < n implies sol[j2] == #[trigger] solspec[j2] by {
            if j2 != free {
                assert(pivot_in(pcs, pi as int, j2));
                let t = choose|t: int| 0 <= t < pi && pcs[t] == j2;
                let i2 = pivot_row_of(pcs, j2);
                assert(0 <= i2 < pcs.len() && pcs[i2] == j2);
                if i2 < t {
                    assert(pcs[i2] < pcs[t]);
                } else if i2 > t {
                    assert(pcs[t] < pcs[i2]);
                }
                assert(rv[t] == mr[t]@);
            }
        }
        assert(sol =~= solspec);
        assert(bo == match lcm_fold(sol, n as int) {
            None => None,
            Some(l) => balance_from_ints(sp, nr as int, scaled_ints(sol, l)),
        });
    }
    // Scale to integers by the lcm of the denominators.
    let (ints, den_lcm) = match scale_to_integers(&solution) {
        Some(p) => p,
        None => {
            assert(bo is None);
            return None;
        },
    };
    let ghost raw = scaled_ints(sol, den_lcm as int);
    // the integer solution conserves every element
    assert(conserves(rr, pp, raw) && raw[free as int] == den_lcm) by {
        let pcs = pivot_cols@;
        let l = den_lcm as int;
        assert(sol[free as int] == (Fraction { num: 1, den: 1 }));
        assert((l / 1) * 1 == l);
        assert forall|c2: int| 0 <= c2 < n && c2 != free && !pivot_in(pcs, pcs.len() as int, c2) implies #[trigger] raw[c2]
            == 0 by {
            assert(pivot_in(pcs, pi as int, c2));
            let t = choose|t: int| 0 <= t < pi && pcs[t] == c2;
            assert(0 <= t < pcs.len() && pcs[t] == c2);
        }
        assert forall|i: int| 0 <= i < pcs.len() implies #[trigger] (raw[pcs[i] as int] * mr[i]@[free as int].den)
            == -mr[i]@[free as int].num * raw[free as int] by {
            let j = pcs[i] as int;
            let sj = sol[j];
            let q = l / (sj.den as int);
            assert(q * sj.den == l);
            assert(sj.num * mr[i]@[free as int].den == -mr[i]@[free as int].num * sj.den);
            assert(raw[j] == sj.num * q);
            assert((sj.num * q) * mr[i]@[free as int].den == -mr[i]@[free as int].num * l) by (nonlinear_arith)
                requires
                    sj.num * mr[i]@[free as int].den == -mr[i]@[free as int].num * sj.den,
                    q * sj.den == l,
            ;
        }
        lemma_rref_solution(mr, rows as int, n as int, pcs, free as int, raw);
    }
    // Make the coefficients positive, then divide by their gcd.
    let (result, g) = match normalize_coefficients(&ints) {
        Some(p) => p,
        None => {
            assert(int_view(ints@) == raw);
            assert(bo is None);
            proof {
                if positive_unique(rr, pp) {
                    lemma_one_free_positive(rr, pp, raw, free as int);
                    assert(!flip_of(raw));
                    assert(signed_of(raw) == raw);
                    assert(fits_i64(raw));
                    assert(!exists|j: int| 0 <= j < raw.len() && #[trigger] signed_of(raw)[j] <= 0);
                    assert(normalized_of(raw) is Some);
                }
            }
            return None;
        },
    };
    let ghost sigma: int = if flip_of(raw) {
        -1
    } else {
        1
    };
    assert(forall|t: int| 0 <= t < n ==> #[trigger] result@[t] * g == sigma * raw[t]);
    if !check_balanced(&species, nr, &result) {
        assert(bo is None);
        proof {
            let c = result@;
            let xi = int_view(c);
            let sg = signed_of(raw);
            // the result is a positive multiple's divisor of the conserving solution
            assert forall|t: int| 0 <= t < n implies #[trigger] sg[t] == sigma * raw[t] by {
            }
            assert(sg.len() == n && xi.len() == n && raw.len() == n);
            assert forall|t: int| 0 <= t < sg.len() implies #[trigger] sg[t] == g * xi[t] by {
                assert(result@[t] * g == sigma * raw[t]);
                assert(xi[t] == result@[t]);
                assert(result@[t] * g == g * result@[t]) by (nonlinear_arith);
            }
            assert forall|s2: Seq<char>| #[trigger] net_atoms(sp, nr as int, xi, s2, n as int) == 0 by {
                assert(net_atoms(sp, nr as int, raw, s2, n as int) == 0);
                lemma_net_atoms_scale(sp, nr as int, sg, raw, sigma, s2, n as int);
                lemma_net_atoms_scale(sp, nr as int, sg, xi, g as int, s2, n as int);
                let v = net_atoms(sp, nr as int, xi, s2, n as int);
                assert(sigma * net_atoms(sp, nr as int, raw, s2, n as int) == 0) by (nonlinear_arith)
                    requires
                        net_atoms(sp, nr as int, raw, s2, n as int) == 0,
                ;
                assert(g * v == 0);
                assert(v == 0) by (nonlinear_arith)
                    requires
                        g * v == 0,
                        g > 0,
                ;
            }
            assert forall|s2: Seq<char>| #[trigger] weighted(sp, c, s2, 0, nr as int) == weighted(
                sp,
                c,
                s2,
                nr as int,
                n as int,
            ) by {
                lemma_net_atoms_weighted(sp, nr as int, c, xi, s2, n as int);
                if n as int <= nr as int {
                    assert(weighted(sp, c, s2, nr as int, n as int) == 0);
                }
            }
            assert(!all_checks(sp, c, nr as int));
            let (u, e) = choose|u: int, e: int| 0 <= u < sp.len() && 0 <= e < sp[u].len() && !#[trigger] entry_checks(
                sp,
                c,
                nr as int,
                sp[u][e].0,
            );
            assert(!(sum_fits(sp, c, sp[u][e].0, 0, nr as int) && sum_fits(sp, c, sp[u][e].0, nr as int, n as int)));
            assert(rr + pp == sp && rr.len() == nr);
            assert(counts_fit(sp, els));
            assert(reduce_from(matrix_of(sp, nr as int, els), els.len() as int, n as int, 0, 0, Seq::empty()) == Some(
                (rv, pivot_cols@),
            ));
            assert(last_free(pivot_cols@, n as int) == free);
            assert(solution_of(rv, pivot_cols@, free as int, n as int) == sol);
            assert(nonpivot_count(pivot_cols@, n as int) == 1);
            assert(lcm_fold(sol, n as int) == Some(den_lcm as int));
            assert(int_view(ints@) == raw);
            assert(fits_i64(raw));
            assert(normalized_of(raw) == Some(c));
            assert(balance_overflows(rr, pp));
        }
        return None;
    }
    assert(bo == Some(result@));
    proof {
        assert forall|x: Seq<int>| conserves(views(reactants@), views(products@), x) implies #[trigger] proportional(
            x,
            result@,
        ) by {
            // every row of the input matrix vanishes at `x`
            assert(views(reactants@) + views(products@) == sp);
            assert forall|r: int| 0 <= r < m0.len() implies row_zero(#[trigger] m0[r]@, x) by {
                lemma_side_row(m0[r]@, sp, nr as int, x, elements@[r]@, n as int);
                assert(net_atoms(sp, nr as int, x, elements@[r]@, sp.len() as int) == 0);
            }
            assert(all_zero(m0, x));
            assert(all_zero(mr, x));
            // each coefficient is fixed by the free one
            assert forall|j: int| 0 <= j < n implies #[trigger] x[j] * sol[j].den == x[free as int] * sol[j].num by {
                if j == free {
                } else {
                    assert(pivot_in(pivot_cols@, pivot_cols@.len() as int, j));
                    let t = choose|t: int| 0 <= t < pivot_cols@.len() && pivot_cols@[t] == j;
                    assert forall|c2: int| 0 <= c2 < n && c2 != j && c2 != free implies (#[trigger] mr[t]@[c2]).num == 0 by {
                        assert(pivot_in(pivot_cols@, pivot_cols@.len() as int, c2));
                        let t2 = choose|t2: int| 0 <= t2 < pivot_cols@.len() && pivot_cols@[t2] == c2;
                        assert(mr[t]@[pivot_cols@[t2] as int].num == 0);
                    }
                    assert(row_zero(mr[t]@, x));
                    lemma_pivot_equation(mr[t]@, x, j, free as int, sol[j]);
                }
            }
            assert forall|i: int, j: int| 0 <= i < x.len() && 0 <= j < x.len() implies #[trigger] (x[i]
                * result@[j]) == x[j] * result@[i] by {
                lemma_proportional(
                    x[i],
                    x[j],
                    x[free as int],
                    sol[i].num as int,
                    sol[j].num as int,
                    sol[i].den as int,
                    sol[j].den as int,
                    result@[i] as int,
                    result@[j] as int,
                    g as int,
                    sigma,
                    den_lcm / sol[i].den,
                    den_lcm / sol[j].den,
                    den_lcm as int,
                );
            }
        }
    }
    Some(result)
}

/// `v` is an integer multiple of the direction of `c`: `v[i] · c[0] == v[0] · c[i]`.
pub open spec fn along(v: Seq<int>, c: Seq<i64>) -> bool {
    &&& v.len() == c.len()
    &&& forall|i: int| 0 <= i < v.len() ==> #[trigger] (v[i] * c[0]) == v[0] * c[i]
}

/// Euclid's algorithm on two vectors along `c`: both are integer multiples
/// of one vector along `c` with a positive first entry.
proof fn lemma_along_common(a: Seq<int>, b: Seq<int>, c: Seq<i64>) -> (r: (Seq<int>, int, int))
    requires
        c.len() > 0,
        c[0] > 0,
        along(a, c),
        along(b, c),
        a[0] > 0,
        b[0] >= 0,
    ensures
        along(r.0, c),
        r.0[0] > 0,
        forall|i: int| 0 <= i < c.len() ==> a[i] == r.1 * (#[trigger] r.0[i]) && b[i] == r.2 * r.0[i],
    decreases b[0],
{
    let c0 = c[0] as int;
    if b[0] == 0 {
        assert forall|i: int| 0 <= i < c.len() implies b[i] == 0 * a[i] by {
            assert(b[i] * c0 == 0 * c[i]);
            assert(b[i] == 0) by (nonlinear_arith)
                requires
                    b[i] * c0 == 0,
                    c0 > 0,
            ;
        }
        assert forall|i: int| 0 <= i < c.len() implies a[i] == 1 * (#[trigger] a[i]) && b[i] == 0 * a[i] by {
        }
        (a, 1, 0)
    } else {
        let q = a[0] / b[0];
        vstd::arithmetic::div_mod::lemma_fundamental_div_mod(a[0], b[0]);
        let d = Seq::new(c.len(), |i: int| a[i] - q * b[i]);
        assert(d[0] == a[0] % b[0]);
        assert(along(d, c)) by {
            assert forall|i: int| 0 <= i < d.len() implies #[trigger] (d[i] * c[0]) == d[0] * c[i] by {
                assert(a[i] * c[0] == a[0] * c[i]);
                assert(b[i] * c[0] == b[0] * c[i]);
                assert((a[i] - q * b[i]) * c0 == (a[0] - q * b[0]) * c[i]) by (nonlinear_arith)
                    requires
                        a[i] * c0 == a[0] * c[i],
                        b[i] * c0 == b[0] * c[i],
                ;
            }
        }
        let (v, kb, kd) = lemma_along_common(b, d, c);
        assert forall|i: int| 0 <= i < c.len() implies a[i] == (q * kb + kd) * (#[trigger] v[i]) && b[i] == kb * v[i] by {
            assert(d[i] == a[i] - q * b[i]);
            assert(a[i] == (q * kb + kd) * v[i]) by (nonlinear_arith)
                requires
                    a[i] - q * b[i] == kd * v[i],
                    b[i] == kb * v[i],
            ;
        }
        (v, q * kb + kd, kb)
    }
}

/// `x` is `k` times `c`, entry by entry.
pub open spec fn multiple_of(x: Seq<int>, c: Seq<i64>, k: int) -> bool {
    forall|i: int| 0 <= i < x.len() ==> #[trigger] x[i] == k * c[i]
}

/// The balance is the smallest solution: for positive coefficients in
/// lowest terms to which every conserving vector is proportional (what
/// [`balance`] returns), every conserving vector with a positive first
/// entry is a whole positive multiple of them, so no coefficient is smaller.
pub proof fn law_balance_smallest(reactants: Seq<Entries>, products: Seq<Entries>, c: Seq<i64>, x: Seq<int>)
    requires
        c.len() == reactants.len() + products.len(),
        c.len() > 0,
        forall|i: int| 0 <= i < c.len() ==> #[trigger] c[i] > 0,
        lowest_terms(c),
        unique_ratio(reactants, products, c),
        conserves(reactants, products, x),
        x[0] > 0,
    ensures
        exists|k: int| k >= 1 && #[trigger] multiple_of(x, c, k),
        forall|i: int| 0 <= i < x.len() ==> #[trigger] x[i] >= c[i],
{
    assert(proportional(x, c));
    let cv = Seq::new(c.len(), |i: int| c[i] as int);
    assert(along(cv, c)) by {
        assert forall|i: int| 0 <= i < cv.len() implies #[trigger] (cv[i] * c[0]) == cv[0] * c[i] by {
            assert(c[i] * c[0] == c[0] * c[i]) by (nonlinear_arith);
        }
    }
    assert(along(x, c)) by {
        assert forall|i: int| 0 <= i < x.len() implies #[trigger] (x[i] * c[0]) == x[0] * c[i] by {
            assert(x[i] * c[0] == x[0] * c[i]);
        }
    }
    let (v, kc, kx) = lemma_along_common(cv, x, c);
    assert(c[0] == kc * v[0]);
    assert(kc >= 1) by (nonlinear_arith)
        requires
            c[0] == kc * v[0],
            c[0] > 0,
            v[0] > 0,
    ;
    if kc > 1 {
        assert(divides_all(kc, c)) by {
            assert forall|i: int| 0 <= i < c.len() implies #[trigger] divides(kc, c[i] as int) by {
                assert(cv[i] == kc * v[i]);
                vstd::arithmetic::div_mod::lemma_mod_multiples_basic(v[i], kc);
                assert(v[i] * kc == kc * v[i]) by (nonlinear_arith);
            }
        }
        assert(false);
    }
    assert forall|i: int| 0 <= i < x.len() implies #[trigger] x[i] == kx * c[i] by {
        assert(cv[i] == 1 * v[i]);
    }
    assert(x[0] == kx * c[0]);
    assert(kx >= 1) by (nonlinear_arith)
        requires
            x[0] == kx * c[0],
            x[0] > 0,
            c[0] > 0,
    ;
    assert forall|i: int| 0 <= i < x.len() implies #[trigger] x[i] >= c[i] by {
        assert(x[i] == kx * c[i]);
        assert(kx * c[i] >= c[i]) by (nonlinear_arith)
            requires
                kx >= 1,
                c[i] > 0,
        ;
    }
    assert(multiple_of(x, c, kx));
}

/// Weighted sums over the same species and coefficients, placed at an offset.
proof fn lemma_weighted_shift(
    sp: Seq<Entries>,
    co: Seq<i64>,
    sp2: Seq<Entries>,
    co2: Seq<i64>,
    s: Seq<char>,
    i: int,
    j: int,
    off: int,
)
    requires
        i <= j,
        forall|t: int| i <= t < j ==> #[trigger] sp[t] == sp2[t + off] && co[t] == co2[t + off],
    ensures
        weighted(sp, co, s, i, j) == weighted(sp2, co2, s, i + off, j + off),
    decreases j - i,
{
    if i < j {
        assert(sp[i] == sp2[i + off] && co[i] == co2[i + off]);
        lemma_weighted_shift(sp, co, sp2, co2, s, i + 1, j, off);
    }
}

/// The net atoms under integer copies of the coefficients are the reactant
/// side's weight less the product side's.
proof fn lemma_net_atoms_weighted(sp: Seq<Entries>, nr: int, c: Seq<i64>, x: Seq<int>, s: Seq<char>, k: int)
    requires
        0 <= nr,
        0 <= k <= sp.len(),
        c.len() == sp.len(),
        x.len() == sp.len(),
        forall|t: int| 0 <= t < x.len() ==> #[trigger] x[t] == c[t] as int,
    ensures
        k <= nr ==> net_atoms(sp, nr, x, s, k) == weighted(sp, c, s, 0, k),
        k > nr ==> net_atoms(sp, nr, x, s, k) == weighted(sp, c, s, 0, nr) - weighted(sp, c, s, nr, k),
    decreases k,
{
    if k > 0 {
        lemma_net_atoms_weighted(sp, nr, c, x, s, k - 1);
        assert(x[k - 1] == c[k - 1]);
        if k <= nr {
            lemma_weighted_split_last(sp, c, s, 0, k);
        } else if k - 1 == nr {
            assert(weighted(sp, c, s, nr, nr) == 0);
            lemma_weighted_split_last(sp, c, s, nr, k);
        } else {
            lemma_weighted_split_last(sp, c, s, nr, k);
        }
        let xs = x[k - 1];
        let cs = c[k - 1] as int;
        let sd = side(nr, k - 1);
        let cnt = count_in(sp[k - 1], s);
        assert(sd * xs * cnt == sd * (cs * cnt)) by (nonlinear_arith)
            requires
                xs == cs,
        ;
    }
}

/// Coefficients that balance conserve every element.
proof fn lemma_balances_conserves(reactants: Seq<Entries>, products: Seq<Entries>, c: Seq<i64>, x: Seq<int>)
    requires
        balances(reactants, products, c),
        x.len() == c.len(),
        forall|t: int| 0 <= t < x.len() ==> #[trigger] x[t] == c[t] as int,
    ensures
        conserves(reactants, products, x),
{
    let sp = reactants + products;
    assert forall|s: Seq<char>| #[trigger] net_atoms(sp, reactants.len() as int, x, s, sp.len() as int) == 0 by {
        lemma_net_atoms_weighted(sp, reactants.len() as int, c, x, s, sp.len() as int);
        assert(weighted(sp, c, s, 0, reactants.len() as int) == weighted(
            sp,
            c,
            s,
            reactants.len() as int,
            sp.len() as int,
        ));
        if sp.len() <= reactants.len() {
            assert(weighted(sp, c, s, reactants.len() as int, sp.len() as int) == 0);
        }
    }
}

/// Writing the reaction the other way round swaps the two blocks of
/// coefficients: when both directions are balanced (positive, in lowest
/// terms, with every conserving vector proportional, as [`balance`] returns
/// them), the coefficients of the reversed reaction are the products'
/// followed by the reactants'.
pub proof fn law_balance_reversed(reactants: Seq<Entries>, products: Seq<Entries>, c: Seq<i64>, d: Seq<i64>)
    requires
        c.len() == reactants.len() + products.len(),
        reactants.len() + products.len() > 0,
        forall|i: int| 0 <= i < c.len() ==> #[trigger] c[i] > 0,
        balances(reactants, products, c),
        lowest_terms(c),
        d.len() == c.len(),
        forall|i: int| 0 <= i < d.len() ==> #[trigger] d[i] > 0,
        lowest_terms(d),
        unique_ratio(products, reactants, d),
    ensures
        d == c.subrange(reactants.len() as int, c.len() as int) + c.subrange(0, reactants.len() as int),
{
    let nr = reactants.len() as int;
    let np = products.len() as int;
    let n = c.len() as int;
    let sp = reactants + products;
    let sq = products + reactants;
    let cr = c.subrange(nr, n) + c.subrange(0, nr);
    assert(cr.len() == n);
    // the rotated coefficients balance the reversed reaction
    assert(balances(products, reactants, cr)) by {
        assert forall|s: Seq<char>| #[trigger] weighted(sq, cr, s, 0, np) == weighted(sq, cr, s, np, n) by {
            assert forall|t: int| nr <= t < n implies #[trigger] sp[t] == sq[t + (-nr)] && c[t] == cr[t + (-nr)] by {
            }
            lemma_weighted_shift(sp, c, sq, cr, s, nr, n, -nr);
            assert forall|t: int| 0 <= t < nr implies #[trigger] sp[t] == sq[t + np] && c[t] == cr[t + np] by {
            }
            lemma_weighted_shift(sp, c, sq, cr, s, 0, nr, np);
            assert(weighted(sp, c, s, 0, nr) == weighted(sp, c, s, nr, n));
        }
    }
    let x = Seq::new(n as nat, |i: int| cr[i] as int);
    lemma_balances_conserves(products, reactants, cr, x);
    assert(x[0] > 0) by {
        if np > 0 {
            assert(cr[0] == c[nr]);
        } else {
            assert(cr[0] == c[0]);
        }
    }
    law_balance_smallest(products, reactants, d, x);
    let k = choose|k: int| k >= 1 && #[trigger] multiple_of(x, d, k);
    assert(cr.len() == n);
    if k > 1 {
        assert(divides_all(k, c)) by {
            assert forall|i: int| 0 <= i < c.len() implies #[trigger] divides(k, c[i] as int) by {
                let j = if i < nr {
                    i + np
                } else {
                    i - nr
                };
                assert(cr[j] == c[i]);
                assert(x[j] == k * d[j]);
                vstd::arithmetic::div_mod::lemma_mod_multiples_basic(d[j] as int, k);
                assert(d[j] * k == k * d[j]) by (nonlinear_arith);
            }
        }
        assert(false);
    }
    assert(d =~= cr) by {
        assert forall|i: int| 0 <= i < n implies d[i] == cr[i] by {
            assert(x[i] == 1 * d[i]);
        }
    }
}

/// A weighted sum splits at any point between its bounds.
proof fn lemma_weighted_split(sp: Seq<Entries>, co: Seq<i64>, s: Seq<char>, lo: int, m: int, hi: int)
    requires
        lo <= m <= hi,
    ensures
        weighted(sp, co, s, lo, hi) == weighted(sp, co, s, lo, m) + weighted(sp, co, s, m, hi),
    decreases m - lo,
{
    if lo < m {
        lemma_weighted_split(sp, co, s, lo + 1, m, hi);
    }
}

/// `s` with the entries at `i` and `j` exchanged.
pub open spec fn swapped<T>(s: Seq<T>, i: int, j: int) -> Seq<T> {
    s.update(i, s[j]).update(j, s[i])
}

/// Exchanging two terms inside a weighted sum leaves it unchanged.
proof fn lemma_weighted_swap(sp: Seq<Entries>, co: Seq<i64>, s: Seq<char>, lo: int, hi: int, i: int, j: int)
    requires
        0 <= lo <= i < j < hi <= sp.len(),
        co.len() == sp.len(),
    ensures
        weighted(swapped(sp, i, j), swapped(co, i, j), s, lo, hi) == weighted(sp, co, s, lo, hi),
{
    let sp2 = swapped(sp, i, j);
    let co2 = swapped(co, i, j);
    lemma_weighted_split(sp, co, s, lo, i, hi);
    lemma_weighted_split(sp, co, s, i + 1, j, hi);
    lemma_weighted_split(sp, co, s, j + 1, hi, hi);
    lemma_weighted_split(sp2, co2, s, lo, i, hi);
    lemma_weighted_split(sp2, co2, s, i + 1, j, hi);
    lemma_weighted_split(sp2, co2, s, j + 1, hi, hi);
    lemma_weighted_shift(sp, co, sp2, co2, s, lo, i, 0);
    lemma_weighted_shift(sp, co, sp2, co2, s, i + 1, j, 0);
    lemma_weighted_shift(sp, co, sp2, co2, s, j + 1, hi, 0);
    assert(weighted(sp, co, s, i, hi) == co[i] * count_in(sp[i], s) + weighted(sp, co, s, i + 1, hi));
    assert(weighted(sp, co, s, j, hi) == co[j] * count_in(sp[j], s) + weighted(sp, co, s, j + 1, hi));
    assert(weighted(sp2, co2, s, i, hi) == co2[i] * count_in(sp2[i], s) + weighted(sp2, co2, s, i + 1, hi));
    assert(weighted(sp2, co2, s, j, hi) == co2[j] * count_in(sp2[j], s) + weighted(sp2, co2, s, j + 1, hi));
}

/// Reordering the reactants, or the products, reorders the coefficients the
/// same way: when two species on one side trade places and both orders are
/// balanced (positive, in lowest terms, with every conserving vector
/// proportional, as [`balance`] returns them), their coefficients trade
/// places and the others stay. Any reordering of a side is a series of such
/// exchanges.
pub proof fn law_balance_exchange(
    reactants: Seq<Entries>,
    products: Seq<Entries>,
    c: Seq<i64>,
    reactants2: Seq<Entries>,
    products2: Seq<Entries>,
    d: Seq<i64>,
    i: int,
    j: int,
)
    requires
        0 <= i < j < reactants.len() + products.len(),
        i < reactants.len() <==> j < reactants.len(),
        reactants2.len() == reactants.len(),
        reactants2 + products2 == swapped(reactants + products, i, j),
        c.len() == reactants.len() + products.len(),
        forall|t: int| 0 <= t < c.len() ==> #[trigger] c[t] > 0,
        balances(reactants, products, c),
        lowest_terms(c),
        d.len() == c.len(),
        forall|t: int| 0 <= t < d.len() ==> #[trigger] d[t] > 0,
        lowest_terms(d),
        unique_ratio(reactants2, products2, d),
    ensures
        d == swapped(c, i, j),
{
    let nr = reactants.len() as int;
    let n = c.len() as int;
    let sp = reactants + products;
    let sp2 = reactants2 + products2;
    let cs = swapped(c, i, j);
    assert(balances(reactants2, products2, cs)) by {
        assert forall|s: Seq<char>| #[trigger] weighted(sp2, cs, s, 0, nr) == weighted(sp2, cs, s, nr, n) by {
            assert(weighted(sp, c, s, 0, nr) == weighted(sp, c, s, nr, n));
            if j < nr {
                lemma_weighted_swap(sp, c, s, 0, nr, i, j);
                lemma_weighted_shift(sp, c, sp2, cs, s, nr, n, 0);
            } else {
                lemma_weighted_swap(sp, c, s, nr, n, i, j);
                lemma_weighted_shift(sp, c, sp2, cs, s, 0, nr, 0);
            }
        }
    }
    let x = Seq::new(n as nat, |t: int| cs[t] as int);
    lemma_balances_conserves(reactants2, products2, cs, x);
    assert(x[0] > 0) by {
        assert(cs[0] > 0) by {
            if i == 0 {
                assert(cs[0] == c[j]);
            } else {
                assert(cs[0] == c[0]);
            }
        }
    }
    law_balance_smallest(reactants2, products2, d, x);
    let k = choose|k: int| k >= 1 && #[trigger] multiple_of(x, d, k);
    if k > 1 {
        assert(divides_all(k, c)) by {
            assert forall|t: int| 0 <= t < c.len() implies #[trigger] divides(k, c[t] as int) by {
                let u = if t == i {
                    j
                } else if t == j {
                    i
                } else {
                    t
                };
                assert(cs[u] == c[t]);
                assert(x[u] == k * d[u]);
                vstd::arithmetic::div_mod::lemma_mod_multiples_basic(d[u] as int, k);
                assert(d[u] * k == k * d[u]) by (nonlinear_arith);
            }
        }
        assert(false);
    }
    assert(d =~= cs) by {
        assert forall|t: int| 0 <= t < n implies d[t] == cs[t] by {
            assert(x[t] == 1 * d[t]);
        }
    }
}

/// Normalised coefficients are positive and in lowest terms.
proof fn lemma_normalized_facts(raw: Seq<int>)
    requires
        raw.len() > 0,
        normalized_of(raw) is Some,
    ensures
        normalized_of(raw)->0.len() == raw.len(),
        forall|i: int| 0 <= i < raw.len() ==> #[trigger] normalized_of(raw)->0[i] > 0,
        lowest_terms(normalized_of(raw)->0),
{
    let n = raw.len() as int;
    let sg = signed_of(raw);
    let c = Seq::new(raw.len(), |j: int| sg[j] as i64);
    let res = normalized_of(raw)->0;
    assert(sg.len() == raw.len());
    assert forall|j: int| 0 <= j < n implies #[trigger] sg[j] > 0 by {
        if sg[j] <= 0 {
            assert(exists|j2: int| 0 <= j2 < raw.len() && #[trigger] sg[j2] <= 0);
        }
    }
    assert forall|j: int| 0 <= j < n implies #[trigger] sg[j] <= i64::MAX by {
        assert(i64::MIN <= raw[j] <= i64::MAX);
        if flip_of(raw) {
            assert(raw[j] != i64::MIN) by {
                if raw[j] == i64::MIN {
                    assert(exists|j2: int| 0 <= j2 < raw.len() && #[trigger] raw[j2] == i64::MIN);
                }
            }
        }
    }
    assert forall|t: int| 0 <= t < c.len() implies #[trigger] c[t] > 0 by {
        assert(sg[t] > 0 && sg[t] <= i64::MAX);
    }
    lemma_gcd_fold(c, n);
    let g = gcd_fold(c, n);
    assert forall|t: int| 0 <= t < n implies #[trigger] res[t] * g == c[t] && res[t] > 0 by {
        assert(divides(g, c[t] as int));
        vstd::arithmetic::div_mod::lemma_fundamental_div_mod(c[t] as int, g);
        let q = (c[t] as int) / g;
        assert(c[t] == g * q + 0);
        assert(q >= 1 && q <= c[t]) by (nonlinear_arith)
            requires
                c[t] == g * q,
                c[t] > 0,
                g > 0,
        ;
        assert(sg[t] == c[t]);
        assert(res[t] == q);
        assert(q * g == c[t]) by (nonlinear_arith)
            requires
                c[t] == g * q,
        ;
    }
    lemma_lowest_after_division(c, g, res);
}

/// What [`balance_of`] yields is a balance: one coefficient per species,
/// all positive, in lowest terms, and every element is conserved.
pub proof fn law_balance_of_facts(reactants: Seq<Entries>, products: Seq<Entries>)
    requires
        balance_of(reactants, products) is Some,
    ensures
        ({
            let c = balance_of(reactants, products)->0;
            &&& c.len() == reactants.len() + products.len()
            &&& forall|i: int| 0 <= i < c.len() ==> #[trigger] c[i] > 0
            &&& lowest_terms(c)
            &&& balances(reactants, products, c)
        }),
{
    let sp = reactants + products;
    let n = sp.len() as int;
    let nr = reactants.len() as int;
    let els = elements_upto(sp, n);
    let (mr, pcs) = reduce_from(matrix_of(sp, nr, els), els.len() as int, n, 0, 0, Seq::empty())->0;
    let sol = solution_of(mr, pcs, last_free(pcs, n), n);
    let l = lcm_fold(sol, n)->0;
    let raw = scaled_ints(sol, l);
    assert(balance_from_ints(sp, nr, raw) == balance_of(reactants, products));
    let c = normalized_of(raw)->0;
    assert(raw.len() == n);
    lemma_normalized_facts(raw);
    assert(all_checks(sp, c, nr));
    lemma_all_checks_balance(sp, c, nr);
}

/// A vector that takes the free column's value as fixed by each pivot row,
/// and zero in every other free column, makes every row of the reduced
/// matrix vanish.
proof fn lemma_rref_solution(mr: Seq<Vec<Fraction>>, rows: int, n: int, pcs: Seq<usize>, f: int, y: Seq<int>)
    requires
        matrix_ok(mr, rows, n),
        echelon(mr, rows, pcs, pcs.len() as int, n),
        pcs.len() <= rows,
        forall|i: int| 0 <= i < pcs.len() ==> (#[trigger] pcs[i]) < n,
        0 <= f < n,
        forall|i: int| 0 <= i < pcs.len() ==> (#[trigger] pcs[i]) != f,
        y.len() == n,
        forall|c: int| 0 <= c < n && c != f && !pivot_in(pcs, pcs.len() as int, c) ==> #[trigger] y[c] == 0,
        forall|i: int| 0 <= i < pcs.len() ==> #[trigger] (y[pcs[i] as int] * mr[i]@[f].den) == -mr[i]@[f].num * y[f],
    ensures
        all_zero(mr, y),
{
    assert forall|r: int| 0 <= r < mr.len() implies row_zero(#[trigger] mr[r]@, y) by {
        let row = mr[r]@;
        assert(row.len() == n);
        assert(dens_pos(row)) by {
            assert forall|j: int| 0 <= j < row.len() implies #[trigger] row[j].den > 0 by {
                assert(mr[r]@[j].wf());
            }
        }
        if r < pcs.len() {
            let a = pcs[r] as int;
            assert forall|j: int| 0 <= j < row.len() && j != a && j != f implies (#[trigger] row[j]).num == 0 || y[j]
                == 0 by {
                if pivot_in(pcs, pcs.len() as int, j) {
                    let t = choose|t: int| 0 <= t < pcs.len() && pcs[t] == j;
                    assert(t != r);
                    assert(mr[r]@[pcs[t] as int].num == 0);
                }
            }
            lemma_dot_vanish_pair(row, y, a, f, n);
            lemma_dot_den_pos(row, n);
            let da = row[a].den as int;
            let df = row[f].den as int;
            let nf = row[f].num as int;
            assert(row[a].num == da);
            assert(y[a] * df == -nf * y[f]);
            assert(dot_num(row, y, n) * da * df == 0) by (nonlinear_arith)
                requires
                    dot_num(row, y, n) * da * df == (da * y[a] * df + nf * y[f] * da) * dot_den(row, n),
                    y[a] * df == -nf * y[f],
            ;
            assert(dot_num(row, y, n) == 0) by (nonlinear_arith)
                requires
                    dot_num(row, y, n) * da * df == 0,
                    da > 0,
                    df > 0,
            ;
        } else {
            assert forall|j: int| 0 <= j < row.len() implies (#[trigger] row[j]).num == 0 by {
                assert(mr[r]@[j].num == 0);
            }
            lemma_dot_zero_row(row, y, n);
        }
    }
}

/// Appending symbols keeps those already there and adds the entries'.
proof fn lemma_add_syms_holds(acc: Seq<Seq<char>>, c: Entries, e: int)
    requires
        0 <= e <= c.len(),
    ensures
        forall|s: Seq<char>| acc.contains(s) ==> #[trigger] add_syms(acc, c, e).contains(s),
        forall|i: int| 0 <= i < e ==> add_syms(acc, c, e).contains(#[trigger] c[i].0),
    decreases e,
{
    if e > 0 {
        lemma_add_syms_holds(acc, c, e - 1);
        let a = add_syms(acc, c, e - 1);
        if !a.contains(c[e - 1].0) {
            let b = a.push(c[e - 1].0);
            assert forall|s: Seq<char>| a.contains(s) implies #[trigger] b.contains(s) by {
                let k = choose|k: int| 0 <= k < a.len() && a[k] == s;
                assert(b[k] == s);
            }
            assert(b[a.len() as int] == c[e - 1].0);
        }
    }
}

/// Every symbol counted in one of the first `t` species is listed.
proof fn lemma_elements_cover(sp: Seq<Entries>, t: int, j: int, s: Seq<char>)
    requires
        0 <= j < t <= sp.len(),
        count_in(sp[j], s) != 0,
    ensures
        elements_upto(sp, t).contains(s),
    decreases t,
{
    lemma_add_syms_holds(elements_upto(sp, t - 1), sp[t - 1], sp[t - 1].len() as int);
    if j < t - 1 {
        lemma_elements_cover(sp, t - 1, j, s);
    } else {
        lemma_lookup_found_pub(sp[j], s);
        let f = choose|f: int| 0 <= f < sp[j].len() && sp[j][f].0 == s && Some(sp[j][f].1) == lookup(sp[j], s);
        assert(add_syms(elements_upto(sp, t - 1), sp[t - 1], sp[t - 1].len() as int).contains(sp[t - 1][f].0));
    }
}

/// With no species holding `s`, the net atoms of `s` are zero.
proof fn lemma_net_atoms_absent(sp: Seq<Entries>, nr: int, x: Seq<int>, s: Seq<char>, k: int)
    requires
        0 <= k <= sp.len(),
        forall|j: int| 0 <= j < sp.len() ==> count_in(#[trigger] sp[j], s) == 0,
    ensures
        net_atoms(sp, nr, x, s, k) == 0,
    decreases k,
{
    if k > 0 {
        lemma_net_atoms_absent(sp, nr, x, s, k - 1);
        assert(count_in(sp[k - 1], s) == 0);
        assert(side(nr, k - 1) * x[k - 1] * 0 == 0) by (nonlinear_arith);
    }
}

/// Net atoms are linear in the coefficients.
proof fn lemma_net_atoms_scale(sp: Seq<Entries>, nr: int, x: Seq<int>, y: Seq<int>, g: int, s: Seq<char>, k: int)
    requires
        0 <= k <= sp.len(),
        x.len() == sp.len(),
        y.len() == sp.len(),
        forall|t: int| 0 <= t < x.len() ==> #[trigger] x[t] == g * y[t],
    ensures
        net_atoms(sp, nr, x, s, k) == g * net_atoms(sp, nr, y, s, k),
    decreases k,
{
    if k > 0 {
        lemma_net_atoms_scale(sp, nr, x, y, g, s, k - 1);
        let sd = side(nr, k - 1);
        let cnt = count_in(sp[k - 1], s);
        let yk = y[k - 1];
        assert(x[k - 1] == g * yk);
        assert(sd * (g * yk) * cnt == g * (sd * yk * cnt)) by (nonlinear_arith);
        assert(g * net_atoms(sp, nr, y, s, k - 1) + g * (sd * yk * cnt) == g * (net_atoms(sp, nr, y, s, k - 1)
            + sd * yk * cnt)) by (nonlinear_arith);
    }
}

/// `y` is proportional to `x`: `y[i] · x[j] == y[j] · x[i]` throughout.
pub open spec fn proportional_to(y: Seq<int>, x: Seq<int>) -> bool {
    forall|i: int, j: int| 0 <= i < y.len() && 0 <= j < y.len() ==> #[trigger] (y[i] * x[j]) == y[j] * x[i]
}

/// The reaction has a solution in positive integers, and every conserving
/// vector is proportional to it: a single positive ratio exists.
pub open spec fn positive_unique(reactants: Seq<Entries>, products: Seq<Entries>) -> bool {
    exists|x: Seq<int>|
        #[trigger] conserves(reactants, products, x) && (forall|i: int| 0 <= i < x.len() ==> x[i] > 0) && (forall|
            y: Seq<int>,
        | #[trigger] conserves(reactants, products, y) ==> proportional_to(y, x))
}

/// The product of the denominators in column `f` of the first `k` rows.
pub open spec fn den_product(mr: Seq<Vec<Fraction>>, f: int, k: int) -> int
    decreases k,
{
    if k <= 0 {
        1
    } else {
        den_product(mr, f, k - 1) * mr[k - 1]@[f].den
    }
}

proof fn lemma_den_product(mr: Seq<Vec<Fraction>>, f: int, k: int)
    requires
        0 <= k <= mr.len(),
        forall|i: int| 0 <= i < k ==> (#[trigger] mr[i]@[f]).den > 0,
    ensures
        den_product(mr, f, k) > 0,
        forall|i: int| 0 <= i < k ==> (den_product(mr, f, k) / ((#[trigger] mr[i]@[f]).den as int)) * mr[i]@[f].den
            == den_product(mr, f, k),
    decreases k,
{
    if k > 0 {
        lemma_den_product(mr, f, k - 1);
        let p = den_product(mr, f, k - 1);
        let d = mr[k - 1]@[f].den as int;
        assert(p * d > 0) by (nonlinear_arith)
            requires
                p > 0,
                d > 0,
        ;
        assert forall|i: int| 0 <= i < k implies (den_product(mr, f, k) / ((#[trigger] mr[i]@[f]).den as int))
            * mr[i]@[f].den == den_product(mr, f, k) by {
            let di = mr[i]@[f].den as int;
            if i == k - 1 {
                vstd::arithmetic::div_mod::lemma_div_multiples_vanish(p, d);
                assert(p * d == d * p) by (nonlinear_arith);
            } else {
                let q = p / di;
                assert(q * di == p);
                assert(p * d == (q * d) * di) by (nonlinear_arith)
                    requires
                        q * di == p,
                ;
                vstd::arithmetic::div_mod::lemma_div_multiples_vanish(q * d, di);
                assert((q * d) * di == di * (q * d)) by (nonlinear_arith);
            }
        }
    }
}

/// Coefficients that conserve every element make every row of the element
/// matrix vanish, and coefficients of the right length at which every row
/// vanishes conserve every element.
proof fn lemma_matrix_conserves(
    reactants: Seq<Entries>,
    products: Seq<Entries>,
    m0: Seq<Vec<Fraction>>,
    els: Seq<Seq<char>>,
)
    requires
        m0.len() == els.len(),
        els == elements_upto(reactants + products, (reactants + products).len() as int),
        forall|r: int| 0 <= r < m0.len() ==> (#[trigger] m0[r])@.len() == (reactants + products).len(),
        forall|r: int, j: int|
            0 <= r < m0.len() && 0 <= j < (reactants + products).len() ==> (#[trigger] m0[r]@[j]) == (Fraction {
                num: (side(reactants.len() as int, j) * count_in((reactants + products)[j], els[r])) as i64,
                den: 1,
            }),
        forall|r: int, j: int|
            0 <= r < m0.len() && 0 <= j < (reactants + products).len() ==> i64::MIN < #[trigger] count_in(
                (reactants + products)[j],
                els[r],
            ) <= i64::MAX,
    ensures
        forall|x: Seq<int>| #[trigger] conserves(reactants, products, x) ==> all_zero(m0, x),
        forall|x: Seq<int>| x.len() == (reactants + products).len() && #[trigger] all_zero(m0, x) ==> conserves(
            reactants,
            products,
            x,
        ),
{
    let sp = reactants + products;
    let n = sp.len() as int;
    let nr = reactants.len() as int;
    assert forall|x: Seq<int>| #[trigger] conserves(reactants, products, x) implies all_zero(m0, x) by {
        assert forall|r: int| 0 <= r < m0.len() implies row_zero(#[trigger] m0[r]@, x) by {
            lemma_side_row(m0[r]@, sp, nr, x, els[r], n);
            assert(net_atoms(sp, nr, x, els[r], n) == 0);
        }
    }
    assert forall|x: Seq<int>| x.len() == n && #[trigger] all_zero(m0, x) implies conserves(reactants, products, x) by {
        assert forall|s: Seq<char>| #[trigger] net_atoms(sp, nr, x, s, n) == 0 by {
            if exists|j: int| 0 <= j < n && count_in(#[trigger] sp[j], s) != 0 {
                let j = choose|j: int| 0 <= j < n && count_in(#[trigger] sp[j], s) != 0;
                lemma_elements_cover(sp, n, j, s);
                let k = choose|k: int| 0 <= k < els.len() && els[k] == s;
                assert(row_zero(m0[k]@, x));
                lemma_side_row(m0[k]@, sp, nr, x, els[k], n);
            } else {
                lemma_net_atoms_absent(sp, nr, x, s, n);
            }
        }
    }
}

/// When elimination leaves no free column or more than one, no single
/// positive ratio exists: with none, only the zero vector conserves; with
/// two, a conserving vector is zero in one free column and not in the other.
proof fn lemma_free_columns(
    reactants: Seq<Entries>,
    products: Seq<Entries>,
    mr: Seq<Vec<Fraction>>,
    rows: int,
    pcs: Seq<usize>,
    f1: int,
    f2: int,
    none_free: bool,
)
    requires
        (reactants + products).len() >= 2,
        matrix_ok(mr, rows, (reactants + products).len() as int),
        echelon(mr, rows, pcs, pcs.len() as int, (reactants + products).len() as int),
        pcs.len() <= rows,
        forall|i: int| 0 <= i < pcs.len() ==> (#[trigger] pcs[i]) < (reactants + products).len(),
        forall|x: Seq<int>| #[trigger] conserves(reactants, products, x) ==> all_zero(mr, x),
        forall|x: Seq<int>| x.len() == (reactants + products).len() && #[trigger] all_zero(mr, x) ==> conserves(
            reactants,
            products,
            x,
        ),
        none_free ==> forall|c: int| 0 <= c < (reactants + products).len() ==> #[trigger] pivot_in(pcs, pcs.len() as int, c),
        !none_free ==> {
            &&& 0 <= f1 < (reactants + products).len()
            &&& 0 <= f2 < (reactants + products).len()
            &&& f1 != f2
            &&& forall|i: int| 0 <= i < pcs.len() ==> (#[trigger] pcs[i]) != f1 && pcs[i] != f2
        },
    ensures
        !positive_unique(reactants, products),
{
    let n = (reactants + products).len() as int;
    if positive_unique(reactants, products) {
        let x = choose|x: Seq<int>|
            #[trigger] conserves(reactants, products, x) && (forall|i: int| 0 <= i < x.len() ==> x[i] > 0) && (
            forall|y: Seq<int>| #[trigger] conserves(reactants, products, y) ==> proportional_to(y, x));
        assert(x.len() == n);
        assert(all_zero(mr, x));
        if none_free {
            // the first column is a pivot; its row has no other non-zero entry
            assert(pivot_in(pcs, pcs.len() as int, 0));
            let i = choose|t: int| 0 <= t < pcs.len() && pcs[t] == 0;
            let row = mr[i]@;
            let b = 1int;
            assert(pivot_in(pcs, pcs.len() as int, b));
            let ib = choose|t: int| 0 <= t < pcs.len() && pcs[t] == b;
            assert forall|j: int| 0 <= j < row.len() && j != 0 && j != b implies (#[trigger] row[j]).num == 0 by {
                assert(pivot_in(pcs, pcs.len() as int, j));
                let t = choose|t: int| 0 <= t < pcs.len() && pcs[t] == j;
                assert(mr[i]@[pcs[t] as int].num == 0);
            }
            assert(mr[i]@[pcs[ib] as int].num == 0);
            assert(row_zero(row, x));
            assert(dens_pos(row)) by {
                assert forall|j: int| 0 <= j < row.len() implies #[trigger] row[j].den > 0 by {
                    assert(mr[i]@[j].wf());
                }
            }
            lemma_dot_pair(row, x, 0, b, n);
            lemma_dot_den_pos(row, n);
            let da = row[0].den as int;
            let db = row[b].den as int;
            assert(row[0].num == da);
            assert(row[b].num == 0);
            assert(dot_num(row, x, n) * da * db == (da * x[0] * db + 0 * x[b] * da) * dot_den(row, n));
            assert(x[0] * (da * db * dot_den(row, n)) == 0) by (nonlinear_arith)
                requires
                    dot_num(row, x, n) * da * db == (da * x[0] * db + 0 * x[b] * da) * dot_den(row, n),
                    dot_num(row, x, n) == 0,
            ;
            assert(da * db * dot_den(row, n) > 0) by (nonlinear_arith)
                requires
                    da > 0,
                    db > 0,
                    dot_den(row, n) > 0,
            ;
            assert(x[0] == 0) by (nonlinear_arith)
                requires
                    x[0] * (da * db * dot_den(row, n)) == 0,
                    da * db * dot_den(row, n) > 0,
            ;
        } else {
            // the vector fixed by free column f2, zero in free column f1
            let k = pcs.len() as int;
            assert forall|i: int| 0 <= i < k implies (#[trigger] mr[i]@[f2]).den > 0 by {
                assert(mr[i]@[f2].wf());
            }
            lemma_den_product(mr, f2, k);
            let d = den_product(mr, f2, k);
            let y = Seq::new(
                n as nat,
                |c: int| if c == f2 {
                    d
                } else if pivot_in(pcs, k, c) {
                    let i = pivot_row_of(pcs, c);
                    -mr[i]@[f2].num * (d / (mr[i]@[f2].den as int))
                } else {
                    0
                },
            );
            assert forall|i: int| 0 <= i < k implies #[trigger] (y[pcs[i] as int] * mr[i]@[f2].den) == -mr[i]@[f2].num
                * y[f2] by {
                let c = pcs[i] as int;
                assert(pivot_in(pcs, k, c));
                let i2 = pivot_row_of(pcs, c);
                assert(0 <= i2 < k && pcs[i2] == c);
                assert(i2 == i) by {
                    if i2 != i {
                        // two pivot rows cannot share a column: each has a one there and the other a zero
                        assert(mr[i2]@[pcs[i] as int].num == 0);
                        assert(mr[i2]@[pcs[i2] as int].num == mr[i2]@[pcs[i2] as int].den);
                        assert(mr[i2]@[pcs[i2] as int].wf());
                    }
                }
                let q = d / (mr[i]@[f2].den as int);
                assert(q * mr[i]@[f2].den == d);
                assert((-mr[i]@[f2].num * q) * mr[i]@[f2].den == -mr[i]@[f2].num * d) by (nonlinear_arith)
                    requires
                        q * mr[i]@[f2].den == d,
                ;
            }
            assert forall|c: int| 0 <= c < n && c != f2 && !pivot_in(pcs, k, c) implies #[trigger] y[c] == 0 by {
            }
            lemma_rref_solution(mr, rows, n, pcs, f2, y);
            assert(conserves(reactants, products, y));
            assert(proportional_to(y, x));
            assert(!pivot_in(pcs, k, f1)) by {
                if pivot_in(pcs, k, f1) {
                    let t = choose|t: int| 0 <= t < k && pcs[t] == f1;
                    assert(pcs[t] != f1);
                }
            }
            assert(y[f1] == 0);
            assert(y[f1] * x[f2] == y[f2] * x[f1]);
            assert(d * x[f1] == 0);
            assert(x[f1] > 0);
            assert(false) by (nonlinear_arith)
                requires
                    d * x[f1] == 0,
                    d > 0,
                    x[f1] > 0,
            ;
        }
    }
}

/// With exactly one free column, the vector fixed by it is positive when a
/// single positive ratio exists.
proof fn lemma_one_free_positive(reactants: Seq<Entries>, products: Seq<Entries>, raw: Seq<int>, free: int)
    requires
        raw.len() == (reactants + products).len(),
        0 <= free < raw.len(),
        raw[free] > 0,
        conserves(reactants, products, raw),
        positive_unique(reactants, products),
    ensures
        forall|j: int| 0 <= j < raw.len() ==> #[trigger] raw[j] > 0,
{
    let x = choose|x: Seq<int>|
        #[trigger] conserves(reactants, products, x) && (forall|i: int| 0 <= i < x.len() ==> x[i] > 0) && (forall|
            y: Seq<int>,
        | #[trigger] conserves(reactants, products, y) ==> proportional_to(y, x));
    assert(proportional_to(raw, x));
    assert forall|j: int| 0 <= j < raw.len() implies #[trigger] raw[j] > 0 by {
        assert(raw[j] * x[free] == raw[free] * x[j]);
        assert(x[free] > 0 && x[j] > 0);
        assert(raw[j] > 0) by (nonlinear_arith)
            requires
                raw[j] * x[free] == raw[free] * x[j],
                x[free] > 0,
                x[j] > 0,
                raw[free] > 0,
        ;
    }
}

/// `Σ side · x[t] · count(species[t], s)` over `t` in `lo..hi`.
pub open spec fn net_range(species: Seq<Entries>, nr: int, x: Seq<int>, s: Seq<char>, lo: int, hi: int) -> int
    decreases hi - lo,
{
    if lo >= hi {
        0
    } else {
        side(nr, lo) * x[lo] * count_in(species[lo], s) + net_range(species, nr, x, s, lo + 1, hi)
    }
}

proof fn lemma_net_range_split(sp: Seq<Entries>, nr: int, x: Seq<int>, s: Seq<char>, lo: int, m: int, hi: int)
    requires
        lo <= m <= hi,
    ensures
        net_range(sp, nr, x, s, lo, hi) == net_range(sp, nr, x, s, lo, m) + net_range(sp, nr, x, s, m, hi),
    decreases m - lo,
{
    if lo < m {
        lemma_net_range_split(sp, nr, x, s, lo + 1, m, hi);
    }
}

/// The net atoms over the first `k` species are the range sum from 0.
proof fn lemma_net_atoms_range(sp: Seq<Entries>, nr: int, x: Seq<int>, s: Seq<char>, k: int)
    requires
        0 <= k,
    ensures
        net_atoms(sp, nr, x, s, k) == net_range(sp, nr, x, s, 0, k),
    decreases k,
{
    if k > 0 {
        lemma_net_atoms_range(sp, nr, x, s, k - 1);
        lemma_net_range_split(sp, nr, x, s, 0, k - 1, k);
        assert(net_range(sp, nr, x, s, k, k) == 0);
    }
}

/// Range sums whose terms agree at an offset, up to a common sign.
proof fn lemma_net_range_shift(
    sp: Seq<Entries>,
    nr: int,
    x: Seq<int>,
    sp2: Seq<Entries>,
    nr2: int,
    x2: Seq<int>,
    s: Seq<char>,
    i: int,
    j: int,
    off: int,
    sgn: int,
)
    requires
        i <= j,
        forall|t: int|
            i <= t < j ==> #[trigger] (side(nr2, t + off) * x2[t + off] * count_in(sp2[t + off], s)) == sgn * (side(
                nr,
                t,
            ) * x[t] * count_in(sp[t], s)),
    ensures
        net_range(sp2, nr2, x2, s, i + off, j + off) == sgn * net_range(sp, nr, x, s, i, j),
    decreases j - i,
{
    if i < j {
        lemma_net_range_shift(sp, nr, x, sp2, nr2, x2, s, i + 1, j, off, sgn);
        let a = side(nr, i) * x[i] * count_in(sp[i], s);
        assert(side(nr2, i + off) * x2[i + off] * count_in(sp2[i + off], s) == sgn * a);
        assert(sgn * a + sgn * net_range(sp, nr, x, s, i + 1, j) == sgn * (a + net_range(sp, nr, x, s, i + 1, j)))
            by (nonlinear_arith);
    }
}

/// Conservation holds for the reaction written the other way round, with
/// the coefficient blocks swapped.
proof fn lemma_conserves_reversed(reactants: Seq<Entries>, products: Seq<Entries>, y: Seq<int>)
    requires
        conserves(products, reactants, y),
    ensures
        conserves(reactants, products, y.subrange(products.len() as int, y.len() as int) + y.subrange(
            0,
            products.len() as int,
        )),
{
    let nr = reactants.len() as int;
    let np = products.len() as int;
    let n = nr + np;
    let sp = reactants + products;
    let sq = products + reactants;
    let yb = y.subrange(np, n) + y.subrange(0, np);
    assert(yb.len() == n);
    assert forall|s: Seq<char>| #[trigger] net_atoms(sp, nr, yb, s, n) == 0 by {
        assert(net_atoms(sq, np, y, s, n) == 0);
        lemma_net_atoms_range(sq, np, y, s, n);
        lemma_net_atoms_range(sp, nr, yb, s, n);
        lemma_net_range_split(sq, np, y, s, 0, np, n);
        lemma_net_range_split(sp, nr, yb, s, 0, nr, n);
        // reactant block of sp is the second block of sq
        assert forall|t: int| 0 <= t < nr implies #[trigger] (side(np, t + np) * y[t + np] * count_in(sq[t + np], s))
            == -1 * (side(nr, t) * yb[t] * count_in(sp[t], s)) by {
            assert(sq[t + np] == sp[t]);
            assert(yb[t] == y[t + np]);
            assert(side(np, t + np) == -1 && side(nr, t) == 1);
            let a = y[t + np];
            let cnt = count_in(sp[t], s);
            assert((-1) * a * cnt == -1 * (1 * a * cnt)) by (nonlinear_arith);
        }
        lemma_net_range_shift(sp, nr, yb, sq, np, y, s, 0, nr, np, -1);
        assert forall|t: int| nr <= t < n implies #[trigger] (side(np, t + (-nr)) * y[t + (-nr)] * count_in(
            sq[t + (-nr)],
            s,
        )) == -1 * (side(nr, t) * yb[t] * count_in(sp[t], s)) by {
            assert(sq[t - nr] == sp[t]);
            assert(yb[t] == y[t - nr]);
            assert(side(np, t - nr) == 1 && side(nr, t) == -1);
            let a = y[t - nr];
            let cnt = count_in(sp[t], s);
            assert(1 * a * cnt == -1 * ((-1) * a * cnt)) by (nonlinear_arith);
            assert(t + (-nr) == t - nr);
        }
        lemma_net_range_shift(sp, nr, yb, sq, np, y, s, nr, n, -nr, -1);
    }
}

/// The coefficients of a balanced reaction, rotated, give a single positive
/// ratio for the reaction written the other way round: [`balance`] on the
/// reversed reaction then returns a result unless a value leaves `i64` (see
/// its contract).
pub proof fn law_balance_reversed_defined(reactants: Seq<Entries>, products: Seq<Entries>, c: Seq<i64>)
    requires
        c.len() == reactants.len() + products.len(),
        forall|i: int| 0 <= i < c.len() ==> #[trigger] c[i] > 0,
        balances(reactants, products, c),
        unique_ratio(reactants, products, c),
    ensures
        positive_unique(products, reactants),
{
    let nr = reactants.len() as int;
    let np = products.len() as int;
    let n = c.len() as int;
    let sp = reactants + products;
    let sq = products + reactants;
    let cr = c.subrange(nr, n) + c.subrange(0, nr);
    assert(balances(products, reactants, cr)) by {
        assert forall|s: Seq<char>| #[trigger] weighted(sq, cr, s, 0, np) == weighted(sq, cr, s, np, n) by {
            assert forall|t: int| nr <= t < n implies #[trigger] sp[t] == sq[t + (-nr)] && c[t] == cr[t + (-nr)] by {
            }
            lemma_weighted_shift(sp, c, sq, cr, s, nr, n, -nr);
            assert forall|t: int| 0 <= t < nr implies #[trigger] sp[t] == sq[t + np] && c[t] == cr[t + np] by {
            }
            lemma_weighted_shift(sp, c, sq, cr, s, 0, nr, np);
            assert(weighted(sp, c, s, 0, nr) == weighted(sp, c, s, nr, n));
        }
    }
    let x = Seq::new(n as nat, |i: int| cr[i] as int);
    lemma_balances_conserves(products, reactants, cr, x);
    assert forall|i: int| 0 <= i < x.len() implies x[i] > 0 by {
        if i < np {
            assert(cr[i] == c[i + nr]);
        } else {
            assert(cr[i] == c[i - np]);
        }
    }
    assert forall|y: Seq<int>| #[trigger] conserves(products, reactants, y) implies proportional_to(y, x) by {
        lemma_conserves_reversed(reactants, products, y);
        let yb = y.subrange(np, n) + y.subrange(0, np);
        assert(conserves(reactants, products, yb));
        assert(proportional(yb, c));
        assert forall|i: int, j: int| 0 <= i < y.len() && 0 <= j < y.len() implies #[trigger] (y[i] * x[j]) == y[j]
            * x[i] by {
            let bi = if i < np {
                i + nr
            } else {
                i - np
            };
            let bj = if j < np {
                j + nr
            } else {
                j - np
            };
            assert(yb[bi] == y[i] && yb[bj] == y[j]);
            assert(x[i] == c[bi] && x[j] == c[bj]);
            assert(yb[bi] * c[bj] == yb[bj] * c[bi]);
        }
    }
    assert(conserves(products, reactants, x) && (forall|i: int| 0 <= i < x.len() ==> x[i] > 0) && (forall|
        y: Seq<int>,
    | #[trigger] conserves(products, reactants, y) ==> proportional_to(y, x)));
}

/// Exchanging two terms on one side inside a net-atom sum leaves it unchanged.
proof fn lemma_net_range_swap(sp: Seq<Entries>, nr: int, x: Seq<int>, s: Seq<char>, lo: int, hi: int, i: int, j: int)
    requires
        0 <= lo <= i < j < hi <= sp.len(),
        x.len() == sp.len(),
        side(nr, i) == side(nr, j),
    ensures
        net_range(swapped(sp, i, j), nr, swapped(x, i, j), s, lo, hi) == net_range(sp, nr, x, s, lo, hi),
{
    let sp2 = swapped(sp, i, j);
    let x2 = swapped(x, i, j);
    lemma_net_range_split(sp, nr, x, s, lo, i, hi);
    lemma_net_range_split(sp, nr, x, s, i + 1, j, hi);
    lemma_net_range_split(sp2, nr, x2, s, lo, i, hi);
    lemma_net_range_split(sp2, nr, x2, s, i + 1, j, hi);
    assert forall|t: int| lo <= t < i implies #[trigger] (side(nr, t + 0) * x2[t + 0] * count_in(sp2[t + 0], s)) == 1
        * (side(nr, t) * x[t] * count_in(sp[t], s)) by {
        assert(sp2[t] == sp[t] && x2[t] == x[t]);
    }
    lemma_net_range_shift(sp, nr, x, sp2, nr, x2, s, lo, i, 0, 1);
    assert forall|t: int| i + 1 <= t < j implies #[trigger] (side(nr, t + 0) * x2[t + 0] * count_in(sp2[t + 0], s))
        == 1 * (side(nr, t) * x[t] * count_in(sp[t], s)) by {
        assert(sp2[t] == sp[t] && x2[t] == x[t]);
    }
    lemma_net_range_shift(sp, nr, x, sp2, nr, x2, s, i + 1, j, 0, 1);
    assert forall|t: int| j + 1 <= t < hi implies #[trigger] (side(nr, t + 0) * x2[t + 0] * count_in(sp2[t + 0], s))
        == 1 * (side(nr, t) * x[t] * count_in(sp[t], s)) by {
        assert(sp2[t] == sp[t] && x2[t] == x[t]);
    }
    lemma_net_range_shift(sp, nr, x, sp2, nr, x2, s, j + 1, hi, 0, 1);
    assert(sp2[i] == sp[j] && x2[i] == x[j] && sp2[j] == sp[i] && x2[j] == x[i]);
    assert(net_range(sp, nr, x, s, i, hi) == side(nr, i) * x[i] * count_in(sp[i], s) + net_range(sp, nr, x, s, i + 1, hi));
    assert(net_range(sp, nr, x, s, j, hi) == side(nr, j) * x[j] * count_in(sp[j], s) + net_range(sp, nr, x, s, j + 1, hi));
    assert(net_range(sp2, nr, x2, s, i, hi) == side(nr, i) * x2[i] * count_in(sp2[i], s) + net_range(sp2, nr, x2, s, i + 1, hi));
    assert(net_range(sp2, nr, x2, s, j, hi) == side(nr, j) * x2[j] * count_in(sp2[j], s) + net_range(sp2, nr, x2, s, j + 1, hi));
}

/// After swapping two same-side coefficients of the swapped species,
/// conservation holds for the original reaction.
proof fn lemma_conserves_exchanged(
    reactants: Seq<Entries>,
    products: Seq<Entries>,
    reactants2: Seq<Entries>,
    products2: Seq<Entries>,
    y: Seq<int>,
    i: int,
    j: int,
)
    requires
        0 <= i < j < reactants.len() + products.len(),
        i < reactants.len() <==> j < reactants.len(),
        reactants2.len() == reactants.len(),
        reactants2 + products2 == swapped(reactants + products, i, j),
        conserves(reactants2, products2, y),
    ensures
        conserves(reactants, products, swapped(y, i, j)),
{
    let nr = reactants.len() as int;
    let sp = reactants + products;
    let sp2 = reactants2 + products2;
    let n = sp.len() as int;
    assert(swapped(sp2, i, j) =~= sp);
    assert(side(nr, i) == side(nr, j));
    assert forall|s: Seq<char>| #[trigger] net_atoms(sp, nr, swapped(y, i, j), s, n) == 0 by {
        assert(net_atoms(sp2, nr, y, s, n) == 0);
        lemma_net_atoms_range(sp2, nr, y, s, n);
        lemma_net_atoms_range(sp, nr, swapped(y, i, j), s, n);
        lemma_net_range_swap(sp2, nr, y, s, 0, n, i, j);
    }
}

/// Exchanging two species on one side of a balanced reaction leaves a single
/// positive ratio: [`balance`] on the reordered reaction then returns a
/// result unless a value leaves `i64` (see its contract).
pub proof fn law_balance_exchange_defined(
    reactants: Seq<Entries>,
    products: Seq<Entries>,
    c: Seq<i64>,
    reactants2: Seq<Entries>,
    products2: Seq<Entries>,
    i: int,
    j: int,
)
    requires
        0 <= i < j < reactants.len() + products.len(),
        i < reactants.len() <==> j < reactants.len(),
        reactants2.len() == reactants.len(),
        reactants2 + products2 == swapped(reactants + products, i, j),
        c.len() == reactants.len() + products.len(),
        forall|t: int| 0 <= t < c.len() ==> #[trigger] c[t] > 0,
        balances(reactants, products, c),
        unique_ratio(reactants, products, c),
    ensures
        positive_unique(reactants2, products2),
{
    let nr = reactants.len() as int;
    let n = c.len() as int;
    let sp = reactants + products;
    let sp2 = reactants2 + products2;
    let cs = swapped(c, i, j);
    assert(balances(reactants2, products2, cs)) by {
        assert forall|s: Seq<char>| #[trigger] weighted(sp2, cs, s, 0, nr) == weighted(sp2, cs, s, nr, n) by {
            assert(weighted(sp, c, s, 0, nr) == weighted(sp, c, s, nr, n));
            if j < nr {
                lemma_weighted_swap(sp, c, s, 0, nr, i, j);
                lemma_weighted_shift(sp, c, sp2, cs, s, nr, n, 0);
            } else {
                lemma_weighted_swap(sp, c, s, nr, n, i, j);
                lemma_weighted_shift(sp, c, sp2, cs, s, 0, nr, 0);
            }
        }
    }
    let x = Seq::new(n as nat, |t: int| cs[t] as int);
    lemma_balances_conserves(reactants2, products2, cs, x);
    assert forall|t: int| 0 <= t < x.len() implies x[t] > 0 by {
        if t == i {
            assert(cs[t] == c[j]);
        } else if t == j {
            assert(cs[t] == c[i]);
        } else {
            assert(cs[t] == c[t]);
        }
    }
    assert forall|y: Seq<int>| #[trigger] conserves(reactants2, products2, y) implies proportional_to(y, x) by {
        lemma_conserves_exchanged(reactants, products, reactants2, products2, y, i, j);
        let yb = swapped(y, i, j);
        assert(proportional(yb, c));
        assert forall|a: int, b: int| 0 <= a < y.len() && 0 <= b < y.len() implies #[trigger] (y[a] * x[b]) == y[b]
            * x[a] by {
            let ba = if a == i {
                j
            } else if a == j {
                i
            } else {
                a
            };
            let bb = if b == i {
                j
            } else if b == j {
                i
            } else {
                b
            };
            assert(yb[ba] == y[a] && yb[bb] == y[b]);
            assert(x[a] == c[ba] && x[b] == c[bb]);
            assert(yb[ba] * c[bb] == yb[bb] * c[ba]);
        }
    }
    assert(conserves(reactants2, products2, x) && (forall|t: int| 0 <= t < x.len() ==> x[t] > 0) && (forall|
        y: Seq<int>,
    | #[trigger] conserves(reactants2, products2, y) ==> proportional_to(y, x)));
}

} // verus!
