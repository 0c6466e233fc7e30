//! Equation balancing for a binary synthesis
//! `coeffA·Aₚ + coeffB·B_q -> coeffProduct·AₓBᵧ`, and the diatomic elements.
use crate::math::{
    abs, divides, gcd, gcd_checked, gcd_overflows, lcm, lcm_fits, lemma_gcd_nonzero, lemma_gcd_is_gcd, lemma_gcd_nonneg, lemma_gcd_times_lcm,
    spec_gcd, spec_lcm, trunc_div,
};
use crate::text::str_eq;
use vstd::prelude::*;

verus! {

/// Whether a reactant amount is given in moles or grams.
#[derive(Debug, Clone, Copy, PartialEq, Eq, Structural)]
pub enum QuantityUnit {
    Mole,
    Mass,
}

/// Smallest-integer balanced coefficients and the reactant molecularities used.
#[derive(Debug, Clone, Copy, PartialEq, Eq, Structural)]
pub struct BalancedEquation {
    pub coeff_a: i64,
    pub coeff_b: i64,
    pub coeff_product: i64,
    pub molecularity_a: i64,
    pub molecularity_b: i64,
}

/// Which reactant runs out first.
#[derive(Debug, Clone, Copy, PartialEq, Eq, Structural)]
pub enum LimitingSide {
    A,
    B,
    Both,
}

/// The seven elements that exist only as diatomic molecules in nature.
pub open spec fn diatomic_elements() -> Seq<Seq<char>> {
    seq!["H", "N", "O", "F", "Cl", "Br", "I"].map_values(|s: &str| s@)
}

/// The seven elements that exist only as diatomic molecules in nature.
pub fn naturally_diatomic() -> (v: Vec<&'static str>)
    ensures
        v@.map_values(|s: &str| s@) == diatomic_elements(),
{
    vec!["H", "N", "O", "F", "Cl", "Br", "I"]
}

/// Whether `symbol` is one of the naturally diatomic elements.
pub open spec fn is_diatomic(symbol: Seq<char>) -> bool {
    diatomic_elements().contains(symbol)
}

/// Whether `symbol` is one of the [`naturally_diatomic`] elements.
pub fn is_naturally_diatomic(symbol: &str) -> (b: bool)
    ensures
        b == is_diatomic(symbol@),
{
    let table = naturally_diatomic();
    let ghost names = table@.map_values(|s: &str| s@);
    let mut i: usize = 0;
    while i < table.len()
        invariant
            i <= table.len(),
            names == table@.map_values(|s: &str| s@),
            names == diatomic_elements(),
            forall|j: int| 0 <= j < i ==> names[j] != symbol@,
        decreases table.len() - i,
    {
        if str_eq(table[i], symbol) {
            assert(names[i as int] == symbol@);
            return true;
        }
        i = i + 1;
    }
    false
}

/// Atoms per reactant unit: 2 for a diatomic element, 1 otherwise.
pub fn molecularity(is_diatomic: bool) -> (r: i64)
    ensures
        r == (if is_diatomic {
            2i64
        } else {
            1i64
        }),
{
    if is_diatomic {
        2
    } else {
        1
    }
}

/// The intermediate values of [`balance_equation`]: the unreduced coefficients
/// `(a, b, c)` with `c = lcm(p / gcd(p, x), q / gcd(q, y))`, `a = c·x / p`,
/// `b = c·y / q`.
pub open spec fn unreduced(x: int, p: int, y: int, q: int) -> (int, int, int) {
    let c0 = spec_lcm(trunc_div(p, spec_gcd(p, x)), trunc_div(q, spec_gcd(q, y)));
    (trunc_div(c0 * x, p), trunc_div(c0 * y, q), c0)
}

/// The balanced coefficients `(coeff_a, coeff_b, coeff_product)`: the
/// unreduced ones divided by their common gcd.
pub open spec fn balanced_of(x: int, p: int, y: int, q: int) -> (int, int, int) {
    let (a, b, c) = unreduced(x, p, y, q);
    let g = spec_gcd(spec_gcd(a, b), c);
    (trunc_div(a, g), trunc_div(b, g), trunc_div(c, g))
}

/// Division `n / d` on `i64` that neither divides by zero nor overflows.
pub open spec fn div_ok(n: int, d: int) -> bool {
    d != 0 && !(n == i64::MIN && d == -1)
}

/// Every step of [`balance_equation`] stays within `i64`; outside these inputs the arithmetic would overflow.
pub open spec fn balance_fits(x: int, p: int, y: int, q: int) -> bool {
    let g1 = spec_gcd(p, x);
    let g2 = spec_gcd(q, y);
    let t1 = trunc_div(p, g1);
    let t2 = trunc_div(q, g2);
    let c0 = spec_lcm(t1, t2);
    let (a, b, c) = unreduced(x, p, y, q);
    let gab = spec_gcd(a, b);
    let g = spec_gcd(gab, c);
    &&& !gcd_overflows(p, x) && div_ok(p, g1)
    &&& !gcd_overflows(q, y) && div_ok(q, g2)
    &&& lcm_fits(t1, t2)
    &&& i64::MIN <= c0 * x <= i64::MAX && div_ok(c0 * x, p)
    &&& i64::MIN <= c0 * y <= i64::MAX && div_ok(c0 * y, q)
    &&& !gcd_overflows(a, b) && !gcd_overflows(gab, c)
    &&& div_ok(a, g) && div_ok(b, g) && div_ok(c, g)
}

/// A product of two `i64` values fits an `i128`.
proof fn lemma_i64_product(a: i64, b: i64)
    ensures
        -0x4000_0000_0000_0000_0000_0000_0000_0000 <= (a as int) * (b as int) <= 0x4000_0000_0000_0000_0000_0000_0000_0000,
{
    assert(-0x4000_0000_0000_0000_0000_0000_0000_0000 <= (a as int) * (b as int) <= 0x4000_0000_0000_0000_0000_0000_0000_0000)
        by (nonlinear_arith)
        requires
            i64::MIN <= a <= i64::MAX,
            i64::MIN <= b <= i64::MAX,
    ;
}

/// Whether [`balance_equation`] computes within `i64` on these inputs (see
/// [`balance_fits`]): outside them its arithmetic would overflow or divide
/// by zero.
pub fn balance_equation_fits(x: i64, p: i64, y: i64, q: i64) -> (b: bool)
    ensures
        b == balance_fits(x as int, p as int, y as int, q as int),
{
    let g1 = match gcd_checked(p, x) {
        Some(g) => g,
        None => return false,
    };
    if g1 == 0 || (p == i64::MIN && g1 == -1) {
        return false;
    }
    let t1 = div_exec(p, g1);
    let g2 = match gcd_checked(q, y) {
        Some(g) => g,
        None => return false,
    };
    if g2 == 0 || (q == i64::MIN && g2 == -1) {
        return false;
    }
    let t2 = div_exec(q, g2);
    if t1 != 0 && t2 != 0 {
        let g = match gcd_checked(t1, t2) {
            Some(g) => g,
            None => return false,
        };
        if t1 == i64::MIN && g == -1 {
            return false;
        }
        proof {
            lemma_gcd_nonzero(t1 as int, t2 as int);
        }
        let qt = div_exec(t1, g);
        proof {
            lemma_i64_product(qt, t2);
        }
        let l: i128 = (qt as i128) * (t2 as i128);
        if l < i64::MIN as i128 || l > i64::MAX as i128 {
            return false;
        }
    }
    let c0 = lcm(t1, t2);
    proof {
        lemma_i64_product(c0, x);
        lemma_i64_product(c0, y);
    }
    let cx: i128 = (c0 as i128) * (x as i128);
    let cy: i128 = (c0 as i128) * (y as i128);
    if cx < i64::MIN as i128 || cx > i64::MAX as i128 || cy < i64::MIN as i128 || cy > i64::MAX as i128 {
        return false;
    }
    let cx = cx as i64;
    let cy = cy as i64;
    if p == 0 || (cx == i64::MIN && p == -1) || q == 0 || (cy == i64::MIN && q == -1) {
        return false;
    }
    let a = div_exec(cx, p);
    let b = div_exec(cy, q);
    let gab = match gcd_checked(a, b) {
        Some(g) => g,
        None => return false,
    };
    let g = match gcd_checked(gab, c0) {
        Some(g) => g,
        None => return false,
    };
    g != 0 && !(a == i64::MIN && g == -1) && !(b == i64::MIN && g == -1) && !(c0 == i64::MIN && g == -1)
}

fn div_exec(n: i64, d: i64) -> (r: i64)
    requires
        div_ok(n as int, d as int),
    ensures
        r == trunc_div(n as int, d as int),
{
    let nn: i128 = if n < 0 { -(n as i128) } else { n as i128 };
    let dd: i128 = if d < 0 { -(d as i128) } else { d as i128 };
    let qq: i128 = nn / dd;
    proof {
        vstd::arithmetic::div_mod::lemma_div_is_ordered_by_denominator(nn as int, 1, dd as int);
        if dd >= 2 {
            vstd::arithmetic::div_mod::lemma_div_is_ordered_by_denominator(nn as int, 2, dd as int);
        }
    }
    if (n >= 0) == (d >= 0) || n == 0 {
        qq as i64
    } else {
        (-qq) as i64
    }
}

/// Balance `coeffA·Aₚ + coeffB·B_q -> coeffProduct·AₓBᵧ` for the smallest integers,
/// where `x`/`y` are the product subscripts and `p`/`q` the reactant molecularities.
pub fn balance_equation(
    subscript_a: i64,
    molecularity_a: i64,
    subscript_b: i64,
    molecularity_b: i64,
) -> (r: BalancedEquation)
    requires
        balance_fits(
            subscript_a as int,
            molecularity_a as int,
            subscript_b as int,
            molecularity_b as int,
        ),
    ensures
        ({
            let (a, b, c) = balanced_of(
                subscript_a as int,
                molecularity_a as int,
                subscript_b as int,
                molecularity_b as int,
            );
            r == BalancedEquation {
                coeff_a: a as i64,
                coeff_b: b as i64,
                coeff_product: c as i64,
                molecularity_a,
                molecularity_b,
            }
        }),
{
    let (x, p, y, q) = (subscript_a, molecularity_a, subscript_b, molecularity_b);
    let g1 = gcd(p, x);
    let t1 = div_exec(p, g1);
    let g2 = gcd(q, y);
    let t2 = div_exec(q, g2);
    let c0 = lcm(t1, t2);
    let a = div_exec(c0 * x, p);
    let b = div_exec(c0 * y, q);
    let c = c0;
    let gab = gcd(a, b);
    let g = gcd(gab, c);
    BalancedEquation {
        coeff_a: div_exec(a, g),
        coeff_b: div_exec(b, g),
        coeff_product: div_exec(c, g),
        molecularity_a: p,
        molecularity_b: q,
    }
}

proof fn lemma_exact_div(n: int, d: int, k: int)
    requires
        d > 0,
        n == d * k,
    ensures
        trunc_div(n, d) == k,
{
    if n >= 0 {
        assert(k >= 0) by (nonlinear_arith)
            requires
                n == d * k,
                d > 0,
                n >= 0,
        ;
        vstd::arithmetic::div_mod::lemma_div_multiples_vanish(k, d);
    } else {
        assert(abs(n) == d * (-k)) by (nonlinear_arith)
            requires
                n == d * k,
                n < 0,
        ;
        vstd::arithmetic::div_mod::lemma_div_multiples_vanish(-k, d);
    }
}

/// For positive subscripts and molecularities the balanced coefficients are
/// positive, conserve atoms (`coeff_a · p == coeff_product · x` and
/// `coeff_b · q == coeff_product · y`), and are the smallest such: no integer
/// above 1 divides all three.
pub proof fn law_balance_conserves_atoms(x: int, p: int, y: int, q: int)
    requires
        0 < x <= i64::MAX,
        0 < p <= i64::MAX,
        0 < y <= i64::MAX,
        0 < q <= i64::MAX,
        balance_fits(x, p, y, q),
    ensures
        ({
            let (a, b, c) = balanced_of(x, p, y, q);
            &&& a > 0 && b > 0 && c > 0
            &&& a * p == c * x
            &&& b * q == c * y
            &&& forall|d: int| d > 1 ==> !(#[trigger] divides(d, a) && divides(d, b) && divides(d, c))
        }),
{
    let g1 = spec_gcd(p, x);
    let g2 = spec_gcd(q, y);
    lemma_gcd_is_gcd(p, x);
    lemma_gcd_is_gcd(q, y);
    lemma_gcd_nonneg(p, x);
    lemma_gcd_nonneg(q, y);
    vstd::arithmetic::div_mod::lemma_fundamental_div_mod(p, g1);
    vstd::arithmetic::div_mod::lemma_fundamental_div_mod(x, g1);
    vstd::arithmetic::div_mod::lemma_fundamental_div_mod(q, g2);
    vstd::arithmetic::div_mod::lemma_fundamental_div_mod(y, g2);
    let t1 = p / g1;
    let t2 = q / g2;
    let x1 = x / g1;
    let y1 = y / g2;
    assert(trunc_div(p, g1) == t1);
    assert(trunc_div(q, g2) == t2);
    assert(t1 > 0 && t2 > 0 && x1 > 0 && y1 > 0) by (nonlinear_arith)
        requires
            p == g1 * t1,
            q == g2 * t2,
            x == g1 * x1,
            y == g2 * y1,
            p > 0,
            q > 0,
            x > 0,
            y > 0,
            g1 > 0,
            g2 > 0,
    ;
    assert(t1 <= p && t2 <= q) by (nonlinear_arith)
        requires
            p == g1 * t1,
            q == g2 * t2,
            t1 > 0,
            t2 > 0,
            g1 > 0,
            g2 > 0,
    ;
    lemma_gcd_times_lcm(t1, t2);
    let c0 = spec_lcm(t1, t2);
    vstd::arithmetic::div_mod::lemma_fundamental_div_mod(c0, t1);
    vstd::arithmetic::div_mod::lemma_fundamental_div_mod(c0, t2);
    let k1 = c0 / t1;
    let k2 = c0 / t2;
    // c0 * x = p * (k1 * x1), c0 * y = q * (k2 * y1)
    assert(c0 * x == p * (k1 * x1)) by (nonlinear_arith)
        requires
            c0 == t1 * k1,
            x == g1 * x1,
            p == g1 * t1,
    ;
    assert(c0 * y == q * (k2 * y1)) by (nonlinear_arith)
        requires
            c0 == t2 * k2,
            y == g2 * y1,
            q == g2 * t2,
    ;
    lemma_exact_div(c0 * x, p, k1 * x1);
    lemma_exact_div(c0 * y, q, k2 * y1);
    let a = k1 * x1;
    let b = k2 * y1;
    let c = c0;
    assert(k1 > 0 && k2 > 0) by (nonlinear_arith)
        requires
            c0 == t1 * k1,
            c0 == t2 * k2,
            c0 > 0,
            t1 > 0,
            t2 > 0,
    ;
    assert(a > 0 && b > 0) by (nonlinear_arith)
        requires
            a == k1 * x1,
            b == k2 * y1,
            k1 > 0,
            k2 > 0,
            x1 > 0,
            y1 > 0,
    ;
    assert(a * p == c * x) by (nonlinear_arith)
        requires
            c0 * x == p * (k1 * x1),
            a == k1 * x1,
            c == c0,
    ;
    assert(b * q == c * y) by (nonlinear_arith)
        requires
            c0 * y == q * (k2 * y1),
            b == k2 * y1,
            c == c0,
    ;
    assert(unreduced(x, p, y, q) == (a, b, c));
    // Bounds needed to apply the gcd lemmas on i64 values.
    assert(a <= i64::MAX && b <= i64::MAX && c <= i64::MAX) by {
        lemma_exact_div(c0 * x, p, a);
        lemma_exact_div(c0 * y, q, b);
        assert(a <= c0 * x) by (nonlinear_arith)
            requires
                c0 * x == p * a,
                p > 0,
                a > 0,
        ;
        assert(b <= c0 * y) by (nonlinear_arith)
            requires
                c0 * y == q * b,
                q > 0,
                b > 0,
        ;
    }
    lemma_gcd_nonneg(a, b);
    lemma_gcd_is_gcd(a, b);
    let gab = spec_gcd(a, b);
    lemma_gcd_nonneg(gab, c);
    lemma_gcd_is_gcd(gab, c);
    let g = spec_gcd(gab, c);
    // g divides a, b and c.
    vstd::arithmetic::div_mod::lemma_fundamental_div_mod(gab, g);
    vstd::arithmetic::div_mod::lemma_fundamental_div_mod(a, gab);
    vstd::arithmetic::div_mod::lemma_fundamental_div_mod(b, gab);
    vstd::arithmetic::div_mod::lemma_fundamental_div_mod(c, g);
    let ra = (a / gab) * (gab / g);
    let rb = (b / gab) * (gab / g);
    let rc = c / g;
    assert(a == g * ra && b == g * rb) by (nonlinear_arith)
        requires
            a == gab * (a / gab),
            b == gab * (b / gab),
            gab == g * (gab / g),
            ra == (a / gab) * (gab / g),
            rb == (b / gab) * (gab / g),
    ;
    lemma_exact_div(a, g, ra);
    lemma_exact_div(b, g, rb);
    lemma_exact_div(c, g, rc);
    assert(ra > 0 && rb > 0 && rc > 0) by (nonlinear_arith)
        requires
            a == g * ra,
            b == g * rb,
            c == g * rc,
            a > 0,
            b > 0,
            c > 0,
            g > 0,
    ;
    assert(ra * p == rc * x && rb * q == rc * y) by (nonlinear_arith)
        requires
            a * p == c * x,
            b * q == c * y,
            a == g * ra,
            b == g * rb,
            c == g * rc,
            g > 0,
    ;
    // No integer above 1 divides all three: it would divide g * (each) and so g.
    assert forall|d: int| d > 1 implies !(#[trigger] divides(d, ra) && divides(d, rb) && divides(d, rc)) by {
        if divides(d, ra) && divides(d, rb) && divides(d, rc) {
            vstd::arithmetic::div_mod::lemma_fundamental_div_mod(ra, d);
            vstd::arithmetic::div_mod::lemma_fundamental_div_mod(rb, d);
            vstd::arithmetic::div_mod::lemma_fundamental_div_mod(rc, d);
            let ka = ra / d;
            let kb = rb / d;
            let kc = rc / d;
            let dg = d * g;
            assert(dg > 0 && a == ka * dg && b == kb * dg && c == kc * dg) by (nonlinear_arith)
                requires
                    dg == d * g,
                    d > 1,
                    g > 0,
                    ra == d * ka + 0,
                    rb == d * kb + 0,
                    rc == d * kc + 0,
                    a == g * ra,
                    b == g * rb,
                    c == g * rc,
            ;
            vstd::arithmetic::div_mod::lemma_mod_multiples_basic(ka, dg);
            vstd::arithmetic::div_mod::lemma_mod_multiples_basic(kb, dg);
            vstd::arithmetic::div_mod::lemma_mod_multiples_basic(kc, dg);
            assert(divides(dg, a) && divides(dg, b) && divides(dg, c));
            assert(divides(dg, gab));
            assert(divides(dg, g));
            vstd::arithmetic::div_mod::lemma_fundamental_div_mod(g, dg);
            let m = g / dg;
            assert(false) by (nonlinear_arith)
                requires
                    g == dg * m + 0,
                    dg == d * g,
                    d > 1,
                    g > 0,
            ;
        }
    }
}

/// `"{X} cannot exist as monoatomic, It only exist in {X}₂"`.
pub open spec fn monoatomic_text(symbol: Seq<char>) -> Seq<char> {
    symbol + " cannot exist as monoatomic, It only exist in "@ + symbol + "₂"@
}

/// The notices for reactants entered as naturally diatomic elements, A's first.
pub fn diatomic_notices(symbol_a: &str, diatomic_a: bool, symbol_b: &str, diatomic_b: bool) -> (v: Vec<String>)
    ensures
        v@.map_values(|s: String| s@) == (if diatomic_a {
            seq![monoatomic_text(symbol_a@)]
        } else {
            Seq::empty()
        }) + (if diatomic_b {
            seq![monoatomic_text(symbol_b@)]
        } else {
            Seq::empty()
        }),
{
    let mut v: Vec<String> = Vec::new();
    if diatomic_a {
        v.push(monoatomic_notice(symbol_a));
    }
    if diatomic_b {
        v.push(monoatomic_notice(symbol_b));
    }
    assert(v@.map_values(|s: String| s@) =~= (if diatomic_a {
        seq![monoatomic_text(symbol_a@)]
    } else {
        Seq::empty()
    }) + (if diatomic_b {
        seq![monoatomic_text(symbol_b@)]
    } else {
        Seq::empty()
    }));
    v
}

fn monoatomic_notice(symbol: &str) -> (s: String)
    ensures
        s@ == monoatomic_text(symbol@),
{
    let mut t = crate::text::chars_of(symbol);
    crate::text::extend_chars(&mut t, &crate::text::chars_of(" cannot exist as monoatomic, It only exist in "));
    crate::text::extend_chars(&mut t, &crate::text::chars_of(symbol));
    crate::text::extend_chars(&mut t, &crate::text::chars_of("₂"));
    crate::text::string_of(&t)
}

/// A positive divisor of 1 or 2 is 1 or 2.
proof fn lemma_small_divisor(g: int, p: int)
    requires
        1 <= p <= 2,
        divides(g, p),
    ensures
        1 <= g <= p,
        1 <= trunc_div(p, g) <= 2,
{
    if g > p {
        assert(p % g == p) by {
            vstd::arithmetic::div_mod::lemma_small_mod(p as nat, g as nat);
        }
    }
    vstd::arithmetic::div_mod::lemma_fundamental_div_mod(p, g);
    let t = p / g;
    assert(1 <= t <= 2) by (nonlinear_arith)
        requires
            p == g * t + 0,
            1 <= g <= p,
            1 <= p <= 2,
    ;
}

/// A binary synthesis with subscripts in `0..=u32::MAX` and reactants of
/// one or two atoms balances within `i64`.
pub proof fn lemma_binary_synthesis_fits(x: int, p: int, y: int, q: int)
    requires
        0 <= x <= u32::MAX,
        0 <= y <= u32::MAX,
        1 <= p <= 2,
        1 <= q <= 2,
    ensures
        balance_fits(x, p, y, q),
{
    lemma_gcd_nonneg(p, x);
    lemma_gcd_nonneg(q, y);
    lemma_gcd_is_gcd(p, x);
    lemma_gcd_is_gcd(q, y);
    let g1 = spec_gcd(p, x);
    let g2 = spec_gcd(q, y);
    lemma_small_divisor(g1, p);
    lemma_small_divisor(g2, q);
    let t1 = trunc_div(p, g1);
    let t2 = trunc_div(q, g2);
    lemma_gcd_nonneg(t1, t2);
    lemma_gcd_is_gcd(t1, t2);
    lemma_small_divisor(spec_gcd(t1, t2), t1);
    let c0 = spec_lcm(t1, t2);
    assert(1 <= c0 <= 4) by (nonlinear_arith)
        requires
            c0 == trunc_div(t1, spec_gcd(t1, t2)) * t2,
            1 <= trunc_div(t1, spec_gcd(t1, t2)) <= 2,
            1 <= t2 <= 2,
    ;
    assert(0 <= c0 * x <= 4 * u32::MAX && 0 <= c0 * y <= 4 * u32::MAX) by (nonlinear_arith)
        requires
            1 <= c0 <= 4,
            0 <= x <= u32::MAX,
            0 <= y <= u32::MAX,
    ;
    let (a, b, c) = unreduced(x, p, y, q);
    vstd::arithmetic::div_mod::lemma_div_is_ordered_by_denominator(c0 * x, 1, p);
    vstd::arithmetic::div_mod::lemma_div_is_ordered_by_denominator(c0 * y, 1, q);
    assert(0 <= a <= c0 * x && 0 <= b <= c0 * y && c == c0);
    lemma_gcd_nonneg(a, b);
    let gab = spec_gcd(a, b);
    lemma_gcd_nonneg(gab, c);
}

} // verus!
