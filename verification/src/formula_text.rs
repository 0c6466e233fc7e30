//! Chemical-formula text helpers: Unicode subscripts, gcd-reduced ionic
//! crossover subscripts, and binary formula assembly.
use crate::math::{abs, divides, gcd, lemma_gcd_is_gcd, lemma_gcd_nonneg, spec_gcd};
use crate::text::{chars_of, decimal, decimal_chars, extend_chars, string_of};
use vstd::prelude::*;

verus! {

/// The Unicode subscript form of an ASCII digit; other characters are unchanged.
pub open spec fn subscript_of(c: char) -> char {
    if c == '0' {
        '₀'
    } else if c == '1' {
        '₁'
    } else if c == '2' {
        '₂'
    } else if c == '3' {
        '₃'
    } else if c == '4' {
        '₄'
    } else if c == '5' {
        '₅'
    } else if c == '6' {
        '₆'
    } else if c == '7' {
        '₇'
    } else if c == '8' {
        '₈'
    } else if c == '9' {
        '₉'
    } else {
        c
    }
}

/// Map an ASCII digit to its Unicode subscript equivalent.
pub fn subscript_digit(c: char) -> (r: char)
    ensures
        r == subscript_of(c),
{
    match c {
        '0' => '₀',
        '1' => '₁',
        '2' => '₂',
        '3' => '₃',
        '4' => '₄',
        '5' => '₅',
        '6' => '₆',
        '7' => '₇',
        '8' => '₈',
        '9' => '₉',
        other => other,
    }
}

/// The subscript text of a count: empty for counts up to 1, else its
/// decimal digits as subscripts.
pub open spec fn subscript_text(n: int) -> Seq<char> {
    if n <= 1 {
        Seq::empty()
    } else {
        decimal(n as nat).map_values(|c: char| subscript_of(c))
    }
}

fn subscript_chars(n: i64) -> (v: Vec<char>)
    ensures
        v@ == subscript_text(n as int),
{
    let mut out: Vec<char> = Vec::new();
    if n <= 1 {
        return out;
    }
    let digits = decimal_chars(n as u64);
    let mut i: usize = 0;
    while i < digits.len()
        invariant
            i <= digits.len(),
            out@ == digits@.subrange(0, i as int).map_values(|c: char| subscript_of(c)),
        decreases digits.len() - i,
    {
        out.push(subscript_digit(digits[i]));
        proof {
            assert(digits@.subrange(0, i + 1).map_values(|c: char| subscript_of(c)) =~= digits@.subrange(
                0,
                i as int,
            ).map_values(|c: char| subscript_of(c)).push(subscript_of(digits@[i as int])));
        }
        i = i + 1;
    }
    assert(digits@.subrange(0, i as int) =~= digits@);
    out
}

/// Unicode subscript for a count; empty string when n <= 1.
pub fn formula_subscript(n: i64) -> (s: String)
    ensures
        s@ == subscript_text(n as int),
{
    let v = subscript_chars(n);
    string_of(&v)
}

/// The crossover subscripts for a cation/anion pair: each ion's subscript is
/// the other's charge magnitude, reduced by their gcd (at least 1).
pub open spec fn crossover_of(cation_charge: int, anion_charge: int) -> (int, int) {
    let cc = abs(cation_charge);
    let ac = abs(anion_charge);
    let g0 = spec_gcd(cc, ac);
    let g = if g0 > 1 {
        g0
    } else {
        1
    };
    (ac / g, cc / g)
}

/// gcd-reduced crossover subscripts from ionic charges (magnitudes crossed over).
pub fn crossover_subscripts(cation_charge: i64, anion_charge: i64) -> (r: (i64, i64))
    requires
        cation_charge > i64::MIN,
        anion_charge > i64::MIN,
    ensures
        r.0 == crossover_of(cation_charge as int, anion_charge as int).0,
        r.1 == crossover_of(cation_charge as int, anion_charge as int).1,
{
    let cc = if cation_charge < 0 {
        -cation_charge
    } else {
        cation_charge
    };
    let ac = if anion_charge < 0 {
        -anion_charge
    } else {
        anion_charge
    };
    proof {
        lemma_gcd_nonneg(cc as int, ac as int);
    }
    let g0 = gcd(cc, ac);
    let g = if g0 > 1 {
        g0
    } else {
        1
    };
    (ac / g, cc / g)
}

/// Crossing over the charges gives a neutral compound: the cation's total
/// charge cancels the anion's, and the subscripts share no common factor.
pub proof fn law_crossover_neutral(cation_charge: int, anion_charge: int)
    requires
        0 < cation_charge <= i64::MAX,
        i64::MIN < anion_charge < 0,
    ensures
        ({
            let (cs, as_) = crossover_of(cation_charge, anion_charge);
            &&& cs > 0 && as_ > 0
            &&& cs * cation_charge + as_ * anion_charge == 0
            &&& spec_gcd(cs, as_) == 1
        }),
{
    let cc = cation_charge;
    let ac = -anion_charge;
    lemma_gcd_is_gcd(cc, ac);
    lemma_gcd_nonneg(cc, ac);
    let g = spec_gcd(cc, ac);
    vstd::arithmetic::div_mod::lemma_fundamental_div_mod(cc, g);
    vstd::arithmetic::div_mod::lemma_fundamental_div_mod(ac, g);
    let qc = cc / g;
    let qa = ac / g;
    assert(qa * cc - qc * ac == 0) by (nonlinear_arith)
        requires
            cc == g * qc,
            ac == g * qa,
    ;
    assert(qa > 0 && qc > 0) by (nonlinear_arith)
        requires
            cc == g * qc,
            ac == g * qa,
            cc > 0,
            ac > 0,
            g > 0,
    ;
    assert(g >= 1);
    assert(crossover_of(cation_charge, anion_charge) == (qa, qc));
    assert(qa * cation_charge + qc * anion_charge == 0) by (nonlinear_arith)
        requires
            qa * cc - qc * ac == 0,
            cc == cation_charge,
            ac == -anion_charge,
    ;
    // the reduced subscripts share no factor: a common factor `d` of both
    // would make `d * g` a common divisor of the charges, above their gcd
    assert(qa <= i64::MAX && qc <= i64::MAX) by (nonlinear_arith)
        requires
            cc == g * qc,
            ac == g * qa,
            g >= 1,
            qa > 0,
            qc > 0,
            cc <= i64::MAX,
            ac <= i64::MAX,
    ;
    lemma_gcd_is_gcd(qa, qc);
    lemma_gcd_nonneg(qa, qc);
    let d = spec_gcd(qa, qc);
    assert(d == 1) by {
        assert(d >= 1);
        if d > 1 {
            vstd::arithmetic::div_mod::lemma_fundamental_div_mod(qa, d);
            vstd::arithmetic::div_mod::lemma_fundamental_div_mod(qc, d);
            let ka = qa / d;
            let kc = qc / d;
            assert(d * g > 0) by (nonlinear_arith)
                requires
                    d > 1,
                    g >= 1,
            ;
            assert(cc == (d * g) * kc && ac == (d * g) * ka) by (nonlinear_arith)
                requires
                    cc == g * qc,
                    ac == g * qa,
                    qa == d * ka + 0,
                    qc == d * kc + 0,
            ;
            vstd::arithmetic::div_mod::lemma_mod_multiples_basic(kc, d * g);
            vstd::arithmetic::div_mod::lemma_mod_multiples_basic(ka, d * g);
            assert(kc * (d * g) == (d * g) * kc && ka * (d * g) == (d * g) * ka) by (nonlinear_arith);
            assert(divides(d * g, cc) && divides(d * g, ac));
            assert(divides(d * g, g));
            vstd::arithmetic::div_mod::lemma_fundamental_div_mod(g, d * g);
            let q = g / (d * g);
            assert(false) by (nonlinear_arith)
                requires
                    g == (d * g) * q + 0,
                    d > 1,
                    g > 0,
            ;
        }
    }
}

/// What `char::is_numeric` returns for `c` (Unicode general categories Nd, Nl, No).
pub uninterp spec fn spec_is_numeric(c: char) -> bool;

/// `char::is_numeric`: true for characters in the Unicode numeric categories.
/// Stated here: the result is the named property, and ASCII digits are numeric.
#[verifier::external_body]
fn is_numeric(c: char) -> (b: bool)
    ensures
        b == spec_is_numeric(c),
        '0' <= c <= '9' ==> b,
{
    c.is_numeric()
}

/// A leading polyatomic cation (e.g. NH₄) needs parentheses when it repeats:
/// more than two characters, one of them a digit or subscript digit.
pub open spec fn wrapped_symbol(s: Seq<char>) -> bool {
    s.len() > 2 && exists|i: int|
        0 <= i < s.len() && (spec_is_numeric(#[trigger] s[i]) || ('₀' <= s[i] <= '₉'))
}

fn first_is_wrapped(symbol: &Vec<char>) -> (b: bool)
    ensures
        b == wrapped_symbol(symbol@),
{
    if symbol.len() <= 2 {
        return false;
    }
    let mut i: usize = 0;
    while i < symbol.len()
        invariant
            i <= symbol.len(),
            symbol.len() > 2,
            forall|j: int|
                0 <= j < i ==> !(spec_is_numeric(#[trigger] symbol@[j]) || ('₀' <= symbol@[j]
                    <= '₉')),
        decreases symbol.len() - i,
    {
        let c = symbol[i];
        if is_numeric(c) || ('₀' <= c && c <= '₉') {
            assert(spec_is_numeric(symbol@[i as int]) || ('₀' <= symbol@[i as int] <= '₉'));
            return true;
        }
        i = i + 1;
    }
    false
}

/// One part of a formula: the symbol and its subscript, in parentheses when
/// `wrap` holds and the count exceeds 1.
pub open spec fn formula_part(symbol: Seq<char>, count: int, wrap: bool) -> Seq<char> {
    if wrap && count > 1 {
        seq!['('] + symbol + seq![')'] + subscript_text(count)
    } else {
        symbol + subscript_text(count)
    }
}

/// A two-part formula: the first part parenthesised when it is a wrapped
/// polyatomic cation, the second when it is a polyatomic ion; each only when
/// its count exceeds 1.
pub open spec fn binary_formula_of(
    first: Seq<char>,
    first_count: int,
    second: Seq<char>,
    second_count: int,
    second_is_polyatomic: bool,
) -> Seq<char> {
    formula_part(first, first_count, wrapped_symbol(first)) + formula_part(
        second,
        second_count,
        second_is_polyatomic,
    )
}

fn part_chars(out: &mut Vec<char>, symbol: &Vec<char>, count: i64, wrap: bool)
    ensures
        final(out)@ == old(out)@ + formula_part(symbol@, count as int, wrap),
{
    let sub = subscript_chars(count);
    if wrap && count > 1 {
        out.push('(');
        extend_chars(out, symbol);
        out.push(')');
        extend_chars(out, &sub);
        assert(seq!['('] + symbol@ + seq![')'] + sub@ =~= seq!['('].add(symbol@).push(')').add(
            sub@,
        ));
    } else {
        extend_chars(out, symbol);
        extend_chars(out, &sub);
    }
}

/// Assemble a two-part formula as characters.
pub fn binary_formula_chars(
    first: &Vec<char>,
    first_count: i64,
    second: &Vec<char>,
    second_count: i64,
    second_is_polyatomic: bool,
) -> (v: Vec<char>)
    ensures
        v@ == binary_formula_of(
            first@,
            first_count as int,
            second@,
            second_count as int,
            second_is_polyatomic,
        ),
{
    let mut out: Vec<char> = Vec::new();
    let wrap = first_is_wrapped(first);
    part_chars(&mut out, first, first_count, wrap);
    part_chars(&mut out, second, second_count, second_is_polyatomic);
    out
}

/// Assemble a two-part formula. The second part is parenthesised only when it is a
/// polyatomic ion carrying a subscript > 1 (e.g. "(NH₄)₂SO₄", but "NaOH").
pub fn binary_formula(
    first: &str,
    first_count: i64,
    second: &str,
    second_count: i64,
    second_is_polyatomic: bool,
) -> (s: String)
    ensures
        s@ == binary_formula_of(
            first@,
            first_count as int,
            second@,
            second_count as int,
            second_is_polyatomic,
        ),
{
    let f = chars_of(first);
    let g = chars_of(second);
    let v = binary_formula_chars(&f, first_count, &g, second_count, second_is_polyatomic);
    string_of(&v)
}

} // verus!
