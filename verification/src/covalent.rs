//! Covalent stoichiometry from the octet rule, with the orbital-mismatch
//! double-bond rule and IUPAC ordering.
use crate::math::{gcd, lemma_gcd_is_gcd, lemma_gcd_nonneg, spec_gcd, trunc_div};
use crate::text::str_eq;
use vstd::prelude::*;

verus! {

/// The number of atoms of each kind and the bond order in the molecule.
#[derive(Debug, Clone, Copy, PartialEq, Eq, Structural)]
pub struct CovalentStoich {
    pub n_a: i64,
    pub n_b: i64,
    pub bond_order: i64,
}

/// The electrons a full outer shell holds: 2 for the first shell, else 8.
pub open spec fn shell_target_of(ve: int) -> int {
    if ve <= 2 {
        2
    } else {
        8
    }
}

/// Bonds an atom needs to complete its shell (never negative).
pub open spec fn bonds_needed_of(ve: int) -> int {
    if shell_target_of(ve) - ve > 0 {
        shell_target_of(ve) - ve
    } else {
        0
    }
}

/// Octet stoichiometry: counts cross over the bonds needed, reduced by their
/// gcd, which is the bond order; a full shell on either side gives 1:1 single.
pub open spec fn octet_stoich(ve_a: int, ve_b: int) -> CovalentStoich {
    let b_a = bonds_needed_of(ve_a);
    let b_b = bonds_needed_of(ve_b);
    if b_a == 0 || b_b == 0 {
        CovalentStoich { n_a: 1, n_b: 1, bond_order: 1 }
    } else {
        let g = spec_gcd(b_a, b_b);
        CovalentStoich { n_a: (b_b / g) as i64, n_b: (b_a / g) as i64, bond_order: g as i64 }
    }
}

/// Valence counts for which the octet arithmetic stays within `i64`.
pub open spec fn valence_ok(ve: int) -> bool {
    i64::MIN + 8 <= ve <= i64::MAX
}

fn shell_target(ve: i64) -> (r: i64)
    ensures
        r == shell_target_of(ve as int),
{
    if ve <= 2 {
        2
    } else {
        8
    }
}

fn bonds_needed(ve: i64) -> (r: i64)
    requires
        valence_ok(ve as int),
    ensures
        r == bonds_needed_of(ve as int),
        0 <= r <= i64::MAX,
{
    let d = shell_target(ve) - ve;
    if d > 0 {
        d
    } else {
        0
    }
}

/// Pure octet covalent stoichiometry from valence-electron counts.
pub fn calc_stoich(ve_a: i64, ve_b: i64) -> (r: CovalentStoich)
    requires
        valence_ok(ve_a as int),
        valence_ok(ve_b as int),
    ensures
        r == octet_stoich(ve_a as int, ve_b as int),
{
    let b_a = bonds_needed(ve_a);
    let b_b = bonds_needed(ve_b);
    if b_a == 0 || b_b == 0 {
        return CovalentStoich { n_a: 1, n_b: 1, bond_order: 1 };
    }
    proof {
        lemma_gcd_nonneg(b_a as int, b_b as int);
    }
    let g = gcd(b_a, b_b);
    CovalentStoich { n_a: b_b / g, n_b: b_a / g, bond_order: g }
}

/// The octet rule is satisfied on both sides: each atom of A forms
/// `bonds_needed(A)` bonds, each of B `bonds_needed(B)`, and the two totals
/// match; the bond order is the gcd of the two needs.
pub proof fn law_octet_bonds_balance(ve_a: int, ve_b: int)
    requires
        valence_ok(ve_a),
        valence_ok(ve_b),
        bonds_needed_of(ve_a) > 0,
        bonds_needed_of(ve_b) > 0,
    ensures
        ({
            let s = octet_stoich(ve_a, ve_b);
            &&& s.n_a * bonds_needed_of(ve_a) == s.n_b * bonds_needed_of(ve_b)
            &&& s.n_a * s.bond_order == bonds_needed_of(ve_b)
            &&& s.n_b * s.bond_order == bonds_needed_of(ve_a)
            &&& s.n_a > 0 && s.n_b > 0 && s.bond_order > 0
        }),
{
    let b_a = bonds_needed_of(ve_a);
    let b_b = bonds_needed_of(ve_b);
    lemma_gcd_is_gcd(b_a, b_b);
    lemma_gcd_nonneg(b_a, b_b);
    let g = spec_gcd(b_a, b_b);
    vstd::arithmetic::div_mod::lemma_fundamental_div_mod(b_a, g);
    vstd::arithmetic::div_mod::lemma_fundamental_div_mod(b_b, g);
    let qa = b_a / g;
    let qb = b_b / g;
    assert(qb * b_a == qa * b_b) by (nonlinear_arith)
        requires
            b_a == g * qa,
            b_b == g * qb,
    ;
    assert(qb * g == b_b && qa * g == b_a) by (nonlinear_arith)
        requires
            b_a == g * qa,
            b_b == g * qb,
    ;
    assert(qa > 0 && qb > 0) by (nonlinear_arith)
        requires
            b_a == g * qa,
            b_b == g * qb,
            b_a > 0,
            b_b > 0,
            g > 0,
    ;
    assert(qb <= b_b && qa <= b_a) by (nonlinear_arith)
        requires
            b_a == g * qa,
            b_b == g * qb,
            qa > 0,
            qb > 0,
            g > 0,
    ;
}

/// Two non-metals of one group but different periods that the octet rule alone
/// would join by a 1:1 double bond.
pub open spec fn mismatch_of(
    group_a: int,
    period_a: int,
    ve_a: int,
    group_b: int,
    period_b: int,
    ve_b: int,
) -> bool {
    group_a == group_b && period_a != period_b && octet_stoich(ve_a, ve_b) == CovalentStoich {
        n_a: 1,
        n_b: 1,
        bond_order: 2,
    }
}

/// True when two non-metals of the same group but different periods would, by the
/// octet rule alone, form a 1:1 double bond.
pub fn is_orbital_mismatch_double_bond(
    group_a: i64,
    period_a: i64,
    ve_a: i64,
    group_b: i64,
    period_b: i64,
    ve_b: i64,
) -> (r: bool)
    requires
        valence_ok(ve_a as int),
        valence_ok(ve_b as int),
    ensures
        r == mismatch_of(
            group_a as int,
            period_a as int,
            ve_a as int,
            group_b as int,
            period_b as int,
            ve_b as int,
        ),
{
    if group_a != group_b || period_a == period_b {
        return false;
    }
    let base = calc_stoich(ve_a, ve_b);
    base.n_a == 1 && base.n_b == 1 && base.bond_order == 2
}

/// Covalent stoichiometry with the orbital-mismatch rule: the atom of the
/// higher period is central (count 1), the other peripheral (count 2), both
/// double-bonded; otherwise the octet stoichiometry.
pub open spec fn covalent_of(
    ve_a: int,
    group_a: int,
    period_a: int,
    ve_b: int,
    group_b: int,
    period_b: int,
) -> CovalentStoich {
    if mismatch_of(group_a, period_a, ve_a, group_b, period_b, ve_b) {
        if period_a > period_b {
            CovalentStoich { n_a: 1, n_b: 2, bond_order: 2 }
        } else {
            CovalentStoich { n_a: 2, n_b: 1, bond_order: 2 }
        }
    } else {
        octet_stoich(ve_a, ve_b)
    }
}

/// Covalent stoichiometry with the orbital-mismatch double-bond rule applied.
pub fn covalent_stoich(
    ve_a: i64,
    group_a: i64,
    period_a: i64,
    ve_b: i64,
    group_b: i64,
    period_b: i64,
) -> (r: CovalentStoich)
    requires
        valence_ok(ve_a as int),
        valence_ok(ve_b as int),
    ensures
        r == covalent_of(
            ve_a as int,
            group_a as int,
            period_a as int,
            ve_b as int,
            group_b as int,
            period_b as int,
        ),
{
    if is_orbital_mismatch_double_bond(group_a, period_a, ve_a, group_b, period_b, ve_b) {
        return if period_a > period_b {
            CovalentStoich { n_a: 1, n_b: 2, bond_order: 2 }
        } else {
            CovalentStoich { n_a: 2, n_b: 1, bond_order: 2 }
        };
    }
    calc_stoich(ve_a, ve_b)
}

/// Swapping the two atoms swaps the counts and keeps the bond order.
pub proof fn law_covalent_swap(
    ve_a: int,
    group_a: int,
    period_a: int,
    ve_b: int,
    group_b: int,
    period_b: int,
)
    requires
        valence_ok(ve_a),
        valence_ok(ve_b),
    ensures
        ({
            let s = covalent_of(ve_a, group_a, period_a, ve_b, group_b, period_b);
            let t = covalent_of(ve_b, group_b, period_b, ve_a, group_a, period_a);
            s.n_a == t.n_b && s.n_b == t.n_a && s.bond_order == t.bond_order
        }),
{
    let b_a = bonds_needed_of(ve_a);
    let b_b = bonds_needed_of(ve_b);
    if b_a > 0 && b_b > 0 {
        crate::math::lemma_gcd_is_gcd(b_a, b_b);
        crate::math::lemma_gcd_is_gcd(b_b, b_a);
        lemma_gcd_nonneg(b_a, b_b);
        lemma_gcd_nonneg(b_b, b_a);
        let g1 = spec_gcd(b_a, b_b);
        let g2 = spec_gcd(b_b, b_a);
        assert(crate::math::divides(g1, g2));
        assert(crate::math::divides(g2, g1));
        lemma_mutual_divides(g1, g2);
    }
}

proof fn lemma_mutual_divides(a: int, b: int)
    requires
        crate::math::divides(a, b),
        crate::math::divides(b, a),
    ensures
        a == b,
{
    vstd::arithmetic::div_mod::lemma_fundamental_div_mod(b, a);
    vstd::arithmetic::div_mod::lemma_fundamental_div_mod(a, b);
    let k = b / a;
    let m = a / b;
    assert(a == b) by (nonlinear_arith)
        requires
            b == a * k,
            a == b * m,
            a > 0,
            b > 0,
    ;
}

/// IUPAC electronegativity-style ordering rank; unknown symbols rank 0.
pub open spec fn iupac_rank_of(s: Seq<char>) -> int {
    if s == "B"@ {
        1
    } else if s == "Si"@ {
        2
    } else if s == "C"@ {
        3
    } else if s == "Sb"@ {
        4
    } else if s == "As"@ {
        5
    } else if s == "P"@ {
        6
    } else if s == "N"@ {
        7
    } else if s == "H"@ {
        8
    } else if s == "Te"@ {
        9
    } else if s == "Se"@ {
        10
    } else if s == "S"@ {
        11
    } else if s == "O"@ {
        12
    } else if s == "I"@ {
        13
    } else if s == "Br"@ {
        14
    } else if s == "Cl"@ {
        15
    } else if s == "F"@ {
        16
    } else {
        0
    }
}

fn iupac_rank(symbol: &str) -> (r: i64)
    ensures
        r == iupac_rank_of(symbol@),
{
    if str_eq(symbol, "B") {
        1
    } else if str_eq(symbol, "Si") {
        2
    } else if str_eq(symbol, "C") {
        3
    } else if str_eq(symbol, "Sb") {
        4
    } else if str_eq(symbol, "As") {
        5
    } else if str_eq(symbol, "P") {
        6
    } else if str_eq(symbol, "N") {
        7
    } else if str_eq(symbol, "H") {
        8
    } else if str_eq(symbol, "Te") {
        9
    } else if str_eq(symbol, "Se") {
        10
    } else if str_eq(symbol, "S") {
        11
    } else if str_eq(symbol, "O") {
        12
    } else if str_eq(symbol, "I") {
        13
    } else if str_eq(symbol, "Br") {
        14
    } else if str_eq(symbol, "Cl") {
        15
    } else if str_eq(symbol, "F") {
        16
    } else {
        0
    }
}

/// True when symbol A is written first (lower or equal IUPAC index; unknown
/// symbols rank 0, so equal-rank pairs keep A first).
pub fn iupac_first(symbol_a: &str, symbol_b: &str) -> (r: bool)
    ensures
        r == (iupac_rank_of(symbol_a@) <= iupac_rank_of(symbol_b@)),
{
    iupac_rank(symbol_a) <= iupac_rank(symbol_b)
}

} // verus!
