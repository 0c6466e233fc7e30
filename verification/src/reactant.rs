//! A reactant compound built from one or two [`Species`] using the bonding
//! rules.
use crate::bonding::{bonding_of, determine_bonding, BondingType};
use crate::classification::ElementClass;
use crate::composition::{
    charge_or, count_in, counts_bounded, law_merge_counts, lemma_bounded_scale_merge, sorted_entries,
    ionic_compound, ionic_fits, ionic_formula, ionic_parts, ionic_subs, lookup, merge, merge_fits,
    merge_of, scale_entries, scale_fits, scaled, Composition,
};
use crate::covalent::{
    bonds_needed_of, covalent_of, covalent_stoich, iupac_first, iupac_rank_of, law_octet_bonds_balance,
    octet_stoich,
};
use crate::math::{abs, spec_gcd};
use crate::formula_text::{
    binary_formula, binary_formula_of, crossover_of, formula_subscript, law_crossover_neutral, subscript_text,
};
use crate::species::{copy_species, species_models, Species, SpeciesModel};
use crate::stoichiometry::{is_diatomic, is_naturally_diatomic};
use crate::text::{chars_of, extend_chars, string_of};
use vstd::prelude::*;

verus! {

/// A reactant compound built from one or two species using the bonding
/// rules. `multiplicities[i]` is how many of `species[i]` one formula unit
/// holds, by which the caller weighs the compound.
#[derive(Debug, Clone, PartialEq, Eq)]
pub struct Reactant {
    pub species: Vec<Species>,
    pub formula: String,
    pub composition: Composition,
    pub multiplicities: Vec<i64>,
    pub cation: Option<Species>,
    pub anion: Option<Species>,
    pub is_bare_element: bool,
}

/// The species models of an optional species.
pub open spec fn opt_model(s: Option<Species>) -> Option<SpeciesModel> {
    match s {
        Some(x) => Some(x@),
        None => None,
    }
}

impl Reactant {
    /// The compositions, its own and its species', are well formed.
    pub open spec fn wf(&self) -> bool {
        &&& self.composition.wf()
        &&& forall|i: int| 0 <= i < self.species@.len() ==> (#[trigger] self.species@[i]).wf()
        &&& (self.cation matches Some(c) ==> c.wf())
        &&& (self.anion matches Some(a) ==> a.wf())
    }
}

/// Metals bias toward cation, non-metals toward anion, when charge is absent.
pub open spec fn cation_bias_of(s: SpeciesModel) -> int {
    if s.element_class == ElementClass::Metal {
        1
    } else {
        -1
    }
}

/// The key by which the cation is picked: the charge, else the bias.
pub open spec fn cation_key_of(s: SpeciesModel) -> int {
    match s.charge {
        Some(c) => c as int,
        None => cation_bias_of(s),
    }
}

/// The pair is ionic: either is polyatomic, they carry explicit opposite
/// charges (the acid-as-ionic rule, e.g. HCl), or the element classes bond
/// ionically.
pub open spec fn is_ionic_pair(a: SpeciesModel, b: SpeciesModel) -> bool {
    ||| a.is_polyatomic
    ||| b.is_polyatomic
    ||| (a.charge matches Some(ac) && b.charge matches Some(bc) && (ac as int) * (bc as int) < 0)
    ||| bonding_of(a.element_class, b.element_class) == BondingType::Ionic
}

/// Whether the first of the pair is the cation.
pub open spec fn first_is_cation(a: SpeciesModel, b: SpeciesModel) -> bool {
    cation_key_of(a) >= cation_key_of(b)
}

/// How many atoms a lone species is doubled to: 2 for a naturally diatomic
/// element, else 1.
pub open spec fn bare_count(s: SpeciesModel) -> int {
    if is_diatomic(s.symbol) && !s.is_polyatomic {
        2
    } else {
        1
    }
}

/// The covalent stoichiometry of the pair.
pub open spec fn covalent_pair(a: SpeciesModel, b: SpeciesModel) -> crate::covalent::CovalentStoich {
    covalent_of(
        a.valence_electrons as int,
        a.group as int,
        a.period as int,
        b.valence_electrons as int,
        b.group as int,
        b.period as int,
    )
}

/// The covalent formula: the IUPAC-first element written first.
pub open spec fn covalent_formula(a: SpeciesModel, b: SpeciesModel) -> Seq<char> {
    let st = covalent_pair(a, b);
    if iupac_rank_of(a.symbol) <= iupac_rank_of(b.symbol) {
        binary_formula_of(a.symbol, st.n_a as int, b.symbol, st.n_b as int, false)
    } else {
        binary_formula_of(b.symbol, st.n_b as int, a.symbol, st.n_a as int, false)
    }
}

/// Building the reactant stays within `i64`.
pub open spec fn reactant_fits(sp: Seq<SpeciesModel>) -> bool {
    if sp.len() == 1 {
        scale_fits(sp[0].composition, bare_count(sp[0]) as i64)
    } else {
        let a = sp[0];
        let b = sp[1];
        if is_ionic_pair(a, b) {
            if first_is_cation(a, b) {
                ionic_fits(a, b)
            } else {
                ionic_fits(b, a)
            }
        } else {
            let st = covalent_pair(a, b);
            &&& scale_fits(a.composition, st.n_a)
            &&& scale_fits(b.composition, st.n_b)
            &&& merge_fits(scale_entries(a.composition, st.n_a), scale_entries(b.composition, st.n_b))
        }
    }
}

/// What [`make_reactant`] builds from the species `sp`.
pub open spec fn made_from(r: Reactant, sp: Seq<SpeciesModel>) -> bool {
    &&& species_models(r.species@) == sp
    &&& sp.len() == 1 ==> {
        let s = sp[0];
        &&& r.formula@ == s.symbol + subscript_text(bare_count(s))
        &&& r.composition@ == scale_entries(s.composition, bare_count(s) as i64)
        &&& r.multiplicities@ == seq![bare_count(s) as i64]
        &&& r.cation is None
        &&& r.anion is None
        &&& r.is_bare_element == !s.is_polyatomic
    }
    &&& sp.len() >= 2 && is_ionic_pair(sp[0], sp[1]) ==> {
        let a = sp[0];
        let b = sp[1];
        let cat = if first_is_cation(a, b) { a } else { b };
        let an = if first_is_cation(a, b) { b } else { a };
        let subs = ionic_subs(cat, an);
        &&& r.formula@ == ionic_formula(cat, an)
        &&& r.composition@ == merge_of(ionic_parts(cat, an).0, ionic_parts(cat, an).1)
        &&& r.multiplicities@ == (if first_is_cation(a, b) {
            seq![subs.0 as i64, subs.1 as i64]
        } else {
            seq![subs.1 as i64, subs.0 as i64]
        })
        &&& opt_model(r.cation) == Some(cat)
        &&& opt_model(r.anion) == Some(an)
        &&& !r.is_bare_element
    }
    &&& sp.len() >= 2 && !is_ionic_pair(sp[0], sp[1]) ==> {
        let a = sp[0];
        let b = sp[1];
        let st = covalent_pair(a, b);
        &&& r.formula@ == covalent_formula(a, b)
        &&& r.composition@ == merge_of(
            scale_entries(a.composition, st.n_a),
            scale_entries(b.composition, st.n_b),
        )
        &&& r.multiplicities@ == seq![st.n_a, st.n_b]
        &&& r.cation is None
        &&& r.anion is None
        &&& !r.is_bare_element
    }
}

fn cation_key(s: &Species) -> (k: i64)
    ensures
        k == cation_key_of(s@),
{
    match s.charge {
        Some(c) => c as i64,
        None => {
            if s.element_class == ElementClass::Metal {
                1
            } else {
                -1
            }
        },
    }
}

/// Build a [`Reactant`] compound from one or two species.
///
/// - One species: a bare element, doubled to a diatomic molecule when it is
///   one of the naturally diatomic elements and isn't itself a polyatomic ion.
/// - Two species (further ones are carried along but not bonded): ionic
///   (crossover of cation/anion charges) when either species is polyatomic,
///   the two carry explicit opposite charges, or the element-class bonding
///   rule says ionic; otherwise covalent, using octet stoichiometry and IUPAC
///   element ordering.
pub fn make_reactant(species: &[Species]) -> (r: Reactant)
    requires
        species@.len() >= 1,
        forall|i: int| 0 <= i < species@.len() ==> (#[trigger] species@[i]).wf(),
        reactant_fits(species_models(species@)),
    ensures
        r.wf(),
        made_from(r, species_models(species@)),
{
    proof {
        assert(species_models(species@)[0] == species@[0]@);
        if species@.len() >= 2 {
            assert(species_models(species@)[1] == species@[1]@);
        }
    }
    let all = copy_species(species);
    if species.len() == 1 {
        let s = &species[0];
        let diatomic = is_naturally_diatomic(s.symbol.as_str()) && !s.is_polyatomic;
        let count: i64 = if diatomic {
            2
        } else {
            1
        };
        let composition = scaled(&s.composition, count);
        let mut text = chars_of(s.symbol.as_str());
        let sub = chars_of(formula_subscript(count).as_str());
        extend_chars(&mut text, &sub);
        let formula = string_of(&text);
        let r = Reactant {
            species: all,
            formula,
            composition,
            multiplicities: vec![count],
            cation: None,
            anion: None,
            is_bare_element: !s.is_polyatomic,
        };
        proof {
            let sp = species_models(species@);
            assert(sp[0] == s@);
            assert(r.formula@ == sp[0].symbol + subscript_text(bare_count(sp[0])));
            assert(r.composition@ == scale_entries(sp[0].composition, bare_count(sp[0]) as i64));
            assert(r.multiplicities@ =~= seq![bare_count(sp[0]) as i64]);
        }
        return r;
    }
    let a = &species[0];
    let b = &species[1];
    // Explicit opposite charges (H⁺ and Cl⁻) make an acid ionic for
    // reaction purposes, though both are non-metals.
    let has_opposite_charges = match (a.charge, b.charge) {
        (Some(ac), Some(bc)) => {
            assert(-16384 <= (ac as i64) * (bc as i64) <= 16384) by (nonlinear_arith)
                requires
                    -128 <= ac <= 127,
                    -128 <= bc <= 127,
            ;
            (ac as i64) * (bc as i64) < 0
        },
        _ => false,
    };
    let ionic = a.is_polyatomic || b.is_polyatomic || has_opposite_charges || determine_bonding(
        a.element_class,
        b.element_class,
    ) == BondingType::Ionic;
    if ionic {
        let a_first = cation_key(a) >= cation_key(b);
        let (cation, anion) = if a_first {
            (a, b)
        } else {
            (b, a)
        };
        let (formula, composition, cation_sub, anion_sub) = ionic_compound(cation, anion);
        let multiplicities = if a_first {
            vec![cation_sub, anion_sub]
        } else {
            vec![anion_sub, cation_sub]
        };
        return Reactant {
            species: all,
            formula,
            composition,
            multiplicities,
            cation: Some(cation.duplicate()),
            anion: Some(anion.duplicate()),
            is_bare_element: false,
        };
    }
    // Covalent.
    let stoich = covalent_stoich(
        a.valence_electrons as i64,
        a.group as i64,
        a.period as i64,
        b.valence_electrons as i64,
        b.group as i64,
        b.period as i64,
    );
    let a_first = iupac_first(a.symbol.as_str(), b.symbol.as_str());
    let formula = if a_first {
        binary_formula(a.symbol.as_str(), stoich.n_a, b.symbol.as_str(), stoich.n_b, false)
    } else {
        binary_formula(b.symbol.as_str(), stoich.n_b, a.symbol.as_str(), stoich.n_a, false)
    };
    let composition = merge(scaled(&a.composition, stoich.n_a), scaled(&b.composition, stoich.n_b));
    Reactant {
        species: all,
        formula,
        composition,
        multiplicities: vec![stoich.n_a, stoich.n_b],
        cation: None,
        anion: None,
        is_bare_element: false,
    }
}

/// Crossover subscripts of charges within an `i8` are at most 128.
pub proof fn lemma_crossover_small(c1: int, c2: int)
    requires
        -128 <= c1 <= 128,
        -128 <= c2 <= 128,
    ensures
        0 <= crossover_of(c1, c2).0 <= 128,
        0 <= crossover_of(c1, c2).1 <= 128,
{
    let cc = abs(c1);
    let ac = abs(c2);
    let g0 = spec_gcd(cc, ac);
    let g = if g0 > 1 {
        g0
    } else {
        1
    };
    assert(0 <= ac / g <= ac) by (nonlinear_arith)
        requires
            g >= 1,
            0 <= ac <= 128,
    ;
    assert(0 <= cc / g <= cc) by (nonlinear_arith)
        requires
            g >= 1,
            0 <= cc <= 128,
    ;
}

/// For valence counts of a `u8`, covalent atom counts are between 1 and 8.
pub proof fn lemma_covalent_small(a: SpeciesModel, b: SpeciesModel)
    ensures
        1 <= covalent_pair(a, b).n_a <= 8,
        1 <= covalent_pair(a, b).n_b <= 8,
{
    let va = a.valence_electrons as int;
    let vb = b.valence_electrons as int;
    let b_a = bonds_needed_of(va);
    let b_b = bonds_needed_of(vb);
    if b_a > 0 && b_b > 0 {
        law_octet_bonds_balance(va, vb);
        let st = octet_stoich(va, vb);
        assert(st.n_a <= 8) by (nonlinear_arith)
            requires
                st.n_a * st.bond_order == b_b,
                st.bond_order > 0,
                st.n_a > 0,
                b_b <= 8,
        ;
        assert(st.n_b <= 8) by (nonlinear_arith)
            requires
                st.n_b * st.bond_order == b_a,
                st.bond_order > 0,
                st.n_b > 0,
                b_a <= 8,
        ;
    }
}

/// Species with counts in `0..=2²⁰` and charges of an `i8` build within `i64`.
pub proof fn lemma_bounded_species_fit(sp: Seq<SpeciesModel>)
    requires
        sp.len() >= 1,
        forall|i: int| 0 <= i < sp.len() ==> counts_bounded((#[trigger] sp[i]).composition),
    ensures
        reactant_fits(sp),
{
    let a = sp[0];
    assert(counts_bounded(a.composition));
    if sp.len() == 1 {
        lemma_bounded_scale_merge(a.composition, bare_count(a) as i64, a.composition, 1);
    } else {
        let b = sp[1];
        assert(counts_bounded(b.composition));
        if is_ionic_pair(a, b) {
            let (cat, an) = if first_is_cation(a, b) {
                (a, b)
            } else {
                (b, a)
            };
            lemma_crossover_small(charge_or(cat.charge, 1), charge_or(an.charge, -1));
            let subs = ionic_subs(cat, an);
            lemma_bounded_scale_merge(cat.composition, subs.0 as i64, an.composition, subs.1 as i64);
        } else {
            lemma_covalent_small(a, b);
            let st = covalent_pair(a, b);
            lemma_bounded_scale_merge(a.composition, st.n_a, b.composition, st.n_b);
        }
    }
}

/// The composition of a two-species reactant conserves atoms: every element
/// counts as the species' counts times their multiplicities.
pub proof fn law_reactant_conserves_atoms(a: SpeciesModel, ma: i64, b: SpeciesModel, mb: i64, comp: Seq<(Seq<char>, i64)>, s: Seq<char>)
    requires
        sorted_entries(a.composition),
        sorted_entries(b.composition),
        scale_fits(a.composition, ma),
        scale_fits(b.composition, mb),
        merge_fits(scale_entries(a.composition, ma), scale_entries(b.composition, mb)),
        comp == merge_of(scale_entries(a.composition, ma), scale_entries(b.composition, mb)),
    ensures
        count_in(comp, s) == ma * count_in(a.composition, s) + mb * count_in(b.composition, s),
{
    law_merge_counts(a.composition, ma, b.composition, mb, s);
}

/// An ionic reactant is neutral: the cation's charge times its subscript
/// cancels the anion's charge times its subscript.
pub proof fn law_ionic_reactant_neutral(cation: SpeciesModel, anion: SpeciesModel)
    requires
        charge_or(cation.charge, 1) > 0,
        charge_or(anion.charge, -1) < 0,
    ensures
        ionic_subs(cation, anion).0 * charge_or(cation.charge, 1) + ionic_subs(cation, anion).1
            * charge_or(anion.charge, -1) == 0,
{
    law_crossover_neutral(charge_or(cation.charge, 1), charge_or(anion.charge, -1));
}

} // verus!
