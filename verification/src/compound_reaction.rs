//! Reactant zones of a compound reaction: species resolved from an element or
//! a polyatomic ion, the pair-aware ionic/covalent charge rule, and the
//! reactant they build.
use crate::classification::{
    element_class, element_class_of, group, group_of, oxidation_states, oxidation_states_of_group,
    period, period_of, ElementClass,
};
use crate::composition::{
    charge_or, counts_bounded, ionic_fits, ionic_subs, law_with_entry, lemma_bounded_scale_merge, sorted_entries,
    with_entry, Composition,
};
use crate::config::{electron_configuration, valid_z};
use crate::element_reaction::element_valence;
use crate::polyatomic::{ion_formulas, ion_names, ion_table, ion_view, polyatomic_ions};
use crate::product_prediction::{prediction_fits, prediction_of, PredictionModel};
use crate::reactant::{
    lemma_bounded_species_fit, lemma_crossover_small, made_from, make_reactant, Reactant,
};
use crate::reaction_class::{class_of, ReactionClass};
use crate::redox::{analysis_model, analysis_of, analyze_redox, redox_fits, redox_inputs_fit, RedoxAnalysis};
use crate::balancer::balance_of;
use crate::reaction_solver::{solve_reaction, solved_as, Entries, ReactionError, ReactionResult};
use crate::species::{species_models, Species, SpeciesModel};
use crate::stoichiometry::LimitingSide;
use crate::text::{chars_of, extend_chars, str_eq, string_of};
use crate::valence::{is_transition_metal, try_parse_valence_electrons};
use crate::laws_config::law_valence_readable;
use vstd::prelude::*;

verus! {

/// A species resolved against the periodic table (or the polyatomic-ion
/// table): everything needed for its pair-aware ionic charge and to build a
/// [`Species`]. The caller weighs it.
#[derive(Debug, Clone, PartialEq, Eq)]
pub struct Resolved {
    pub symbol: String,
    pub element_class: ElementClass,
    pub is_polyatomic: bool,
    pub valence_electrons: u8,
    pub group: u8,
    pub period: u8,
    pub composition: Composition,
    pub is_transition: bool,
    pub oxidation_states: Vec<i8>,
    /// The polyatomic ion's fixed charge; meaningless when `!is_polyatomic`.
    pub ion_charge: i8,
    /// The caller-supplied charge pick.
    pub derived_charge: Option<i8>,
}

/// A common polyatomic ion with its display strings.
#[derive(Debug, Clone, PartialEq, Eq)]
pub struct WasmPolyatomicIon {
    pub symbol: String,
    pub name: String,
    pub charge: i32,
    pub formula: String,
}

impl Resolved {
    /// The composition is ordered and its counts lie in `0..=2²⁰`.
    pub open spec fn wf(&self) -> bool {
        &&& self.composition.wf()
        &&& counts_bounded(self.composition@)
    }
}

/// The first positive state listed.
pub open spec fn first_positive(s: Seq<i8>) -> Option<i8>
    decreases s.len(),
{
    if s.len() == 0 {
        None
    } else if s[0] > 0 {
        Some(s[0])
    } else {
        first_positive(s.drop_first())
    }
}

/// The first negative state listed.
pub open spec fn first_negative(s: Seq<i8>) -> Option<i8>
    decreases s.len(),
{
    if s.len() == 0 {
        None
    } else if s[0] < 0 {
        Some(s[0])
    } else {
        first_negative(s.drop_first())
    }
}

/// The charge a species carries when its zone is ionic: a polyatomic ion its
/// own; a transition metal the caller's pick; hydrogen +1; another metal the
/// pick or else its first positive common state; a non-metal its first
/// negative common state.
pub open spec fn ionic_charge_of(r: Resolved) -> Option<i8> {
    if r.is_polyatomic {
        Some(r.ion_charge)
    } else if r.is_transition {
        r.derived_charge
    } else if r.symbol@ == "H"@ {
        Some(1)
    } else if r.element_class == ElementClass::Metal {
        match r.derived_charge {
            Some(c) => Some(c),
            None => first_positive(r.oxidation_states@),
        }
    } else {
        first_negative(r.oxidation_states@)
    }
}

/// Hydrogen paired with a halogen (group 17): an acid.
pub open spec fn is_acid_pair_of(a: Resolved, b: Resolved) -> bool {
    (a.symbol@ == "H"@ && b.group == 17) || (b.symbol@ == "H"@ && a.group == 17)
}

/// The zone is ionic: a polyatomic ion is present, exactly one species is a
/// metal, or (no metal) it is an acid pair.
pub open spec fn is_ionic_zone_of(a: Resolved, b: Resolved) -> bool {
    if a.is_polyatomic || b.is_polyatomic {
        true
    } else {
        let metals = (if a.element_class == ElementClass::Metal { 1int } else { 0int }) + (if b.element_class
            == ElementClass::Metal {
            1int
        } else {
            0int
        });
        if metals == 1 {
            true
        } else if metals == 2 {
            false
        } else {
            is_acid_pair_of(a, b)
        }
    }
}

/// The species a resolved entry becomes, with the given charge.
pub open spec fn species_of(r: Resolved, charge: Option<i8>) -> SpeciesModel {
    SpeciesModel {
        symbol: r.symbol@,
        charge: charge,
        element_class: r.element_class,
        is_polyatomic: r.is_polyatomic,
        valence_electrons: r.valence_electrons,
        group: r.group,
        period: r.period,
        composition: r.composition@,
    }
}

/// The species of a zone: one species carries its ionic charge; a pair
/// carries both ionic charges when the zone is ionic, and none otherwise.
pub open spec fn zone_species(z: Seq<Resolved>) -> Seq<SpeciesModel> {
    if z.len() == 1 {
        seq![species_of(z[0], ionic_charge_of(z[0]))]
    } else if is_ionic_zone_of(z[0], z[1]) {
        seq![species_of(z[0], ionic_charge_of(z[0])), species_of(z[1], ionic_charge_of(z[1]))]
    } else {
        seq![species_of(z[0], None), species_of(z[1], None)]
    }
}

/// `"a reactant zone must have 1 or 2 species"`.
pub open spec fn zone_size_text() -> Seq<char> {
    "a reactant zone must have 1 or 2 species"@
}

/// `"{symbol} is a transition metal and requires an explicit charge"`.
pub open spec fn charge_required_text(symbol: Seq<char>) -> Seq<char> {
    symbol + " is a transition metal and requires an explicit charge"@
}

/// `"unknown species: {symbol}"`.
pub open spec fn unknown_species_text(symbol: Seq<char>) -> Seq<char> {
    "unknown species: "@ + symbol
}

/// Index of the first transition metal without a charge pick, if any.
pub open spec fn first_uncharged_transition(z: Seq<Resolved>, i: int) -> Option<int>
    decreases z.len() - i,
{
    if i < 0 || i >= z.len() {
        None
    } else if z[i].is_transition && z[i].derived_charge is None {
        Some(i)
    } else {
        first_uncharged_transition(z, i + 1)
    }
}

/// The charge a species carries when its zone is ionic.
pub fn ionic_charge(r: &Resolved) -> (c: Option<i8>)
    ensures
        c == ionic_charge_of(*r),
{
    if r.is_polyatomic {
        return Some(r.ion_charge);
    }
    if r.is_transition {
        return r.derived_charge;
    }
    if str_eq(r.symbol.as_str(), "H") {
        return Some(1);
    }
    let want_positive = r.element_class == ElementClass::Metal;
    if want_positive {
        if let Some(c) = r.derived_charge {
            return Some(c);
        }
    }
    let ghost s = r.oxidation_states@;
    let mut i: usize = 0;
    assert(s.subrange(0, s.len() as int) =~= s);
    while i < r.oxidation_states.len()
        invariant
            i <= s.len(),
            s == r.oxidation_states@,
            want_positive ==> first_positive(s) == first_positive(s.subrange(i as int, s.len() as int)),
            !want_positive ==> first_negative(s) == first_negative(s.subrange(i as int, s.len() as int)),
            want_positive == (r.element_class == ElementClass::Metal),
            !r.is_polyatomic,
            !r.is_transition,
            r.symbol@ != "H"@,
            want_positive ==> r.derived_charge is None,
        decreases s.len() - i,
    {
        assert(s.subrange(i as int, s.len() as int).drop_first() =~= s.subrange(i + 1, s.len() as int));
        let c = r.oxidation_states[i];
        assert(s.subrange(i as int, s.len() as int)[0] == c);
        if want_positive && c > 0 {
            return Some(c);
        }
        if !want_positive && c < 0 {
            return Some(c);
        }
        i = i + 1;
    }
    None
}

/// Hydrogen paired with a halogen: an acid.
pub fn is_acid_pair(a: &Resolved, b: &Resolved) -> (r: bool)
    ensures
        r == is_acid_pair_of(*a, *b),
{
    (str_eq(a.symbol.as_str(), "H") && b.group == 17) || (str_eq(b.symbol.as_str(), "H") && a.group == 17)
}

/// Whether a two-species zone is ionic.
pub fn is_ionic_zone(a: &Resolved, b: &Resolved) -> (r: bool)
    ensures
        r == is_ionic_zone_of(*a, *b),
{
    if a.is_polyatomic || b.is_polyatomic {
        return true;
    }
    let mut metals: u8 = 0;
    if a.element_class == ElementClass::Metal {
        metals = metals + 1;
    }
    if b.element_class == ElementClass::Metal {
        metals = metals + 1;
    }
    if metals == 1 {
        return true;
    }
    if metals == 2 {
        return false;
    }
    is_acid_pair(a, b)
}

/// The message for a zone of the wrong size.
pub fn zone_size_message() -> (s: String)
    ensures
        s@ == zone_size_text(),
{
    "a reactant zone must have 1 or 2 species".to_owned()
}

/// The message for a symbol that resolves to no species.
pub fn unknown_species_message(symbol: &str) -> (s: String)
    ensures
        s@ == unknown_species_text(symbol@),
{
    let mut t = chars_of("unknown species: ");
    extend_chars(&mut t, &chars_of(symbol));
    string_of(&t)
}

/// The composition of a polyatomic ion, from its table entries.
pub open spec fn ion_composition(ion: Seq<(Seq<char>, int)>, j: int) -> Seq<(Seq<char>, i64)>
    decreases j,
{
    if j <= 0 {
        Seq::empty()
    } else {
        with_entry(ion_composition(ion, j - 1), ion[j - 1].0, ion[j - 1].1 as i64)
    }
}

/// Every count of an ion's composition is one of its table counts.
proof fn lemma_ion_composition_counts(ion: Seq<(Seq<char>, int)>, j: int)
    requires
        0 <= j <= ion.len(),
        forall|t: int| 0 <= t < ion.len() ==> 0 <= (#[trigger] ion[t]).1 <= 255,
    ensures
        sorted_entries(ion_composition(ion, j)),
        counts_bounded(ion_composition(ion, j)),
    decreases j,
{
    if j > 0 {
        lemma_ion_composition_counts(ion, j - 1);
        let prev = ion_composition(ion, j - 1);
        law_with_entry(prev, ion[j - 1].0, ion[j - 1].1 as i64);
        let next = ion_composition(ion, j);
        crate::composition::lemma_lookup_found_pub(next, ion[j - 1].0);
        assert forall|i: int| 0 <= i < next.len() implies 0 <= (#[trigger] next[i]).1 <= 0x10_0000 by {
            crate::composition::lemma_lookup_found_pub(prev, next[i].0);
            crate::composition::lemma_lookup_unique(next, next[i].0);
            if next[i].0 != ion[j - 1].0 {
                crate::composition::lemma_lookup_unique(prev, next[i].0);
                let k = choose|k: int| 0 <= k < prev.len() && prev[k].0 == next[i].0 && Some(prev[k].1) == crate::composition::lookup(prev, next[i].0);
                assert(prev[k].1 == next[i].1);
            }
        }
    }
}

/// Resolve a polyatomic ion by its bare symbol (e.g. `"SO₄"`), or `None`
/// when it is not one of the known ions.
pub fn resolve_ion(symbol: &str, charge: Option<i8>) -> (r: Option<Resolved>)
    ensures
        r is None <==> forall|i: int| 0 <= i < 6 ==> (#[trigger] ion_table()[i]).0 != symbol@,
        r matches Some(res) ==> exists|i: int|
            0 <= i < 6 && (#[trigger] ion_table()[i]).0 == symbol@ && (forall|j: int| 0 <= j < i ==> ion_table()[j].0 != symbol@) && {
                &&& res.symbol@ == symbol@
                &&& res.element_class == ElementClass::NonMetal
                &&& res.is_polyatomic
                &&& res.valence_electrons == 0
                &&& res.group == 0
                &&& res.period == 0
                &&& res.composition@ == ion_composition(ion_table()[i].2, ion_table()[i].2.len() as int)
                &&& !res.is_transition
                &&& res.oxidation_states@ == seq![ion_table()[i].1 as i8]
                &&& res.ion_charge == ion_table()[i].1
                &&& res.derived_charge == charge
            },
        r matches Some(res) ==> res.wf(),
{
    let ions = polyatomic_ions();
    let mut i: usize = 0;
    while i < ions.len()
        invariant
            i <= ions@.len() == 6,
            forall|t: int| 0 <= t < 6 ==> ion_view(#[trigger] ions@[t]) == ion_table()[t],
            forall|t: int| 0 <= t < i ==> (#[trigger] ion_table()[t]).0 != symbol@,
        decreases 6 - i,
    {
        let ion = &ions[i];
        assert(ion_view(*ion) == ion_table()[i as int]);
        if str_eq(ion.symbol, symbol) {
            let ghost iv = ion_view(*ion).2;
            let mut comp = Composition::new();
            let mut j: usize = 0;
            while j < ion.composition.len()
                invariant
                    j <= ion.composition@.len() == iv.len(),
                    iv == ion_view(*ion).2,
                    comp.wf(),
                    comp@ == ion_composition(iv, j as int),
                decreases ion.composition@.len() - j,
            {
                let (sym, n) = ion.composition[j];
                assert(iv[j as int] == (sym@, n as int));
                proof {
                    law_with_entry(comp@, sym@, n as i64);
                }
                comp.insert(sym.to_owned(), n as i64);
                j = j + 1;
            }
            proof {
                lemma_ion_composition_counts(iv, iv.len() as int);
            }
            let r = Resolved {
                symbol: symbol.to_owned(),
                element_class: ElementClass::NonMetal,
                is_polyatomic: true,
                valence_electrons: 0,
                group: 0,
                period: 0,
                composition: comp,
                is_transition: false,
                oxidation_states: vec![ion.charge],
                ion_charge: ion.charge,
                derived_charge: charge,
            };
            assert(r.oxidation_states@ =~= seq![ion_table()[i as int].1 as i8]);
            return Some(r);
        }
        i = i + 1;
    }
    None
}

/// Resolve element `z` under the given symbol: its class, valence electrons,
/// group, period, transition-metal status and common oxidation states, and a
/// composition of one atom. `None` when `z` is not an element (1..=118).
pub fn resolve_element(symbol: &str, z: u8, charge: Option<i8>) -> (r: Option<Resolved>)
    ensures
        r is None <==> !valid_z(z as int),
        r matches Some(res) ==> {
            &&& valid_z(z as int)
            &&& res.symbol@ == symbol@
            &&& res.element_class == element_class_of(z as nat)
            &&& !res.is_polyatomic
            &&& res.valence_electrons == element_valence(z as nat)
            &&& res.group == group_of(z as nat)
            &&& res.period == period_of(z as nat)
            &&& res.composition@ == seq![(symbol@, 1i64)]
            &&& res.is_transition == (3 <= group_of(z as nat) <= 12)
            &&& res.oxidation_states@ == oxidation_states_of_group(group_of(z as nat))
            &&& res.ion_charge == 0
            &&& res.derived_charge == charge
            &&& res.wf()
        },
{
    proof {
        if valid_z(z as int) {
            law_valence_readable(z as nat);
        }
    }
    let g = match group(z) {
        Ok(g) => g,
        Err(_) => return None,
    };
    let p = match period(z) {
        Ok(p) => p,
        Err(_) => return None,
    };
    let c = match element_class(z) {
        Ok(c) => c,
        Err(_) => return None,
    };
    let config = match electron_configuration(z) {
        Ok(c) => c,
        Err(_) => return None,
    };
    let states = match oxidation_states(z) {
        Ok(s) => s,
        Err(_) => return None,
    };
    let text = config.to_string();
    let ve = match try_parse_valence_electrons(text.as_str(), g) {
        Some(v) => v,
        None => return None,
    };
    let mut comp = Composition::new();
    proof {
        law_with_entry(comp@, symbol@, 1);
    }
    comp.insert(symbol.to_owned(), 1);
    assert(comp@ =~= seq![(symbol@, 1i64)]);
    Some(
        Resolved {
            symbol: symbol.to_owned(),
            element_class: c,
            is_polyatomic: false,
            valence_electrons: ve,
            group: g,
            period: p,
            composition: comp,
            is_transition: is_transition_metal(g),
            oxidation_states: states.0,
            ion_charge: 0,
            derived_charge: charge,
        },
    )
}

/// The species a resolved entry becomes, with the given charge.
fn to_species(r: &Resolved, charge: Option<i8>) -> (s: Species)
    requires
        r.wf(),
    ensures
        s@ == species_of(*r, charge),
        s.wf(),
{
    Species::new(
        r.symbol.clone(),
        charge,
        r.element_class,
        r.is_polyatomic,
        r.valence_electrons,
        r.group,
        r.period,
        r.composition.duplicate(),
    )
}

/// Build a reactant from a zone of one or two resolved species: a transition
/// metal needs an explicit charge pick; the pair-aware rule decides which
/// charges the species carry; the bonding rules build the compound.
pub fn build_reactant(zone: &[Resolved]) -> (r: Result<Reactant, String>)
    requires
        forall|i: int| 0 <= i < zone@.len() ==> (#[trigger] zone@[i]).wf(),
    ensures
        (zone@.len() == 0 || zone@.len() > 2) ==> (r matches Err(e) && e@ == zone_size_text()),
        (1 <= zone@.len() <= 2 && first_uncharged_transition(zone@, 0) is Some) ==> (r matches Err(e)
            && e@ == charge_required_text(zone@[first_uncharged_transition(zone@, 0)->0].symbol@)),
        (1 <= zone@.len() <= 2 && first_uncharged_transition(zone@, 0) is None) ==> (r matches Ok(x)
            && made_from(x, zone_species(zone@)) && x.wf()),
{
    if zone.len() == 0 || zone.len() > 2 {
        return Err(zone_size_message());
    }
    let mut i: usize = 0;
    while i < zone.len()
        invariant
            1 <= zone@.len() <= 2,
            i <= zone@.len(),
            first_uncharged_transition(zone@, 0) == first_uncharged_transition(zone@, i as int),
        decreases zone@.len() - i,
    {
        if zone[i].is_transition && zone[i].derived_charge.is_none() {
            let mut t = chars_of(zone[i].symbol.as_str());
            extend_chars(&mut t, &chars_of(" is a transition metal and requires an explicit charge"));
            return Err(string_of(&t));
        }
        i = i + 1;
    }
    let species: Vec<Species> = if zone.len() == 1 {
        vec![to_species(&zone[0], ionic_charge(&zone[0]))]
    } else if is_ionic_zone(&zone[0], &zone[1]) {
        vec![to_species(&zone[0], ionic_charge(&zone[0])), to_species(&zone[1], ionic_charge(&zone[1]))]
    } else {
        vec![to_species(&zone[0], None), to_species(&zone[1], None)]
    };
    assert(species_models(species@) =~= zone_species(zone@));
    proof {
        lemma_bounded_species_fit(species_models(species@));
    }
    Ok(make_reactant(species.as_slice()))
}

/// The side label: `"A"`, `"B"` or `"Both"`.
pub fn limiting_label(side: LimitingSide) -> (s: &'static str)
    ensures
        s@ == match side {
            LimitingSide::A => "A"@,
            LimitingSide::B => "B"@,
            LimitingSide::Both => "Both"@,
        },
{
    match side {
        LimitingSide::A => "A",
        LimitingSide::B => "B",
        LimitingSide::Both => "Both",
    }
}

/// The text shown for a reaction that could not be solved.
pub open spec fn reaction_error_text(err: ReactionError) -> Seq<char> {
    match err {
        ReactionError::Unbalanceable => "the reaction could not be balanced"@,
        ReactionError::NoProducts => "no products were predicted"@,
        ReactionError::UnknownReactionClass => "the reactant pair does not match a known reaction class"@,
        ReactionError::MissingAtomicMass(sym) => "missing atomic mass for "@ + sym@,
    }
}

/// The text shown for a reaction that could not be solved.
pub fn reaction_error_message(err: &ReactionError) -> (s: String)
    ensures
        s@ == reaction_error_text(*err),
{
    match err {
        ReactionError::Unbalanceable => "the reaction could not be balanced".to_owned(),
        ReactionError::NoProducts => "no products were predicted".to_owned(),
        ReactionError::UnknownReactionClass => "the reactant pair does not match a known reaction class".to_owned(),
        ReactionError::MissingAtomicMass(sym) => {
            let mut t = chars_of("missing atomic mass for ");
            extend_chars(&mut t, &chars_of(sym.as_str()));
            string_of(&t)
        },
    }
}

/// The six common polyatomic ions with their display strings.
pub fn wasm_polyatomic_ions() -> (v: Vec<WasmPolyatomicIon>)
    ensures
        v@.len() == 6,
        forall|i: int|
            0 <= i < 6 ==> (#[trigger] v@[i]).symbol@ == ion_table()[i].0 && v@[i].charge == ion_table()[i].1
                && v@[i].name@ == ion_names()[i] && v@[i].formula@ == ion_formulas()[i],
{
    let ions = polyatomic_ions();
    let mut out: Vec<WasmPolyatomicIon> = Vec::new();
    let mut i: usize = 0;
    while i < ions.len()
        invariant
            i <= ions@.len() == 6,
            forall|t: int| 0 <= t < 6 ==> ion_view(#[trigger] ions@[t]) == ion_table()[t],
            forall|t: int| 0 <= t < 6 ==> (#[trigger] ions@[t]).name@ == ion_names()[t] && ions@[t].formula@ == ion_formulas()[t],
            out@.len() == i,
            forall|t: int|
                0 <= t < i ==> (#[trigger] out@[t]).symbol@ == ion_table()[t].0 && out@[t].charge == ion_table()[t].1
                    && out@[t].name@ == ion_names()[t] && out@[t].formula@ == ion_formulas()[t],
        decreases 6 - i,
    {
        let ion = &ions[i];
        assert(ion_view(*ion) == ion_table()[i as int]);
        out.push(
            WasmPolyatomicIon {
                symbol: ion.symbol.to_owned(),
                name: ion.name.to_owned(),
                charge: ion.charge as i32,
                formula: ion.formula.to_owned(),
            },
        );
        i = i + 1;
    }
    out
}

/// Every species a reactant carries has counts in `0..=2²⁰`.
pub open spec fn reactant_bounded(r: Reactant) -> bool {
    &&& forall|i: int| 0 <= i < r.species@.len() ==> counts_bounded((#[trigger] r.species@[i]).composition@)
    &&& (r.cation matches Some(c) ==> counts_bounded(c.composition@))
    &&& (r.anion matches Some(a) ==> counts_bounded(a.composition@))
}

/// An ionic pair of bounded species builds within `i64`.
proof fn lemma_ionic_bounded(cation: SpeciesModel, anion: SpeciesModel)
    requires
        counts_bounded(cation.composition),
        counts_bounded(anion.composition),
    ensures
        ionic_fits(cation, anion),
{
    lemma_crossover_small(charge_or(cation.charge, 1), charge_or(anion.charge, -1));
    let subs = ionic_subs(cation, anion);
    lemma_bounded_scale_merge(cation.composition, subs.0 as i64, anion.composition, subs.1 as i64);
}

/// Predicting the products of bounded reactants stays within `i64`.
pub proof fn lemma_bounded_prediction_fits(class: ReactionClass, r1: Reactant, r2: Reactant)
    requires
        reactant_bounded(r1),
        reactant_bounded(r2),
        class == ReactionClass::Synthesis ==> r1.species@.len() > 0 && r2.species@.len() > 0,
    ensures
        prediction_fits(class, r1, r2),
{
    match class {
        ReactionClass::DoubleDisplacement => {
            if r1.cation is Some && r1.anion is Some && r2.cation is Some && r2.anion is Some {
                lemma_ionic_bounded(r1.cation->0@, r2.anion->0@);
                lemma_ionic_bounded(r2.cation->0@, r1.anion->0@);
            }
        },
        ReactionClass::SingleDisplacement => {
            let free = if r1.is_bare_element {
                r1
            } else {
                r2
            };
            let salt = if r1.is_bare_element {
                r2
            } else {
                r1
            };
            if salt.cation is Some && salt.anion is Some && free.species@.len() > 0 {
                let fs = free.species@[0]@;
                assert(counts_bounded(free.species@[0].composition@));
                lemma_ionic_bounded(fs, salt.anion->0@);
                lemma_ionic_bounded(salt.cation->0@, fs);
            }
        },
        ReactionClass::Synthesis => {
            assert(counts_bounded(r1.species@[0].composition@));
            assert(counts_bounded(r2.species@[0].composition@));
            lemma_bounded_species_fit(seq![r1.species@[0]@, r2.species@[0]@]);
        },
        _ => {},
    }
}

/// A solved compound reaction: the two reactants built from their zones, the
/// solved reaction, and its redox analysis when it goes (and the analysis
/// stays within `i64`).
#[derive(Debug, Clone, PartialEq, Eq)]
pub struct ZoneSolution {
    pub reactant_a: Reactant,
    pub reactant_b: Reactant,
    pub result: ReactionResult,
    pub redox: Option<RedoxAnalysis>,
}

/// The message of a zone that cannot be built into a reactant, if any: a
/// zone of the wrong size, or a transition metal without a charge.
pub open spec fn zone_error(z: Seq<Resolved>) -> Option<Seq<char>> {
    if z.len() == 0 || z.len() > 2 {
        Some(zone_size_text())
    } else {
        match first_uncharged_transition(z, 0) {
            Some(i) => Some(charge_required_text(z[i].symbol@)),
            None => None,
        }
    }
}

/// What solving two built reactants gives: the solved reaction, or the
/// message of the error that stops it (an unknown class, no products, or no
/// balance found).
pub open spec fn zone_outcome(r: Result<ZoneSolution, String>, ra: Reactant, rb: Reactant) -> bool {
    match r {
        Ok(sol) => {
            &&& sol.reactant_a == ra
            &&& sol.reactant_b == rb
            &&& solved_as(sol.result, ra, rb)
            &&& (sol.redox matches Some(a) ==> sol.result.feasible && analysis_model(a) == analysis_of(sol.result))
            &&& (sol.redox is Some <==> sol.result.feasible && redox_fits(sol.result))
        },
        Err(e) => {
            ||| (class_of(ra, rb) == ReactionClass::NoReaction && e@ == reaction_error_text(
                ReactionError::UnknownReactionClass,
            ))
            ||| (class_of(ra, rb) != ReactionClass::NoReaction && match prediction_of(class_of(ra, rb), ra, rb) {
                PredictionModel::Products(list) => (list.len() == 0 && e@ == reaction_error_text(
                    ReactionError::NoProducts,
                )) || (list.len() > 0 && e@ == reaction_error_text(ReactionError::Unbalanceable) && balance_of(
                    seq![ra.composition@, rb.composition@],
                    list.map_values(|p: (Seq<char>, Entries)| p.1),
                ) is None),
                PredictionModel::Infeasible(_) => false,
            })
        },
    }
}

/// Solve a compound reaction between two zones of resolved species: build
/// both reactants, classify, predict, balance, and analyse redox when the
/// reaction goes and the analysis stays within `i64` (see [`redox_fits`]).
/// A zone that cannot be built, or a reaction that cannot be solved, gives
/// its message.
pub fn solve_zones(zone1: &[Resolved], zone2: &[Resolved]) -> (r: Result<ZoneSolution, String>)
    requires
        forall|i: int| 0 <= i < zone1@.len() ==> (#[trigger] zone1@[i]).wf(),
        forall|i: int| 0 <= i < zone2@.len() ==> (#[trigger] zone2@[i]).wf(),
    ensures
        zone_error(zone1@) matches Some(t) ==> (r matches Err(e) && e@ == t),
        zone_error(zone1@) is None ==> (zone_error(zone2@) matches Some(t) ==> (r matches Err(e) && e@ == t)),
        zone_error(zone1@) is None && zone_error(zone2@) is None ==> exists|ra: Reactant, rb: Reactant|
            made_from(ra, zone_species(zone1@)) && made_from(rb, zone_species(zone2@)) && ra.wf()
                && rb.wf() && zone_outcome(r, ra, rb),
        r matches Ok(sol) ==> {
            &&& made_from(sol.reactant_a, zone_species(zone1@))
            &&& made_from(sol.reactant_b, zone_species(zone2@))
            &&& solved_as(sol.result, sol.reactant_a, sol.reactant_b)
            &&& (sol.redox matches Some(a) ==> sol.result.feasible && analysis_model(a) == analysis_of(sol.result))
            &&& (sol.redox is Some <==> sol.result.feasible && redox_fits(sol.result))
        },
{
    let r1 = match build_reactant(zone1) {
        Ok(r) => r,
        Err(e) => return Err(e),
    };
    let r2 = match build_reactant(zone2) {
        Ok(r) => r,
        Err(e) => return Err(e),
    };
    proof {
        assert(reactant_bounded(r1));
        assert(reactant_bounded(r2));
        lemma_bounded_prediction_fits(class_of(r1, r2), r1, r2);
    }
    let result = match solve_reaction(&r1, &r2) {
        Ok(res) => res,
        Err(e) => {
            let msg = reaction_error_message(&e);
            assert(zone_outcome(Err(msg), r1, r2));
            return Err(msg);
        },
    };
    let redox = if result.feasible && redox_inputs_fit(&result) {
        Some(analyze_redox(&result))
    } else {
        None
    };
    let sol = ZoneSolution { reactant_a: r1, reactant_b: r2, result, redox };
    assert(zone_outcome(Ok(sol), sol.reactant_a, sol.reactant_b));
    Ok(sol)
}

} // verus!
