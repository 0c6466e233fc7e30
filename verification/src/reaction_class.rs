//! Reaction classification: combustion, single/double displacement, synthesis.
use crate::composition::lookup;
use crate::reactant::Reactant;
use crate::text::str_eq;
use vstd::prelude::*;

verus! {

/// The kind of reaction two [`Reactant`]s undergo.
#[derive(Debug, Clone, Copy, PartialEq, Eq, Structural)]
pub enum ReactionClass {
    Synthesis,
    DoubleDisplacement,
    SingleDisplacement,
    Combustion,
    NoReaction,
}

/// The reactant is O₂: oxygen alone, two atoms.
pub open spec fn is_dioxygen_of(r: Reactant) -> bool {
    r.composition@.len() == 1 && lookup(r.composition@, "O"@) == Some(2i64)
}

/// A fuel for combustion contains carbon or hydrogen.
pub open spec fn is_fuel_of(r: Reactant) -> bool {
    lookup(r.composition@, "C"@) is Some || lookup(r.composition@, "H"@) is Some
}

/// The reactant has a resolved cation and anion.
pub open spec fn is_ionic_compound_of(r: Reactant) -> bool {
    r.cation is Some && r.anion is Some
}

/// The class of a reaction, in priority order: combustion (O₂ with a C/H
/// fuel) → single displacement (a bare element and an ionic compound) →
/// double displacement (two ionic compounds) → synthesis (two bare
/// elements) → none.
pub open spec fn class_of(r1: Reactant, r2: Reactant) -> ReactionClass {
    if (is_dioxygen_of(r1) && is_fuel_of(r2) && !is_dioxygen_of(r2)) || (is_dioxygen_of(r2)
        && is_fuel_of(r1) && !is_dioxygen_of(r1)) {
        ReactionClass::Combustion
    } else if (r1.is_bare_element && is_ionic_compound_of(r2)) || (r2.is_bare_element
        && is_ionic_compound_of(r1)) {
        ReactionClass::SingleDisplacement
    } else if is_ionic_compound_of(r1) && is_ionic_compound_of(r2) {
        ReactionClass::DoubleDisplacement
    } else if r1.is_bare_element && r2.is_bare_element {
        ReactionClass::Synthesis
    } else {
        ReactionClass::NoReaction
    }
}

/// Whether the reactant is O₂.
pub fn is_dioxygen(r: &Reactant) -> (b: bool)
    ensures
        b == is_dioxygen_of(*r),
{
    r.composition.len() == 1 && r.composition.get("O") == Some(2i64)
}

/// A fuel for combustion must contain carbon or hydrogen. A bare metal + O₂
/// is direct combination (synthesis / oxidation), not combustion.
fn is_fuel(r: &Reactant) -> (b: bool)
    ensures
        b == is_fuel_of(*r),
{
    r.composition.contains_key("C") || r.composition.contains_key("H")
}

fn is_ionic_compound(r: &Reactant) -> (b: bool)
    ensures
        b == is_ionic_compound_of(*r),
{
    r.cation.is_some() && r.anion.is_some()
}

/// Classify a reaction between two [`Reactant`]s, in priority order:
/// combustion → single displacement → double displacement → synthesis → none.
pub fn classify_reaction(r1: &Reactant, r2: &Reactant) -> (c: ReactionClass)
    ensures
        c == class_of(*r1, *r2),
{
    if (is_dioxygen(r1) && is_fuel(r2) && !is_dioxygen(r2)) || (is_dioxygen(r2) && is_fuel(r1)
        && !is_dioxygen(r1)) {
        return ReactionClass::Combustion;
    }
    if (r1.is_bare_element && is_ionic_compound(r2)) || (r2.is_bare_element && is_ionic_compound(
        r1,
    )) {
        return ReactionClass::SingleDisplacement;
    }
    if is_ionic_compound(r1) && is_ionic_compound(r2) {
        return ReactionClass::DoubleDisplacement;
    }
    if r1.is_bare_element && r2.is_bare_element {
        return ReactionClass::Synthesis;
    }
    ReactionClass::NoReaction
}

} // verus!
