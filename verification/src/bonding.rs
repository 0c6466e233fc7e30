//! Bond-type classification for a two-reactant synthesis.
use crate::classification::ElementClass;
use vstd::prelude::*;

verus! {

/// The kind of chemical bond formed between two reactants.
#[derive(Debug, Clone, Copy, PartialEq, Eq, Structural)]
pub enum BondingType {
    Ionic,
    Covalent,
    Metallic,
}

impl BondingType {
    /// The spec label used in UI badges.
    pub fn label(self) -> (s: &'static str)
        ensures
            s@ == match self {
                BondingType::Ionic => "Ionic"@,
                BondingType::Covalent => "Covalent"@,
                BondingType::Metallic => "Metallic"@,
            },
    {
        match self {
            BondingType::Ionic => "Ionic",
            BondingType::Covalent => "Covalent",
            BondingType::Metallic => "Metallic",
        }
    }
}

/// Reaction-arrow glyph for the bridge between the two reactant slots.
///
/// `None` (not yet classified) shows a plus; ionic and metallic syntheses go to
/// completion (`→`); covalent molecular synthesis often reaches equilibrium (`⇌`).
pub fn reaction_glyph(bonding: Option<BondingType>) -> (s: &'static str)
    ensures
        s@ == match bonding {
            None => "+"@,
            Some(BondingType::Covalent) => "⇌"@,
            Some(_) => "→"@,
        },
{
    match bonding {
        None => "+",
        Some(BondingType::Ionic) => "→",
        Some(BondingType::Metallic) => "→",
        Some(BondingType::Covalent) => "⇌",
    }
}

/// Bond type from the two broad element classes: two metals bond metallically,
/// two non-metals (or metalloids) covalently, anything else ionically.
pub open spec fn bonding_of(a: ElementClass, b: ElementClass) -> BondingType {
    if a == ElementClass::Metal && b == ElementClass::Metal {
        BondingType::Metallic
    } else if a != ElementClass::Metal && b != ElementClass::Metal {
        BondingType::Covalent
    } else {
        BondingType::Ionic
    }
}

/// Bond type from the two broad element classes alone.
pub fn determine_bonding(a: ElementClass, b: ElementClass) -> (r: BondingType)
    ensures
        r == bonding_of(a, b),
{
    if a == ElementClass::Metal && b == ElementClass::Metal {
        return BondingType::Metallic;
    }
    let a_nonmetallic = a == ElementClass::Metalloid || a == ElementClass::NonMetal;
    let b_nonmetallic = b == ElementClass::Metalloid || b == ElementClass::NonMetal;
    if a_nonmetallic && b_nonmetallic {
        return BondingType::Covalent;
    }
    BondingType::Ionic
}

/// Bond type accounting for polyatomic ions, which always bond ionically.
pub fn bonding_type(
    a_class: ElementClass,
    b_class: ElementClass,
    a_polyatomic: bool,
    b_polyatomic: bool,
) -> (r: BondingType)
    ensures
        r == (if a_polyatomic || b_polyatomic {
            BondingType::Ionic
        } else {
            bonding_of(a_class, b_class)
        }),
{
    if a_polyatomic || b_polyatomic {
        return BondingType::Ionic;
    }
    determine_bonding(a_class, b_class)
}

/// The bond type does not depend on the order of the two reactants.
pub proof fn law_bonding_symmetric(a: ElementClass, b: ElementClass)
    ensures
        bonding_of(a, b) == bonding_of(b, a),
{
}

} // verus!
