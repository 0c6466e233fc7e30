//! The classified outcome of combining two elemental reactants: bonding,
//! reaction glyph, product state, and covalent structure or electron sea.
use crate::bonding::{bonding_of, bonding_type, reaction_glyph, BondingType};
use crate::classification::{element_class, group, group_of, period, period_of, element_class_of, ElementClass};
use crate::config::{electron_configuration, ground_state, render, sort_by_shell, valid_z};
use crate::covalent::{covalent_of, covalent_stoich};
use crate::element::StateOfMatter;
use crate::metallic::{electron_sea, metallic_electron_count, DEFAULT_POOL_SIZE};
use crate::product_state::{predict_product_state, product_state_of, ProductState};
use crate::valence::{parsed_subshells, strip_core, try_parse_valence_electrons, valence_fits, valence_of, words};
use crate::laws_config::law_valence_readable;
use vstd::prelude::*;

verus! {

/// Covalent structure of a binary molecule: atom counts and bond order.
#[derive(Debug, Clone, Copy, PartialEq, Eq)]
pub struct WasmCovalentStoich {
    pub n_a: i32,
    pub n_b: i32,
    pub bond_order: i32,
}

/// The classified outcome of combining two elemental reactants.
///
/// `covalent` is populated only for covalent products; `metallic_electrons`
/// (delocalised electron-sea count) only for metallic products.
#[derive(Debug, Clone, PartialEq, Eq)]
pub struct WasmReaction {
    /// "Ionic", "Covalent", or "Metallic".
    pub bonding: String,
    /// Reaction-arrow glyph between the reactant slots ("→" or "⇌").
    pub glyph: String,
    /// Heuristic standard-state of the product: "Solid", "Liquid", or "Gas".
    pub product_state: String,
    pub covalent: Option<WasmCovalentStoich>,
    pub metallic_electrons: Option<i32>,
}

/// What the reaction summary reads of an element.
#[derive(Debug, Clone, PartialEq, Eq)]
pub struct ElementFacts {
    pub symbol: String,
    pub element_class: ElementClass,
    pub state: StateOfMatter,
    pub valence_electrons: u8,
    pub group: u8,
    pub period: u8,
}

/// The text of a bonding type.
pub open spec fn bonding_label(b: BondingType) -> Seq<char> {
    match b {
        BondingType::Ionic => "Ionic"@,
        BondingType::Covalent => "Covalent"@,
        BondingType::Metallic => "Metallic"@,
    }
}

/// The text of a product state.
pub open spec fn state_label(s: ProductState) -> Seq<char> {
    match s {
        ProductState::Solid => "Solid"@,
        ProductState::Liquid => "Liquid"@,
        ProductState::Gas => "Gas"@,
    }
}

/// The valence electrons of element `z`: its ground-state configuration's
/// text read for the outermost shell (the group's fallback when that reads
/// nothing).
pub open spec fn element_valence(z: nat) -> int {
    valence_of(render(sort_by_shell(ground_state(z))), group_of(z) as int)
}

/// The valence count of element `z` can be read from its configuration text
/// as a `u8`: the outermost shell's count fits, or the text yields no
/// subshell and the group's fallback applies.
pub open spec fn valence_readable(z: nat) -> bool {
    let t = render(sort_by_shell(ground_state(z)));
    valence_fits(t) || strip_core(t).len() == 0 || parsed_subshells(words(strip_core(t))).len() == 0
}

/// The facts of element `z` under the given symbol and standard state, or
/// `None` when `z` is not an element (1..=118).
pub fn element_facts(symbol: &str, z: u8, state: StateOfMatter) -> (r: Option<ElementFacts>)
    ensures
        r is None <==> !valid_z(z as int),
        r matches Some(f) ==> {
            &&& valid_z(z as int)
            &&& f.symbol@ == symbol@
            &&& f.element_class == element_class_of(z as nat)
            &&& f.state == state
            &&& f.valence_electrons == element_valence(z as nat)
            &&& f.group == group_of(z as nat)
            &&& f.period == period_of(z as nat)
        },
{
    proof {
        if valid_z(z as int) {
            law_valence_readable(z as nat);
        }
    }
    let g = match group(z) {
        Ok(g) => g,
        Err(_) => return None,
    };
    let p = match period(z) {
        Ok(p) => p,
        Err(_) => return None,
    };
    let c = match element_class(z) {
        Ok(c) => c,
        Err(_) => return None,
    };
    let config = match electron_configuration(z) {
        Ok(c) => c,
        Err(_) => return None,
    };
    let text = config.to_string();
    let ve = match try_parse_valence_electrons(text.as_str(), g) {
        Some(v) => v,
        None => return None,
    };
    Some(ElementFacts { symbol: symbol.to_owned(), element_class: c, state, valence_electrons: ve, group: g, period: p })
}

/// Classify the synthesis of two elemental reactants: both are bare elements,
/// so the element classes decide the bonding; covalent products carry their
/// octet structure, metallic ones their electron-sea count.
pub fn react_elements(a: &ElementFacts, b: &ElementFacts) -> (r: WasmReaction)
    ensures
        ({
            let bonding = bonding_of(a.element_class, b.element_class);
            let cs = covalent_of(
                a.valence_electrons as int,
                a.group as int,
                a.period as int,
                b.valence_electrons as int,
                b.group as int,
                b.period as int,
            );
            &&& r.bonding@ == bonding_label(bonding)
            &&& r.glyph@ == (if bonding == BondingType::Covalent {
                "⇌"@
            } else {
                "→"@
            })
            &&& r.product_state@ == state_label(
                product_state_of(bonding, a.symbol@, a.state, b.symbol@, b.state),
            )
            &&& r.covalent == (if bonding == BondingType::Covalent {
                Some(
                    (WasmCovalentStoich {
                        n_a: cs.n_a as i32,
                        n_b: cs.n_b as i32,
                        bond_order: cs.bond_order as i32,
                    }),
                )
            } else {
                None
            })
            &&& r.metallic_electrons == (if bonding == BondingType::Metallic {
                Some(
                    electron_sea(
                        a.valence_electrons as int,
                        b.valence_electrons as int,
                        DEFAULT_POOL_SIZE as int,
                    ) as i32,
                )
            } else {
                None
            })
        }),
        r.covalent is Some <==> bonding_of(a.element_class, b.element_class) == BondingType::Covalent,
        r.metallic_electrons is Some <==> bonding_of(a.element_class, b.element_class) == BondingType::Metallic,
        !(r.covalent is Some && r.metallic_electrons is Some),
{
    let bonding = bonding_type(a.element_class, b.element_class, false, false);
    let glyph = reaction_glyph(Some(bonding));
    let product_state = predict_product_state(
        bonding,
        a.symbol.as_str(),
        a.state,
        b.symbol.as_str(),
        b.state,
    );
    let ve_a = a.valence_electrons as i64;
    let ve_b = b.valence_electrons as i64;
    let covalent = if bonding == BondingType::Covalent {
        let cs = covalent_stoich(ve_a, a.group as i64, a.period as i64, ve_b, b.group as i64, b.period as i64);
        Some(
            WasmCovalentStoich {
                n_a: cs.n_a as i32,
                n_b: cs.n_b as i32,
                bond_order: cs.bond_order as i32,
            },
        )
    } else {
        None
    };
    let metallic_electrons = if bonding == BondingType::Metallic {
        Some(metallic_electron_count(ve_a, ve_b) as i32)
    } else {
        None
    };
    WasmReaction {
        bonding: bonding.label().to_owned(),
        glyph: glyph.to_owned(),
        product_state: product_state.label().to_owned(),
        covalent,
        metallic_electrons,
    }
}

} // verus!
