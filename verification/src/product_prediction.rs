//! Product prediction: given a classified reaction and its two reactants,
//! predict the resulting products.
use crate::activity_series::{displaces, displaces_of};
use crate::classification::ElementClass;
use crate::composition::{
    ionic_compound, ionic_fits, ionic_formula, ionic_parts, law_with_entry, lookup, merge_of,
    scale_entries, with_entry, Composition,
};
use crate::formula_text::{binary_formula, binary_formula_of, crossover_of, crossover_subscripts, formula_subscript, subscript_text};
use crate::math::abs;
use crate::reactant::{
    covalent_formula, covalent_pair, first_is_cation, is_ionic_pair, make_reactant, opt_model,
    reactant_fits, Reactant,
};
use crate::reaction_class::{is_dioxygen, is_dioxygen_of, ReactionClass};
use crate::species::{species_models, Species, SpeciesModel};
use crate::stoichiometry::{is_diatomic, is_naturally_diatomic};
use crate::text::{chars_of, extend_chars, str_eq, string_of};
use vstd::prelude::*;

verus! {

/// A composition's entries: `(symbol, count)`.
pub type Entries = Seq<(Seq<char>, i64)>;

/// A predicted reaction product: its display formula and elemental composition.
#[derive(Debug, Clone, PartialEq, Eq)]
pub struct Product {
    pub formula: String,
    pub composition: Composition,
}

/// The result of predicting products for a classified reaction.
#[derive(Debug, Clone, PartialEq, Eq)]
pub enum Prediction {
    Products(Vec<Product>),
    Infeasible(String),
}

/// A prediction as plain values: each product's formula and entries, or the
/// reason the reaction does not go.
pub enum PredictionModel {
    Products(Seq<(Seq<char>, Entries)>),
    Infeasible(Seq<char>),
}

/// A product's formula and entries.
pub open spec fn product_model(p: Product) -> (Seq<char>, Entries) {
    (p.formula@, p.composition@)
}

/// A prediction's plain values.
pub open spec fn prediction_model(p: Prediction) -> PredictionModel {
    match p {
        Prediction::Products(v) => PredictionModel::Products(v@.map_values(|x: Product| product_model(x))),
        Prediction::Infeasible(s) => PredictionModel::Infeasible(s@),
    }
}

/// Water, H₂O.
pub open spec fn water_of() -> (Seq<char>, Entries) {
    ("H₂O"@, with_entry(with_entry(Seq::empty(), "H"@, 2), "O"@, 1))
}

/// Carbon dioxide, CO₂.
pub open spec fn co2_of() -> (Seq<char>, Entries) {
    ("CO₂"@, with_entry(with_entry(Seq::empty(), "C"@, 1), "O"@, 2))
}

/// A freed element in its stable molecular form: diatomic for H, N, O, F,
/// Cl, Br, I; a single atom otherwise.
pub open spec fn freed_of(symbol: Seq<char>) -> (Seq<char>, Entries) {
    if is_diatomic(symbol) {
        (symbol + subscript_text(2), with_entry(Seq::empty(), symbol, 2))
    } else {
        (symbol, with_entry(Seq::empty(), symbol, 1))
    }
}

/// The ionic product of a cation and an anion.
pub open spec fn ionic_product_of(cation: SpeciesModel, anion: SpeciesModel) -> (Seq<char>, Entries) {
    (ionic_formula(cation, anion), merge_of(ionic_parts(cation, anion).0, ionic_parts(cation, anion).1))
}

/// What a cation and an anion swapped in a double displacement give:
/// H⁺ + OH⁻ is water, H⁺ + CO₃²⁻ is carbon dioxide and water, anything else
/// the ionic compound.
pub open spec fn pair_products(cation: SpeciesModel, anion: SpeciesModel) -> Seq<(Seq<char>, Entries)> {
    if cation.symbol == "H"@ && anion.symbol == "OH"@ {
        seq![water_of()]
    } else if cation.symbol == "H"@ && anion.symbol == "CO₃"@ {
        seq![co2_of(), water_of()]
    } else {
        seq![ionic_product_of(cation, anion)]
    }
}

/// `"{a} is below {b} in the activity series"`.
pub open spec fn below_message(a: Seq<char>, b: Seq<char>) -> Seq<char> {
    a + " is below "@ + b + " in the activity series"@
}

/// The oxide a bare element burns to: its charge magnitude (2 when absent)
/// crossed over against oxygen's −2.
pub open spec fn oxide_of(e: SpeciesModel) -> (Seq<char>, Entries) {
    let cc = match e.charge {
        Some(c) => abs(c as int),
        None => 2,
    };
    let subs = crossover_of(cc, -2);
    (
        binary_formula_of(e.symbol, subs.0, "O"@, subs.1, false),
        with_entry(with_entry(Seq::empty(), e.symbol, subs.0 as i64), "O"@, subs.1 as i64),
    )
}

/// The compound two bare elements combine to.
pub open spec fn synthesis_of(a: SpeciesModel, b: SpeciesModel) -> (Seq<char>, Entries) {
    if is_ionic_pair(a, b) {
        if first_is_cation(a, b) {
            ionic_product_of(a, b)
        } else {
            ionic_product_of(b, a)
        }
    } else {
        let st = covalent_pair(a, b);
        (
            covalent_formula(a, b),
            merge_of(scale_entries(a.composition, st.n_a), scale_entries(b.composition, st.n_b)),
        )
    }
}

/// The products of a classified reaction.
pub open spec fn prediction_of(class: ReactionClass, r1: Reactant, r2: Reactant) -> PredictionModel {
    match class {
        ReactionClass::DoubleDisplacement => {
            if r1.cation is Some && r1.anion is Some && r2.cation is Some && r2.anion is Some {
                PredictionModel::Products(
                    pair_products(r1.cation->0@, r2.anion->0@) + pair_products(
                        r2.cation->0@,
                        r1.anion->0@,
                    ),
                )
            } else {
                PredictionModel::Infeasible("both reactants must be ionic"@)
            }
        },
        ReactionClass::SingleDisplacement => {
            let free = if r1.is_bare_element {
                r1
            } else {
                r2
            };
            let salt = if r1.is_bare_element {
                r2
            } else {
                r1
            };
            if salt.cation is Some && salt.anion is Some && free.species@.len() > 0 {
                let fs = free.species@[0]@;
                let cation = salt.cation->0@;
                let anion = salt.anion->0@;
                if fs.element_class == ElementClass::Metal {
                    if displaces_of(fs.symbol, cation.symbol) == Some(true) {
                        PredictionModel::Products(
                            seq![ionic_product_of(fs, anion), freed_of(cation.symbol)],
                        )
                    } else {
                        PredictionModel::Infeasible(below_message(fs.symbol, cation.symbol))
                    }
                } else {
                    if displaces_of(fs.symbol, anion.symbol) == Some(true) {
                        PredictionModel::Products(
                            seq![ionic_product_of(cation, fs), freed_of(anion.symbol)],
                        )
                    } else {
                        PredictionModel::Infeasible(below_message(fs.symbol, anion.symbol))
                    }
                }
            } else {
                PredictionModel::Infeasible("salt reactant must be ionic"@)
            }
        },
        ReactionClass::Combustion => {
            let fuel = if is_dioxygen_of(r1) {
                r2
            } else {
                r1
            };
            if lookup(fuel.composition@, "C"@) is Some {
                if lookup(fuel.composition@, "H"@) is Some {
                    PredictionModel::Products(seq![co2_of(), water_of()])
                } else {
                    PredictionModel::Products(seq![co2_of()])
                }
            } else if lookup(fuel.composition@, "H"@) is Some {
                PredictionModel::Products(seq![water_of()])
            } else if fuel.species@.len() == 0 {
                PredictionModel::Infeasible("no fuel"@)
            } else {
                PredictionModel::Products(seq![oxide_of(fuel.species@[0]@)])
            }
        },
        ReactionClass::Synthesis => {
            PredictionModel::Products(seq![synthesis_of(r1.species@[0]@, r2.species@[0]@)])
        },
        ReactionClass::NoReaction => PredictionModel::Infeasible("no recognised reaction"@),
    }
}

/// Swapping this cation/anion pair stays within `i64`.
pub open spec fn pair_fits(cation: SpeciesModel, anion: SpeciesModel) -> bool {
    (cation.symbol == "H"@ && (anion.symbol == "OH"@ || anion.symbol == "CO₃"@)) || ionic_fits(
        cation,
        anion,
    )
}

/// Predicting the products stays within `i64` and indexes no missing species.
pub open spec fn prediction_fits(class: ReactionClass, r1: Reactant, r2: Reactant) -> bool {
    match class {
        ReactionClass::DoubleDisplacement => {
            r1.cation is Some && r1.anion is Some && r2.cation is Some && r2.anion is Some ==> {
                &&& pair_fits(r1.cation->0@, r2.anion->0@)
                &&& pair_fits(r2.cation->0@, r1.anion->0@)
            }
        },
        ReactionClass::SingleDisplacement => {
            let free = if r1.is_bare_element {
                r1
            } else {
                r2
            };
            let salt = if r1.is_bare_element {
                r2
            } else {
                r1
            };
            salt.cation is Some && salt.anion is Some && free.species@.len() > 0 ==> {
                let fs = free.species@[0]@;
                let cation = salt.cation->0@;
                let anion = salt.anion->0@;
                if fs.element_class == ElementClass::Metal {
                    displaces_of(fs.symbol, cation.symbol) == Some(true) ==> ionic_fits(fs, anion)
                } else {
                    displaces_of(fs.symbol, anion.symbol) == Some(true) ==> ionic_fits(cation, fs)
                }
            }
        },
        ReactionClass::Synthesis => {
            &&& r1.species@.len() > 0
            &&& r2.species@.len() > 0
            &&& reactant_fits(seq![r1.species@[0]@, r2.species@[0]@])
        },
        _ => true,
    }
}

fn water() -> (p: Product)
    ensures
        product_model(p) == water_of(),
        p.composition.wf(),
{
    let mut c = Composition::new();
    proof {
        law_with_entry(c@, "H"@, 2);
    }
    c.insert("H".to_owned(), 2);
    proof {
        law_with_entry(c@, "O"@, 1);
    }
    c.insert("O".to_owned(), 1);
    Product { formula: "H₂O".to_owned(), composition: c }
}

fn carbon_dioxide() -> (p: Product)
    ensures
        product_model(p) == co2_of(),
        p.composition.wf(),
{
    let mut c = Composition::new();
    proof {
        law_with_entry(c@, "C"@, 1);
    }
    c.insert("C".to_owned(), 1);
    proof {
        law_with_entry(c@, "O"@, 2);
    }
    c.insert("O".to_owned(), 2);
    Product { formula: "CO₂".to_owned(), composition: c }
}

/// A freed element from a displacement, as its stable molecular form
/// (diatomic for H, N, O, F, Cl, Br, I).
fn freed_element(symbol: &str) -> (p: Product)
    ensures
        product_model(p) == freed_of(symbol@),
        p.composition.wf(),
{
    let mut c = Composition::new();
    if is_naturally_diatomic(symbol) {
        proof {
            law_with_entry(c@, symbol@, 2);
        }
        c.insert(symbol.to_owned(), 2);
        let mut text = chars_of(symbol);
        let sub = chars_of(formula_subscript(2).as_str());
        extend_chars(&mut text, &sub);
        return Product { formula: string_of(&text), composition: c };
    }
    proof {
        law_with_entry(c@, symbol@, 1);
    }
    c.insert(symbol.to_owned(), 1);
    Product { formula: symbol.to_owned(), composition: c }
}

/// Neutralise a cation with an anion into a single ionic product.
fn ionic_product(cation: &Species, anion: &Species) -> (p: Product)
    requires
        cation.wf(),
        anion.wf(),
        ionic_fits(cation@, anion@),
    ensures
        product_model(p) == ionic_product_of(cation@, anion@),
        p.composition.wf(),
{
    let (formula, composition, _, _) = ionic_compound(cation, anion);
    Product { formula, composition }
}

/// The products of swapping a cation/anion pair, appended to `out`.
fn push_pair_products(out: &mut Vec<Product>, cation: &Species, anion: &Species)
    requires
        cation.wf(),
        anion.wf(),
        pair_fits(cation@, anion@),
    ensures
        final(out)@.map_values(|x: Product| product_model(x)) == old(out)@.map_values(
            |x: Product| product_model(x),
        ) + pair_products(cation@, anion@),
        forall|i: int| 0 <= i < old(out)@.len() ==> final(out)@[i] == old(out)@[i],
        forall|i: int| old(out)@.len() <= i < final(out)@.len() ==> (#[trigger] final(out)@[i]).composition.wf(),
{
    let ghost before = out@;
    if str_eq(cation.symbol.as_str(), "H") && str_eq(anion.symbol.as_str(), "OH") {
        out.push(water());
    } else if str_eq(cation.symbol.as_str(), "H") && str_eq(anion.symbol.as_str(), "CO₃") {
        out.push(carbon_dioxide());
        out.push(water());
    } else {
        out.push(ionic_product(cation, anion));
    }
    assert(out@.map_values(|x: Product| product_model(x)) =~= before.map_values(
        |x: Product| product_model(x),
    ) + pair_products(cation@, anion@));
}

/// `"{a} is below {b} in the activity series"`.
fn below(a: &str, b: &str) -> (s: String)
    ensures
        s@ == below_message(a@, b@),
{
    let mut text = chars_of(a);
    extend_chars(&mut text, &chars_of(" is below "));
    extend_chars(&mut text, &chars_of(b));
    extend_chars(&mut text, &chars_of(" in the activity series"));
    string_of(&text)
}

/// Predict the products of a classified reaction between two reactants.
pub fn predict_products(class: ReactionClass, r1: &Reactant, r2: &Reactant) -> (p: Prediction)
    requires
        r1.wf(),
        r2.wf(),
        prediction_fits(class, *r1, *r2),
    ensures
        prediction_model(p) == prediction_of(class, *r1, *r2),
        p matches Prediction::Products(v) ==> forall|i: int|
            0 <= i < v@.len() ==> (#[trigger] v@[i]).composition.wf(),
{
    match class {
        ReactionClass::DoubleDisplacement => {
            match (&r1.cation, &r1.anion, &r2.cation, &r2.anion) {
                (Some(c1), Some(a1), Some(c2), Some(a2)) => {
                    let mut products: Vec<Product> = Vec::new();
                    push_pair_products(&mut products, c1, a2);
                    push_pair_products(&mut products, c2, a1);
                    assert(products@.map_values(|x: Product| product_model(x)) =~= pair_products(
                        c1@,
                        a2@,
                    ) + pair_products(c2@, a1@));
                    Prediction::Products(products)
                },
                _ => Prediction::Infeasible("both reactants must be ionic".to_owned()),
            }
        },
        ReactionClass::SingleDisplacement => {
            let (free, salt) = if r1.is_bare_element {
                (r1, r2)
            } else {
                (r2, r1)
            };
            match (&salt.cation, &salt.anion) {
                (Some(bound_cation), Some(anion)) => {
                    if free.species.len() == 0 {
                        return Prediction::Infeasible("salt reactant must be ionic".to_owned());
                    }
                    let free_species = &free.species[0];
                    // A metal displaces the salt's cation; a halogen its anion.
                    if free_species.element_class == ElementClass::Metal {
                        match displaces(free_species.symbol.as_str(), bound_cation.symbol.as_str()) {
                            Some(true) => {
                                let new_salt = ionic_product(free_species, anion);
                                let freed = freed_element(bound_cation.symbol.as_str());
                                let v = vec![new_salt, freed];
                                assert(v@.map_values(|x: Product| product_model(x)) =~= seq![
                                    ionic_product_of(free_species@, anion@),
                                    freed_of(bound_cation@.symbol),
                                ]);
                                Prediction::Products(v)
                            },
                            _ => Prediction::Infeasible(
                                below(free_species.symbol.as_str(), bound_cation.symbol.as_str()),
                            ),
                        }
                    } else {
                        match displaces(free_species.symbol.as_str(), anion.symbol.as_str()) {
                            Some(true) => {
                                let new_salt = ionic_product(bound_cation, free_species);
                                let freed = freed_element(anion.symbol.as_str());
                                let v = vec![new_salt, freed];
                                assert(v@.map_values(|x: Product| product_model(x)) =~= seq![
                                    ionic_product_of(bound_cation@, free_species@),
                                    freed_of(anion@.symbol),
                                ]);
                                Prediction::Products(v)
                            },
                            _ => Prediction::Infeasible(
                                below(free_species.symbol.as_str(), anion.symbol.as_str()),
                            ),
                        }
                    }
                },
                _ => Prediction::Infeasible("salt reactant must be ionic".to_owned()),
            }
        },
        ReactionClass::Combustion => {
            let fuel = if is_dioxygen(r1) {
                r2
            } else {
                r1
            };
            if fuel.composition.contains_key("C") {
                let mut products = vec![carbon_dioxide()];
                if fuel.composition.contains_key("H") {
                    products.push(water());
                }
                assert(products@.map_values(|x: Product| product_model(x)) =~= (if lookup(
                    fuel.composition@,
                    "H"@,
                ) is Some {
                    seq![co2_of(), water_of()]
                } else {
                    seq![co2_of()]
                }));
                return Prediction::Products(products);
            }
            if fuel.composition.contains_key("H") {
                let v = vec![water()];
                assert(v@.map_values(|x: Product| product_model(x)) =~= seq![water_of()]);
                return Prediction::Products(v);
            }
            if fuel.species.len() == 0 {
                return Prediction::Infeasible("no fuel".to_owned());
            }
            // A bare-element fuel burns to its oxide: crossover against O (−2),
            // the element's charge magnitude (2 when absent) as the cation's.
            let e = &fuel.species[0];
            let cation_charge: i64 = match e.charge {
                Some(c) => {
                    if c < 0 {
                        -(c as i64)
                    } else {
                        c as i64
                    }
                },
                None => 2,
            };
            let (cation_sub, anion_sub) = crossover_subscripts(cation_charge, -2);
            let mut oxide = Composition::new();
            proof {
                law_with_entry(oxide@, e@.symbol, cation_sub);
            }
            oxide.insert(e.symbol.clone(), cation_sub);
            proof {
                law_with_entry(oxide@, "O"@, anion_sub);
            }
            oxide.insert("O".to_owned(), anion_sub);
            let formula = binary_formula(e.symbol.as_str(), cation_sub, "O", anion_sub, false);
            let v = vec![Product { formula, composition: oxide }];
            assert(v@.map_values(|x: Product| product_model(x)) =~= seq![oxide_of(e@)]);
            Prediction::Products(v)
        },
        ReactionClass::Synthesis => {
            let a = r1.species[0].duplicate();
            let b = r2.species[0].duplicate();
            let pair = vec![a, b];
            assert(species_models(pair@) =~= seq![r1.species@[0]@, r2.species@[0]@]);
            let compound = make_reactant(pair.as_slice());
            let v = vec![Product { formula: compound.formula, composition: compound.composition }];
            assert(v@.map_values(|x: Product| product_model(x)) =~= seq![
                synthesis_of(r1.species@[0]@, r2.species@[0]@),
            ]);
            Prediction::Products(v)
        },
        ReactionClass::NoReaction => Prediction::Infeasible("no recognised reaction".to_owned()),
    }
}

/// Single displacement does not depend on the order of its two reactants
/// when exactly one is a bare element; and with an ionic salt, products are
/// predicted exactly when the free element outranks the ion of its own kind
/// (the cation for a metal, the anion otherwise) in the activity series;
/// otherwise the reason names the free element as below that ion.
pub proof fn law_single_displacement_symmetric(r1: Reactant, r2: Reactant)
    requires
        r1.is_bare_element != r2.is_bare_element,
    ensures
        prediction_of(ReactionClass::SingleDisplacement, r1, r2) == prediction_of(
            ReactionClass::SingleDisplacement,
            r2,
            r1,
        ),
        ({
            let free = if r1.is_bare_element {
                r1
            } else {
                r2
            };
            let salt = if r1.is_bare_element {
                r2
            } else {
                r1
            };
            salt.cation is Some && salt.anion is Some && free.species@.len() > 0 ==> {
                let fs = free.species@[0]@;
                let target = if fs.element_class == ElementClass::Metal {
                    salt.cation->0@.symbol
                } else {
                    salt.anion->0@.symbol
                };
                &&& (prediction_of(ReactionClass::SingleDisplacement, r1, r2) is Products <==> displaces_of(
                    fs.symbol,
                    target,
                ) == Some(true))
                &&& (displaces_of(fs.symbol, target) != Some(true) ==> prediction_of(
                    ReactionClass::SingleDisplacement,
                    r1,
                    r2,
                ) == PredictionModel::Infeasible(below_message(fs.symbol, target)))
            }
        }),
{
}

} // verus!
