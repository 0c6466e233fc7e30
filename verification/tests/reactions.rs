use periodic_table::balancer::balance;
use periodic_table::classification::ElementClass;
use periodic_table::composition::Composition;
use periodic_table::compound_reaction::{
    build_reactant, ionic_charge, is_ionic_zone, limiting_label, reaction_error_message, resolve_element,
    resolve_ion, solve_zones, unknown_species_message, wasm_polyatomic_ions, zone_size_message,
};
use periodic_table::element::StateOfMatter;
use periodic_table::element_reaction::{element_facts, react_elements};
use periodic_table::product_prediction::{predict_products, Prediction};
use periodic_table::reactant::{make_reactant, Reactant};
use periodic_table::reaction_class::{classify_reaction, ReactionClass};
use periodic_table::reaction_solver::{solve_reaction, BalancedTerm, ReactionError, ReactionResult};
use periodic_table::redox::{analyze_redox, OxidationChange};
use periodic_table::species::Species;
use periodic_table::stoichiometry::LimitingSide;

fn map(pairs: &[(&str, i64)]) -> Composition {
    Composition::from_pairs(pairs)
}

fn el(symbol: &str, class: ElementClass, charge: Option<i8>, ve: u8, group: u8, period: u8) -> Species {
    Species::new(symbol.to_string(), charge, class, false, ve, group, period, map(&[(symbol, 1)]))
}

fn poly(symbol: &str, charge: i8, comp: &[(&str, i64)]) -> Species {
    Species::new(symbol.to_string(), Some(charge), ElementClass::NonMetal, true, 0, 0, 0, map(comp))
}

/// The molar mass of a reactant from its species' masses and multiplicities.
fn molar_mass(r: &Reactant, masses: &[f64]) -> f64 {
    r.multiplicities.iter().zip(masses).map(|(m, w)| *m as f64 * w).sum()
}

// ---- balancer ----

#[test]
fn water_synthesis() {
    let reactants = vec![map(&[("H", 2)]), map(&[("O", 2)])];
    let products = vec![map(&[("H", 2), ("O", 1)])];
    assert_eq!(balance(&reactants, &products), Some(vec![2, 1, 2]));
}

#[test]
fn neutralisation() {
    let reactants = vec![map(&[("Na", 1), ("O", 1), ("H", 1)]), map(&[("H", 1), ("Cl", 1)])];
    let products = vec![map(&[("Na", 1), ("Cl", 1)]), map(&[("H", 2), ("O", 1)])];
    assert_eq!(balance(&reactants, &products), Some(vec![1, 1, 1, 1]));
}

#[test]
fn combustion_methane() {
    let reactants = vec![map(&[("C", 1), ("H", 4)]), map(&[("O", 2)])];
    let products = vec![map(&[("C", 1), ("O", 2)]), map(&[("H", 2), ("O", 1)])];
    assert_eq!(balance(&reactants, &products), Some(vec![1, 2, 1, 2]));
}

#[test]
fn carbonate_acid() {
    let reactants = vec![map(&[("H", 1), ("Cl", 1)]), map(&[("Na", 2), ("C", 1), ("O", 3)])];
    let products = vec![map(&[("Na", 1), ("Cl", 1)]), map(&[("C", 1), ("O", 2)]), map(&[("H", 2), ("O", 1)])];
    assert_eq!(balance(&reactants, &products), Some(vec![2, 1, 2, 1, 1]));
}

#[test]
fn unbalanceable_returns_none() {
    let reactants = vec![map(&[("Na", 1)])];
    let products = vec![map(&[("Cl", 1)])];
    assert_eq!(balance(&reactants, &products), None);
}

#[test]
fn balance_rejects_a_ratio_that_is_not_unique() {
    // 2 H2 + O2 -> 2 H2O and H2 + O2 -> H2O2 both balance: no unique ratio.
    let reactants = vec![map(&[("H", 2)]), map(&[("O", 2)])];
    let products = vec![map(&[("H", 2), ("O", 1)]), map(&[("H", 2), ("O", 2)])];
    assert_eq!(balance(&reactants, &products), None);
}

#[test]
fn balance_needs_two_species() {
    assert_eq!(balance(&[map(&[("H", 2)])], &[]), None);
}

#[test]
fn balanced_coefficients_conserve_every_element() {
    // Fe + O₂ -> Fe₂O₃ : 4Fe + 3O₂ -> 2Fe₂O₃
    let reactants = vec![map(&[("Fe", 1)]), map(&[("O", 2)])];
    let products = vec![map(&[("Fe", 2), ("O", 3)])];
    let c = balance(&reactants, &products).unwrap();
    assert_eq!(c, vec![4, 3, 2]);
    assert_eq!(c[0] * 1, c[2] * 2);
    assert_eq!(c[1] * 2, c[2] * 3);
}

#[test]
fn underdetermined_system_is_refused() {
    // H₂ + O₂ -> H₂O + H₂O₂ has a two-dimensional solution space.
    let reactants = vec![map(&[("H", 2)]), map(&[("O", 2)])];
    let products = vec![map(&[("H", 2), ("O", 1)]), map(&[("H", 2), ("O", 2)])];
    assert_eq!(balance(&reactants, &products), None);
}

// ---- species and reactants ----

#[test]
fn constructs_species_with_expected_fields() {
    let composition = map(&[("O", 4), ("S", 1)]);
    let species = Species::new("SO₄".to_string(), Some(-2), ElementClass::NonMetal, true, 0, 0, 0, composition.clone());
    assert_eq!(species.symbol, "SO₄");
    assert_eq!(species.charge, Some(-2));
    assert_eq!(species.element_class, ElementClass::NonMetal);
    assert!(species.is_polyatomic);
    assert_eq!(species.valence_electrons, 0);
    assert_eq!(species.group, 0);
    assert_eq!(species.period, 0);
    assert_eq!(species.composition, composition);
}

#[test]
fn test_bare_metal() {
    let r = make_reactant(&[el("Zn", ElementClass::Metal, Some(2), 0, 0, 0)]);
    assert!(r.is_bare_element);
    assert_eq!(r.formula, "Zn");
    assert_eq!(r.composition, map(&[("Zn", 1)]));
}

#[test]
fn test_bare_diatomic() {
    let r = make_reactant(&[el("O", ElementClass::NonMetal, Some(-2), 0, 0, 0)]);
    assert_eq!(r.formula, "O₂");
    assert_eq!(r.composition, map(&[("O", 2)]));
    assert!((molar_mass(&r, &[16.0]) - 32.0).abs() < 1e-6);
}

#[test]
fn test_ionic_nacl() {
    let na = el("Na", ElementClass::Metal, Some(1), 0, 0, 0);
    let cl = el("Cl", ElementClass::NonMetal, Some(-1), 0, 0, 0);
    let r = make_reactant(&[na, cl]);
    assert_eq!(r.formula, "NaCl");
    assert_eq!(r.composition, map(&[("Na", 1), ("Cl", 1)]));
    assert_eq!(r.cation.as_ref().map(|s| s.symbol.as_str()), Some("Na"));
    assert_eq!(r.anion.as_ref().map(|s| s.symbol.as_str()), Some("Cl"));
    assert!(!r.is_bare_element);
}

#[test]
fn test_ionic_with_polyatomic_sulfate() {
    let na = el("Na", ElementClass::Metal, Some(1), 0, 0, 0);
    let so4 = poly("SO₄", -2, &[("S", 1), ("O", 4)]);
    let r = make_reactant(&[na, so4]);
    assert_eq!(r.formula, "Na₂SO₄");
    assert_eq!(r.composition, map(&[("Na", 2), ("S", 1), ("O", 4)]));
    assert!((molar_mass(&r, &[23.0, 96.06]) - (2.0 * 23.0 + 96.06)).abs() < 1e-6);
}

#[test]
fn test_covalent_methane() {
    let c = el("C", ElementClass::NonMetal, None, 4, 14, 2);
    let h = el("H", ElementClass::NonMetal, None, 1, 1, 1);
    let r = make_reactant(&[c, h]);
    assert_eq!(r.composition, map(&[("C", 1), ("H", 4)]));
    assert!(r.cation.is_none());
}

#[test]
fn test_opposite_charges_treated_as_ionic() {
    let h = el("H", ElementClass::NonMetal, Some(1), 0, 0, 0);
    let cl = el("Cl", ElementClass::NonMetal, Some(-1), 0, 0, 0);
    let r = make_reactant(&[h, cl]);
    assert_eq!(r.formula, "HCl");
    assert_eq!(r.cation.as_ref().map(|s| s.symbol.as_str()), Some("H"));
    assert_eq!(r.anion.as_ref().map(|s| s.symbol.as_str()), Some("Cl"));
    assert!(!r.is_bare_element);
}

#[test]
fn test_chargeless_nonmetals_stay_covalent() {
    let c = el("C", ElementClass::NonMetal, None, 4, 14, 2);
    let h = el("H", ElementClass::NonMetal, None, 1, 1, 1);
    let r = make_reactant(&[c, h]);
    assert!(r.cation.is_none());
    assert!(r.anion.is_none());
}

#[test]
fn ionic_reactant_counts_species_times_multiplicities() {
    // Al³⁺ with SO₄²⁻ : Al₂(SO₄)₃, written with the anion listed first.
    let so4 = poly("SO₄", -2, &[("S", 1), ("O", 4)]);
    let al = el("Al", ElementClass::Metal, Some(3), 0, 0, 0);
    let r = make_reactant(&[so4, al]);
    assert_eq!(r.formula, "Al₂(SO₄)₃");
    assert_eq!(r.multiplicities, vec![3, 2]);
    assert_eq!(r.composition, map(&[("Al", 2), ("S", 3), ("O", 12)]));
    assert_eq!(r.cation.as_ref().map(|s| s.symbol.as_str()), Some("Al"));
}

// ---- classification ----

fn naoh() -> Reactant {
    make_reactant(&[el("Na", ElementClass::Metal, Some(1), 0, 0, 0), poly("OH", -1, &[("O", 1), ("H", 1)])])
}

fn hcl() -> Reactant {
    make_reactant(&[
        el("H", ElementClass::NonMetal, Some(1), 0, 0, 0),
        el("Cl", ElementClass::NonMetal, Some(-1), 0, 0, 0),
    ])
}

fn ch4() -> Reactant {
    make_reactant(&[el("C", ElementClass::NonMetal, None, 4, 14, 2), el("H", ElementClass::NonMetal, None, 1, 1, 1)])
}

fn o2() -> Reactant {
    make_reactant(&[el("O", ElementClass::NonMetal, Some(-2), 0, 0, 0)])
}

fn bare(symbol: &str, class: ElementClass, charge: i8) -> Reactant {
    make_reactant(&[el(symbol, class, Some(charge), 0, 0, 0)])
}

fn salt(cation: &str, charge: i8, anion: Species) -> Reactant {
    make_reactant(&[el(cation, ElementClass::Metal, Some(charge), 0, 0, 0), anion])
}

fn sulfate() -> Species {
    poly("SO₄", -2, &[("S", 1), ("O", 4)])
}

#[test]
fn test_combustion_methane_and_o2() {
    assert_eq!(classify_reaction(&ch4(), &o2()), ReactionClass::Combustion);
}

#[test]
fn test_single_displacement_zn_and_cuso4() {
    let zn = bare("Zn", ElementClass::Metal, 2);
    let cuso4 = salt("Cu", 2, sulfate());
    assert_eq!(classify_reaction(&zn, &cuso4), ReactionClass::SingleDisplacement);
}

#[test]
fn test_double_displacement_naoh_and_hcl() {
    assert_eq!(classify_reaction(&naoh(), &hcl()), ReactionClass::DoubleDisplacement);
}

#[test]
fn test_synthesis_two_bare_elements() {
    let na = bare("Na", ElementClass::Metal, 1);
    let cl = bare("Cl", ElementClass::NonMetal, -1);
    assert_eq!(classify_reaction(&na, &cl), ReactionClass::Synthesis);
}

#[test]
fn test_metal_plus_o2_is_synthesis_not_combustion() {
    let fe = bare("Fe", ElementClass::Metal, 2);
    assert_eq!(classify_reaction(&fe, &o2()), ReactionClass::Synthesis);
}

#[test]
fn covalent_with_ionic_is_no_reaction() {
    let nacl = make_reactant(&[
        el("Na", ElementClass::Metal, Some(1), 0, 0, 0),
        el("Cl", ElementClass::NonMetal, Some(-1), 0, 0, 0),
    ]);
    assert_eq!(classify_reaction(&ch4(), &nacl), ReactionClass::NoReaction);
}

// ---- product prediction ----

fn formulas(p: &Prediction) -> Vec<String> {
    if let Prediction::Products(list) = p {
        let mut fs: Vec<String> = list.iter().map(|p| p.formula.clone()).collect();
        fs.sort();
        fs
    } else {
        Vec::new()
    }
}

fn sorted(mut v: Vec<&str>) -> Vec<String> {
    v.sort();
    v.into_iter().map(String::from).collect()
}

#[test]
fn test_neutralisation_to_water() {
    let p = predict_products(ReactionClass::DoubleDisplacement, &naoh(), &hcl());
    assert_eq!(formulas(&p), sorted(vec!["H₂O", "NaCl"]));
}

#[test]
fn test_carbonate_gives_co2_and_water() {
    let na2co3 = salt("Na", 1, poly("CO₃", -2, &[("C", 1), ("O", 3)]));
    let p = predict_products(ReactionClass::DoubleDisplacement, &na2co3, &hcl());
    assert_eq!(formulas(&p), sorted(vec!["CO₂", "H₂O", "NaCl"]));
}

#[test]
fn test_single_displacement_feasible() {
    let zn = bare("Zn", ElementClass::Metal, 2);
    let cuso4 = salt("Cu", 2, sulfate());
    let p = predict_products(ReactionClass::SingleDisplacement, &zn, &cuso4);
    assert_eq!(formulas(&p), sorted(vec!["Cu", "ZnSO₄"]));
}

#[test]
fn test_single_displacement_infeasible() {
    let cu = bare("Cu", ElementClass::Metal, 2);
    let znso4 = salt("Zn", 2, sulfate());
    match predict_products(ReactionClass::SingleDisplacement, &cu, &znso4) {
        Prediction::Infeasible(reason) => assert!(reason.contains("activity series")),
        other => panic!("expected infeasible, got {other:?}"),
    }
}

#[test]
fn test_combustion_hydrocarbon() {
    let p = predict_products(ReactionClass::Combustion, &ch4(), &o2());
    assert_eq!(formulas(&p), sorted(vec!["CO₂", "H₂O"]));
}

#[test]
fn test_halogen_displacement_frees_diatomic() {
    let cl2 = bare("Cl", ElementClass::NonMetal, -1);
    let kbr = make_reactant(&[
        el("K", ElementClass::Metal, Some(1), 0, 0, 0),
        el("Br", ElementClass::NonMetal, Some(-1), 0, 0, 0),
    ]);
    let p = predict_products(ReactionClass::SingleDisplacement, &cl2, &kbr);
    assert_eq!(formulas(&p), sorted(vec!["Br₂", "KCl"]));
}

#[test]
fn test_metal_displaces_hydrogen_as_h2() {
    let zn = bare("Zn", ElementClass::Metal, 2);
    let p = predict_products(ReactionClass::SingleDisplacement, &zn, &hcl());
    assert_eq!(formulas(&p), sorted(vec!["H₂", "ZnCl₂"]));
}

#[test]
fn test_double_displacement_requires_both_ionic() {
    match predict_products(ReactionClass::DoubleDisplacement, &ch4(), &naoh()) {
        Prediction::Infeasible(reason) => assert_eq!(reason, "both reactants must be ionic"),
        other => panic!("expected infeasible, got {other:?}"),
    }
}

#[test]
fn test_single_displacement_salt_listed_first() {
    let zn = bare("Zn", ElementClass::Metal, 2);
    let cuso4 = salt("Cu", 2, sulfate());
    let p = predict_products(ReactionClass::SingleDisplacement, &cuso4, &zn);
    assert_eq!(formulas(&p), sorted(vec!["Cu", "ZnSO₄"]));
}

#[test]
fn test_single_displacement_requires_ionic_salt() {
    let zn = bare("Zn", ElementClass::Metal, 2);
    match predict_products(ReactionClass::SingleDisplacement, &zn, &ch4()) {
        Prediction::Infeasible(reason) => assert_eq!(reason, "salt reactant must be ionic"),
        other => panic!("expected infeasible, got {other:?}"),
    }
}

#[test]
fn test_halogen_displacement_infeasible_when_outranked() {
    let i2 = bare("I", ElementClass::NonMetal, -1);
    let kcl = make_reactant(&[
        el("K", ElementClass::Metal, Some(1), 0, 0, 0),
        el("Cl", ElementClass::NonMetal, Some(-1), 0, 0, 0),
    ]);
    match predict_products(ReactionClass::SingleDisplacement, &i2, &kcl) {
        Prediction::Infeasible(reason) => {
            assert!(reason.contains("activity series"));
            assert_eq!(reason, "I is below Cl in the activity series");
        },
        other => panic!("expected infeasible, got {other:?}"),
    }
}

#[test]
fn test_combustion_pure_hydrogen_makes_only_water() {
    let h2 = make_reactant(&[el("H", ElementClass::NonMetal, None, 1, 1, 1)]);
    let p = predict_products(ReactionClass::Combustion, &h2, &o2());
    assert_eq!(formulas(&p), vec!["H₂O".to_string()]);
}

#[test]
fn test_bare_element_combustion_makes_correct_oxide() {
    let mg = bare("Mg", ElementClass::Metal, 2);
    assert_eq!(formulas(&predict_products(ReactionClass::Combustion, &mg, &o2())), vec!["MgO".to_string()]);
    let al = bare("Al", ElementClass::Metal, 3);
    let p = predict_products(ReactionClass::Combustion, &al, &o2());
    assert_eq!(formulas(&p), vec!["Al₂O₃".to_string()]);
    if let Prediction::Products(list) = p {
        assert_eq!(list[0].composition, map(&[("Al", 2), ("O", 3)]));
    }
}

#[test]
fn no_reaction_is_not_recognised() {
    match predict_products(ReactionClass::NoReaction, &ch4(), &o2()) {
        Prediction::Infeasible(reason) => assert_eq!(reason, "no recognised reaction"),
        other => panic!("expected infeasible, got {other:?}"),
    }
}

// ---- solving ----

#[test]
fn test_neutralisation_balances_and_is_feasible() {
    let r = solve_reaction(&naoh(), &hcl()).expect("expected success");
    assert_eq!(r.reaction_class, ReactionClass::DoubleDisplacement);
    assert!(r.feasible);
    assert_eq!(r.reactants.iter().map(|t| t.coeff).collect::<Vec<_>>(), vec![1, 1]);
    let mut formulas: Vec<&str> = r.products.iter().map(|p| p.formula.as_str()).collect();
    formulas.sort();
    assert_eq!(formulas, vec!["H₂O", "NaCl"]);
}

#[test]
fn test_combustion_methane_coefficients() {
    let r = solve_reaction(&ch4(), &o2()).expect("expected success");
    assert_eq!(r.reaction_class, ReactionClass::Combustion);
    assert_eq!(r.reactants.iter().map(|t| t.coeff).collect::<Vec<_>>(), vec![1, 2]);
    let co2 = r.products.iter().find(|p| p.formula == "CO₂");
    let h2o = r.products.iter().find(|p| p.formula == "H₂O");
    assert_eq!(co2.map(|p| p.coeff), Some(1));
    assert_eq!(h2o.map(|p| p.coeff), Some(2));
}

#[test]
fn test_single_displacement_infeasible_result() {
    let cu = bare("Cu", ElementClass::Metal, 2);
    let znso4 = salt("Zn", 2, sulfate());
    let r = solve_reaction(&cu, &znso4).expect("expected success");
    assert!(!r.feasible);
    assert!(r.messages.iter().any(|m| m.contains("activity series")));
    assert_eq!(r.reactants.iter().map(|t| t.coeff).collect::<Vec<_>>(), vec![1, 1]);
    assert!(r.products.is_empty());
}

#[test]
fn test_unclassifiable_pair_is_unknown_reaction_class() {
    let nacl = make_reactant(&[
        el("Na", ElementClass::Metal, Some(1), 0, 0, 0),
        el("Cl", ElementClass::NonMetal, Some(-1), 0, 0, 0),
    ]);
    assert_eq!(solve_reaction(&ch4(), &nacl), Err(ReactionError::UnknownReactionClass));
}

#[test]
fn test_diatomic_message_emitted_for_first_reactant() {
    let r = solve_reaction(&o2(), &ch4()).expect("expected success");
    assert_eq!(r.reaction_class, ReactionClass::Combustion);
    assert!(r.feasible);
    assert!(r.messages.contains(&"O only exists as O₂".to_string()));
}

#[test]
fn test_synthesis_na_and_cl_forms_nacl() {
    let na = bare("Na", ElementClass::Metal, 1);
    let cl = bare("Cl", ElementClass::NonMetal, -1);
    let r = solve_reaction(&na, &cl).expect("expected success");
    assert_eq!(r.reaction_class, ReactionClass::Synthesis);
    assert!(r.feasible);
    assert_eq!(r.products.len(), 1);
    assert_eq!(r.products[0].formula, "NaCl");
    assert_eq!(r.reactants.iter().map(|t| t.coeff).collect::<Vec<_>>(), vec![2, 1]);
    assert_eq!(r.products[0].coeff, 2);
    assert_eq!(r.messages, vec!["Cl only exists as Cl₂".to_string()]);
}

#[test]
fn single_displacement_full_solve_balances_one_to_one() {
    let zn = bare("Zn", ElementClass::Metal, 2);
    let cuso4 = salt("Cu", 2, sulfate());
    let r = solve_reaction(&zn, &cuso4).expect("expected success");
    assert!(r.feasible);
    let mut formulas: Vec<&str> = r.products.iter().map(|p| p.formula.as_str()).collect();
    formulas.sort();
    assert_eq!(formulas, vec!["Cu", "ZnSO₄"]);
    assert!(r.reactants.iter().chain(r.products.iter()).all(|t| t.coeff == 1));
}

// ---- redox ----

fn term(coeff: i64, formula: &str, comp: &[(&str, i64)]) -> BalancedTerm {
    BalancedTerm { coeff, formula: formula.to_string(), composition: map(comp) }
}

fn result(reactants: Vec<BalancedTerm>, products: Vec<BalancedTerm>, feasible: bool) -> ReactionResult {
    ReactionResult {
        reaction_class: ReactionClass::SingleDisplacement,
        reactants,
        products,
        messages: Vec::new(),
        feasible,
    }
}

#[test]
fn synthesis_is_redox() {
    let r = result(
        vec![term(2, "Na", &[("Na", 1)]), term(1, "Cl₂", &[("Cl", 2)])],
        vec![term(2, "NaCl", &[("Na", 1), ("Cl", 1)])],
        true,
    );
    let a = analyze_redox(&r);
    assert!(a.is_redox);
    assert_eq!(a.reducing_agent, Some("Na".to_string()));
    assert_eq!(a.oxidising_agent, Some("Cl₂".to_string()));
    let symbols: std::collections::BTreeSet<String> = a.changes.iter().map(|c| c.symbol.clone()).collect();
    assert_eq!(symbols, ["Na", "Cl"].into_iter().map(String::from).collect());
}

fn zn_cuso4_result() -> ReactionResult {
    result(
        vec![term(1, "Zn", &[("Zn", 1)]), term(1, "CuSO₄", &[("Cu", 1), ("S", 1), ("O", 4)])],
        vec![term(1, "ZnSO₄", &[("Zn", 1), ("S", 1), ("O", 4)]), term(1, "Cu", &[("Cu", 1)])],
        true,
    )
}

#[test]
fn single_displacement_agents() {
    let a = analyze_redox(&zn_cuso4_result());
    assert!(a.is_redox);
    assert_eq!(a.reducing_agent, Some("Zn".to_string()));
    assert_eq!(a.oxidising_agent, Some("CuSO₄".to_string()));
    let zn = a.changes.iter().find(|c| c.symbol == "Zn").unwrap();
    assert_eq!((zn.before, zn.after), (0, 2));
    assert!(!a.changes.iter().any(|c| c.symbol == "S" || c.symbol == "O"));
}

#[test]
fn combustion_is_redox() {
    let r = result(
        vec![term(1, "CH₄", &[("C", 1), ("H", 4)]), term(2, "O₂", &[("O", 2)])],
        vec![term(1, "CO₂", &[("C", 1), ("O", 2)]), term(2, "H₂O", &[("H", 2), ("O", 1)])],
        true,
    );
    let a = analyze_redox(&r);
    assert!(a.is_redox);
    assert_eq!(a.reducing_agent, Some("CH₄".to_string()));
    assert_eq!(a.oxidising_agent, Some("O₂".to_string()));
}

#[test]
fn neutralisation_is_non_redox() {
    let r = result(
        vec![term(1, "NaOH", &[("Na", 1), ("O", 1), ("H", 1)]), term(1, "HCl", &[("H", 1), ("Cl", 1)])],
        vec![term(1, "NaCl", &[("Na", 1), ("Cl", 1)]), term(1, "H₂O", &[("H", 2), ("O", 1)])],
        true,
    );
    let a = analyze_redox(&r);
    assert!(!a.is_redox);
    assert_eq!(a.oxidising_agent, None);
    assert_eq!(a.reducing_agent, None);
    assert!(a.changes.is_empty());
    assert_eq!(a.narrative, vec!["This is a non-redox reaction — no oxidation states change.".to_string()]);
}

#[test]
fn infeasible_is_empty() {
    let r = result(vec![term(1, "Cu", &[("Cu", 1)])], Vec::new(), false);
    let a = analyze_redox(&r);
    assert!(!a.is_redox);
    assert!(a.changes.is_empty() && a.narrative.is_empty());
}

#[test]
fn narrative_uses_formulas() {
    let a = analyze_redox(&zn_cuso4_result());
    assert!(a.narrative.iter().any(|s| s.contains("Zn is oxidised") && s.contains("from 0 in Zn to +2 in ZnSO₄")));
    assert!(a.narrative.iter().any(|s| s.contains("CuSO₄ is the oxidising agent")));
}

#[test]
fn narrative_uses_the_unicode_minus_sign() {
    let r = result(
        vec![term(2, "Na", &[("Na", 1)]), term(1, "Cl₂", &[("Cl", 2)])],
        vec![term(2, "NaCl", &[("Na", 1), ("Cl", 1)])],
        true,
    );
    let a = analyze_redox(&r);
    let cl = a.changes.iter().find(|c| c.symbol == "Cl").unwrap();
    assert_eq!(cl.change, OxidationChange::Reduced);
    assert!(a.narrative.iter().any(|s| s == "Cl₂ is reduced because Cl's oxidation state decreases from 0 in Cl₂ to \u{2212}1 in NaCl."));
}

#[test]
fn conflicting_same_side_states_go_to_indeterminate() {
    let r = result(
        vec![term(1, "O₂", &[("O", 2)]), term(1, "H₂O", &[("H", 2), ("O", 1)])],
        vec![term(1, "H₂O", &[("H", 2), ("O", 1)])],
        true,
    );
    let a = analyze_redox(&r);
    assert!(!a.changes.iter().any(|c| c.symbol == "O"));
    assert!(a.indeterminate.contains(&"O₂".to_string()));
    assert!(a.indeterminate.contains(&"H₂O".to_string()));
    let unique: std::collections::BTreeSet<&String> = a.indeterminate.iter().collect();
    assert_eq!(a.indeterminate.len(), unique.len());
}

// ---- element pairs and zones ----

fn facts(symbol: &str, z: u8, state: StateOfMatter) -> periodic_table::element_reaction::ElementFacts {
    element_facts(symbol, z, state).unwrap()
}

#[test]
fn valence_of_chlorine_is_seven() {
    assert_eq!(facts("Cl", 17, StateOfMatter::Gas).valence_electrons, 7);
}

#[test]
fn valence_of_iron_is_two() {
    assert_eq!(facts("Fe", 26, StateOfMatter::Solid).valence_electrons, 2);
}

#[test]
fn valence_unknown_is_none() {
    assert!(element_facts("XX", 0, StateOfMatter::Solid).is_none());
}

#[test]
fn metal_plus_nonmetal_is_ionic() {
    let r = react_elements(&facts("Na", 11, StateOfMatter::Solid), &facts("Cl", 17, StateOfMatter::Gas));
    assert_eq!(r.bonding, "Ionic");
    assert_eq!(r.glyph, "→");
    assert_eq!(r.product_state, "Solid");
    assert!(r.covalent.is_none());
    assert!(r.metallic_electrons.is_none());
}

#[test]
fn metal_plus_metal_is_metallic() {
    let r = react_elements(&facts("Na", 11, StateOfMatter::Solid), &facts("Mg", 12, StateOfMatter::Solid));
    assert_eq!(r.bonding, "Metallic");
    assert_eq!(r.product_state, "Solid");
    assert_eq!(r.metallic_electrons, Some(9));
    assert!(r.covalent.is_none());
}

#[test]
fn sulfur_plus_oxygen_is_covalent_so2() {
    let r = react_elements(&facts("S", 16, StateOfMatter::Solid), &facts("O", 8, StateOfMatter::Gas));
    assert_eq!(r.bonding, "Covalent");
    assert_eq!(r.glyph, "⇌");
    assert_eq!(r.product_state, "Gas");
    let cov = r.covalent.unwrap();
    assert_eq!((cov.n_a, cov.n_b, cov.bond_order), (1, 2, 2));
}

#[test]
fn hydrogen_plus_oxygen_water_is_liquid() {
    let r = react_elements(&facts("H", 1, StateOfMatter::Gas), &facts("O", 8, StateOfMatter::Gas));
    assert_eq!(r.bonding, "Covalent");
    assert_eq!(r.product_state, "Liquid");
}

#[test]
fn polyatomic_table_exposed() {
    let ions = wasm_polyatomic_ions();
    assert_eq!(ions.len(), 6);
    let sulfate = ions.iter().find(|i| i.symbol == "SO₄").unwrap();
    assert_eq!(sulfate.charge, -2);
    assert_eq!(sulfate.formula, "SO₄²⁻");
}

#[test]
fn ion_resolution_reads_the_table() {
    let so4 = resolve_ion("SO₄", None).unwrap();
    assert!(so4.is_polyatomic);
    assert_eq!(so4.ion_charge, -2);
    assert_eq!(so4.composition, map(&[("S", 1), ("O", 4)]));
    assert_eq!(ionic_charge(&so4), Some(-2));
    assert!(resolve_ion("XX", None).is_none());
}

#[test]
fn element_resolution_and_ionic_charges() {
    let na = resolve_element("Na", 11, None).unwrap();
    assert_eq!(ionic_charge(&na), Some(1));
    let cl = resolve_element("Cl", 17, None).unwrap();
    assert_eq!(ionic_charge(&cl), Some(-1));
    let h = resolve_element("H", 1, None).unwrap();
    assert_eq!(ionic_charge(&h), Some(1));
    let fe = resolve_element("Fe", 26, Some(3)).unwrap();
    assert!(fe.is_transition);
    assert_eq!(ionic_charge(&fe), Some(3));
    assert!(is_ionic_zone(&na, &cl));
    assert!(is_ionic_zone(&h, &cl));
    assert!(!is_ionic_zone(&na, &na));
    assert!(resolve_element("Xx", 0, None).is_none());
}

#[test]
fn zone_errors() {
    assert_eq!(build_reactant(&[]), Err(zone_size_message()));
    assert_eq!(zone_size_message(), "a reactant zone must have 1 or 2 species");
    let fe = resolve_element("Fe", 26, None).unwrap();
    assert_eq!(
        build_reactant(&[fe]),
        Err("Fe is a transition metal and requires an explicit charge".to_string())
    );
    assert_eq!(unknown_species_message("Qq"), "unknown species: Qq");
}

#[test]
fn zone_builds_sodium_sulfate() {
    let na = resolve_element("Na", 11, None).unwrap();
    let so4 = resolve_ion("SO₄", None).unwrap();
    let r = build_reactant(&[na, so4]).unwrap();
    assert_eq!(r.formula, "Na₂SO₄");
}

#[test]
fn zones_solve_zinc_and_copper_sulfate_with_redox() {
    let zn = resolve_element("Zn", 30, Some(2)).unwrap();
    let cu = resolve_element("Cu", 29, Some(2)).unwrap();
    let so4 = resolve_ion("SO₄", None).unwrap();
    let sol = solve_zones(&[zn], &[cu, so4]).unwrap();
    assert!(sol.result.feasible);
    let redox = sol.redox.unwrap();
    assert_eq!(redox.reducing_agent, Some("Zn".to_string()));
    assert_eq!(redox.oxidising_agent, Some("CuSO₄".to_string()));
}

#[test]
fn error_messages_and_labels() {
    assert_eq!(reaction_error_message(&ReactionError::Unbalanceable), "the reaction could not be balanced");
    assert_eq!(reaction_error_message(&ReactionError::NoProducts), "no products were predicted");
    assert_eq!(
        reaction_error_message(&ReactionError::UnknownReactionClass),
        "the reactant pair does not match a known reaction class"
    );
    assert_eq!(
        reaction_error_message(&ReactionError::MissingAtomicMass("Mg".to_string())),
        "missing atomic mass for Mg"
    );
    assert_eq!(limiting_label(LimitingSide::A), "A");
    assert_eq!(limiting_label(LimitingSide::Both), "Both");
}
