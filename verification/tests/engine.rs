use periodic_table::activity_series::{displaces, halogen_activity_series, metal_activity_series};
use periodic_table::bonding::{bonding_type, determine_bonding, reaction_glyph, BondingType};
use periodic_table::classification::ElementClass::{Metal, Metalloid, NonMetal};
use periodic_table::composition::Composition;
use periodic_table::covalent::{
    calc_stoich, covalent_stoich, is_orbital_mismatch_double_bond, iupac_first, CovalentStoich,
};
use periodic_table::element::StateOfMatter::{Gas, Liquid, Solid};
use periodic_table::formula_text::{binary_formula, crossover_subscripts, formula_subscript};
use periodic_table::fraction::Fraction;
use periodic_table::math::{gcd, lcm};
use periodic_table::metallic::{metallic_electron_count, metallic_electron_count_capped};
use periodic_table::oxidation_state::oxidation_state;
use periodic_table::polyatomic::polyatomic_ions;
use periodic_table::product_state::{predict_product_state, ProductState};
use periodic_table::stoichiometry::{
    balance_equation, is_naturally_diatomic, molecularity, naturally_diatomic, BalancedEquation,
};

fn s(n_a: i64, n_b: i64, bond_order: i64) -> CovalentStoich {
    CovalentStoich { n_a, n_b, bond_order }
}

#[test]
fn hcl_single_bond() {
    assert_eq!(calc_stoich(1, 7), s(1, 1, 1));
}

#[test]
fn water() {
    assert_eq!(calc_stoich(1, 6), s(2, 1, 1));
}

#[test]
fn n2_triple_bond() {
    assert_eq!(calc_stoich(5, 5), s(1, 1, 3));
}

#[test]
fn full_shell_falls_back() {
    assert_eq!(calc_stoich(8, 4), s(1, 1, 1));
}

#[test]
fn iupac_ordering() {
    assert!(iupac_first("C", "O"));
    assert!(!iupac_first("O", "C"));
    assert!(iupac_first("B", "F"));
    assert!(iupac_first("Na", "Cl"));
}

#[test]
fn so2_central_sulfur() {
    assert_eq!(covalent_stoich(6, 16, 3, 6, 16, 2), s(1, 2, 2));
}

#[test]
fn so2_slot_order_independent() {
    assert_eq!(covalent_stoich(6, 16, 2, 6, 16, 3), s(2, 1, 2));
}

#[test]
fn ses2() {
    assert_eq!(covalent_stoich(6, 16, 4, 6, 16, 3), s(1, 2, 2));
}

#[test]
fn o2_same_period_unchanged() {
    assert_eq!(covalent_stoich(6, 16, 2, 6, 16, 2), s(1, 1, 2));
}

#[test]
fn clf_single_bond_unchanged() {
    assert_eq!(covalent_stoich(7, 17, 3, 7, 17, 2), s(1, 1, 1));
}

#[test]
fn np_triple_bond_unchanged() {
    assert_eq!(covalent_stoich(5, 15, 3, 5, 15, 2), s(1, 1, 3));
}

#[test]
fn different_group_unchanged() {
    assert_eq!(covalent_stoich(4, 14, 2, 6, 16, 2), s(1, 2, 2));
}

#[test]
fn orbital_mismatch_truth_table() {
    assert!(is_orbital_mismatch_double_bond(16, 3, 6, 16, 2, 6));
    assert!(!is_orbital_mismatch_double_bond(16, 2, 6, 16, 2, 6));
    assert!(!is_orbital_mismatch_double_bond(17, 3, 7, 17, 2, 7));
    assert!(!is_orbital_mismatch_double_bond(14, 2, 4, 16, 2, 6));
}

#[test]
fn octet_bonds_balance_for_carbon_dioxide() {
    // C needs 4 bonds, O needs 2: one C, two O, double bonds.
    let st = calc_stoich(4, 6);
    assert_eq!(st, s(1, 2, 2));
    assert_eq!(st.n_a * 4, st.n_b * 2);
}

#[test]
fn subscript_hides_one() {
    assert_eq!(formula_subscript(1), "");
    assert_eq!(formula_subscript(2), "₂");
    assert_eq!(formula_subscript(12), "₁₂");
}

#[test]
fn crossover_nacl() {
    let (cation_sub, anion_sub) = crossover_subscripts(1, -1);
    assert_eq!(cation_sub, 1);
    assert_eq!(anion_sub, 1);
}

#[test]
fn crossover_mgcl2() {
    let (cation_sub, anion_sub) = crossover_subscripts(2, -1);
    assert_eq!(cation_sub, 1);
    assert_eq!(anion_sub, 2);
}

#[test]
fn crossover_reduces_al2o3_not_needed_but_ca_o() {
    let (cation_sub, anion_sub) = crossover_subscripts(2, -2);
    assert_eq!(cation_sub, 1);
    assert_eq!(anion_sub, 1);
}

#[test]
fn crossover_is_charge_neutral_for_aluminium_oxide() {
    let (cation_sub, anion_sub) = crossover_subscripts(3, -2);
    assert_eq!((cation_sub, anion_sub), (2, 3));
    assert_eq!(cation_sub * 3 + anion_sub * -2, 0);
}

#[test]
fn binary_formula_simple() {
    assert_eq!(binary_formula("H", 2, "O", 1, false), "H₂O");
}

#[test]
fn binary_formula_polyatomic_parenthesised() {
    assert_eq!(binary_formula("NH₄", 2, "SO₄", 1, true), "(NH₄)₂SO₄");
}

#[test]
fn binary_formula_polyatomic_single_no_parens() {
    assert_eq!(binary_formula("Na", 1, "OH", 1, true), "NaOH");
}

#[test]
fn reduces_on_init() {
    let f = Fraction::new(4, 8);
    assert_eq!(f.num, 1);
    assert_eq!(f.den, 2);
}

#[test]
fn normalizes_sign_to_numerator() {
    let f = Fraction::new(1, -2);
    assert_eq!(f.num, -1);
    assert_eq!(f.den, 2);
}

#[test]
fn addition() {
    assert_eq!(Fraction::new(1, 2).add(Fraction::new(1, 3)), Fraction::new(5, 6));
}

#[test]
fn multiplication() {
    assert_eq!(Fraction::new(2, 3).mul(Fraction::new(3, 4)), Fraction::new(1, 2));
}

#[test]
fn is_zero() {
    assert!(Fraction::new(0, 5).is_zero());
    assert!(!Fraction::new(1, 5).is_zero());
}

#[test]
fn gcd_values() {
    assert_eq!(gcd(12, 8), 4);
    assert_eq!(gcd(2, 2), 2);
    assert_eq!(gcd(3, 1), 1);
    assert_eq!(gcd(5, 0), 5);
    assert_eq!(gcd(6, 4), 2);
}

#[test]
fn lcm_values() {
    assert_eq!(lcm(4, 6), 12);
    assert_eq!(lcm(3, 0), 0);
    assert_eq!(lcm(0, 3), 0);
}

#[test]
fn gcd_times_lcm_is_the_product() {
    assert_eq!(gcd(18, 12) * lcm(18, 12), 18 * 12);
    assert_eq!(gcd(-12, 8), -4);
}

#[test]
fn electron_count() {
    assert_eq!(metallic_electron_count(1, 1), 6);
    assert_eq!(metallic_electron_count(2, 2), 12);
    assert_eq!(metallic_electron_count(3, 3), 12);
    assert_eq!(metallic_electron_count(1, 0), 3);
}

#[test]
fn custom_pool_size() {
    assert_eq!(metallic_electron_count_capped(3, 3, 18), 18);
}

#[test]
fn ionic_is_solid() {
    assert_eq!(predict_product_state(BondingType::Ionic, "Na", Solid, "Cl", Gas), ProductState::Solid);
}

#[test]
fn metallic_is_solid() {
    assert_eq!(predict_product_state(BondingType::Metallic, "Na", Solid, "Mg", Solid), ProductState::Solid);
}

#[test]
fn covalent_any_gas_constituent_is_gas() {
    assert_eq!(predict_product_state(BondingType::Covalent, "C", Solid, "O", Gas), ProductState::Gas);
    assert_eq!(predict_product_state(BondingType::Covalent, "S", Solid, "O", Gas), ProductState::Gas);
}

#[test]
fn covalent_both_gas_is_gas() {
    assert_eq!(predict_product_state(BondingType::Covalent, "O", Gas, "O", Gas), ProductState::Gas);
}

#[test]
fn covalent_water_special_cased_liquid() {
    assert_eq!(predict_product_state(BondingType::Covalent, "H", Gas, "O", Gas), ProductState::Liquid);
    assert_eq!(predict_product_state(BondingType::Covalent, "O", Gas, "H", Gas), ProductState::Liquid);
}

#[test]
fn covalent_liquid_constituent_is_liquid() {
    assert_eq!(predict_product_state(BondingType::Covalent, "Br", Liquid, "I", Solid), ProductState::Liquid);
}

#[test]
fn covalent_all_solid_is_solid() {
    assert_eq!(predict_product_state(BondingType::Covalent, "Si", Solid, "C", Solid), ProductState::Solid);
}

#[test]
fn product_state_does_not_depend_on_order() {
    for b in [BondingType::Ionic, BondingType::Covalent, BondingType::Metallic] {
        assert_eq!(
            predict_product_state(b, "S", Solid, "Br", Liquid),
            predict_product_state(b, "Br", Liquid, "S", Solid)
        );
    }
}

#[test]
fn test_metal_ordering() {
    let series = metal_activity_series();
    let zn = series.iter().position(|&s| s == "Zn").unwrap();
    let cu = series.iter().position(|&s| s == "Cu").unwrap();
    assert!(zn < cu);
}

#[test]
fn test_zn_displaces_cu() {
    assert_eq!(displaces("Zn", "Cu"), Some(true));
}

#[test]
fn test_cu_does_not_displace_zn() {
    assert_eq!(displaces("Cu", "Zn"), Some(false));
}

#[test]
fn test_halogen_ordering() {
    assert_eq!(displaces("Cl", "Br"), Some(true));
    assert_eq!(displaces("I", "Cl"), Some(false));
}

#[test]
fn test_unrelated_pair_nil() {
    assert_eq!(displaces("Zn", "Cl"), None);
}

#[test]
fn test_same_element_false() {
    assert_eq!(displaces("Zn", "Zn"), Some(false));
}

#[test]
fn halogen_series_is_fluorine_first() {
    assert_eq!(halogen_activity_series(), vec!["F", "Cl", "Br", "I"]);
    assert_eq!(displaces("F", "I"), Some(true));
}

#[test]
fn determine_bonding_table() {
    assert_eq!(determine_bonding(Metal, Metal), BondingType::Metallic);
    assert_eq!(determine_bonding(NonMetal, NonMetal), BondingType::Covalent);
    assert_eq!(determine_bonding(Metalloid, NonMetal), BondingType::Covalent);
    assert_eq!(determine_bonding(Metalloid, Metalloid), BondingType::Covalent);
    assert_eq!(determine_bonding(Metal, NonMetal), BondingType::Ionic);
    assert_eq!(determine_bonding(Metal, Metalloid), BondingType::Ionic);
}

#[test]
fn polyatomic_always_ionic() {
    assert_eq!(bonding_type(NonMetal, NonMetal, true, false), BondingType::Ionic);
    assert_eq!(bonding_type(Metal, Metal, false, true), BondingType::Ionic);
    assert_eq!(bonding_type(Metal, Metal, false, false), BondingType::Metallic);
}

#[test]
fn reaction_glyphs() {
    assert_eq!(reaction_glyph(None), "+");
    assert_eq!(reaction_glyph(Some(BondingType::Ionic)), "→");
    assert_eq!(reaction_glyph(Some(BondingType::Metallic)), "→");
    assert_eq!(reaction_glyph(Some(BondingType::Covalent)), "⇌");
}

#[test]
fn bonding_labels() {
    assert_eq!(BondingType::Ionic.label(), "Ionic");
    assert_eq!(BondingType::Covalent.label(), "Covalent");
    assert_eq!(ProductState::Liquid.label(), "Liquid");
}

fn coeffs(e: &BalancedEquation) -> [i64; 3] {
    [e.coeff_a, e.coeff_b, e.coeff_product]
}

#[test]
fn balance_water() {
    let e = balance_equation(2, 2, 1, 2);
    assert_eq!(coeffs(&e), [2, 1, 2]);
}

#[test]
fn balance_nacl() {
    let e = balance_equation(1, 1, 1, 2);
    assert_eq!(coeffs(&e), [2, 1, 2]);
}

#[test]
fn balance_mgcl2() {
    let e = balance_equation(1, 1, 2, 2);
    assert_eq!(coeffs(&e), [1, 1, 1]);
}

#[test]
fn balanced_synthesis_conserves_atoms() {
    // 4Al + 3O₂ -> 2Al₂O₃
    let e = balance_equation(2, 1, 3, 2);
    assert_eq!(coeffs(&e), [4, 3, 2]);
    assert_eq!(e.coeff_a * 1, e.coeff_product * 2);
    assert_eq!(e.coeff_b * 2, e.coeff_product * 3);
}

#[test]
fn diatomic_set_and_molecularity() {
    assert_eq!(naturally_diatomic(), vec!["H", "N", "O", "F", "Cl", "Br", "I"]);
    assert!(is_naturally_diatomic("Cl"));
    assert!(!is_naturally_diatomic("Na"));
    assert_eq!(molecularity(true), 2);
    assert_eq!(molecularity(false), 1);
}

#[test]
fn table_has_six_ions() {
    assert_eq!(polyatomic_ions().len(), 6);
}

#[test]
fn sulfate_entry() {
    let ions = polyatomic_ions();
    let sulfate = ions.iter().find(|i| i.symbol == "SO₄").expect("sulfate present");
    assert_eq!(sulfate.name, "Sulfate");
    assert_eq!(sulfate.charge, -2);
    assert_eq!(sulfate.formula, "SO₄²⁻");
}

#[test]
fn ammonium_is_the_only_cation() {
    let ions = polyatomic_ions();
    let cations: Vec<_> = ions.iter().filter(|i| i.charge > 0).collect();
    assert_eq!(cations.len(), 1);
    assert_eq!(cations[0].symbol, "NH₄");
}

#[test]
fn sulfate_composition() {
    let ions = polyatomic_ions();
    let so4 = ions.iter().find(|i| i.symbol == "SO₄").unwrap();
    assert_eq!(so4.composition, vec![("S", 1), ("O", 4)]);
}

#[test]
fn hydroxide_composition() {
    let ions = polyatomic_ions();
    let oh = ions.iter().find(|i| i.symbol == "OH").unwrap();
    assert_eq!(oh.composition, vec![("O", 1), ("H", 1)]);
}

#[test]
fn ammonium_composition() {
    let ions = polyatomic_ions();
    let nh4 = ions.iter().find(|i| i.symbol == "NH₄").unwrap();
    assert_eq!(nh4.composition, vec![("N", 1), ("H", 4)]);
}

fn comp(pairs: &[(&str, i64)]) -> Composition {
    Composition::from_pairs(pairs)
}

#[test]
fn free_element_is_zero() {
    assert_eq!(oxidation_state(&comp(&[("Zn", 1)])), Some(comp(&[("Zn", 0)])));
    assert_eq!(oxidation_state(&comp(&[("O", 2)])), Some(comp(&[("O", 0)])));
}

#[test]
fn binary_ionic() {
    assert_eq!(oxidation_state(&comp(&[("Na", 1), ("Cl", 1)])), Some(comp(&[("Na", 1), ("Cl", -1)])));
    assert_eq!(oxidation_state(&comp(&[("Mg", 1), ("O", 1)])), Some(comp(&[("Mg", 2), ("O", -2)])));
}

#[test]
fn solve_by_difference() {
    assert_eq!(oxidation_state(&comp(&[("C", 1), ("O", 2)])), Some(comp(&[("C", 4), ("O", -2)])));
    assert_eq!(
        oxidation_state(&comp(&[("K", 1), ("Mn", 1), ("O", 4)])),
        Some(comp(&[("K", 1), ("Mn", 7), ("O", -2)]))
    );
    assert_eq!(oxidation_state(&comp(&[("Fe", 1), ("Cl", 3)])), Some(comp(&[("Fe", 3), ("Cl", -1)])));
}

#[test]
fn water_uses_element_rules() {
    assert_eq!(oxidation_state(&comp(&[("H", 2), ("O", 1)])), Some(comp(&[("H", 1), ("O", -2)])));
}

#[test]
fn polyatomic_factoring() {
    assert_eq!(
        oxidation_state(&comp(&[("Na", 1), ("O", 1), ("H", 1)])),
        Some(comp(&[("Na", 1), ("O", -2), ("H", 1)]))
    );
    assert_eq!(
        oxidation_state(&comp(&[("Na", 2), ("S", 1), ("O", 4)])),
        Some(comp(&[("Na", 1), ("S", 6), ("O", -2)]))
    );
    assert_eq!(
        oxidation_state(&comp(&[("Cu", 1), ("S", 1), ("O", 4)])),
        Some(comp(&[("Cu", 2), ("S", 6), ("O", -2)]))
    );
    assert_eq!(
        oxidation_state(&comp(&[("Na", 2), ("C", 1), ("O", 3)])),
        Some(comp(&[("Na", 1), ("C", 4), ("O", -2)]))
    );
    assert_eq!(
        oxidation_state(&comp(&[("N", 1), ("H", 4), ("Cl", 1)])),
        Some(comp(&[("N", -3), ("H", 1), ("Cl", -1)]))
    );
}

#[test]
fn assigned_states_balance_to_zero() {
    let compounds: [&[(&str, i64)]; 7] = [
        &[("Na", 2), ("S", 1), ("O", 4)],
        &[("Ca", 3), ("P", 2), ("O", 8)],
        &[("N", 1), ("H", 4), ("Cl", 1)],
        &[("Fe", 2), ("O", 3)],
        &[("Al", 2), ("S", 3), ("O", 12)],
        &[("C", 1), ("O", 2)],
        &[("H", 2), ("O", 1)],
    ];
    for c in compounds {
        let composition = comp(c);
        let states = oxidation_state(&composition).unwrap();
        let mut net = 0i64;
        for (sym, count) in composition.pairs() {
            net += states.get(&sym).unwrap() * count;
        }
        assert_eq!(net, 0, "{:?}", c);
    }
}

#[test]
fn indeterminate_returns_none() {
    assert_eq!(oxidation_state(&comp(&[("Cu", 1), ("S", 1)])), None);
}

#[test]
fn oxidation_states_of_a_neutral_compound_sum_to_zero() {
    let c = comp(&[("Fe", 2), ("O", 3)]);
    let st = oxidation_state(&c).unwrap();
    assert_eq!(st, comp(&[("Fe", 3), ("O", -2)]));
    let total: i64 = st.pairs().iter().map(|(s, v)| v * c.get(s).unwrap()).sum();
    assert_eq!(total, 0);
}

#[test]
fn composition_keeps_symbols_ordered_and_unique() {
    let mut c = Composition::new();
    c.insert("O".to_string(), 1);
    c.insert("H".to_string(), 2);
    c.insert("O".to_string(), 3);
    assert_eq!(c.pairs(), vec![("H".to_string(), 2), ("O".to_string(), 3)]);
    assert_eq!(c.get("O"), Some(3));
    c.remove("H");
    assert_eq!(c.len(), 1);
    assert!(!c.contains_key("H"));
}
