use periodic_table::activity_series::{displaces, halogen_activity_series, metal_activity_series};
use periodic_table::balancer::balance;
use periodic_table::classification::{period, ElementClass};
use periodic_table::composition::Composition;
use periodic_table::compound_reaction::{resolve_element, resolve_ion, solve_zones};
use periodic_table::config::{electron_configuration, Subshell};
use periodic_table::formula_text::crossover_subscripts;
use periodic_table::math::gcd;
use periodic_table::oxidation_state::oxidation_state;
use periodic_table::product_prediction::predict_products;
use periodic_table::reactant::make_reactant;
use periodic_table::reaction_class::ReactionClass;
use periodic_table::reaction_solver::solve_reaction;
use periodic_table::redox::OxidationChange;
use periodic_table::repository::atomic_number_error;
use periodic_table::species::Species;
use periodic_table::stoichiometry::balance_equation;

fn map(pairs: &[(&str, i64)]) -> Composition {
    Composition::from_pairs(pairs)
}

fn el(symbol: &str, class: ElementClass, charge: Option<i8>) -> Species {
    Species::new(symbol.to_string(), charge, class, false, 0, 0, 0, map(&[(symbol, 1)]))
}

fn keys(c: &Composition) -> Vec<String> {
    (0..c.len()).map(|i| c.entry(i).0).collect()
}

#[test]
fn reversing_a_reaction_swaps_the_coefficient_blocks() {
    let h2 = map(&[("H", 2)]);
    let o2 = map(&[("O", 2)]);
    let water = map(&[("H", 2), ("O", 1)]);
    let forward = balance(&[h2.clone(), o2.clone()], &[water.clone()]).unwrap();
    let backward = balance(&[water], &[h2, o2]).unwrap();
    assert_eq!(forward, vec![2, 1, 2]);
    assert_eq!(backward, vec![2, 2, 1]);
}

#[test]
fn exchanging_two_reactants_exchanges_their_coefficients() {
    let fe = map(&[("Fe", 1)]);
    let o2 = map(&[("O", 2)]);
    let rust = map(&[("Fe", 2), ("O", 3)]);
    let a = balance(&[fe.clone(), o2.clone()], &[rust.clone()]).unwrap();
    let b = balance(&[o2, fe], &[rust]).unwrap();
    assert_eq!(a, vec![4, 3, 2]);
    assert_eq!(b, vec![3, 4, 2]);
}

#[test]
fn the_balance_is_the_smallest_conserving_solution() {
    let c = balance(&[map(&[("H", 2)]), map(&[("O", 2)])], &[map(&[("H", 2), ("O", 1)])]).unwrap();
    // every other positive solution of 2 H₂ + O₂ → 2 H₂O is a whole multiple
    for k in 1..5i64 {
        let x: Vec<i64> = c.iter().map(|v| v * k).collect();
        assert!(x.iter().zip(c.iter()).all(|(a, b)| a >= b));
        assert_eq!(x[0] * 2, x[2] * 2);
        assert_eq!(x[1] * 2, x[2]);
    }
    assert_eq!(c, vec![2, 1, 2]);
}

#[test]
fn period_never_decreases_with_atomic_number() {
    let mut last = 1;
    for z in 1..=118u8 {
        let p = period(z).unwrap();
        assert!((1..=7).contains(&p));
        assert!(p >= last, "period drops at z = {}", z);
        last = p;
    }
    assert_eq!(period(46).unwrap(), 5);
    assert_eq!(period(118).unwrap(), 7);
}

#[test]
fn displacement_is_defined_both_ways_and_flips() {
    let mut symbols: Vec<&str> = metal_activity_series();
    symbols.extend(halogen_activity_series());
    symbols.push("Xe");
    for a in &symbols {
        for b in &symbols {
            let ab = displaces(a, b);
            let ba = displaces(b, a);
            assert_eq!(ab.is_some(), ba.is_some());
            if a != b {
                if let (Some(x), Some(y)) = (ab, ba) {
                    assert_eq!(x, !y);
                }
            } else {
                assert_ne!(ab, Some(true));
            }
        }
    }
    assert_eq!(displaces("Zn", "Cl"), None);
    assert_eq!(displaces("Cl", "Zn"), None);
}

#[test]
fn oxidation_states_name_exactly_the_elements() {
    for comp in [
        map(&[("H", 2), ("O", 1)]),
        map(&[("Na", 2), ("S", 1), ("O", 4)]),
        map(&[("K", 1), ("Mn", 1), ("O", 4)]),
        map(&[("Fe", 2), ("O", 3)]),
    ] {
        let states = oxidation_state(&comp).unwrap();
        assert_eq!(keys(&states), keys(&comp));
    }
}

#[test]
fn redox_changes_ascend_and_agents_follow_the_first_changes() {
    let zn = resolve_element("Zn", 30, Some(2)).unwrap();
    let cu = resolve_element("Cu", 29, Some(2)).unwrap();
    let so4 = resolve_ion("SO₄", None).unwrap();
    let sol = solve_zones(&[zn], &[cu, so4]).unwrap();
    assert!(sol.result.feasible);
    let redox = sol.redox.expect("a feasible reaction carries its redox analysis");
    assert!(redox.is_redox);
    let symbols: Vec<&str> = redox.changes.iter().map(|c| c.symbol.as_str()).collect();
    assert_eq!(symbols, vec!["Cu", "Zn"]);
    for c in &redox.changes {
        assert_ne!(c.before, c.after);
        assert_eq!(c.change == OxidationChange::Oxidised, c.after > c.before);
    }
    let first_reduced = redox.changes.iter().find(|c| c.change == OxidationChange::Reduced).unwrap();
    let first_oxidised = redox.changes.iter().find(|c| c.change == OxidationChange::Oxidised).unwrap();
    assert_eq!(redox.oxidising_agent.as_deref(), Some(first_reduced.reactant_formula.as_str()));
    assert_eq!(redox.reducing_agent.as_deref(), Some(first_oxidised.reactant_formula.as_str()));
    let mut seen = redox.indeterminate.clone();
    seen.dedup();
    assert_eq!(seen.len(), redox.indeterminate.len());
}

fn madelung_key(n: u8, sub: Subshell) -> (u8, u8) {
    let l = match sub {
        Subshell::S => 0,
        Subshell::P => 1,
        Subshell::D => 2,
        Subshell::F => 3,
    };
    (n + l, n)
}

fn capacity(sub: Subshell) -> u8 {
    match sub {
        Subshell::S => 2,
        Subshell::P => 6,
        Subshell::D => 10,
        Subshell::F => 14,
    }
}

#[test]
fn configurations_respect_capacity_and_madelung_order() {
    for z in 1..=118u8 {
        let config = electron_configuration(z).unwrap();
        for o in &config.orbitals {
            assert!(o.electrons >= 1 && o.electrons <= capacity(o.subshell), "z = {}", z);
        }
        for w in config.orbitals.windows(2) {
            assert!(madelung_key(w[0].n, w[0].subshell) < madelung_key(w[1].n, w[1].subshell), "z = {}", z);
        }
    }
}

#[test]
fn single_displacement_ignores_reactant_order() {
    let zn = make_reactant(&[el("Zn", ElementClass::Metal, Some(2))]);
    let so4 = Species::new("SO₄".to_string(), Some(-2), ElementClass::NonMetal, true, 0, 0, 0, map(&[("S", 1), ("O", 4)]));
    let cuso4 = make_reactant(&[el("Cu", ElementClass::Metal, Some(2)), so4]);
    let a = predict_products(ReactionClass::SingleDisplacement, &zn, &cuso4);
    let b = predict_products(ReactionClass::SingleDisplacement, &cuso4, &zn);
    assert_eq!(a, b);
}

#[test]
fn sodium_and_chlorine_balance_to_two_one_two() {
    let na = make_reactant(&[el("Na", ElementClass::Metal, Some(1))]);
    let cl = make_reactant(&[el("Cl", ElementClass::NonMetal, Some(-1))]);
    let r = solve_reaction(&na, &cl).expect("a balance exists");
    assert!(r.feasible);
    assert_eq!(r.reactants[0].coeff, 2);
    assert_eq!(r.reactants[1].coeff, 1);
    assert_eq!(r.products[0].coeff, 2);
}

#[test]
fn crossover_subscripts_share_no_factor() {
    for (cc, ac) in [(1i64, -1i64), (2, -1), (3, -2), (2, -2), (4, -2), (6, -4)] {
        let (a, b) = crossover_subscripts(cc, ac);
        assert_eq!(a * cc + b * ac, 0);
        assert_eq!(gcd(a, b), 1);
    }
}

#[test]
fn binary_synthesis_balances_for_the_largest_subscripts() {
    let big = u32::MAX as i64;
    let e = balance_equation(big, 2, big, 1);
    assert!(e.coeff_a > 0 && e.coeff_b > 0 && e.coeff_product > 0);
}

#[test]
fn atomic_number_range_check() {
    assert_eq!(atomic_number_error(1), None);
    assert_eq!(atomic_number_error(118), None);
    assert_eq!(atomic_number_error(0), Some("atomic_number 0 out of range 1..=118".to_string()));
    assert_eq!(atomic_number_error(119), Some("atomic_number 119 out of range 1..=118".to_string()));
}
