use periodic_table::composition::Composition;
use periodic_table::element::StateOfMatter;
use periodic_table::element_reaction::element_facts;
use periodic_table::compound_reaction::resolve_element;
use periodic_table::math::gcd_checked;
use periodic_table::oxidation_state::{oxidation_fits_exec, oxidation_state};
use periodic_table::stoichiometry::{balance_equation, balance_equation_fits};
use periodic_table::valence::try_parse_valence_electrons;

fn map(pairs: &[(&str, i64)]) -> Composition {
    Composition::from_pairs(pairs)
}

#[test]
fn every_element_has_readable_facts() {
    for z in 1..=118u8 {
        assert!(element_facts("X", z, StateOfMatter::Solid).is_some(), "z = {}", z);
        assert!(resolve_element("X", z, None).is_some(), "z = {}", z);
    }
    assert!(element_facts("X", 0, StateOfMatter::Solid).is_none());
    assert!(element_facts("X", 119, StateOfMatter::Solid).is_none());
}

#[test]
fn oxidation_fits_tracks_the_i64_range() {
    assert!(oxidation_fits_exec(&map(&[("H", 2), ("O", 1)])));
    assert!(oxidation_fits_exec(&map(&[("Fe", 2), ("O", 3)])));
    assert!(oxidation_fits_exec(&map(&[("O", 1_000_000_000_000)])));
    // O at −2 times i64::MAX leaves i64
    assert!(!oxidation_fits_exec(&map(&[("Fe", 1), ("O", i64::MAX)])));
    // an unknown element counted zero times cannot be solved for
    assert!(!oxidation_fits_exec(&map(&[("Fe", 0), ("O", 1)])));
    assert_eq!(oxidation_state(&map(&[("Fe", 2), ("O", 3)])), Some(map(&[("Fe", 3), ("O", -2)])));
}

#[test]
fn balance_equation_fits_marks_overflow() {
    assert!(balance_equation_fits(2, 1, 1, 2));
    assert!(balance_equation_fits(u32::MAX as i64, 2, u32::MAX as i64, 1));
    assert!(!balance_equation_fits(i64::MAX, 2, 1, 1));
    assert!(!balance_equation_fits(1, 0, 1, 1));
    let e = balance_equation(2, 1, 1, 2);
    assert_eq!((e.coeff_a, e.coeff_b, e.coeff_product), (4, 1, 2));
}

#[test]
fn checked_gcd() {
    assert_eq!(gcd_checked(12, 8), Some(4));
    assert_eq!(gcd_checked(5, 0), Some(5));
    assert_eq!(gcd_checked(i64::MIN, -1), None);
}

#[test]
fn unicode_whitespace_separates_subshells() {
    assert_eq!(try_parse_valence_electrons("3s2\u{3000}3p1", 13), Some(3));
    assert_eq!(try_parse_valence_electrons("[Ne]\u{a0}3s2 3p4", 16), Some(6));
    // a zero-width space is not whitespace: the text reads as one unparseable word
    assert_eq!(try_parse_valence_electrons("3s2\u{200b}3p1", 14), Some(4));
}
