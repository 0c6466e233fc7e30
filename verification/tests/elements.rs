use periodic_table::classification::{
    block, category, element_class, group, oxidation_states, period, Block, Category, ElementClass,
};
use periodic_table::config::{electron_configuration, Subshell};
use periodic_table::error::DomainError;
use periodic_table::output::superscript_electrons;
use periodic_table::valence::{
    group_to_valence_fallback, is_transition_metal, parse_valence_electrons, try_parse_valence_electrons,
};

#[test]
fn invalid_atomic_number_errors() {
    assert_eq!(electron_configuration(0), Err(DomainError::InvalidAtomicNumber(0)));
    assert_eq!(electron_configuration(119), Err(DomainError::InvalidAtomicNumber(119)));
}

#[test]
fn hydrogen_and_helium() {
    assert_eq!(electron_configuration(1).unwrap().to_string(), "1s1");
    assert_eq!(electron_configuration(2).unwrap().to_string(), "1s2");
}

#[test]
fn iron_uses_standard_order() {
    assert_eq!(electron_configuration(26).unwrap().to_string(), "1s2 2s2 2p6 3s2 3p6 3d6 4s2");
}

#[test]
fn neon_is_filled() {
    assert_eq!(electron_configuration(10).unwrap().to_string(), "1s2 2s2 2p6");
}

#[test]
fn chromium_anomaly() {
    assert_eq!(electron_configuration(24).unwrap().to_string(), "1s2 2s2 2p6 3s2 3p6 3d5 4s1");
}

#[test]
fn copper_anomaly() {
    assert_eq!(electron_configuration(29).unwrap().to_string(), "1s2 2s2 2p6 3s2 3p6 3d10 4s1");
}

#[test]
fn palladium_anomaly_drops_5s() {
    assert_eq!(
        electron_configuration(46).unwrap().to_string(),
        "1s2 2s2 2p6 3s2 3p6 3d10 4s2 4p6 4d10"
    );
}

#[test]
fn oxygen_has_two_unpaired() {
    assert_eq!(electron_configuration(8).unwrap().unpaired_electrons(), 2);
}

#[test]
fn oganesson_fills_to_118() {
    let config = electron_configuration(118).unwrap();
    let total: u16 = config.orbitals.iter().map(|o| o.electrons as u16).sum();
    assert_eq!(total, 118);
    assert_eq!(config.electrons_in(7, Subshell::P), 6);
}

#[test]
fn every_element_holds_its_atomic_number_of_electrons() {
    for z in 1u8..=118 {
        let config = electron_configuration(z).unwrap();
        let total: u16 = config.orbitals.iter().map(|o| o.electrons as u16).sum();
        assert_eq!(total, z as u16, "z={z}");
        for o in &config.orbitals {
            assert!(o.electrons <= o.subshell.capacity());
        }
    }
}

#[test]
fn blocks() {
    assert_eq!(block(2).unwrap(), Block::S);
    assert_eq!(block(11).unwrap(), Block::S);
    assert_eq!(block(26).unwrap(), Block::D);
    assert_eq!(block(9).unwrap(), Block::P);
    assert_eq!(block(60).unwrap(), Block::F);
}

#[test]
fn periods() {
    assert_eq!(period(1).unwrap(), 1);
    assert_eq!(period(11).unwrap(), 3);
    assert_eq!(period(26).unwrap(), 4);
    assert_eq!(period(46).unwrap(), 5);
    assert_eq!(period(60).unwrap(), 6);
}

#[test]
fn groups_main_block() {
    assert_eq!(group(1).unwrap(), 1);
    assert_eq!(group(2).unwrap(), 18);
    assert_eq!(group(3).unwrap(), 1);
    assert_eq!(group(4).unwrap(), 2);
    assert_eq!(group(8).unwrap(), 16);
    assert_eq!(group(9).unwrap(), 17);
    assert_eq!(group(10).unwrap(), 18);
    assert_eq!(group(5).unwrap(), 13);
}

#[test]
fn groups_transition_block() {
    assert_eq!(group(21).unwrap(), 3);
    assert_eq!(group(26).unwrap(), 8);
    assert_eq!(group(30).unwrap(), 12);
    assert_eq!(group(24).unwrap(), 6);
    assert_eq!(group(29).unwrap(), 11);
    assert_eq!(group(46).unwrap(), 10);
}

#[test]
fn groups_f_block_uses_convention() {
    assert_eq!(group(60).unwrap(), 3);
    assert_eq!(group(92).unwrap(), 3);
}

#[test]
fn lanthanide_actinide_boundary() {
    assert_eq!(block(57).unwrap(), Block::F);
    assert_eq!(period(57).unwrap(), 6);
    assert_eq!(group(57).unwrap(), 3);
    assert_eq!(category(57).unwrap(), Category::Lanthanide);
    assert_eq!(block(103).unwrap(), Block::D);
    assert_eq!(period(103).unwrap(), 7);
    assert_eq!(group(103).unwrap(), 3);
    assert_eq!(category(103).unwrap(), Category::Actinide);
}

#[test]
fn invalid_z_errors() {
    assert_eq!(block(0), Err(DomainError::InvalidAtomicNumber(0)));
    assert_eq!(period(200), Err(DomainError::InvalidAtomicNumber(200)));
    assert_eq!(group(0), Err(DomainError::InvalidAtomicNumber(0)));
}

#[test]
fn invalid_z_message() {
    assert_eq!(
        DomainError::InvalidAtomicNumber(0).message(),
        "invalid atomic number: 0 (must be 1..=118)"
    );
}

#[test]
fn categories() {
    assert_eq!(category(1).unwrap(), Category::ReactiveNonmetal);
    assert_eq!(category(2).unwrap(), Category::NobleGas);
    assert_eq!(category(11).unwrap(), Category::AlkaliMetal);
    assert_eq!(category(12).unwrap(), Category::AlkalineEarthMetal);
    assert_eq!(category(26).unwrap(), Category::TransitionMetal);
    assert_eq!(category(5).unwrap(), Category::Metalloid);
    assert_eq!(category(17).unwrap(), Category::Halogen);
    assert_eq!(category(10).unwrap(), Category::NobleGas);
    assert_eq!(category(13).unwrap(), Category::PostTransitionMetal);
    assert_eq!(category(8).unwrap(), Category::ReactiveNonmetal);
    assert_eq!(category(60).unwrap(), Category::Lanthanide);
    assert_eq!(category(92).unwrap(), Category::Actinide);
}

#[test]
fn oxidation_states_main_group() {
    assert_eq!(oxidation_states(11).unwrap().0, vec![1]);
    assert_eq!(oxidation_states(12).unwrap().0, vec![2]);
    assert_eq!(oxidation_states(8).unwrap().0, vec![-2]);
    assert_eq!(oxidation_states(9).unwrap().0, vec![-1]);
    assert_eq!(oxidation_states(10).unwrap().0, vec![0]);
    assert_eq!(oxidation_states(5).unwrap().0, vec![3]);
    assert_eq!(oxidation_states(6).unwrap().0, vec![-4, 4]);
    assert_eq!(oxidation_states(7).unwrap().0, vec![-3, 3, 5]);
    assert_eq!(oxidation_states(26).unwrap().0, vec![2, 3]);
    assert!(oxidation_states(0).is_err());
}

#[test]
fn element_class_hydrogen_exception() {
    assert_eq!(element_class(1).unwrap(), ElementClass::NonMetal);
}

#[test]
fn element_class_halogens_and_noble_gases() {
    assert_eq!(element_class(17).unwrap(), ElementClass::NonMetal);
    assert_eq!(element_class(35).unwrap(), ElementClass::NonMetal);
    assert_eq!(element_class(2).unwrap(), ElementClass::NonMetal);
    assert_eq!(element_class(10).unwrap(), ElementClass::NonMetal);
}

#[test]
fn element_class_lanthanides_and_actinides() {
    assert_eq!(element_class(57).unwrap(), ElementClass::Metal);
    assert_eq!(element_class(71).unwrap(), ElementClass::Metal);
    assert_eq!(element_class(89).unwrap(), ElementClass::Metal);
    assert_eq!(element_class(92).unwrap(), ElementClass::Metal);
    assert_eq!(element_class(103).unwrap(), ElementClass::Metal);
}

#[test]
fn element_class_metalloids() {
    for &z in &[5u8, 14, 32, 33, 51, 52, 84] {
        assert_eq!(element_class(z).unwrap(), ElementClass::Metalloid, "z={z}");
    }
    assert_eq!(element_class(85).unwrap(), ElementClass::NonMetal);
}

#[test]
fn element_class_nonmetals_above_staircase() {
    assert_eq!(element_class(6).unwrap(), ElementClass::NonMetal);
    assert_eq!(element_class(7).unwrap(), ElementClass::NonMetal);
    assert_eq!(element_class(8).unwrap(), ElementClass::NonMetal);
    assert_eq!(element_class(15).unwrap(), ElementClass::NonMetal);
    assert_eq!(element_class(16).unwrap(), ElementClass::NonMetal);
    assert_eq!(element_class(34).unwrap(), ElementClass::NonMetal);
}

#[test]
fn element_class_metals() {
    assert_eq!(element_class(11).unwrap(), ElementClass::Metal);
    assert_eq!(element_class(12).unwrap(), ElementClass::Metal);
    assert_eq!(element_class(26).unwrap(), ElementClass::Metal);
    assert_eq!(element_class(79).unwrap(), ElementClass::Metal);
}

#[test]
fn element_class_invalid_z() {
    assert!(element_class(0).is_err());
    assert!(element_class(119).is_err());
}

#[test]
fn fallback() {
    assert_eq!(group_to_valence_fallback(1), 1);
    assert_eq!(group_to_valence_fallback(2), 2);
    assert_eq!(group_to_valence_fallback(14), 4);
    assert_eq!(group_to_valence_fallback(17), 7);
    assert_eq!(group_to_valence_fallback(8), 0);
}

#[test]
fn transition_metal_range() {
    assert!(is_transition_metal(3));
    assert!(is_transition_metal(12));
    assert!(!is_transition_metal(2));
    assert!(!is_transition_metal(13));
}

#[test]
fn parse_highest_shell() {
    assert_eq!(parse_valence_electrons("1s2 2s2 2p6 3s1", 1), 1);
    assert_eq!(parse_valence_electrons("1s2 2s2 2p6 3s2 3p5", 17), 7);
    assert_eq!(parse_valence_electrons("1s2 2s2 2p6 3s2 3p6 3d6 4s2", 8), 2);
}

#[test]
fn strips_noble_gas_prefix() {
    assert_eq!(parse_valence_electrons("[Ne] 3s2 3p3", 15), 5);
}

#[test]
fn empty_falls_back_to_group() {
    assert_eq!(parse_valence_electrons("", 16), 6);
    assert_eq!(parse_valence_electrons("[Ar]", 16), 6);
}

#[test]
fn unparseable_tokens_fall_back() {
    assert_eq!(parse_valence_electrons("xx yy", 13), 3);
}

#[test]
fn valence_reads_tabs_and_repeated_spaces_as_separators() {
    assert_eq!(parse_valence_electrons("1s2\t2s2   2p6  3s2 3p5", 17), 7);
}

#[test]
fn valence_count_that_overflows_is_refused() {
    assert_eq!(try_parse_valence_electrons("1s200 1s100", 1), None);
    assert_eq!(try_parse_valence_electrons("1s2 2s1", 1), Some(1));
}

#[test]
fn superscripts_only_subshell_occupancies() {
    assert_eq!(superscript_electrons("1s2 2s2 2p6 3s2 3p6 3d6 4s2"), "1s² 2s² 2p⁶ 3s² 3p⁶ 3d⁶ 4s²");
}

#[test]
fn handles_two_digit_occupancies() {
    assert_eq!(superscript_electrons("4d10"), "4d¹⁰");
}
