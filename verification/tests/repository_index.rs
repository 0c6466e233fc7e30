use periodic_table::repository::{build_index, ElementKey, IndexError};

fn key(z: u8, symbol: &str, name: &str) -> ElementKey {
    ElementKey { atomic_number: z, symbol: symbol.to_string(), name: name.to_string() }
}

#[test]
fn empty_dir_errors() {
    assert_eq!(build_index(&[]), Err(IndexError::Empty));
}

#[test]
fn duplicate_atomic_number_errors() {
    let keys = [key(1, "H", "Hydrogen"), key(1, "P", "Protium")];
    assert_eq!(build_index(&keys), Err(IndexError::DuplicateAtomicNumber(1)));
}

#[test]
fn duplicate_symbol_errors() {
    let keys = [key(1, "X", "Aaa"), key(2, "X", "Bbb")];
    assert!(matches!(build_index(&keys), Err(IndexError::DuplicateSymbol(_))));
}

#[test]
fn duplicate_name_errors() {
    let keys = [key(1, "Aa", "Same"), key(2, "Bb", "Same")];
    assert!(matches!(build_index(&keys), Err(IndexError::DuplicateName(_))));
}

#[test]
fn distinct_keys_index_in_atomic_number_order() {
    let keys = [key(26, "Fe", "Iron"), key(1, "H", "Hydrogen")];
    let idx = build_index(&keys).unwrap();
    assert_eq!(idx.order, vec![1, 0]);
    assert_eq!(idx.numbers, vec![1, 26]);
}

#[test]
fn symbols_differing_only_in_case_are_duplicates() {
    let keys = [key(1, "Xx", "Aaa"), key(2, "XX", "Bbb")];
    assert!(matches!(build_index(&keys), Err(IndexError::DuplicateSymbol(_))));
}
