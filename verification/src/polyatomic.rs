//! The common polyatomic ions offered as compound reactants.
use vstd::prelude::*;

verus! {

/// A polyatomic ion: a charged group of covalently bonded atoms.
#[derive(Debug, Clone, PartialEq, Eq)]
pub struct PolyatomicIon {
    /// Bare atom-group symbol, e.g. `"SO₄"`.
    pub symbol: &'static str,
    pub name: &'static str,
    pub charge: i8,
    /// Display formula including the charge, e.g. `"SO₄²⁻"`.
    pub formula: &'static str,
    /// Element composition as (element symbol, atom count).
    pub composition: Vec<(&'static str, u8)>,
}

/// What the reaction engine reads of an ion: its symbol, its charge and its
/// composition.
pub open spec fn ion_view(ion: PolyatomicIon) -> (Seq<char>, int, Seq<(Seq<char>, int)>) {
    (ion.symbol@, ion.charge as int, ion.composition@.map_values(|e: (&str, u8)| (e.0@, e.1 as int)))
}

/// The six common polyatomic ions: hydroxide, nitrate, sulfate, carbonate,
/// phosphate and ammonium.
pub open spec fn ion_table() -> Seq<(Seq<char>, int, Seq<(Seq<char>, int)>)> {
    seq![
        ("OH"@, -1int, seq![("O"@, 1int), ("H"@, 1int)]),
        ("NO₃"@, -1int, seq![("N"@, 1int), ("O"@, 3int)]),
        ("SO₄"@, -2int, seq![("S"@, 1int), ("O"@, 4int)]),
        ("CO₃"@, -2int, seq![("C"@, 1int), ("O"@, 3int)]),
        ("PO₄"@, -3int, seq![("P"@, 1int), ("O"@, 4int)]),
        ("NH₄"@, 1int, seq![("N"@, 1int), ("H"@, 4int)]),
    ]
}

/// The ions' names, in table order.
pub open spec fn ion_names() -> Seq<Seq<char>> {
    seq!["Hydroxide"@, "Nitrate"@, "Sulfate"@, "Carbonate"@, "Phosphate"@, "Ammonium"@]
}

/// The ions' display formulas with their charges, in table order.
pub open spec fn ion_formulas() -> Seq<Seq<char>> {
    seq!["OH⁻"@, "NO₃⁻"@, "SO₄²⁻"@, "CO₃²⁻"@, "PO₄³⁻"@, "NH₄⁺"@]
}

/// The six common polyatomic ions.
pub fn polyatomic_ions() -> (r: Vec<PolyatomicIon>)
    ensures
        r@.len() == 6,
        forall|i: int| 0 <= i < 6 ==> ion_view(#[trigger] r@[i]) == ion_table()[i],
        forall|i: int| 0 <= i < 6 ==> (#[trigger] r@[i]).name@ == ion_names()[i] && r@[i].formula@ == ion_formulas()[i],
{
    let r = vec![
        PolyatomicIon {
            symbol: "OH",
            name: "Hydroxide",
            charge: -1,
            formula: "OH⁻",
            composition: vec![("O", 1), ("H", 1)],
        },
        PolyatomicIon {
            symbol: "NO₃",
            name: "Nitrate",
            charge: -1,
            formula: "NO₃⁻",
            composition: vec![("N", 1), ("O", 3)],
        },
        PolyatomicIon {
            symbol: "SO₄",
            name: "Sulfate",
            charge: -2,
            formula: "SO₄²⁻",
            composition: vec![("S", 1), ("O", 4)],
        },
        PolyatomicIon {
            symbol: "CO₃",
            name: "Carbonate",
            charge: -2,
            formula: "CO₃²⁻",
            composition: vec![("C", 1), ("O", 3)],
        },
        PolyatomicIon {
            symbol: "PO₄",
            name: "Phosphate",
            charge: -3,
            formula: "PO₄³⁻",
            composition: vec![("P", 1), ("O", 4)],
        },
        PolyatomicIon {
            symbol: "NH₄",
            name: "Ammonium",
            charge: 1,
            formula: "NH₄⁺",
            composition: vec![("N", 1), ("H", 4)],
        },
    ];
    proof {
        assert forall|i: int| 0 <= i < 6 implies ion_view(#[trigger] r@[i]) == ion_table()[i] by {
            let f = |e: (&str, u8)| (e.0@, e.1 as int);
            if i == 0 {
                assert(r@[0].composition@.map_values(f) =~= ion_table()[0].2);
            } else if i == 1 {
                assert(r@[1].composition@.map_values(f) =~= ion_table()[1].2);
            } else if i == 2 {
                assert(r@[2].composition@.map_values(f) =~= ion_table()[2].2);
            } else if i == 3 {
                assert(r@[3].composition@.map_values(f) =~= ion_table()[3].2);
            } else if i == 4 {
                assert(r@[4].composition@.map_values(f) =~= ion_table()[4].2);
            } else {
                assert(r@[5].composition@.map_values(f) =~= ion_table()[5].2);
            }
        }
    }
    r
}

} // verus!
