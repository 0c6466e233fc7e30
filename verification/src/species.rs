//! One placed species: a neutral element or a (poly)atomic ion.
use crate::classification::ElementClass;
use crate::composition::Composition;
use vstd::prelude::*;

verus! {

/// One placed species: a neutral element or a (poly)atomic ion. Its atomic
/// (or ionic) mass is kept by the caller, which weighs a reactant by the
/// species' multiplicities.
#[derive(Debug, Clone, PartialEq, Eq)]
pub struct Species {
    pub symbol: String,
    pub charge: Option<i8>,
    pub element_class: ElementClass,
    pub is_polyatomic: bool,
    pub valence_electrons: u8,
    pub group: u8,
    pub period: u8,
    pub composition: Composition,
}

/// What a species is, as plain values.
pub struct SpeciesModel {
    pub symbol: Seq<char>,
    pub charge: Option<i8>,
    pub element_class: ElementClass,
    pub is_polyatomic: bool,
    pub valence_electrons: u8,
    pub group: u8,
    pub period: u8,
    pub composition: Seq<(Seq<char>, i64)>,
}

impl View for Species {
    type V = SpeciesModel;

    open spec fn view(&self) -> SpeciesModel {
        SpeciesModel {
            symbol: self.symbol@,
            charge: self.charge,
            element_class: self.element_class,
            is_polyatomic: self.is_polyatomic,
            valence_electrons: self.valence_electrons,
            group: self.group,
            period: self.period,
            composition: self.composition@,
        }
    }
}

/// The models of a sequence of species.
pub open spec fn species_models(s: Seq<Species>) -> Seq<SpeciesModel> {
    s.map_values(|x: Species| x@)
}

impl Species {
    /// The composition is well formed.
    pub open spec fn wf(&self) -> bool {
        self.composition.wf()
    }

    /// A species from its parts.
    pub fn new(
        symbol: String,
        charge: Option<i8>,
        element_class: ElementClass,
        is_polyatomic: bool,
        valence_electrons: u8,
        group: u8,
        period: u8,
        composition: Composition,
    ) -> (s: Species)
        ensures
            s.symbol@ == symbol@,
            s.charge == charge,
            s.element_class == element_class,
            s.is_polyatomic == is_polyatomic,
            s.valence_electrons == valence_electrons,
            s.group == group,
            s.period == period,
            s.composition@ == composition@,
    {
        Species {
            symbol,
            charge,
            element_class,
            is_polyatomic,
            valence_electrons,
            group,
            period,
            composition,
        }
    }

    /// A copy of the species.
    pub fn duplicate(&self) -> (c: Species)
        ensures
            c@ == self@,
            self.wf() ==> c.wf(),
    {
        Species {
            symbol: self.symbol.clone(),
            charge: self.charge,
            element_class: self.element_class,
            is_polyatomic: self.is_polyatomic,
            valence_electrons: self.valence_electrons,
            group: self.group,
            period: self.period,
            composition: self.composition.duplicate(),
        }
    }
}

/// A copy of every species in the slice.
pub fn copy_species(s: &[Species]) -> (v: Vec<Species>)
    ensures
        species_models(v@) == species_models(s@),
        v@.len() == s@.len(),
        (forall|j: int| 0 <= j < s@.len() ==> (#[trigger] s@[j]).wf()) ==> forall|i: int|
            0 <= i < v@.len() ==> (#[trigger] v@[i]).wf(),
{
    let mut v: Vec<Species> = Vec::new();
    let mut i: usize = 0;
    while i < s.len()
        invariant
            i <= s@.len(),
            v@.len() == i,
            forall|j: int| 0 <= j < i ==> (#[trigger] v@[j])@ == s@[j]@,
            forall|j: int| 0 <= j < i && (#[trigger] s@[j]).wf() ==> v@[j].wf(),
        decreases s@.len() - i,
    {
        v.push(s[i].duplicate());
        i = i + 1;
    }
    assert(species_models(v@) =~= species_models(s@));
    v
}

} // verus!
