//! Periodic-table placement and chemistry heuristics derived from the
//! electron configuration.
use crate::config::{
    aufbau, aufbau_fill, electron_configuration, electrons_of, ground_state, valid_z, Orbital,
    Subshell,
};
use crate::error::DomainError;
use crate::laws_config::{lemma_aufbau_shape, lemma_ground_state_bounded};
use vstd::prelude::*;

verus! {

/// The block of the periodic table.
#[derive(Debug, Clone, Copy, PartialEq, Eq, Structural)]
pub enum Block {
    S,
    P,
    D,
    F,
}

/// The block named after a subshell.
pub open spec fn block_of_subshell(s: Subshell) -> Block {
    match s {
        Subshell::S => Block::S,
        Subshell::P => Block::P,
        Subshell::D => Block::D,
        Subshell::F => Block::F,
    }
}

impl Block {
    /// The block named after a subshell.
    pub fn from_subshell(s: Subshell) -> (b: Block)
        ensures
            b == block_of_subshell(s),
    {
        match s {
            Subshell::S => Block::S,
            Subshell::P => Block::P,
            Subshell::D => Block::D,
            Subshell::F => Block::F,
        }
    }
}

/// A heuristic element category. Not authoritative — see the spec caveats.
#[derive(Debug, Clone, Copy, PartialEq, Eq, Structural)]
pub enum Category {
    AlkaliMetal,
    AlkalineEarthMetal,
    TransitionMetal,
    PostTransitionMetal,
    Metalloid,
    ReactiveNonmetal,
    NobleGas,
    Halogen,
    Lanthanide,
    Actinide,
}

/// Broad three-way element classification used for UI colour-coding.
#[derive(Debug, Clone, Copy, PartialEq, Eq, Structural)]
pub enum ElementClass {
    Metal,
    NonMetal,
    Metalloid,
}

/// The block, from the subshell of the last orbital of the naive fill.
pub open spec fn block_of(z: nat) -> Block {
    block_of_subshell(aufbau(z).last().subshell)
}

/// The largest principal quantum number in a sequence of subshells (0 if empty).
pub open spec fn max_n(s: Seq<Orbital>) -> nat
    decreases s.len(),
{
    if s.len() == 0 {
        0
    } else {
        let m = max_n(s.drop_last());
        if s.last().n > m {
            s.last().n as nat
        } else {
            m
        }
    }
}

/// The period: the highest principal quantum number of the naive fill.
pub open spec fn period_of(z: nat) -> nat {
    max_n(aufbau(z))
}

/// The group 1..=18; f-block elements are assigned group 3 by convention.
pub open spec fn group_of(z: nat) -> int {
    if z == 1 {
        1
    } else if z == 2 {
        18
    } else {
        let c = ground_state(z);
        let p = period_of(z) as u8;
        match block_of(z) {
            Block::S => electrons_of(c, p, Subshell::S),
            Block::P => 12 + electrons_of(c, p, Subshell::P),
            Block::D => electrons_of(c, (p - 1) as u8, Subshell::D) + electrons_of(c, p, Subshell::S),
            Block::F => 3,
        }
    }
}

/// The seven metalloids of the three-way classification: B Si Ge As Sb Te Po.
pub open spec fn is_class_metalloid(z: int) -> bool {
    z == 5 || z == 14 || z == 32 || z == 33 || z == 51 || z == 52 || z == 84
}

/// The metalloids of the category heuristic: B Si Ge As Sb Te At.
pub open spec fn is_category_metalloid(z: int) -> bool {
    z == 5 || z == 14 || z == 32 || z == 33 || z == 51 || z == 52 || z == 85
}

/// Post-transition metals of the category heuristic.
pub open spec fn is_post_transition(z: int) -> bool {
    z == 13 || z == 31 || z == 49 || z == 50 || z == 81 || z == 82 || z == 83 || z == 84 || z
        == 113 || z == 114 || z == 115 || z == 116
}

/// Metal / NonMetal / Metalloid, by the staircase rule.
pub open spec fn element_class_of(z: nat) -> ElementClass {
    let g = group_of(z);
    let p = period_of(z);
    if z == 1 {
        ElementClass::NonMetal
    } else if g == 17 || g == 18 {
        ElementClass::NonMetal
    } else if (57 <= z <= 71) || (89 <= z <= 103) {
        ElementClass::Metal
    } else if is_class_metalloid(z as int) {
        ElementClass::Metalloid
    } else if p == 2 && 14 <= g <= 16 {
        ElementClass::NonMetal
    } else if p == 3 && 15 <= g <= 16 {
        ElementClass::NonMetal
    } else if p == 4 && g == 16 {
        ElementClass::NonMetal
    } else {
        ElementClass::Metal
    }
}

/// The category heuristic, from group, block and atomic number.
pub open spec fn category_of(z: nat) -> Category {
    let g = group_of(z);
    if 57 <= z <= 71 {
        Category::Lanthanide
    } else if 89 <= z <= 103 {
        Category::Actinide
    } else if g == 18 {
        Category::NobleGas
    } else if g == 1 && z != 1 {
        Category::AlkaliMetal
    } else if g == 2 {
        Category::AlkalineEarthMetal
    } else if g == 17 {
        Category::Halogen
    } else if block_of(z) == Block::D {
        Category::TransitionMetal
    } else if is_category_metalloid(z as int) {
        Category::Metalloid
    } else if is_post_transition(z as int) {
        Category::PostTransitionMetal
    } else {
        Category::ReactiveNonmetal
    }
}

/// The heuristic oxidation states of a group.
pub open spec fn oxidation_states_of_group(g: int) -> Seq<i8> {
    if g == 1 {
        seq![1i8]
    } else if g == 2 {
        seq![2i8]
    } else if 3 <= g <= 12 {
        seq![2i8, 3i8]
    } else if g == 13 {
        seq![3i8]
    } else if g == 14 {
        seq![-4i8, 4i8]
    } else if g == 15 {
        seq![-3i8, 3i8, 5i8]
    } else if g == 16 {
        seq![-2i8]
    } else if g == 17 {
        seq![-1i8]
    } else {
        seq![0i8]
    }
}

fn validate_z(z: u8) -> (r: Result<(), DomainError>)
    ensures
        r is Ok <==> valid_z(z as int),
        r matches Err(e) ==> e == DomainError::InvalidAtomicNumber(z as u16),
{
    if 1 <= z && z <= 118 {
        Ok(())
    } else {
        Err(DomainError::InvalidAtomicNumber(z as u16))
    }
}

/// Broad Metal / NonMetal / Metalloid classification derived from atomic number.
pub fn element_class(z: u8) -> (r: Result<ElementClass, DomainError>)
    ensures
        r matches Ok(c) ==> valid_z(z as int) && c == element_class_of(z as nat),
        r matches Err(e) ==> !valid_z(z as int) && e == DomainError::InvalidAtomicNumber(z as u16),
        r is Ok <==> valid_z(z as int),
{
    let g = group(z)?;
    if z == 1 {
        return Ok(ElementClass::NonMetal);
    }
    if g == 17 || g == 18 {
        return Ok(ElementClass::NonMetal);
    }
    if (57 <= z && z <= 71) || (89 <= z && z <= 103) {
        return Ok(ElementClass::Metal);
    }
    if z == 5 || z == 14 || z == 32 || z == 33 || z == 51 || z == 52 || z == 84 {
        return Ok(ElementClass::Metalloid);
    }
    let p = period(z)?;
    if p == 2 && 14 <= g && g <= 16 {
        return Ok(ElementClass::NonMetal);
    }
    if p == 3 && 15 <= g && g <= 16 {
        return Ok(ElementClass::NonMetal);
    }
    if p == 4 && g == 16 {
        return Ok(ElementClass::NonMetal);
    }
    Ok(ElementClass::Metal)
}

/// Best-effort element category derived from group, block, and atomic number.
pub fn category(z: u8) -> (r: Result<Category, DomainError>)
    ensures
        r matches Ok(c) ==> valid_z(z as int) && c == category_of(z as nat),
        r matches Err(e) ==> !valid_z(z as int) && e == DomainError::InvalidAtomicNumber(z as u16),
        r is Ok <==> valid_z(z as int),
{
    validate_z(z)?;
    let g = group(z)?;
    let b = block(z)?;
    let c = if 57 <= z && z <= 71 {
        Category::Lanthanide
    } else if 89 <= z && z <= 103 {
        Category::Actinide
    } else if g == 18 {
        Category::NobleGas
    } else if g == 1 && z != 1 {
        Category::AlkaliMetal
    } else if g == 2 {
        Category::AlkalineEarthMetal
    } else if g == 17 {
        Category::Halogen
    } else if b == Block::D {
        Category::TransitionMetal
    } else if z == 5 || z == 14 || z == 32 || z == 33 || z == 51 || z == 52 || z == 85 {
        Category::Metalloid
    } else if z == 13 || z == 31 || z == 49 || z == 50 || z == 81 || z == 82 || z == 83 || z == 84
        || z == 113 || z == 114 || z == 115 || z == 116 {
        Category::PostTransitionMetal
    } else {
        Category::ReactiveNonmetal
    };
    Ok(c)
}

/// The block, from the subshell of the differentiating electron (naive Aufbau).
pub fn block(z: u8) -> (r: Result<Block, DomainError>)
    ensures
        r matches Ok(b) ==> valid_z(z as int) && b == block_of(z as nat),
        r matches Err(e) ==> !valid_z(z as int) && e == DomainError::InvalidAtomicNumber(z as u16),
        r is Ok <==> valid_z(z as int),
{
    validate_z(z)?;
    let fill = aufbau_fill(z);
    proof {
        lemma_aufbau_shape(z as nat);
    }
    let last = fill[fill.len() - 1];
    Ok(Block::from_subshell(last.subshell))
}

/// The period (row), from the highest principal quantum number in the naive fill.
pub fn period(z: u8) -> (r: Result<u8, DomainError>)
    ensures
        r matches Ok(p) ==> valid_z(z as int) && p == period_of(z as nat),
        r matches Err(e) ==> !valid_z(z as int) && e == DomainError::InvalidAtomicNumber(z as u16),
        r is Ok <==> valid_z(z as int),
{
    validate_z(z)?;
    let fill = aufbau_fill(z);
    let mut m: u8 = 0;
    let mut i: usize = 0;
    while i < fill.len()
        invariant
            i <= fill.len(),
            m == max_n(fill@.subrange(0, i as int)),
        decreases fill.len() - i,
    {
        proof {
            assert(fill@.subrange(0, i + 1).drop_last() =~= fill@.subrange(0, i as int));
        }
        if fill[i].n > m {
            m = fill[i].n;
        }
        i = i + 1;
    }
    assert(fill@.subrange(0, i as int) =~= fill@);
    Ok(m)
}

/// The group (column) 1..=18. f-block elements are assigned group 3 by convention.
pub fn group(z: u8) -> (r: Result<u8, DomainError>)
    ensures
        r matches Ok(g) ==> valid_z(z as int) && g == group_of(z as nat),
        r matches Err(e) ==> !valid_z(z as int) && e == DomainError::InvalidAtomicNumber(z as u16),
        r is Ok <==> valid_z(z as int),
{
    validate_z(z)?;
    if z == 1 {
        return Ok(1);
    }
    if z == 2 {
        return Ok(18);
    }
    let config = electron_configuration(z)?;
    let p = period(z)?;
    proof {
        lemma_aufbau_shape(z as nat);
        lemma_ground_state_bounded(z as nat);
    }
    let g = match block(z)? {
        Block::S => config.electrons_in(p, Subshell::S),
        Block::P => 12 + config.electrons_in(p, Subshell::P),
        Block::D => config.electrons_in(p - 1, Subshell::D) + config.electrons_in(p, Subshell::S),
        Block::F => 3,
    };
    Ok(g)
}

/// Common oxidation states (heuristic, group-based — not authoritative).
#[derive(Debug, Clone, PartialEq, Eq)]
pub struct OxidationStates(pub Vec<i8>);

/// Best-effort common oxidation states derived from the group.
pub fn oxidation_states(z: u8) -> (r: Result<OxidationStates, DomainError>)
    ensures
        r matches Ok(s) ==> valid_z(z as int) && s.0@ == oxidation_states_of_group(
            group_of(z as nat),
        ),
        r matches Err(e) ==> !valid_z(z as int) && e == DomainError::InvalidAtomicNumber(z as u16),
        r is Ok <==> valid_z(z as int),
{
    validate_z(z)?;
    let g = group(z)?;
    let states = if g == 1 {
        vec![1i8]
    } else if g == 2 {
        vec![2i8]
    } else if 3 <= g && g <= 12 {
        vec![2i8, 3i8]
    } else if g == 13 {
        vec![3i8]
    } else if g == 14 {
        vec![-4i8, 4i8]
    } else if g == 15 {
        vec![-3i8, 3i8, 5i8]
    } else if g == 16 {
        vec![-2i8]
    } else if g == 17 {
        vec![-1i8]
    } else {
        vec![0i8]
    };
    assert(states@ =~= oxidation_states_of_group(g as int));
    Ok(OxidationStates(states))
}

} // verus!
