use vstd::prelude::*;

pub mod activity_series;
pub mod balancer;
pub mod bonding;
pub mod classification;
pub mod composition;
pub mod compound_reaction;
pub mod config;
pub mod covalent;
pub mod element;
pub mod element_reaction;
pub mod error;
pub mod formula_text;
pub mod fraction;
pub mod laws_config;
pub mod laws_oxidation;
pub mod math;
pub mod metallic;
pub mod output;
pub mod oxidation_state;
pub mod polyatomic;
pub mod redox;
pub mod product_prediction;
pub mod product_state;
pub mod reactant;
pub mod repository;
pub mod reaction_class;
pub mod reaction_solver;
pub mod row_algebra;
pub mod species;
pub mod stoichiometry;
pub mod text;
pub mod valence;

verus! {

} // verus!
