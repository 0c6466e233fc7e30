//! Domain calculation errors.
use vstd::prelude::*;

verus! {

/// Error returned by domain calculations.
#[derive(Debug, Clone, PartialEq, Eq, Structural)]
pub enum DomainError {
    /// The atomic number is outside the supported range `1..=118`.
    InvalidAtomicNumber(u16),
}

impl DomainError {
    /// The error message, e.g. `"invalid atomic number: 0 (must be 1..=118)"`.
    pub fn message(&self) -> (s: String)
        ensures
            s@ == crate::text::invalid_z_message(self),
    {
        match self {
            DomainError::InvalidAtomicNumber(z) => crate::text::invalid_z_text(*z),
        }
    }
}

} // verus!
