//! Stored element data that the verified logic reads.
use vstd::prelude::*;

verus! {

/// The physical state of an element at standard temperature and pressure.
#[derive(Debug, Clone, Copy, PartialEq, Eq, Structural)]
pub enum StateOfMatter {
    Solid,
    Liquid,
    Gas,
}

} // verus!
