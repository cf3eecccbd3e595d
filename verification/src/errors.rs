use vstd::prelude::*;

verus! {

/// The ways in which building an engine can fail.
#[derive(Debug, Clone, Copy, PartialEq, Eq)]
pub enum Error {
    /// The node universe is larger than the dense engine is willing to hold.
    GraphTooLarge,
}

} // verus!
