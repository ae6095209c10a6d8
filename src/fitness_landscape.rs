//! How a fitness landscape represents its values.
use vstd::prelude::*;

verus! {

/// Fitness held as is (multiplicative) or as its logarithm (additive).
#[derive(Clone, Copy, Debug, PartialEq, Eq, Structural)]
pub enum FitnessType {
    Multiplicative,
    Additive,
}

} // verus!
