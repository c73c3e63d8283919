//! What a calculation ends in where it has no value.
use vstd::prelude::*;

verus! {

/// The calculation has no value on these inputs: it divides by zero, or leaves the range of the
/// signed words where it must not, or indexes past the coins of the pool.
#[derive(Clone, Copy, Debug, PartialEq, Eq)]
pub struct Fault;

} // verus!
