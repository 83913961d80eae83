//! A quantum-circuit state-vector simulator's verified core: the bit-mask
//! addressing engine that maps a k-qubit gate onto the 2^n-dimensional
//! state, plus the qubit validation rules, the measurement bookkeeping
//! and the QFT gate plan.
use vstd::prelude::*;

pub mod circuit;
pub mod indexer;
pub mod qft;
pub mod validate;

verus! {

} // verus!
