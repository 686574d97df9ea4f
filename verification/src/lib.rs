//! Ordered-map tree structures with machine-checked contracts.
pub mod exercises;
pub mod key;
pub mod laws;
pub mod trees;
pub mod xtask;

use vstd::prelude::*;

verus! {

} // verus!
