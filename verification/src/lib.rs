//! A call-pattern permutation engine.
//!
//! Given the ordered parameter list of a callable, split into required
//! parameters and defaulted parameters, this library enumerates every
//! acceptable call shape (positional prefixes, named arguments in any order,
//! omitted defaults), assigns each shape a canonical reordering back to
//! declaration order, and arranges the shapes into a deterministic matrix
//! from which a dispatch layer can be emitted.

pub mod demo_app;
pub mod demo_lib;
pub mod demo_root;
pub mod macro_gen;
pub mod params;
pub mod permute;
pub mod traits;

use vstd::prelude::*;

verus! {

/// Number of orderings of `n` distinct items.
pub open spec fn fact(n: nat) -> nat
    decreases n,
{
    if n == 0 {
        1
    } else {
        n * fact((n - 1) as nat)
    }
}

} // verus!
