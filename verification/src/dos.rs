//! Deferred Optimization Store.
//!
//! Answers "given this node tier and kind, what strategy?" without
//! generating code itself. Strategies outside the current tier stay
//! latent. See Chapter 2.5 (DOS) and the tier table in Chapter 4.

use vstd::prelude::*;

verus! {

#[derive(Debug, Clone, Copy, PartialEq, Eq, Structural)]
pub enum EmitStrategy {
    Direct,
    LeaChain,
    ShiftAdd,
    Cmov,
    Unroll2,
    Unroll4,
    SublimateJumpTable,
    Imul,
    Inline,
}

pub struct DosStore;

impl DosStore {
    pub fn new() -> (d: Self)
        ensures
            d == DosStore,
    {
        Self
    }
}

impl Default for DosStore {
    fn default() -> (d: Self)
        ensures
            d == DosStore,
    {
        Self::new()
    }
}

} // verus!
