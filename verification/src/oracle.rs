//! Register Oracle: priority-weighted allocator. Dominant (high-weight)
//! regions claim registers first; weak regions self-spill. Function-scoped
//! by design (the "Action at a Distance" mitigation in Chapter 4).

use vstd::prelude::*;

verus! {

pub const GP_REGISTER_COUNT: usize = 16;

/// Register usage and priorities. A priority is an `f32` held as its
/// IEEE-754 bit pattern (`f32::to_bits`); the all-zero pattern is `0.0`.
pub struct RegOracle {
    pub used: [bool; GP_REGISTER_COUNT],
    pub priority: [u32; GP_REGISTER_COUNT],
    pub spill_depth: u8,
}

impl RegOracle {
    /// No register used, every priority zero, nothing spilled: the state of
    /// a fresh oracle and of one just reset.
    pub open spec fn is_clear(&self) -> bool {
        &&& self.used@ == Seq::new(GP_REGISTER_COUNT as nat, |i: int| false)
        &&& self.priority@ == Seq::new(GP_REGISTER_COUNT as nat, |i: int| 0u32)
        &&& self.spill_depth == 0
    }

    pub fn new() -> (o: Self)
        ensures
            o.is_clear(),
    {
        let o = Self { used: [false; 16], priority: [0; 16], spill_depth: 0 };
        proof {
            assert(o.used@ =~= Seq::new(GP_REGISTER_COUNT as nat, |i: int| false));
            assert(o.priority@ =~= Seq::new(GP_REGISTER_COUNT as nat, |i: int| 0u32));
        }
        o
    }

    /// Reset between functions — no cross-function IR, no contamination.
    pub fn reset(&mut self)
        ensures
            final(self).is_clear(),
    {
        self.used = [false; 16];
        self.priority = [0; 16];
        self.spill_depth = 0;
        proof {
            assert(self.used@ =~= Seq::new(GP_REGISTER_COUNT as nat, |i: int| false));
            assert(self.priority@ =~= Seq::new(GP_REGISTER_COUNT as nat, |i: int| 0u32));
        }
    }
}

impl Default for RegOracle {
    fn default() -> (o: Self)
        ensures
            o.is_clear(),
    {
        Self::new()
    }
}

} // verus!
