//! The Direct Emitter's output context (+ Register Oracle).
//!
//! The emitter writes assembly text and the --trace-emit traceability
//! records (instruction offset -> AST node span hash) — the concrete
//! evidence for the study auditability claim.

use vstd::prelude::*;

verus! {

pub struct EmitCtx {
    pub output: String,
    pub trace: Vec<(usize, u64)>,
}

impl EmitCtx {
    /// An empty context: no output, no trace records.
    pub fn new() -> (c: Self)
        ensures
            c.output@ == Seq::<char>::empty(),
            c.trace@ == Seq::<(usize, u64)>::empty(),
    {
        Self { output: String::new(), trace: Vec::new() }
    }
}

impl Default for EmitCtx {
    fn default() -> (c: Self)
        ensures
            c.output@ == Seq::<char>::empty(),
            c.trace@ == Seq::<(usize, u64)>::empty(),
    {
        Self::new()
    }
}

} // verus!
