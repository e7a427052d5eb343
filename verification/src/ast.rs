//! AST node types.

use vstd::prelude::*;
use crate::span::SourceSpan;

verus! {

/// Index of a node in its [`crate::arena::Arena`].
#[derive(Debug, Clone, Copy, PartialEq, Eq, Structural)]
pub struct NodeId(pub u32);

#[derive(Debug, Clone, Copy, PartialEq, Eq, Structural)]
pub enum NodeKind {
    IntLit,
    FloatLit,
    BinaryAdd,
    BinarySub,
    BinaryMul,
    BinaryDiv,
    Compare,
    If,
    Loop,
    Call,
    FuncDef,
    Assign,
    Block,
    // extend as the Suda grammar (Chapter 3.5.1) is formalized
}

/// Zeroed at alloc time; populated by the weighting pass and consulted by
/// the deferred optimization store. Mirrors W_raw / W_learned / W_combined /
/// dos_tier from the formal weight formula. The three weights are `f32`
/// values held as their IEEE-754 bit patterns (`f32::to_bits`); the all-zero
/// pattern is `0.0`.
#[derive(Debug, Clone, Copy, PartialEq, Eq, Structural)]
pub struct WeightRec {
    pub raw: u32,
    pub learned: u32,
    pub combined: u32,
    pub dos_tier: u8,
}

/// The zeroed weight record.
pub open spec fn zero_weight() -> WeightRec {
    WeightRec { raw: 0, learned: 0, combined: 0, dos_tier: 0 }
}

impl Default for WeightRec {
    fn default() -> (r: Self)
        ensures
            r == zero_weight(),
    {
        WeightRec { raw: 0, learned: 0, combined: 0, dos_tier: 0 }
    }
}

pub struct AstNode {
    pub kind: NodeKind,
    pub span: SourceSpan,
    pub weight: WeightRec,
    pub children: Vec<NodeId>,
    pub loop_bound_hint: Option<u32>,
}

impl AstNode {
    /// A childless node of `kind` at `span`, with zeroed weights and no loop
    /// bound hint.
    pub fn new(kind: NodeKind, span: SourceSpan) -> (n: Self)
        ensures
            n.kind == kind,
            n.span == span,
            n.weight == zero_weight(),
            n.children@ == Seq::<NodeId>::empty(),
            n.loop_bound_hint is None,
    {
        Self {
            kind,
            span,
            weight: WeightRec::default(),
            children: Vec::new(),
            loop_bound_hint: None,
        }
    }
}

} // verus!
