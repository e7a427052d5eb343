//! Arena allocation for AST nodes.
//!
//! Chosen deliberately (see Chapter 3.6.1): no individual frees, no GC
//! pressure, cache-friendly bottom-up traversal for the Pattern Analyzer,
//! and teardown is a single reset between compiles.

use vstd::prelude::*;
use crate::ast::{zero_weight, AstNode, NodeId, WeightRec};

verus! {

pub struct Arena {
    nodes: Vec<AstNode>,
}

impl View for Arena {
    type V = Seq<AstNode>;

    /// The nodes, in allocation order; a node's id is its index.
    closed spec fn view(&self) -> Seq<AstNode> {
        self.nodes@
    }
}

/// `node` with its weight record zeroed.
pub open spec fn with_zero_weight(node: AstNode) -> AstNode {
    AstNode {
        kind: node.kind,
        span: node.span,
        weight: zero_weight(),
        children: node.children,
        loop_bound_hint: node.loop_bound_hint,
    }
}

impl Arena {
    pub fn new() -> (a: Self)
        ensures
            a@ == Seq::<AstNode>::empty(),
    {
        Self { nodes: Vec::new() }
    }

    /// Allocates a node with a pre-zeroed WeightRec, per the blueprint's
    /// parser design (weights are filled later by the weighting pass):
    /// whatever weight the node carries is replaced by zeros. The id is the
    /// node's index, truncated to 32 bits.
    pub fn allocate(&mut self, node: AstNode) -> (id: NodeId)
        ensures
            id == NodeId(old(self)@.len() as u32),
            final(self)@ == old(self)@.push(with_zero_weight(node)),
    {
        let id = NodeId(self.nodes.len() as u32);
        let mut node = node;
        node.weight = WeightRec::default();
        self.nodes.push(node);
        id
    }

    pub fn get(&self, id: NodeId) -> (n: &AstNode)
        requires
            id.0 < self@.len(),
        ensures
            *n == self@[id.0 as int],
    {
        &self.nodes[id.0 as usize]
    }

    pub fn get_mut(&mut self, id: NodeId) -> (n: &mut AstNode)
        requires
            id.0 < old(self)@.len(),
        ensures
            *n == old(self)@[id.0 as int],
            final(self)@ == old(self)@.update(id.0 as int, *final(n)),
    {
        &mut self.nodes[id.0 as usize]
    }

    /// Full reset between compiles — no destructor chains.
    pub fn reset(&mut self)
        ensures
            final(self)@ == Seq::<AstNode>::empty(),
    {
        self.nodes.clear();
    }

    pub fn len(&self) -> (n: usize)
        ensures
            n == self@.len(),
    {
        self.nodes.len()
    }
}

impl Default for Arena {
    fn default() -> (a: Self)
        ensures
            a@ == Seq::<AstNode>::empty(),
    {
        Self::new()
    }
}

} // verus!

verus! {

/// Allocation then lookup: the id that allocation returns reads back the
/// node just allocated, with its weight record zeroed and everything else
/// as given, and every node allocated before is unchanged. (Ids are `u32`,
/// so this holds while the arena holds at most `u32::MAX` nodes.)
pub proof fn lemma_get_after_allocate(before: Seq<AstNode>, node: AstNode)
    requires
        before.len() <= u32::MAX,
    ensures
        ({
            let after = before.push(with_zero_weight(node));
            let id = NodeId(before.len() as u32);
            &&& id.0 < after.len()
            &&& after[id.0 as int].weight == zero_weight()
            &&& after[id.0 as int].kind == node.kind
            &&& after[id.0 as int].span == node.span
            &&& after[id.0 as int].children == node.children
            &&& after[id.0 as int].loop_bound_hint == node.loop_bound_hint
            &&& forall|i: int| 0 <= i < before.len() ==> #[trigger] after[i] == before[i]
        }),
{
}

/// After a reset, the arena is empty, so the next allocation gets id 0 and
/// reads back as the only node.
pub proof fn lemma_reset_restarts_ids(arena: Arena, node: AstNode)
    requires
        arena@ == Seq::<AstNode>::empty(),
    ensures
        NodeId(arena@.len() as u32) == NodeId(0),
        arena@.push(with_zero_weight(node)).len() == 1,
        arena@.push(with_zero_weight(node))[0] == with_zero_weight(node),
{
}

} // verus!
