use c0m::ast::{AstNode, NodeId, NodeKind, WeightRec};
use c0m::arena::Arena;
use c0m::dos::{DosStore, EmitStrategy};
use c0m::emitter::EmitCtx;
use c0m::oracle::RegOracle;
use c0m::SourceSpan;

fn span(offset: u32) -> SourceSpan {
    SourceSpan { file_hash: 1, line: 1, col: offset + 1, byte_offset: offset, length: 1 }
}

#[test]
fn new_node_is_zeroed() {
    let n = AstNode::new(NodeKind::Loop, span(4));
    assert_eq!(n.kind, NodeKind::Loop);
    assert_eq!(n.span, span(4));
    assert_eq!(n.weight, WeightRec { raw: 0, learned: 0, combined: 0, dos_tier: 0 });
    assert_eq!(f32::from_bits(n.weight.raw), 0.0);
    assert!(n.children.is_empty());
    assert_eq!(n.loop_bound_hint, None);
}

#[test]
fn ids_are_allocation_order_and_read_back() {
    let mut arena = Arena::new();
    assert_eq!(arena.len(), 0);
    let a = arena.allocate(AstNode::new(NodeKind::IntLit, span(0)));
    let b = arena.allocate(AstNode::new(NodeKind::BinaryAdd, span(2)));
    assert_eq!(a, NodeId(0));
    assert_eq!(b, NodeId(1));
    assert_eq!(arena.len(), 2);
    assert_eq!(arena.get(a).kind, NodeKind::IntLit);
    assert_eq!(arena.get(b).span, span(2));
}

#[test]
fn get_mut_updates_only_that_node() {
    let mut arena = Arena::default();
    let a = arena.allocate(AstNode::new(NodeKind::Block, span(0)));
    let b = arena.allocate(AstNode::new(NodeKind::Call, span(1)));
    arena.get_mut(a).children.push(b);
    arena.get_mut(a).loop_bound_hint = Some(8);
    assert_eq!(arena.get(a).children, vec![b]);
    assert_eq!(arena.get(a).loop_bound_hint, Some(8));
    assert!(arena.get(b).children.is_empty());
}

#[test]
fn reset_restarts_ids() {
    let mut arena = Arena::new();
    arena.allocate(AstNode::new(NodeKind::If, span(0)));
    arena.allocate(AstNode::new(NodeKind::If, span(1)));
    arena.reset();
    assert_eq!(arena.len(), 0);
    let id = arena.allocate(AstNode::new(NodeKind::Assign, span(3)));
    assert_eq!(id, NodeId(0));
    assert_eq!(arena.get(id).kind, NodeKind::Assign);
}

#[test]
fn oracle_reset_matches_new() {
    let mut o = RegOracle::new();
    assert_eq!(o.used, [false; 16]);
    o.used[3] = true;
    o.priority[3] = 2.5f32.to_bits();
    o.spill_depth = 4;
    o.reset();
    let fresh = RegOracle::default();
    assert_eq!(o.used, fresh.used);
    assert_eq!(o.priority, fresh.priority);
    assert_eq!(o.spill_depth, 0);
}

#[test]
fn empty_contexts() {
    let ctx = EmitCtx::new();
    assert!(ctx.output.is_empty());
    assert!(ctx.trace.is_empty());
    let ctx2 = EmitCtx::default();
    assert!(ctx2.output.is_empty());
    let _store = DosStore::new();
    let _store2 = DosStore::default();
    assert_ne!(EmitStrategy::Direct, EmitStrategy::Inline);
}

#[test]
fn allocation_zeroes_the_weight() {
    let mut arena = Arena::new();
    let mut node = AstNode::new(NodeKind::Compare, span(6));
    node.weight = WeightRec { raw: 3.5f32.to_bits(), learned: 1, combined: 2, dos_tier: 3 };
    node.loop_bound_hint = Some(4);
    let id = arena.allocate(node);
    let got = arena.get(id);
    assert_eq!(got.weight, WeightRec { raw: 0, learned: 0, combined: 0, dos_tier: 0 });
    assert_eq!(got.kind, NodeKind::Compare);
    assert_eq!(got.span, span(6));
    assert_eq!(got.loop_bound_hint, Some(4));
}
