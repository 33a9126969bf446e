use pcs::cfg::{BasicBlock, BasicBlocks, Location};

fn bb(i: u32) -> BasicBlock {
    BasicBlock::new(i)
}

/// b0 -> b1 -> b2 -> b1 (a loop) and b0 -> b3
fn looping_cfg() -> BasicBlocks {
    let mut blocks = BasicBlocks::new(5);
    assert!(blocks.add_edge(bb(0), bb(1)));
    assert!(blocks.add_edge(bb(1), bb(2)));
    assert!(blocks.add_edge(bb(2), bb(1)));
    assert!(blocks.add_edge(bb(0), bb(3)));
    blocks
}

#[test]
fn basic_block_index() {
    assert_eq!(bb(7).index(), 7);
    assert_eq!(bb(7), BasicBlock(7));
    assert!(bb(1) < bb(2));
}

#[test]
fn location_holds_block_and_statement() {
    let l = Location::new(bb(2), 5);
    assert_eq!(l.block, bb(2));
    assert_eq!(l.statement_index, 5);
    assert_ne!(l, Location::new(bb(2), 6));
}

#[test]
fn new_graph_has_no_edges() {
    let blocks = BasicBlocks::new(3);
    assert_eq!(blocks.len(), 3);
    for from in 0..3 {
        for to in 0..3 {
            assert!(!blocks.is_predecessor(bb(from), bb(to)));
            assert_eq!(blocks.can_reach(bb(from), bb(to)), from == to);
        }
    }
}

#[test]
fn edges_outside_the_graph_are_refused() {
    let mut blocks = BasicBlocks::new(2);
    assert!(!blocks.add_edge(bb(0), bb(2)));
    assert!(!blocks.add_edge(bb(2), bb(0)));
    assert!(blocks.add_edge(bb(1), bb(0)));
    assert_eq!(blocks.len(), 2);
    assert!(!blocks.is_predecessor(bb(0), bb(2)));
    assert!(blocks.is_predecessor(bb(1), bb(0)));
    assert!(!blocks.is_predecessor(bb(0), bb(1)));
}

#[test]
fn reachability_follows_edges_forward() {
    let blocks = looping_cfg();
    assert!(blocks.can_reach(bb(0), bb(1)));
    assert!(blocks.can_reach(bb(0), bb(2)));
    assert!(blocks.can_reach(bb(0), bb(3)));
    assert!(blocks.can_reach(bb(2), bb(1)));
    assert!(blocks.can_reach(bb(1), bb(1)));
    assert!(!blocks.can_reach(bb(1), bb(0)));
    assert!(!blocks.can_reach(bb(3), bb(2)));
    assert!(!blocks.can_reach(bb(2), bb(3)));
    assert!(!blocks.can_reach(bb(0), bb(4)));
    assert!(blocks.can_reach(bb(4), bb(4)));
}

#[test]
fn blocks_outside_the_graph_reach_only_themselves() {
    let blocks = looping_cfg();
    assert!(blocks.can_reach(bb(9), bb(9)));
    assert!(!blocks.can_reach(bb(9), bb(0)));
    assert!(!blocks.can_reach(bb(0), bb(9)));
}
