use pcs::borrows::path_condition::{PCGraph, Path, PathCondition, PathConditions};
use pcs::cfg::{BasicBlock, BasicBlocks};

fn bb(i: u32) -> BasicBlock {
    BasicBlock::new(i)
}

fn edge(from: u32, to: u32) -> PathCondition {
    PathCondition::new(bb(from), bb(to))
}

fn graph(edges: &[(u32, u32)]) -> PCGraph {
    let mut graph = PCGraph::singleton(edge(edges[0].0, edges[0].1));
    for (from, to) in &edges[1..] {
        graph.insert(edge(*from, *to));
    }
    graph
}

fn paths(edges: &[(u32, u32)]) -> PathConditions {
    PathConditions::Paths(graph(edges))
}

fn walk(blocks: &[u32]) -> Vec<BasicBlock> {
    blocks.iter().map(|b| bb(*b)).collect()
}

/// b0 -> b1 -> b2 and b0 -> b3
fn branching_cfg() -> BasicBlocks {
    let mut blocks = BasicBlocks::new(4);
    assert!(blocks.add_edge(bb(0), bb(1)));
    assert!(blocks.add_edge(bb(1), bb(2)));
    assert!(blocks.add_edge(bb(0), bb(3)));
    blocks
}

#[test]
fn path_condition_holds_its_blocks() {
    let pc = PathCondition::new(bb(3), bb(7));
    assert_eq!(pc.from, bb(3));
    assert_eq!(pc.to, bb(7));
    assert_eq!(pc, edge(3, 7));
    assert_ne!(pc, edge(7, 3));
}

#[test]
fn path_starts_and_ends() {
    let mut path = Path::new(bb(4));
    assert_eq!(path.start(), bb(4));
    assert_eq!(path.end(), bb(4));
    path.append(bb(5));
    path.append(bb(9));
    assert_eq!(path.start(), bb(4));
    assert_eq!(path.end(), bb(9));
    assert_eq!(path.blocks(), &walk(&[4, 5, 9]));
    let copy = path.clone();
    assert_eq!(copy, path);
}

#[test]
fn singleton_holds_one_edge() {
    let g = PCGraph::singleton(edge(0, 1));
    assert!(g.contains(edge(0, 1)));
    assert!(!g.contains(edge(1, 0)));
    assert_eq!(g.to_vec(), vec![edge(0, 1)]);
    assert_eq!(g.root(), Some(bb(0)));
    assert_eq!(g.end(), Some(bb(1)));
}

#[test]
fn insert_reports_new_edges_only() {
    let mut g = PCGraph::singleton(edge(1, 2));
    assert!(g.insert(edge(0, 1)));
    assert!(!g.insert(edge(0, 1)));
    assert!(!g.insert(edge(1, 2)));
    assert!(g.insert(edge(1, 3)));
    assert_eq!(g.to_vec(), vec![edge(0, 1), edge(1, 2), edge(1, 3)]);
}

#[test]
fn edges_are_kept_in_ascending_order() {
    let g = graph(&[(5, 1), (0, 9), (5, 0), (2, 2), (0, 3)]);
    assert_eq!(
        g.to_vec(),
        vec![edge(0, 3), edge(0, 9), edge(2, 2), edge(5, 0), edge(5, 1)]
    );
}

#[test]
fn graphs_are_equal_as_sets() {
    let a = graph(&[(0, 1), (1, 2)]);
    let b = graph(&[(1, 2), (0, 1), (1, 2)]);
    assert!(a == b);
    assert!(a != graph(&[(0, 1)]));
    assert!(a != graph(&[(0, 1), (1, 3)]));
    assert!(a.clone() == a);
}

#[test]
fn join_is_monotone_and_idempotent() {
    let mut a = graph(&[(0, 1), (4, 5)]);
    let b = graph(&[(1, 2), (0, 1)]);
    assert!(a.join(&b));
    for kept in [edge(0, 1), edge(4, 5), edge(1, 2)] {
        assert!(a.contains(kept));
    }
    assert_eq!(a.to_vec(), vec![edge(0, 1), edge(1, 2), edge(4, 5)]);
    let before = a.clone();
    assert!(!a.join(&b));
    assert!(a == before);
}

#[test]
fn join_with_a_subset_changes_nothing() {
    let mut a = graph(&[(0, 1), (1, 2)]);
    assert!(!a.join(&graph(&[(1, 2)])));
    assert_eq!(a.to_vec(), vec![edge(0, 1), edge(1, 2)]);
}

#[test]
fn root_and_end_of_a_chain() {
    let g = graph(&[(0, 1), (1, 2), (2, 3)]);
    assert_eq!(g.root(), Some(bb(0)));
    assert_eq!(g.end(), Some(bb(3)));
}

#[test]
fn root_and_end_of_a_diamond() {
    let g = graph(&[(0, 1), (0, 2), (1, 3), (2, 3)]);
    assert_eq!(g.root(), Some(bb(0)));
    assert_eq!(g.end(), Some(bb(3)));
}

#[test]
fn two_sinks_leave_no_end() {
    let g = graph(&[(0, 1), (0, 3)]);
    assert_eq!(g.root(), Some(bb(0)));
    assert_eq!(g.end(), None);
}

#[test]
fn two_components_leave_no_root_and_no_end() {
    let g = graph(&[(0, 1), (2, 3)]);
    assert_eq!(g.root(), None);
    assert_eq!(g.end(), None);
}

#[test]
fn a_cycle_has_no_root_and_no_end() {
    let g = graph(&[(0, 1), (1, 0)]);
    assert_eq!(g.root(), None);
    assert_eq!(g.end(), None);
}

#[test]
fn has_path_to_and_from_block() {
    let g = graph(&[(0, 1), (1, 2)]);
    assert!(g.has_path_to_block(bb(1)));
    assert!(g.has_path_to_block(bb(2)));
    assert!(!g.has_path_to_block(bb(0)));
    assert!(g.has_path_from_block(bb(0)));
    assert!(g.has_path_from_block(bb(1)));
    assert!(!g.has_path_from_block(bb(2)));
}

#[test]
fn suffix_from_the_root_must_stay_in_the_graph() {
    let g = graph(&[(0, 1), (1, 2)]);
    assert!(g.has_suffix_of(&walk(&[0, 1, 2])));
    assert!(g.has_suffix_of(&walk(&[0, 1])));
    assert!(!g.has_suffix_of(&walk(&[0, 1, 2, 3])));
    assert!(!g.has_suffix_of(&walk(&[0, 2])));
}

#[test]
fn what_comes_before_the_root_is_not_compared() {
    let g = graph(&[(0, 1), (1, 2)]);
    assert!(g.has_suffix_of(&walk(&[7, 8, 0, 1, 2])));
    assert!(!g.has_suffix_of(&walk(&[7, 8, 0, 2])));
}

#[test]
fn comparison_starts_at_the_first_occurrence_of_the_root() {
    let g = graph(&[(0, 1), (1, 2)]);
    // The root b0 occurs at positions 0 and 3; the step b2 -> b0 is no edge.
    assert!(!g.has_suffix_of(&walk(&[0, 1, 2, 0, 1])));
}

#[test]
fn without_the_root_the_whole_walk_is_compared() {
    let g = graph(&[(0, 1), (1, 2)]);
    assert!(g.has_suffix_of(&walk(&[1, 2])));
    assert!(!g.has_suffix_of(&walk(&[3, 1, 2])));
    let rootless = graph(&[(0, 1), (2, 3)]);
    assert!(rootless.has_suffix_of(&walk(&[2, 3])));
    assert!(!rootless.has_suffix_of(&walk(&[0, 1, 2])));
}

#[test]
fn short_walks_have_no_step_to_fail() {
    let g = graph(&[(0, 1)]);
    assert!(g.has_suffix_of(&walk(&[5])));
    assert!(g.has_suffix_of(&walk(&[])));
}

#[test]
fn new_conditions_are_a_seed() {
    let c = PathConditions::new(bb(2));
    assert!(matches!(c, PathConditions::AtBlock(b) if b == bb(2)));
    assert_eq!(c.root(), Some(bb(2)));
    assert_eq!(c.end(), Some(bb(2)));
}

#[test]
fn first_insert_promotes_a_seed() {
    let mut c = PathConditions::new(bb(0));
    assert!(c.insert(edge(0, 1)));
    assert!(c == paths(&[(0, 1)]));
    assert!(matches!(c, PathConditions::Paths(_)));
    assert_eq!(c.root(), Some(bb(0)));
    assert_eq!(c.end(), Some(bb(1)));
}

#[test]
fn promoted_conditions_only_grow() {
    let mut c = PathConditions::new(bb(0));
    c.insert(edge(0, 1));
    // A path set takes edges from any block.
    assert!(c.insert(edge(5, 6)));
    assert!(!c.insert(edge(0, 1)));
    assert!(c.insert(edge(1, 2)));
    assert!(matches!(c, PathConditions::Paths(_)));
    assert!(c == paths(&[(0, 1), (1, 2), (5, 6)]));
    assert!(!c.join(&PathConditions::new(bb(9))));
    assert!(c == paths(&[(0, 1), (1, 2), (5, 6)]));
}

#[test]
fn joining_equal_seeds_changes_nothing() {
    let mut c = PathConditions::new(bb(3));
    assert!(!c.join(&PathConditions::new(bb(3))));
    assert!(c == PathConditions::new(bb(3)));
}

#[test]
fn joining_a_seed_with_paths_changes_nothing() {
    let mut c = PathConditions::new(bb(0));
    assert!(!c.join(&paths(&[(0, 1)])));
    assert!(c == PathConditions::new(bb(0)));
}

#[test]
fn joining_paths_unites_them() {
    let mut c = paths(&[(0, 1)]);
    assert!(c.join(&paths(&[(0, 2), (0, 1)])));
    assert!(c == paths(&[(0, 1), (0, 2)]));
    assert!(!c.join(&paths(&[(0, 2), (0, 1)])));
    assert!(c == paths(&[(0, 1), (0, 2)]));
}

#[test]
fn a_seed_is_valid_where_the_walk_ends() {
    let c = PathConditions::new(bb(2));
    assert!(c.valid_for_path(&walk(&[0, 1, 2])));
    assert!(c.valid_for_path(&walk(&[2])));
    assert!(!c.valid_for_path(&walk(&[2, 1])));
    assert!(!c.valid_for_path(&walk(&[])));
}

#[test]
fn paths_are_valid_for_walks_inside_them() {
    let c = paths(&[(0, 1), (1, 2)]);
    assert!(c.valid_for_path(&walk(&[0, 1, 2])));
    assert!(!c.valid_for_path(&walk(&[0, 3])));
    let shorter = paths(&[(0, 1)]);
    assert!(shorter.valid_for_path(&walk(&[0, 1])));
    assert!(!shorter.valid_for_path(&walk(&[0, 1, 2])));
}

#[test]
fn branches_are_mutually_exclusive() {
    let blocks = branching_cfg();
    let left = paths(&[(0, 1)]);
    let right = paths(&[(0, 3)]);
    assert!(left.mutually_exclusive(&right, &blocks));
    assert!(right.mutually_exclusive(&left, &blocks));
}

#[test]
fn consecutive_edges_are_not_mutually_exclusive() {
    let blocks = branching_cfg();
    let first = paths(&[(0, 1)]);
    let second = paths(&[(1, 2)]);
    assert!(!first.mutually_exclusive(&second, &blocks));
    assert!(!second.mutually_exclusive(&first, &blocks));
}

#[test]
fn equal_conditions_are_not_mutually_exclusive() {
    let blocks = branching_cfg();
    assert!(!paths(&[(0, 1)]).mutually_exclusive(&paths(&[(0, 1)]), &blocks));
    assert!(!PathConditions::new(bb(3)).mutually_exclusive(&PathConditions::new(bb(3)), &blocks));
}

#[test]
fn conditions_without_root_or_end_are_not_mutually_exclusive() {
    let blocks = branching_cfg();
    let forked = paths(&[(0, 1), (0, 3)]);
    assert_eq!(forked.end(), None);
    assert!(!forked.mutually_exclusive(&paths(&[(1, 2)]), &blocks));
    assert!(!paths(&[(1, 2)]).mutually_exclusive(&forked, &blocks));
}

#[test]
fn reachability_over_several_edges_prevents_exclusion() {
    let blocks = branching_cfg();
    // b0 reaches b2 by way of b1.
    assert!(!PathConditions::new(bb(0)).mutually_exclusive(&PathConditions::new(bb(2)), &blocks));
    // b2 and b3 lie on different branches.
    assert!(PathConditions::new(bb(2)).mutually_exclusive(&PathConditions::new(bb(3)), &blocks));
    assert!(PathConditions::new(bb(1)).mutually_exclusive(&PathConditions::new(bb(3)), &blocks));
}

#[test]
fn exclusive_seeds_are_never_valid_together() {
    let blocks = branching_cfg();
    let a = PathConditions::new(bb(2));
    let b = PathConditions::new(bb(3));
    assert!(a.mutually_exclusive(&b, &blocks));
    for path in [walk(&[0, 1, 2]), walk(&[0, 3]), walk(&[0]), walk(&[])] {
        assert!(!(a.valid_for_path(&path) && b.valid_for_path(&path)));
    }
}
