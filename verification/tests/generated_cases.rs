//! The library against straightforward recomputation, on many small
//! generated inputs.

use pcs::borrows::borrows_edge::{BorrowsEdge, BorrowsEdgeKind};
use pcs::borrows::borrows_state::BorrowsState;
use pcs::borrows::domain::{MaybeOldPlace, MaybeRemotePlace, Mutability, Reborrow};
use pcs::borrows::path_condition::{PCGraph, PathCondition, PathConditions};
use pcs::borrows::unblock_graph::{UnblockError, UnblockGraph};
use pcs::cfg::{BasicBlock, BasicBlocks, Location};
use pcs::combined_pcs::UnblockAction;
use pcs::utils::place::{Local, Place};

/// A small deterministic generator of numbers.
struct Numbers(u64);

impl Numbers {
    fn next(&mut self, below: u32) -> u32 {
        self.0 ^= self.0 << 13;
        self.0 ^= self.0 >> 7;
        self.0 ^= self.0 << 17;
        (self.0 % below as u64) as u32
    }
}

fn bb(i: u32) -> BasicBlock {
    BasicBlock::new(i)
}

fn pairs(numbers: &mut Numbers, nodes: u32, count: u32) -> Vec<(u32, u32)> {
    (0..count).map(|_| (numbers.next(nodes), numbers.next(nodes))).collect()
}

fn closure(nodes: u32, edges: &[(u32, u32)]) -> Vec<Vec<bool>> {
    let n = nodes as usize;
    let mut reach = vec![vec![false; n]; n];
    for i in 0..n {
        reach[i][i] = true;
    }
    for (from, to) in edges {
        reach[*from as usize][*to as usize] = true;
    }
    for k in 0..n {
        for i in 0..n {
            for j in 0..n {
                if reach[i][k] && reach[k][j] {
                    reach[i][j] = true;
                }
            }
        }
    }
    reach
}

#[test]
fn reachability_agrees_with_the_transitive_closure() {
    let mut numbers = Numbers(0x9E3779B97F4A7C15);
    for round in 0..200 {
        let nodes = 1 + round % 7;
        let edges = pairs(&mut numbers, nodes, round % 9);
        let mut blocks = BasicBlocks::new(nodes);
        for (from, to) in &edges {
            assert!(blocks.add_edge(bb(*from), bb(*to)));
        }
        let reach = closure(nodes, &edges);
        for from in 0..nodes {
            for to in 0..nodes {
                assert_eq!(
                    blocks.can_reach(bb(from), bb(to)),
                    reach[from as usize][to as usize],
                    "{:?}: {} to {}",
                    edges,
                    from,
                    to
                );
                assert_eq!(blocks.is_predecessor(bb(from), bb(to)), edges.contains(&(from, to)));
                assert_eq!(blocks.predecessors(bb(to)).contains(&bb(from)), edges.contains(&(from, to)));
            }
        }
    }
}

fn only(candidates: Vec<u32>) -> Option<BasicBlock> {
    let mut distinct = candidates;
    distinct.sort();
    distinct.dedup();
    if distinct.len() == 1 {
        Some(bb(distinct[0]))
    } else {
        None
    }
}

#[test]
fn graphs_agree_with_plain_sets() {
    let mut numbers = Numbers(0xD1B54A32D192ED03);
    for round in 0..300 {
        let nodes = 2 + round % 5;
        let edges = pairs(&mut numbers, nodes, 1 + round % 6);
        let mut graph = PCGraph::singleton(PathCondition::new(bb(edges[0].0), bb(edges[0].1)));
        let mut seen = vec![edges[0]];
        for (from, to) in &edges[1..] {
            let inserted = graph.insert(PathCondition::new(bb(*from), bb(*to)));
            assert_eq!(inserted, !seen.contains(&(*from, *to)));
            if inserted {
                seen.push((*from, *to));
            }
        }
        let mut sorted = seen.clone();
        sorted.sort();
        let expected: Vec<PathCondition> =
            sorted.iter().map(|(f, t)| PathCondition::new(bb(*f), bb(*t))).collect();
        assert_eq!(graph.to_vec(), expected);
        let sources = seen
            .iter()
            .map(|(f, _)| *f)
            .filter(|f| !seen.iter().any(|(_, t)| t == f))
            .collect();
        let sinks = seen
            .iter()
            .map(|(_, t)| *t)
            .filter(|t| !seen.iter().any(|(f, _)| f == t))
            .collect();
        assert_eq!(graph.root(), only(sources), "{:?}", seen);
        assert_eq!(graph.end(), only(sinks), "{:?}", seen);
        for node in 0..nodes {
            assert_eq!(graph.has_path_from_block(bb(node)), seen.iter().any(|(f, _)| *f == node));
            assert_eq!(graph.has_path_to_block(bb(node)), seen.iter().any(|(_, t)| *t == node));
        }
        // A walk is compared from the first occurrence of the root on.
        let length = numbers.next(5) as usize;
        let walk: Vec<u32> = (0..length).map(|_| numbers.next(nodes)).collect();
        let start = match graph.root() {
            Some(root) => walk.iter().position(|b| bb(*b) == root).unwrap_or(0),
            None => 0,
        };
        let within = (start..walk.len().saturating_sub(1))
            .all(|i| seen.contains(&(walk[i], walk[i + 1])));
        let blocks: Vec<BasicBlock> = walk.iter().map(|b| bb(*b)).collect();
        assert_eq!(graph.has_suffix_of(&blocks), within, "{:?} on {:?}", seen, walk);
        assert_eq!(PathConditions::Paths(graph.clone()).valid_for_path(&blocks), within);
    }
}

#[test]
fn joins_agree_with_unions() {
    let mut numbers = Numbers(0x2545F4914F6CDD1D);
    for round in 0..200 {
        let nodes = 2 + round % 4;
        let build = |edges: &[(u32, u32)]| {
            let mut graph = PCGraph::singleton(PathCondition::new(bb(edges[0].0), bb(edges[0].1)));
            for (from, to) in &edges[1..] {
                graph.insert(PathCondition::new(bb(*from), bb(*to)));
            }
            graph
        };
        let left = pairs(&mut numbers, nodes, 1 + round % 4);
        let right = pairs(&mut numbers, nodes, 1 + round % 3);
        let mut joined = build(&left);
        let other = build(&right);
        let grows = right.iter().any(|edge| !left.contains(edge));
        assert_eq!(joined.join(&other), grows);
        for (from, to) in left.iter().chain(right.iter()) {
            assert!(joined.contains(PathCondition::new(bb(*from), bb(*to))));
        }
        let mut all: Vec<(u32, u32)> = left.iter().chain(right.iter()).cloned().collect();
        all.sort();
        all.dedup();
        assert_eq!(joined.to_vec().len(), all.len());
        let before = joined.clone();
        assert!(!joined.join(&other));
        assert!(joined == before);
    }
}

fn local(n: u32) -> MaybeOldPlace {
    MaybeOldPlace::new(Place::new(Local(n), Vec::new()), None)
}

/// The reborrow by which `assigned` borrows from `blocked`.
fn borrow(blocked: u32, assigned: u32, n: usize) -> BorrowsEdge {
    BorrowsEdge::new(
        BorrowsEdgeKind::Reborrow(Reborrow::new(
            MaybeRemotePlace::Local(local(blocked)),
            local(assigned),
            Mutability::Mut,
            Location::new(bb(0), n),
        )),
        PathConditions::new(bb(0)),
    )
}

fn end_of(blocked: u32, assigned: u32, n: usize) -> UnblockAction {
    UnblockAction::TerminateReborrow {
        blocked_place: MaybeRemotePlace::Local(local(blocked)),
        assigned_place: local(assigned),
        reserve_location: Location::new(bb(0), n),
        is_mut: true,
    }
}

#[test]
fn built_graphs_are_closed_and_released_in_order() {
    let mut numbers = Numbers(0xA0761D6478BD642F);
    for round in 0..200 {
        let places = 2 + round % 6;
        let mut borrows: Vec<(u32, u32)> = pairs(&mut numbers, places, round % 8);
        borrows.sort();
        borrows.dedup();
        let mut state = BorrowsState::new();
        for (n, (blocked, assigned)) in borrows.iter().enumerate() {
            assert!(state.insert(borrow(*blocked, *assigned, n)));
        }
        // `blocked` leads to `assigned`: what lends has to be unblocked first.
        let reach = closure(places, &borrows);
        for start in 0..places {
            let on_cycle = |node: u32| {
                borrows.iter().any(|(b, a)| *b == node && reach[*a as usize][node as usize])
            };
            let cyclic = (0..places).any(|node| reach[start as usize][node as usize] && on_cycle(node));
            let built = UnblockGraph::for_place(MaybeRemotePlace::Local(local(start)), &state);
            match built {
                Err(UnblockError::CyclicDependency { history, revisited }) => {
                    assert!(cyclic, "{:?} from {}", borrows, start);
                    assert!(history.steps().contains(&revisited));
                }
                Err(other) => panic!("unexpected failure {:?}", other),
                Ok(graph) => {
                    assert!(!cyclic, "{:?} from {}", borrows, start);
                    let expected: Vec<usize> = (0..borrows.len())
                        .filter(|n| reach[start as usize][borrows[*n].0 as usize])
                        .collect();
                    assert_eq!(graph.edges().len(), expected.len());
                    for n in &expected {
                        assert!(graph.edges().contains(&borrow(borrows[*n].0, borrows[*n].1, *n)));
                    }
                    let actions = graph.actions().expect("an acyclic graph can be released");
                    assert_eq!(actions.len(), expected.len());
                    let at = |n: usize| {
                        actions
                            .iter()
                            .position(|a| *a == end_of(borrows[n].0, borrows[n].1, n))
                            .expect("every edge is released")
                    };
                    for outer in &expected {
                        for inner in &expected {
                            if borrows[*inner].0 == borrows[*outer].1 {
                                assert!(at(*inner) < at(*outer));
                            }
                        }
                    }
                }
            }
        }
    }
}
