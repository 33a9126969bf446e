//! Graphs that were built from a borrow state without cycles can be released.

use vstd::prelude::*;

use crate::borrows::borrows_edge::{BorrowsEdgeKindView, BorrowsEdgeView};
use crate::borrows::dependencies::{
    adds, blocking_step, dependencies, edge_children, place_node, serves,
};
use crate::borrows::domain::MaybeRemotePlaceView;
use crate::borrows::release_order::{
    can_be_released, lemma_release_succeeds_iff_no_cycle, release_order, waiting_step, waits_for,
};
use crate::borrows::unblock_graph::UnblockHistoryActionView;
use crate::utils::walks::{
    acyclic_from, is_walk, lemma_walk_push, reaches, steps_at, walk_from,
};

verus! {

/// `longer` goes on from `walk`.
spec fn extends(longer: Seq<UnblockHistoryActionView>, walk: Seq<UnblockHistoryActionView>) -> bool {
    &&& walk.len() <= longer.len()
    &&& forall|x: int| 0 <= x < walk.len() ==> longer[x] == walk[x]
}

/// From a step at which `edge` is looked at, the traversal comes to
/// unblocking each place that `edge` waits for.
proof fn lemma_approach(
    state: Seq<BorrowsEdgeView>,
    walk: Seq<UnblockHistoryActionView>,
    edge: BorrowsEdgeView,
    j: int,
) -> (longer: Seq<UnblockHistoryActionView>)
    requires
        is_walk(blocking_step(state), walk),
        state.contains(edge),
        serves(edge, walk.last()),
        0 <= j < edge.kind.blocked_by_places().len(),
    ensures
        is_walk(blocking_step(state), longer),
        extends(longer, walk),
        longer.len() > walk.len(),
        longer.last() == place_node(edge.kind.blocked_by_places()[j]),
{
    let step = blocking_step(state);
    let last = walk.last();
    let target = place_node(edge.kind.blocked_by_places()[j]);
    let i = choose|i: int| 0 <= i < state.len() && state[i] == edge;
    match edge.kind {
        BorrowsEdgeKindView::Reborrow(reborrow) => {
            let kill = UnblockHistoryActionView::KillReborrow(reborrow);
            assert(edge_children(state[i])[0] == kill);
            assert(serves(state[i], last) && edge_children(state[i]).contains(kill));
            assert(step(last, kill));
            lemma_walk_push(step, walk, kill);
            let middle = walk.push(kill);
            assert(step(kill, target));
            lemma_walk_push(step, middle, target);
            middle.push(target)
        },
        _ => {
            assert(edge_children(state[i])[j] == target);
            assert(serves(state[i], last) && edge_children(state[i]).contains(target));
            assert(step(last, target));
            lemma_walk_push(step, walk, target);
            walk.push(target)
        },
    }
}

/// Along a chain of edges that wait for one another, the traversal comes
/// from a step at which the first is looked at to a step at which the last
/// is looked at.
proof fn lemma_follow_waiting(
    state: Seq<BorrowsEdgeView>,
    graph: Seq<BorrowsEdgeView>,
    chain: Seq<BorrowsEdgeView>,
    from: int,
    to: int,
    walk: Seq<UnblockHistoryActionView>,
) -> (longer: Seq<UnblockHistoryActionView>)
    requires
        forall|i: int| 0 <= i < graph.len() ==> state.contains(#[trigger] graph[i]),
        is_walk(waiting_step(graph), chain),
        0 <= from <= to < chain.len(),
        is_walk(blocking_step(state), walk),
        graph.contains(chain[from]),
        serves(chain[from], walk.last()),
    ensures
        is_walk(blocking_step(state), longer),
        extends(longer, walk),
        graph.contains(chain[to]),
        serves(chain[to], longer.last()),
    decreases to - from,
{
    if from == to {
        walk
    } else {
        let edge = chain[from];
        let next = chain[from + 1];
        assert(steps_at(waiting_step(graph), chain, from));
        assert(waits_for(edge, next));
        let j = choose|j: int|
            0 <= j < edge.kind.blocked_by_places().len() && next.kind.blocks_place(
                MaybeRemotePlaceView::Local(#[trigger] edge.kind.blocked_by_places()[j]),
            );
        let x = choose|x: int| 0 <= x < graph.len() && graph[x] == edge;
        assert(state.contains(graph[x]));
        let nearer = lemma_approach(state, walk, edge, j);
        let longer = lemma_follow_waiting(state, graph, chain, from + 1, to, nearer);
        longer
    }
}

/// Where no cycle can be reached from `start`, the edges that the traversal
/// from `start` puts into the graph do not wait for one another in a cycle.
pub proof fn lemma_dependencies_wait_without_cycle(
    state: Seq<BorrowsEdgeView>,
    start: UnblockHistoryActionView,
    graph: Seq<BorrowsEdgeView>,
)
    requires
        acyclic_from(blocking_step(state), start),
        forall|i: int| 0 <= i < graph.len() ==> dependencies(state, start).contains(#[trigger] graph[i]),
    ensures
        can_be_released(graph),
{
    let step = blocking_step(state);
    assert forall|i: int| 0 <= i < graph.len() implies state.contains(#[trigger] graph[i]) && (
    graph[i]).kind.action() is Some by {
        assert(dependencies(state, start).contains(graph[i]));
        let node = choose|node: UnblockHistoryActionView|
            reaches(step, start, node) && #[trigger] adds(state, node, graph[i]);
    }
    assert forall|i: int| 0 <= i < graph.len() implies acyclic_from(
        waiting_step(graph),
        #[trigger] graph[i],
    ) by {
        assert forall|chain: Seq<BorrowsEdgeView>| #[trigger]
            walk_from(waiting_step(graph), graph[i], chain) implies chain.no_duplicates() by {
            assert forall|a: int, b: int|
                0 <= a < chain.len() && 0 <= b < chain.len() && a != b implies chain[a]
                != chain[b] by {
                if chain[a] == chain[b] {
                    let (a, b) = if a < b {
                        (a, b)
                    } else {
                        (b, a)
                    };
                    assert(dependencies(state, start).contains(graph[i]));
                    let node = choose|node: UnblockHistoryActionView|
                        reaches(step, start, node) && #[trigger] adds(state, node, graph[i]);
                    let to_first = choose|walk: Seq<UnblockHistoryActionView>| #[trigger]
                        walk_from(step, start, walk) && walk.last() == node;
                    let to_edge = lemma_follow_waiting(state, graph, chain, 0, a, to_first);
                    let edge = chain[a];
                    assert(steps_at(waiting_step(graph), chain, a));
                    let j = choose|j: int|
                        0 <= j < edge.kind.blocked_by_places().len() && chain[a
                            + 1].kind.blocks_place(
                            MaybeRemotePlaceView::Local(#[trigger] edge.kind.blocked_by_places()[j]),
                        );
                    let x = choose|x: int| 0 <= x < graph.len() && graph[x] == edge;
                    assert(state.contains(graph[x]));
                    let first_visit = lemma_approach(state, to_edge, edge, j);
                    let again = lemma_follow_waiting(
                        state,
                        graph,
                        chain,
                        a + 1,
                        b,
                        first_visit,
                    );
                    let second_visit = lemma_approach(state, again, edge, j);
                    assert(walk_from(step, start, second_visit));
                    let at = first_visit.len() - 1;
                    assert(second_visit[at] == first_visit[at]);
                    assert(second_visit[at] == second_visit[second_visit.len() - 1]);
                    assert(second_visit.no_duplicates());
                }
            }
        }
    }
}

/// A graph that holds nothing but what the traversal from `start` puts into
/// it can be released, provided that no cycle can be reached from `start`.
pub proof fn lemma_built_graph_can_be_released(
    state: Seq<BorrowsEdgeView>,
    start: UnblockHistoryActionView,
    graph: Seq<BorrowsEdgeView>,
)
    requires
        acyclic_from(blocking_step(state), start),
        graph.to_set().subset_of(dependencies(state, start)),
    ensures
        release_order(graph) is Ok,
{
    assert forall|i: int| 0 <= i < graph.len() implies dependencies(state, start).contains(
        #[trigger] graph[i],
    ) by {
        assert(graph.contains(graph[i]));
        assert(graph.to_set().contains(graph[i]));
    }
    lemma_dependencies_wait_without_cycle(state, start, graph);
    lemma_release_succeeds_iff_no_cycle(graph);
}

} // verus!
