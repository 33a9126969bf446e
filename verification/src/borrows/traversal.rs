//! The traversal that builds an unblock graph, step by step: which edges it
//! adds to the graph, and in which order.

use vstd::prelude::*;

use crate::borrows::borrows_edge::{BorrowsEdgeKindView, BorrowsEdgeView};
use crate::borrows::borrows_state::blocking;
use crate::borrows::dependencies::{
    lemma_children_in_universe, lemma_steps_left, place_node, prefix_reborrows, steps_left,
    steps_left_with, universe,
};
use crate::borrows::domain::{MaybeOldPlaceView, MaybeRemotePlaceView};
use crate::borrows::unblock_graph::{UnblockError, UnblockHistoryActionView};

verus! {

/// The failure of a traversal: the step that came up a second time and the
/// history that held it already.
pub struct Revisit {
    pub history: Seq<UnblockHistoryActionView>,
    pub revisited: UnblockHistoryActionView,
}

/// How a traversal ended: with a graph, or at a step that its history held
/// already.
pub open spec fn outcome(result: Result<(), UnblockError>, graph: Seq<BorrowsEdgeView>) -> Result<
    Seq<BorrowsEdgeView>,
    Revisit,
> {
    match result {
        Ok(_) => Ok(graph),
        Err(error) => Err(error.revisit()),
    }
}

/// `graph`, with `edge` added at the end unless it is already there.
pub open spec fn with_edge(graph: Seq<BorrowsEdgeView>, edge: BorrowsEdgeView) -> Seq<
    BorrowsEdgeView,
> {
    if graph.contains(edge) {
        graph
    } else {
        graph.push(edge)
    }
}

/// The graph after unblocking `place`, or the failure if a step comes up
/// that `history` holds already. The place is recorded; then the edges that block
/// it are dealt with in the order of the state; then, for a current place,
/// the reborrows of its proper ancestors.
pub open spec fn unblocked(
    state: Seq<BorrowsEdgeView>,
    place: MaybeRemotePlaceView,
    history: Seq<UnblockHistoryActionView>,
    graph: Seq<BorrowsEdgeView>,
) -> Result<Seq<BorrowsEdgeView>, Revisit>
    decreases steps_left_with(state, UnblockHistoryActionView::UnblockPlace(place), history), 0nat, 0nat,
{
    let node = UnblockHistoryActionView::UnblockPlace(place);
    if history.contains(node) {
        Err(Revisit { history, revisited: node })
    } else {
        proof {
            lemma_steps_left(state, node, history);
        }
        let trail = history.push(node);
        match released(state, state.filter(blocking(place)), 0, trail, graph) {
            Err(revisit) => Err(revisit),
            Ok(graph) => released(state, prefix_reborrows(state, place), 0, trail, graph),
        }
    }
}

/// The graph after dealing with the edges of `edges` from position `from`
/// on, each with its own copy of `history`. A reborrow is killed. An
/// expansion is added, then its parts are unblocked. A region is added after
/// the places that it waits for are unblocked. Membership in a region is
/// passed over.
pub open spec fn released(
    state: Seq<BorrowsEdgeView>,
    edges: Seq<BorrowsEdgeView>,
    from: int,
    history: Seq<UnblockHistoryActionView>,
    graph: Seq<BorrowsEdgeView>,
) -> Result<Seq<BorrowsEdgeView>, Revisit>
    decreases steps_left(state, history), 3nat, edges.len() - from,
    when 0 <= from && forall|i: int| 0 <= i < edges.len() ==> state.contains(#[trigger] edges[i])
{
    if from >= edges.len() {
        Ok(graph)
    } else {
        let edge = edges[from];
        let after = match edge.kind {
            BorrowsEdgeKindView::Reborrow(reborrow) => {
                proof {
                    lemma_children_in_universe(state, edge);
                    assert(crate::borrows::dependencies::edge_children(edge)[0]
                        == UnblockHistoryActionView::KillReborrow(reborrow));
                    lemma_steps_left(
                        state,
                        UnblockHistoryActionView::KillReborrow(reborrow),
                        history,
                    );
                }
                killed(state, edge, history, graph)
            },
            BorrowsEdgeKindView::DerefExpansion(expansion) => unblocked_all(
                state,
                expansion.expansion,
                0,
                history,
                with_edge(graph, edge),
            ),
            BorrowsEdgeKindView::Abstraction(abstraction) => match unblocked_all(
                state,
                abstraction.blocker_places,
                0,
                history,
                graph,
            ) {
                Ok(graph) => Ok(with_edge(graph, edge)),
                Err(revisit) => Err(revisit),
            },
            BorrowsEdgeKindView::RegionProjectionMember(_) => Ok(graph),
        };
        match after {
            Err(revisit) => Err(revisit),
            Ok(graph) => released(state, edges, from + 1, history, graph),
        }
    }
}

/// The graph after unblocking the places of `places` from position `from`
/// on, each with its own copy of `history`.
pub open spec fn unblocked_all(
    state: Seq<BorrowsEdgeView>,
    places: Seq<MaybeOldPlaceView>,
    from: int,
    history: Seq<UnblockHistoryActionView>,
    graph: Seq<BorrowsEdgeView>,
) -> Result<Seq<BorrowsEdgeView>, Revisit>
    decreases steps_left(state, history), 2nat, places.len() - from,
    when 0 <= from && forall|j: int|
        0 <= j < places.len() ==> universe(state).contains(place_node(#[trigger] places[j]))
{
    if from >= places.len() {
        Ok(graph)
    } else {
        proof {
            lemma_steps_left(state, place_node(places[from]), history);
        }
        match unblocked(state, MaybeRemotePlaceView::Local(places[from]), history, graph) {
            Err(revisit) => Err(revisit),
            Ok(graph) => unblocked_all(state, places, from + 1, history, graph),
        }
    }
}

/// The graph after killing the reborrow `edge`, or the failure if a step
/// comes up that `history` holds already. The reborrow is recorded; then the
/// place that it lends to is unblocked; then the reborrow is added.
pub open spec fn killed(
    state: Seq<BorrowsEdgeView>,
    edge: BorrowsEdgeView,
    history: Seq<UnblockHistoryActionView>,
    graph: Seq<BorrowsEdgeView>,
) -> Result<Seq<BorrowsEdgeView>, Revisit>
    decreases
            steps_left_with(
                state,
                UnblockHistoryActionView::KillReborrow(edge.kind->Reborrow_0),
                history,
            ),
            1nat,
            0nat,
    when edge.kind is Reborrow
{
    let reborrow = edge.kind->Reborrow_0;
    let node = UnblockHistoryActionView::KillReborrow(reborrow);
    if history.contains(node) {
        Err(Revisit { history, revisited: node })
    } else {
        proof {
            lemma_steps_left(state, node, history);
            lemma_steps_left(state, place_node(reborrow.assigned_place), history.push(node));
        }
        match unblocked(
            state,
            MaybeRemotePlaceView::Local(reborrow.assigned_place),
            history.push(node),
            graph,
        ) {
            Err(revisit) => Err(revisit),
            Ok(graph) => Ok(with_edge(graph, edge)),
        }
    }
}

/// The graph after ending the reborrows of `edges` from position `from` on:
/// for each, the place that it lends to is unblocked, then the reborrow is
/// added.
pub open spec fn ended(
    state: Seq<BorrowsEdgeView>,
    edges: Seq<BorrowsEdgeView>,
    from: int,
    graph: Seq<BorrowsEdgeView>,
) -> Result<Seq<BorrowsEdgeView>, Revisit>
    decreases edges.len() - from,
    when 0 <= from && forall|i: int| 0 <= i < edges.len() ==> (#[trigger] edges[i]).kind is Reborrow
{
    if from >= edges.len() {
        Ok(graph)
    } else {
        let edge = edges[from];
        match unblocked(
            state,
            MaybeRemotePlaceView::Local(edge.kind->Reborrow_0.assigned_place),
            Seq::empty(),
            graph,
        ) {
            Err(revisit) => Err(revisit),
            Ok(graph) => ended(state, edges, from + 1, with_edge(graph, edge)),
        }
    }
}

} // verus!
