//! What has to be released before a place is free: the blocking relations
//! that are met when one follows, from the place, every relation that blocks
//! it to the places that this relation waits for in turn.

use vstd::prelude::*;

use crate::borrows::borrows_edge::{BorrowsEdgeKindView, BorrowsEdgeView};
use crate::borrows::borrows_state::{blocking, blocking_prefix_of, blocks_strict_prefix};
use crate::borrows::domain::{MaybeOldPlaceView, MaybeRemotePlaceView, ReborrowView};
use crate::borrows::unblock_graph::UnblockHistoryActionView;
use crate::utils::items::lemma_filter_members;
use crate::utils::walks::{
    acyclic_from, guarded, lemma_acyclic_avoids_predecessor, lemma_guarded_step,
    lemma_guarded_weakens, lemma_reaches_step, reaches,
};

verus! {

/// The step of unblocking the local place `place`.
pub open spec fn place_node(place: MaybeOldPlaceView) -> UnblockHistoryActionView {
    UnblockHistoryActionView::UnblockPlace(MaybeRemotePlaceView::Local(place))
}

/// The steps of unblocking each of `places`.
pub open spec fn place_nodes(places: Seq<MaybeOldPlaceView>) -> Seq<UnblockHistoryActionView> {
    Seq::new(places.len(), |j: int| place_node(places[j]))
}

/// The steps that releasing `edge` asks for first: for a reborrow, killing
/// it; for an expansion or a region, unblocking each place that it waits for.
pub open spec fn edge_children(edge: BorrowsEdgeView) -> Seq<UnblockHistoryActionView> {
    match edge.kind {
        BorrowsEdgeKindView::Reborrow(reborrow) => seq![
            UnblockHistoryActionView::KillReborrow(reborrow),
        ],
        _ => place_nodes(edge.kind.blocked_by_places()),
    }
}

/// `edge` is looked at when `node` is visited: it blocks the place of the
/// node, or it is a reborrow of a proper ancestor of that place, the place
/// being a current one.
pub open spec fn serves(edge: BorrowsEdgeView, node: UnblockHistoryActionView) -> bool {
    match node {
        UnblockHistoryActionView::UnblockPlace(place) => edge.kind.blocks_place(place) || (
        match place {
            MaybeRemotePlaceView::Local(MaybeOldPlaceView::Current { place: current }) => {
                blocks_strict_prefix(edge, current)
            },
            _ => false,
        }),
        UnblockHistoryActionView::KillReborrow(_) => false,
    }
}

/// From one step of the traversal to the next: unblocking a place leads to
/// the steps that the edges looked at ask for, killing a reborrow leads to
/// unblocking the place that it lends to.
pub open spec fn blocking_step(state: Seq<BorrowsEdgeView>) -> spec_fn(
    UnblockHistoryActionView,
    UnblockHistoryActionView,
) -> bool {
    |from: UnblockHistoryActionView, to: UnblockHistoryActionView|
        match from {
            UnblockHistoryActionView::UnblockPlace(_) => exists|i: int|
                0 <= i < state.len() && serves(#[trigger] state[i], from) && edge_children(
                    state[i],
                ).contains(to),
            UnblockHistoryActionView::KillReborrow(reborrow) => to == place_node(
                reborrow.assigned_place,
            ),
        }
}

/// Visiting `node` puts `edge` into the graph.
pub open spec fn adds(
    state: Seq<BorrowsEdgeView>,
    node: UnblockHistoryActionView,
    edge: BorrowsEdgeView,
) -> bool {
    state.contains(edge) && serves(edge, node) && edge.kind.action() is Some
}

/// The edges that the traversal from `from` puts into the graph.
pub open spec fn dependencies(
    state: Seq<BorrowsEdgeView>,
    from: UnblockHistoryActionView,
) -> Set<BorrowsEdgeView> {
    Set::new(
        |edge: BorrowsEdgeView|
            exists|node: UnblockHistoryActionView|
                reaches(blocking_step(state), from, node) && #[trigger] adds(state, node, edge),
    )
}

/// The edges that the traversals from each of `nodes` put into the graph.
pub open spec fn dependencies_of_all(
    state: Seq<BorrowsEdgeView>,
    nodes: Seq<UnblockHistoryActionView>,
) -> Set<BorrowsEdgeView> {
    Set::new(
        |edge: BorrowsEdgeView|
            exists|j: int|
                0 <= j < nodes.len() && dependencies(state, #[trigger] nodes[j]).contains(edge),
    )
}

/// No traversal from one of `nodes` comes back to a step of `seen` or of its own.
pub open spec fn all_guarded(
    state: Seq<BorrowsEdgeView>,
    nodes: Seq<UnblockHistoryActionView>,
    seen: Set<UnblockHistoryActionView>,
) -> bool {
    forall|j: int| 0 <= j < nodes.len() ==> guarded(blocking_step(state), #[trigger] nodes[j], seen)
}

/// `edge` itself, where it has a releasing action.
pub open spec fn own_edge(edge: BorrowsEdgeView) -> Set<BorrowsEdgeView> {
    if edge.kind.action() is Some {
        set![edge]
    } else {
        Set::empty()
    }
}

/// What dealing with `edge` puts into the graph: the edge and what the steps
/// that it asks for put there.
pub open spec fn contribution(state: Seq<BorrowsEdgeView>, edge: BorrowsEdgeView) -> Set<
    BorrowsEdgeView,
> {
    own_edge(edge).union(dependencies_of_all(state, edge_children(edge)))
}

/// What dealing with each of `edges` puts into the graph.
pub open spec fn contributions(state: Seq<BorrowsEdgeView>, edges: Seq<BorrowsEdgeView>) -> Set<
    BorrowsEdgeView,
> {
    Set::new(
        |edge: BorrowsEdgeView|
            exists|k: int|
                0 <= k < edges.len() && contribution(state, #[trigger] edges[k]).contains(edge),
    )
}

/// The steps that each of `edges` asks for are guarded.
pub open spec fn served_guarded(
    state: Seq<BorrowsEdgeView>,
    edges: Seq<BorrowsEdgeView>,
    seen: Set<UnblockHistoryActionView>,
) -> bool {
    forall|k: int| 0 <= k < edges.len() ==> all_guarded(state, edge_children(#[trigger] edges[k]), seen)
}

/// The reborrows of proper ancestors of `place`, where `place` is a current
/// local place; none otherwise.
pub open spec fn prefix_reborrows(
    state: Seq<BorrowsEdgeView>,
    place: MaybeRemotePlaceView,
) -> Seq<BorrowsEdgeView> {
    match place {
        MaybeRemotePlaceView::Local(MaybeOldPlaceView::Current { place: current }) => state.filter(
            blocking_prefix_of(current),
        ),
        _ => Seq::empty(),
    }
}

pub proof fn lemma_served(
    state: Seq<BorrowsEdgeView>,
    place: MaybeRemotePlaceView,
)
    ensures
        forall|i: int|
            0 <= i < state.len() && serves(
                #[trigger] state[i],
                UnblockHistoryActionView::UnblockPlace(place),
            ) ==> state.filter(blocking(place)).contains(state[i]) || prefix_reborrows(
                state,
                place,
            ).contains(state[i]),
        forall|k: int|
            0 <= k < state.filter(blocking(place)).len() ==> state.contains(
                #[trigger] state.filter(blocking(place))[k],
            ) && serves(
                state.filter(blocking(place))[k],
                UnblockHistoryActionView::UnblockPlace(place),
            ),
        forall|k: int|
            0 <= k < prefix_reborrows(state, place).len() ==> state.contains(
                #[trigger] prefix_reborrows(state, place)[k],
            ) && serves(
                prefix_reborrows(state, place)[k],
                UnblockHistoryActionView::UnblockPlace(place),
            ),
{
    lemma_filter_members(state, blocking(place));
    match place {
        MaybeRemotePlaceView::Local(MaybeOldPlaceView::Current { place: current }) => {
            lemma_filter_members(state, blocking_prefix_of(current));
        },
        _ => {},
    }
}

/// Unblocking a place is guarded exactly when the place was not seen and the
/// steps asked for by the edges that block it, and by the reborrows of its
/// proper ancestors, are guarded once the place counts as seen.
pub proof fn lemma_place_guarded(
    state: Seq<BorrowsEdgeView>,
    place: MaybeRemotePlaceView,
    seen: Set<UnblockHistoryActionView>,
)
    ensures
        guarded(blocking_step(state), UnblockHistoryActionView::UnblockPlace(place), seen) <==> {
            &&& !seen.contains(UnblockHistoryActionView::UnblockPlace(place))
            &&& served_guarded(
                state,
                state.filter(blocking(place)),
                seen.insert(UnblockHistoryActionView::UnblockPlace(place)),
            )
            &&& served_guarded(
                state,
                prefix_reborrows(state, place),
                seen.insert(UnblockHistoryActionView::UnblockPlace(place)),
            )
        },
{
    let node = UnblockHistoryActionView::UnblockPlace(place);
    let step = blocking_step(state);
    let inner = seen.insert(node);
    let blockers = state.filter(blocking(place));
    let prefixes = prefix_reborrows(state, place);
    lemma_guarded_step(step, node, seen);
    lemma_served(state, place);
    if guarded(step, node, seen) {
        assert forall|k: int| 0 <= k < blockers.len() implies all_guarded(
            state,
            edge_children(#[trigger] blockers[k]),
            inner,
        ) by {
            let children = edge_children(blockers[k]);
            let i = choose|i: int| 0 <= i < state.len() && state[i] == blockers[k];
            assert forall|j: int| 0 <= j < children.len() implies guarded(
                step,
                #[trigger] children[j],
                inner,
            ) by {
                assert(serves(state[i], node) && edge_children(state[i]).contains(children[j]));
                assert(step(node, children[j]));
            }
        }
        assert forall|k: int| 0 <= k < prefixes.len() implies all_guarded(
            state,
            edge_children(#[trigger] prefixes[k]),
            inner,
        ) by {
            let children = edge_children(prefixes[k]);
            let i = choose|i: int| 0 <= i < state.len() && state[i] == prefixes[k];
            assert forall|j: int| 0 <= j < children.len() implies guarded(
                step,
                #[trigger] children[j],
                inner,
            ) by {
                assert(serves(state[i], node) && edge_children(state[i]).contains(children[j]));
                assert(step(node, children[j]));
            }
        }
    }
    if !seen.contains(node) && served_guarded(state, blockers, inner) && served_guarded(
        state,
        prefixes,
        inner,
    ) {
        assert forall|next: UnblockHistoryActionView| #[trigger] step(node, next) implies guarded(
            step,
            next,
            inner,
        ) by {
            let i = choose|i: int|
                0 <= i < state.len() && serves(#[trigger] state[i], node) && edge_children(
                    state[i],
                ).contains(next);
            let children = edge_children(state[i]);
            let j = choose|j: int| 0 <= j < children.len() && children[j] == next;
            if blockers.contains(state[i]) {
                let k = choose|k: int| 0 <= k < blockers.len() && blockers[k] == state[i];
                assert(all_guarded(state, edge_children(blockers[k]), inner));
                assert(guarded(step, children[j], inner));
            } else {
                let k = choose|k: int| 0 <= k < prefixes.len() && prefixes[k] == state[i];
                assert(all_guarded(state, edge_children(prefixes[k]), inner));
                assert(guarded(step, children[j], inner));
            }
        }
    }
}

/// What unblocking a place puts into the graph: what the edges that block
/// it, and the reborrows of its proper ancestors, contribute.
pub proof fn lemma_place_dependencies(state: Seq<BorrowsEdgeView>, place: MaybeRemotePlaceView)
    ensures
        dependencies(state, UnblockHistoryActionView::UnblockPlace(place)) == contributions(
            state,
            state.filter(blocking(place)),
        ).union(contributions(state, prefix_reborrows(state, place))),
{
    let node = UnblockHistoryActionView::UnblockPlace(place);
    let step = blocking_step(state);
    let blockers = state.filter(blocking(place));
    let prefixes = prefix_reborrows(state, place);
    let whole = dependencies(state, node);
    let parts = contributions(state, blockers).union(contributions(state, prefixes));
    lemma_served(state, place);
    assert forall|edge: BorrowsEdgeView| whole.contains(edge) implies parts.contains(edge) by {
        let reached = choose|reached: UnblockHistoryActionView|
            reaches(step, node, reached) && #[trigger] adds(state, reached, edge);
        lemma_reaches_step(step, node, reached);
        if reached == node {
            let i = choose|i: int| 0 <= i < state.len() && state[i] == edge;
            assert(serves(state[i], node));
            assert(contribution(state, edge).contains(edge));
            if blockers.contains(edge) {
                let k = choose|k: int| 0 <= k < blockers.len() && blockers[k] == edge;
                assert(contribution(state, blockers[k]).contains(edge));
            } else {
                let k = choose|k: int| 0 <= k < prefixes.len() && prefixes[k] == edge;
                assert(contribution(state, prefixes[k]).contains(edge));
            }
        } else {
            let next = choose|next: UnblockHistoryActionView| #[trigger]
                step(node, next) && reaches(step, next, reached);
            let i = choose|i: int|
                0 <= i < state.len() && serves(#[trigger] state[i], node) && edge_children(
                    state[i],
                ).contains(next);
            let children = edge_children(state[i]);
            let j = choose|j: int| 0 <= j < children.len() && children[j] == next;
            assert(dependencies(state, children[j]).contains(edge));
            assert(dependencies_of_all(state, children).contains(edge));
            assert(contribution(state, state[i]).contains(edge));
            if blockers.contains(state[i]) {
                let k = choose|k: int| 0 <= k < blockers.len() && blockers[k] == state[i];
                assert(contribution(state, blockers[k]).contains(edge));
            } else {
                let k = choose|k: int| 0 <= k < prefixes.len() && prefixes[k] == state[i];
                assert(contribution(state, prefixes[k]).contains(edge));
            }
        }
    }
    assert forall|edge: BorrowsEdgeView| parts.contains(edge) implies whole.contains(edge) by {
        let served = if contributions(state, blockers).contains(edge) {
            let k = choose|k: int|
                0 <= k < blockers.len() && contribution(state, #[trigger] blockers[k]).contains(
                    edge,
                );
            blockers[k]
        } else {
            let k = choose|k: int|
                0 <= k < prefixes.len() && contribution(state, #[trigger] prefixes[k]).contains(
                    edge,
                );
            prefixes[k]
        };
        assert(state.contains(served) && serves(served, node));
        assert(contribution(state, served).contains(edge));
        if own_edge(served).contains(edge) {
            lemma_reaches_step(step, node, node);
            assert(adds(state, node, edge));
        } else {
            let children = edge_children(served);
            let j = choose|j: int|
                0 <= j < children.len() && dependencies(state, #[trigger] children[j]).contains(
                    edge,
                );
            let reached = choose|reached: UnblockHistoryActionView|
                reaches(step, children[j], reached) && #[trigger] adds(state, reached, edge);
            let i = choose|i: int| 0 <= i < state.len() && state[i] == served;
            assert(serves(state[i], node) && edge_children(state[i]).contains(children[j]));
            assert(step(node, children[j]));
            lemma_reaches_step(step, node, reached);
            assert(adds(state, reached, edge));
        }
    }
    assert(whole =~= parts);
}

/// Killing a reborrow is guarded exactly when it was not seen and unblocking
/// the place that it lends to is guarded once the reborrow counts as seen;
/// it puts into the graph what unblocking that place puts there.
pub proof fn lemma_reborrow_step(
    state: Seq<BorrowsEdgeView>,
    reborrow: ReborrowView,
    seen: Set<UnblockHistoryActionView>,
)
    ensures
        guarded(blocking_step(state), UnblockHistoryActionView::KillReborrow(reborrow), seen) <==> {
            &&& !seen.contains(UnblockHistoryActionView::KillReborrow(reborrow))
            &&& guarded(
                blocking_step(state),
                place_node(reborrow.assigned_place),
                seen.insert(UnblockHistoryActionView::KillReborrow(reborrow)),
            )
        },
        dependencies(state, UnblockHistoryActionView::KillReborrow(reborrow)) == dependencies(
            state,
            place_node(reborrow.assigned_place),
        ),
{
    let node = UnblockHistoryActionView::KillReborrow(reborrow);
    let next = place_node(reborrow.assigned_place);
    let step = blocking_step(state);
    lemma_guarded_step(step, node, seen);
    assert(step(node, next));
    let whole = dependencies(state, node);
    let below = dependencies(state, next);
    assert forall|edge: BorrowsEdgeView| whole.contains(edge) implies below.contains(edge) by {
        let reached = choose|reached: UnblockHistoryActionView|
            reaches(step, node, reached) && #[trigger] adds(state, reached, edge);
        lemma_reaches_step(step, node, reached);
        let via = choose|via: UnblockHistoryActionView| #[trigger]
            step(node, via) && reaches(step, via, reached);
        assert(adds(state, reached, edge));
    }
    assert forall|edge: BorrowsEdgeView| below.contains(edge) implies whole.contains(edge) by {
        let reached = choose|reached: UnblockHistoryActionView|
            reaches(step, next, reached) && #[trigger] adds(state, reached, edge);
        lemma_reaches_step(step, node, reached);
        assert(adds(state, reached, edge));
    }
    assert(whole =~= below);
}

/// No cycle can be reached from killing a reborrow exactly when none can be
/// reached from unblocking the place that it lends to.
pub proof fn lemma_reborrow_acyclic(state: Seq<BorrowsEdgeView>, reborrow: ReborrowView)
    ensures
        acyclic_from(blocking_step(state), UnblockHistoryActionView::KillReborrow(reborrow))
            <==> acyclic_from(blocking_step(state), place_node(reborrow.assigned_place)),
{
    let step = blocking_step(state);
    let node = UnblockHistoryActionView::KillReborrow(reborrow);
    let next = place_node(reborrow.assigned_place);
    lemma_reborrow_step(state, reborrow, Set::empty());
    assert(Set::<UnblockHistoryActionView>::empty().insert(node) =~= set![node]);
    assert(step(node, next));
    if acyclic_from(step, node) {
        lemma_guarded_weakens(step, next, set![node], Set::empty());
    }
    if acyclic_from(step, next) {
        lemma_acyclic_avoids_predecessor(step, next, node);
    }
}

/// A place that a reborrow of the state both borrows from and lends to lies
/// on a cycle.
pub proof fn lemma_self_blocking_is_cyclic(state: Seq<BorrowsEdgeView>, edge: BorrowsEdgeView)
    requires
        state.contains(edge),
        edge.kind is Reborrow,
        edge.kind->Reborrow_0.blocked_place == MaybeRemotePlaceView::Local(
            edge.kind->Reborrow_0.assigned_place,
        ),
    ensures
        !acyclic_from(
            blocking_step(state),
            UnblockHistoryActionView::UnblockPlace(edge.kind->Reborrow_0.blocked_place),
        ),
{
    let reborrow = edge.kind->Reborrow_0;
    let step = blocking_step(state);
    let place = UnblockHistoryActionView::UnblockPlace(reborrow.blocked_place);
    let kill = UnblockHistoryActionView::KillReborrow(reborrow);
    let i = choose|i: int| 0 <= i < state.len() && state[i] == edge;
    assert(edge.kind.blocked_places()[0] == reborrow.blocked_place);
    assert(serves(state[i], place));
    assert(edge_children(state[i])[0] == kill);
    assert(step(place, kill));
    assert(step(kill, place));
    let round = seq![place, kill, place];
    assert forall|x: int| 0 <= x < round.len() - 1 implies #[trigger] crate::utils::walks::steps_at(
        step,
        round,
        x,
    ) by {
        if x == 0 {
            assert(round[0] == place && round[1] == kill);
        } else {
            assert(round[1] == kill && round[2] == place);
        }
    }
    assert(crate::utils::walks::walk_from(step, place, round));
    assert(round[0] == round[2]);
}

/// A list of one step behaves as that step.
pub proof fn lemma_single_node(
    state: Seq<BorrowsEdgeView>,
    node: UnblockHistoryActionView,
    seen: Set<UnblockHistoryActionView>,
)
    ensures
        dependencies_of_all(state, seq![node]) == dependencies(state, node),
        all_guarded(state, seq![node], seen) <==> guarded(blocking_step(state), node, seen),
{
    let nodes = seq![node];
    assert(nodes[0] == node);
    assert(dependencies_of_all(state, nodes) =~= dependencies(state, node)) by {
        assert forall|edge: BorrowsEdgeView|
            dependencies(state, node).contains(edge) implies dependencies_of_all(
            state,
            nodes,
        ).contains(edge) by {
            assert(dependencies(state, nodes[0]).contains(edge));
        }
    }
}

/// Going on by one step in a list of steps.
pub proof fn lemma_nodes_next(
    state: Seq<BorrowsEdgeView>,
    nodes: Seq<UnblockHistoryActionView>,
    j: int,
    seen: Set<UnblockHistoryActionView>,
)
    requires
        0 <= j < nodes.len(),
    ensures
        dependencies_of_all(state, nodes.take(j + 1)) == dependencies_of_all(
            state,
            nodes.take(j),
        ).union(dependencies(state, nodes[j])),
        all_guarded(state, nodes.take(j + 1), seen) <==> all_guarded(state, nodes.take(j), seen)
            && guarded(blocking_step(state), nodes[j], seen),
{
    let before = nodes.take(j);
    let after = nodes.take(j + 1);
    assert(after[j] == nodes[j]);
    assert forall|edge: BorrowsEdgeView|
        dependencies_of_all(state, after).contains(edge) <==> dependencies_of_all(
            state,
            before,
        ).contains(edge) || dependencies(state, nodes[j]).contains(edge) by {
        if dependencies_of_all(state, after).contains(edge) {
            let x = choose|x: int|
                0 <= x < after.len() && dependencies(state, #[trigger] after[x]).contains(edge);
            if x < j {
                assert(before[x] == after[x]);
            }
        }
        if dependencies_of_all(state, before).contains(edge) {
            let x = choose|x: int|
                0 <= x < before.len() && dependencies(state, #[trigger] before[x]).contains(edge);
            assert(after[x] == before[x]);
        }
        if dependencies(state, nodes[j]).contains(edge) {
            assert(dependencies(state, after[j]).contains(edge));
        }
    }
    assert(dependencies_of_all(state, after) =~= dependencies_of_all(state, before).union(
        dependencies(state, nodes[j]),
    ));
    if all_guarded(state, after, seen) {
        assert forall|x: int| 0 <= x < before.len() implies guarded(
            blocking_step(state),
            #[trigger] before[x],
            seen,
        ) by {
            assert(after[x] == before[x]);
        }
        assert(guarded(blocking_step(state), after[j], seen));
    }
    if all_guarded(state, before, seen) && guarded(blocking_step(state), nodes[j], seen) {
        assert forall|x: int| 0 <= x < after.len() implies guarded(
            blocking_step(state),
            #[trigger] after[x],
            seen,
        ) by {
            if x < j {
                assert(after[x] == before[x]);
            }
        }
    }
}

/// Going on by one edge in a list of edges.
pub proof fn lemma_edges_next(
    state: Seq<BorrowsEdgeView>,
    edges: Seq<BorrowsEdgeView>,
    k: int,
    seen: Set<UnblockHistoryActionView>,
)
    requires
        0 <= k < edges.len(),
    ensures
        contributions(state, edges.take(k + 1)) == contributions(state, edges.take(k)).union(
            contribution(state, edges[k]),
        ),
        served_guarded(state, edges.take(k + 1), seen) <==> served_guarded(
            state,
            edges.take(k),
            seen,
        ) && all_guarded(state, edge_children(edges[k]), seen),
{
    let before = edges.take(k);
    let after = edges.take(k + 1);
    assert(after[k] == edges[k]);
    assert forall|edge: BorrowsEdgeView|
        contributions(state, after).contains(edge) <==> contributions(state, before).contains(
            edge,
        ) || contribution(state, edges[k]).contains(edge) by {
        if contributions(state, after).contains(edge) {
            let x = choose|x: int|
                0 <= x < after.len() && contribution(state, #[trigger] after[x]).contains(edge);
            if x < k {
                assert(before[x] == after[x]);
            }
        }
        if contributions(state, before).contains(edge) {
            let x = choose|x: int|
                0 <= x < before.len() && contribution(state, #[trigger] before[x]).contains(edge);
            assert(after[x] == before[x]);
        }
        if contribution(state, edges[k]).contains(edge) {
            assert(contribution(state, after[k]).contains(edge));
        }
    }
    assert(contributions(state, after) =~= contributions(state, before).union(
        contribution(state, edges[k]),
    ));
    if served_guarded(state, after, seen) {
        assert forall|x: int| 0 <= x < before.len() implies all_guarded(
            state,
            edge_children(#[trigger] before[x]),
            seen,
        ) by {
            assert(after[x] == before[x]);
        }
        assert(all_guarded(state, edge_children(after[k]), seen));
    }
    if served_guarded(state, before, seen) && all_guarded(state, edge_children(edges[k]), seen) {
        assert forall|x: int| 0 <= x < after.len() implies all_guarded(
            state,
            edge_children(#[trigger] after[x]),
            seen,
        ) by {
            if x < k {
                assert(after[x] == before[x]);
            }
        }
    }
}

/// Nothing comes of an empty list.
pub proof fn lemma_nothing_to_do(state: Seq<BorrowsEdgeView>, seen: Set<UnblockHistoryActionView>)
    ensures
        contributions(state, Seq::empty()) == Set::<BorrowsEdgeView>::empty(),
        served_guarded(state, Seq::empty(), seen),
        dependencies_of_all(state, Seq::empty()) == Set::<BorrowsEdgeView>::empty(),
        all_guarded(state, Seq::empty(), seen),
{
    assert(contributions(state, Seq::empty()) =~= Set::<BorrowsEdgeView>::empty());
    assert(dependencies_of_all(state, Seq::empty()) =~= Set::<BorrowsEdgeView>::empty());
}

/// The steps that an edge can ask for, and the places that a reborrow connects.
pub open spec fn edge_nodes(edge: BorrowsEdgeView) -> Seq<UnblockHistoryActionView> {
    edge_children(edge) + match edge.kind {
        BorrowsEdgeKindView::Reborrow(reborrow) => seq![
            place_node(reborrow.assigned_place),
            UnblockHistoryActionView::UnblockPlace(reborrow.blocked_place),
        ],
        _ => Seq::empty(),
    }
}

/// Every step that a traversal can come to after its first step.
pub open spec fn universe(state: Seq<BorrowsEdgeView>) -> Set<UnblockHistoryActionView>
    decreases state.len(),
{
    if state.len() == 0 {
        Set::empty()
    } else {
        universe(state.drop_last()).union(edge_nodes(state.last()).to_set())
    }
}

pub proof fn lemma_universe(state: Seq<BorrowsEdgeView>)
    ensures
        universe(state).finite(),
        forall|i: int, j: int|
            0 <= i < state.len() && 0 <= j < edge_nodes(state[i]).len() ==> universe(
                state,
            ).contains(#[trigger] edge_nodes(state[i])[j]),
    decreases state.len(),
{
    if state.len() > 0 {
        let front = state.drop_last();
        lemma_universe(front);
        vstd::seq_lib::seq_to_set_is_finite(edge_nodes(state.last()));
        assert forall|i: int, j: int|
            0 <= i < state.len() && 0 <= j < edge_nodes(state[i]).len() implies universe(
            state,
        ).contains(#[trigger] edge_nodes(state[i])[j]) by {
            if i < front.len() {
                assert(front[i] == state[i]);
                assert(universe(front).contains(edge_nodes(front[i])[j]));
            } else {
                assert(edge_nodes(state.last()).contains(edge_nodes(state[i])[j]));
            }
        }
    }
}

/// The steps that an edge of the state asks for are steps of the universe.
pub proof fn lemma_children_in_universe(state: Seq<BorrowsEdgeView>, edge: BorrowsEdgeView)
    requires
        state.contains(edge),
    ensures
        forall|j: int|
            0 <= j < edge_children(edge).len() ==> universe(state).contains(
                #[trigger] edge_children(edge)[j],
            ),
{
    lemma_universe(state);
    let i = choose|i: int| 0 <= i < state.len() && state[i] == edge;
    assert forall|j: int| 0 <= j < edge_children(edge).len() implies universe(state).contains(
        #[trigger] edge_children(edge)[j],
    ) by {
        assert(edge_nodes(state[i])[j] == edge_children(edge)[j]);
    }
}

/// The number of steps that a traversal with history `history` can still
/// come to.
pub open spec fn steps_left(
    state: Seq<BorrowsEdgeView>,
    history: Seq<UnblockHistoryActionView>,
) -> nat {
    universe(state).difference(history.to_set()).len()
}

/// The same, with the step `node` counted in.
pub open spec fn steps_left_with(
    state: Seq<BorrowsEdgeView>,
    node: UnblockHistoryActionView,
    history: Seq<UnblockHistoryActionView>,
) -> nat {
    universe(state).insert(node).difference(history.to_set()).len()
}

pub proof fn lemma_steps_left(
    state: Seq<BorrowsEdgeView>,
    node: UnblockHistoryActionView,
    history: Seq<UnblockHistoryActionView>,
)
    ensures
        steps_left_with(state, node, history) <= steps_left(state, history) + 1,
        universe(state).contains(node) ==> steps_left_with(state, node, history) == steps_left(
            state,
            history,
        ),
        !history.contains(node) ==> steps_left(state, history.push(node)) < steps_left_with(
            state,
            node,
            history,
        ),
{
    lemma_universe(state);
    let all = universe(state);
    let seen = history.to_set();
    let with = all.insert(node).difference(seen);
    let without = all.difference(seen);
    assert(without.finite() && with.finite());
    if all.contains(node) {
        assert(all.insert(node) =~= all);
    }
    assert(with.subset_of(without.insert(node)));
    vstd::set_lib::lemma_len_subset(with, without.insert(node));
    if !history.contains(node) {
        let after = all.difference(history.push(node).to_set());
        assert(with.contains(node));
        assert(after.subset_of(with.remove(node))) by {
            assert forall|n: UnblockHistoryActionView| after.contains(n) implies with.remove(
                node,
            ).contains(n) by {
                assert(history.push(node)[history.len() as int] == node);
                if history.contains(n) {
                    let k = choose|k: int| 0 <= k < history.len() && history[k] == n;
                    assert(history.push(node)[k] == n);
                }
            }
        }
        vstd::set_lib::lemma_len_subset(after, with.remove(node));
    }
}

} // verus!
