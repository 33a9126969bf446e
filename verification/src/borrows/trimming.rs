//! Trimming a snapshot: the reborrows that lend to it are ended, after
//! the snapshots that these borrow from have been trimmed in turn.

use vstd::prelude::*;

use crate::borrows::borrows_edge::{BorrowsEdgeKindView, BorrowsEdgeView};
use crate::borrows::borrows_state::assigned_to;
use crate::borrows::dependencies::{
    contributions, edge_children, edge_nodes, lemma_steps_left, lemma_universe, place_node,
    served_guarded, steps_left, steps_left_with, universe,
};
use crate::borrows::traversal::{killed, Revisit};
use crate::borrows::domain::{MaybeOldPlaceView, MaybeRemotePlaceView};
use crate::borrows::unblock_graph::UnblockHistoryActionView;
use crate::utils::items::lemma_filter_members;
use crate::utils::walks::{guarded, lemma_guarded_step, lemma_reaches_step, reaches};

verus! {

/// The reborrows that lend to the local place of `node`.
pub open spec fn lenders(
    state: Seq<BorrowsEdgeView>,
    node: UnblockHistoryActionView,
) -> Seq<BorrowsEdgeView> {
    match node {
        UnblockHistoryActionView::UnblockPlace(MaybeRemotePlaceView::Local(place)) => state.filter(
            assigned_to(place),
        ),
        _ => Seq::empty(),
    }
}

/// The snapshot that the reborrow `edge` borrows from, if it borrows from one.
pub open spec fn lent_snapshot(edge: BorrowsEdgeView) -> Option<UnblockHistoryActionView> {
    match edge.kind {
        BorrowsEdgeKindView::Reborrow(reborrow) => match reborrow.blocked_place {
            MaybeRemotePlaceView::Local(MaybeOldPlaceView::OldPlace(_)) => Some(
                UnblockHistoryActionView::UnblockPlace(reborrow.blocked_place),
            ),
            _ => None,
        },
        _ => None,
    }
}

/// From a place to a snapshot that one of its lenders borrows from.
pub open spec fn trim_step(state: Seq<BorrowsEdgeView>) -> spec_fn(
    UnblockHistoryActionView,
    UnblockHistoryActionView,
) -> bool {
    |from: UnblockHistoryActionView, to: UnblockHistoryActionView|
        exists|k: int|
            0 <= k < lenders(state, from).len() && lent_snapshot(
                #[trigger] lenders(state, from)[k],
            ) == Some(to)
}

/// What trimming `from` puts into the graph: what the lenders of every place
/// that trimming comes to contribute.
pub open spec fn trimmed(
    state: Seq<BorrowsEdgeView>,
    from: UnblockHistoryActionView,
) -> Set<BorrowsEdgeView> {
    Set::new(
        |edge: BorrowsEdgeView|
            exists|node: UnblockHistoryActionView| #[trigger]
                reaches(trim_step(state), from, node) && contributions(
                    state,
                    lenders(state, node),
                ).contains(edge),
    )
}

/// Trimming `from` succeeds: it never comes back to a place of `seen` or of
/// its own way, and no cycle can be reached from a lender of a place that it
/// comes to.
pub open spec fn trims(
    state: Seq<BorrowsEdgeView>,
    from: UnblockHistoryActionView,
    seen: Set<UnblockHistoryActionView>,
) -> bool {
    &&& guarded(trim_step(state), from, seen)
    &&& forall|node: UnblockHistoryActionView| #[trigger]
        reaches(trim_step(state), from, node) ==> served_guarded(
            state,
            lenders(state, node),
            Set::empty(),
        )
}

/// The snapshots that `edges` borrow from can all be trimmed.
pub open spec fn snapshots_trim(
    state: Seq<BorrowsEdgeView>,
    edges: Seq<BorrowsEdgeView>,
    seen: Set<UnblockHistoryActionView>,
) -> bool {
    forall|k: int|
        0 <= k < edges.len() && lent_snapshot(#[trigger] edges[k]) is Some ==> trims(
            state,
            lent_snapshot(edges[k]).unwrap(),
            seen,
        )
}

/// What trimming the snapshots that `edges` borrow from puts into the graph.
pub open spec fn snapshots_trimmed(
    state: Seq<BorrowsEdgeView>,
    edges: Seq<BorrowsEdgeView>,
) -> Set<BorrowsEdgeView> {
    Set::new(
        |edge: BorrowsEdgeView|
            exists|k: int|
                0 <= k < edges.len() && lent_snapshot(#[trigger] edges[k]) is Some && trimmed(
                    state,
                    lent_snapshot(edges[k]).unwrap(),
                ).contains(edge),
    )
}

/// Trimming a place succeeds exactly when the place was not seen, no cycle
/// can be reached from one of its lenders, and the snapshots that the
/// lenders borrow from can be trimmed once the place counts as seen. It puts
/// into the graph what the lenders contribute and what trimming those
/// snapshots puts there.
pub proof fn lemma_trim_step(
    state: Seq<BorrowsEdgeView>,
    from: UnblockHistoryActionView,
    seen: Set<UnblockHistoryActionView>,
)
    ensures
        trims(state, from, seen) <==> {
            &&& !seen.contains(from)
            &&& served_guarded(state, lenders(state, from), Set::empty())
            &&& snapshots_trim(state, lenders(state, from), seen.insert(from))
        },
        trimmed(state, from) == contributions(state, lenders(state, from)).union(
            snapshots_trimmed(state, lenders(state, from)),
        ),
{
    let step = trim_step(state);
    let lending = lenders(state, from);
    let inner = seen.insert(from);
    lemma_guarded_step(step, from, seen);
    lemma_reaches_step(step, from, from);
    if trims(state, from, seen) {
        assert(reaches(step, from, from));
        assert forall|k: int|
            0 <= k < lending.len() && lent_snapshot(#[trigger] lending[k]) is Some implies trims(
            state,
            lent_snapshot(lending[k]).unwrap(),
            inner,
        ) by {
            let next = lent_snapshot(lending[k]).unwrap();
            assert(step(from, next));
            assert forall|node: UnblockHistoryActionView| #[trigger]
                reaches(step, next, node) implies served_guarded(
                state,
                lenders(state, node),
                Set::empty(),
            ) by {
                lemma_reaches_step(step, from, node);
                assert(reaches(step, from, node));
            }
        }
    }
    if !seen.contains(from) && served_guarded(state, lending, Set::empty()) && snapshots_trim(
        state,
        lending,
        inner,
    ) {
        assert forall|next: UnblockHistoryActionView| #[trigger] step(from, next) implies guarded(
            step,
            next,
            inner,
        ) by {
            let k = choose|k: int|
                0 <= k < lending.len() && lent_snapshot(#[trigger] lending[k]) == Some(next);
            assert(trims(state, lent_snapshot(lending[k]).unwrap(), inner));
        }
        assert forall|node: UnblockHistoryActionView| #[trigger]
            reaches(step, from, node) implies served_guarded(
            state,
            lenders(state, node),
            Set::empty(),
        ) by {
            lemma_reaches_step(step, from, node);
            if node != from {
                let next = choose|next: UnblockHistoryActionView| #[trigger]
                    step(from, next) && reaches(step, next, node);
                let k = choose|k: int|
                    0 <= k < lending.len() && lent_snapshot(#[trigger] lending[k]) == Some(next);
                assert(trims(state, lent_snapshot(lending[k]).unwrap(), inner));
                assert(reaches(step, next, node));
            }
        }
    }
    let whole = trimmed(state, from);
    let parts = contributions(state, lending).union(snapshots_trimmed(state, lending));
    assert forall|edge: BorrowsEdgeView| whole.contains(edge) implies parts.contains(edge) by {
        let node = choose|node: UnblockHistoryActionView| #[trigger]
            reaches(step, from, node) && contributions(state, lenders(state, node)).contains(edge);
        lemma_reaches_step(step, from, node);
        if node != from {
            let next = choose|next: UnblockHistoryActionView| #[trigger]
                step(from, next) && reaches(step, next, node);
            let k = choose|k: int|
                0 <= k < lending.len() && lent_snapshot(#[trigger] lending[k]) == Some(next);
            assert(reaches(step, next, node));
            assert(trimmed(state, lent_snapshot(lending[k]).unwrap()).contains(edge));
            assert(snapshots_trimmed(state, lending).contains(edge));
        }
    }
    assert forall|edge: BorrowsEdgeView| parts.contains(edge) implies whole.contains(edge) by {
        if contributions(state, lending).contains(edge) {
            assert(reaches(step, from, from));
        } else {
            let k = choose|k: int|
                0 <= k < lending.len() && lent_snapshot(#[trigger] lending[k]) is Some && trimmed(
                    state,
                    lent_snapshot(lending[k]).unwrap(),
                ).contains(edge);
            let next = lent_snapshot(lending[k]).unwrap();
            let node = choose|node: UnblockHistoryActionView| #[trigger]
                reaches(step, next, node) && contributions(state, lenders(state, node)).contains(
                    edge,
                );
            assert(step(from, next));
            lemma_reaches_step(step, from, node);
            assert(reaches(step, from, node));
        }
    }
    assert(whole =~= parts);
}

/// Going on by one edge in a list of lenders.
pub proof fn lemma_snapshots_next(
    state: Seq<BorrowsEdgeView>,
    edges: Seq<BorrowsEdgeView>,
    k: int,
    seen: Set<UnblockHistoryActionView>,
)
    requires
        0 <= k < edges.len(),
    ensures
        snapshots_trimmed(state, edges.take(k + 1)) == snapshots_trimmed(
            state,
            edges.take(k),
        ).union(
            match lent_snapshot(edges[k]) {
                Some(next) => trimmed(state, next),
                None => Set::empty(),
            },
        ),
        snapshots_trim(state, edges.take(k + 1), seen) <==> snapshots_trim(
            state,
            edges.take(k),
            seen,
        ) && (lent_snapshot(edges[k]) matches Some(next) ==> trims(state, next, seen)),
{
    let before = edges.take(k);
    let after = edges.take(k + 1);
    let own = match lent_snapshot(edges[k]) {
        Some(next) => trimmed(state, next),
        None => Set::empty(),
    };
    assert(after[k] == edges[k]);
    assert forall|edge: BorrowsEdgeView|
        snapshots_trimmed(state, after).contains(edge) <==> snapshots_trimmed(
            state,
            before,
        ).contains(edge) || own.contains(edge) by {
        if snapshots_trimmed(state, after).contains(edge) {
            let x = choose|x: int|
                0 <= x < after.len() && lent_snapshot(#[trigger] after[x]) is Some && trimmed(
                    state,
                    lent_snapshot(after[x]).unwrap(),
                ).contains(edge);
            if x < k {
                assert(before[x] == after[x]);
            }
        }
        if snapshots_trimmed(state, before).contains(edge) {
            let x = choose|x: int|
                0 <= x < before.len() && lent_snapshot(#[trigger] before[x]) is Some && trimmed(
                    state,
                    lent_snapshot(before[x]).unwrap(),
                ).contains(edge);
            assert(after[x] == before[x]);
        }
        if own.contains(edge) {
            assert(lent_snapshot(after[k]) is Some);
        }
    }
    assert(snapshots_trimmed(state, after) =~= snapshots_trimmed(state, before).union(own));
    if snapshots_trim(state, after, seen) {
        assert forall|x: int|
            0 <= x < before.len() && lent_snapshot(#[trigger] before[x]) is Some implies trims(
            state,
            lent_snapshot(before[x]).unwrap(),
            seen,
        ) by {
            assert(after[x] == before[x]);
        }
        assert(lent_snapshot(after[k]) is Some ==> trims(
            state,
            lent_snapshot(after[k]).unwrap(),
            seen,
        ));
    }
    if snapshots_trim(state, before, seen) && (lent_snapshot(edges[k]) matches Some(next)
        ==> trims(state, next, seen)) {
        assert forall|x: int|
            0 <= x < after.len() && lent_snapshot(#[trigger] after[x]) is Some implies trims(
            state,
            lent_snapshot(after[x]).unwrap(),
            seen,
        ) by {
            if x < k {
                assert(after[x] == before[x]);
            }
        }
    }
}

/// `place` is a snapshot of a local place.
pub open spec fn is_snapshot(place: MaybeRemotePlaceView) -> bool {
    place matches MaybeRemotePlaceView::Local(MaybeOldPlaceView::OldPlace(_))
}

/// The snapshots among `places` can all be trimmed.
pub open spec fn places_trim(state: Seq<BorrowsEdgeView>, places: Seq<MaybeRemotePlaceView>) -> bool {
    forall|k: int|
        0 <= k < places.len() && is_snapshot(#[trigger] places[k]) ==> trims(
            state,
            UnblockHistoryActionView::UnblockPlace(places[k]),
            Set::empty(),
        )
}

/// What trimming the snapshots among `places` puts into the graph.
pub open spec fn places_trimmed(
    state: Seq<BorrowsEdgeView>,
    places: Seq<MaybeRemotePlaceView>,
) -> Set<BorrowsEdgeView> {
    Set::new(
        |edge: BorrowsEdgeView|
            exists|k: int|
                0 <= k < places.len() && is_snapshot(#[trigger] places[k]) && trimmed(
                    state,
                    UnblockHistoryActionView::UnblockPlace(places[k]),
                ).contains(edge),
    )
}

/// Going on by one place in a list of places.
pub proof fn lemma_places_next(
    state: Seq<BorrowsEdgeView>,
    places: Seq<MaybeRemotePlaceView>,
    k: int,
)
    requires
        0 <= k < places.len(),
    ensures
        places_trimmed(state, places.take(k + 1)) == places_trimmed(state, places.take(k)).union(
            if is_snapshot(places[k]) {
                trimmed(state, UnblockHistoryActionView::UnblockPlace(places[k]))
            } else {
                Set::empty()
            },
        ),
        places_trim(state, places.take(k + 1)) <==> places_trim(state, places.take(k)) && (
        is_snapshot(places[k]) ==> trims(
            state,
            UnblockHistoryActionView::UnblockPlace(places[k]),
            Set::empty(),
        )),
{
    let before = places.take(k);
    let after = places.take(k + 1);
    let own = if is_snapshot(places[k]) {
        trimmed(state, UnblockHistoryActionView::UnblockPlace(places[k]))
    } else {
        Set::empty()
    };
    assert(after[k] == places[k]);
    assert forall|edge: BorrowsEdgeView|
        places_trimmed(state, after).contains(edge) <==> places_trimmed(state, before).contains(
            edge,
        ) || own.contains(edge) by {
        if places_trimmed(state, after).contains(edge) {
            let x = choose|x: int|
                0 <= x < after.len() && is_snapshot(#[trigger] after[x]) && trimmed(
                    state,
                    UnblockHistoryActionView::UnblockPlace(after[x]),
                ).contains(edge);
            if x < k {
                assert(before[x] == after[x]);
            }
        }
        if places_trimmed(state, before).contains(edge) {
            let x = choose|x: int|
                0 <= x < before.len() && is_snapshot(#[trigger] before[x]) && trimmed(
                    state,
                    UnblockHistoryActionView::UnblockPlace(before[x]),
                ).contains(edge);
            assert(after[x] == before[x]);
        }
        if own.contains(edge) {
            assert(is_snapshot(after[k]));
        }
    }
    assert(places_trimmed(state, after) =~= places_trimmed(state, before).union(own));
    if places_trim(state, after) {
        assert forall|x: int| 0 <= x < before.len() && is_snapshot(#[trigger] before[x]) implies trims(
            state,
            UnblockHistoryActionView::UnblockPlace(before[x]),
            Set::empty(),
        ) by {
            assert(after[x] == before[x]);
        }
        assert(is_snapshot(after[k]) ==> trims(
            state,
            UnblockHistoryActionView::UnblockPlace(after[k]),
            Set::empty(),
        ));
    }
    if places_trim(state, before) && (is_snapshot(places[k]) ==> trims(
        state,
        UnblockHistoryActionView::UnblockPlace(places[k]),
        Set::empty(),
    )) {
        assert forall|x: int| 0 <= x < after.len() && is_snapshot(#[trigger] after[x]) implies trims(
            state,
            UnblockHistoryActionView::UnblockPlace(after[x]),
            Set::empty(),
        ) by {
            if x < k {
                assert(after[x] == before[x]);
            }
        }
    }
}

/// Nothing comes of an empty list of places.
pub proof fn lemma_no_places(state: Seq<BorrowsEdgeView>)
    ensures
        places_trimmed(state, Seq::empty()) == Set::<BorrowsEdgeView>::empty(),
        places_trim(state, Seq::empty()),
{
    assert(places_trimmed(state, Seq::empty()) =~= Set::<BorrowsEdgeView>::empty());
}

/// Nothing comes of an empty list of lenders.
pub proof fn lemma_no_snapshots(state: Seq<BorrowsEdgeView>, seen: Set<UnblockHistoryActionView>)
    ensures
        snapshots_trimmed(state, Seq::empty()) == Set::<BorrowsEdgeView>::empty(),
        snapshots_trim(state, Seq::empty(), seen),
{
    assert(snapshots_trimmed(state, Seq::empty()) =~= Set::<BorrowsEdgeView>::empty());
}

/// The snapshot that an edge of the state borrows from is a step of the universe.
pub proof fn lemma_snapshot_in_universe(state: Seq<BorrowsEdgeView>, edge: BorrowsEdgeView)
    requires
        state.contains(edge),
        lent_snapshot(edge) is Some,
    ensures
        universe(state).contains(lent_snapshot(edge).unwrap()),
{
    lemma_universe(state);
    let i = choose|i: int| 0 <= i < state.len() && state[i] == edge;
    let at = edge_children(edge).len() as int + 1;
    assert(edge_nodes(state[i])[at] == lent_snapshot(edge).unwrap());
}

/// The lenders of a place are edges of the state.
pub proof fn lemma_lenders_in_state(state: Seq<BorrowsEdgeView>, node: UnblockHistoryActionView)
    ensures
        forall|k: int|
            0 <= k < lenders(state, node).len() ==> state.contains(
                #[trigger] lenders(state, node)[k],
            ),
{
    match node {
        UnblockHistoryActionView::UnblockPlace(MaybeRemotePlaceView::Local(place)) => {
            lemma_filter_members(state, assigned_to(place));
        },
        _ => {},
    }
}

/// The graph after trimming the snapshot `snapshot`, or the failure if a
/// step comes up a second time. The snapshot is recorded; then each reborrow that
/// lends to it is dealt with in the order of the state.
pub open spec fn after_trimming(
    state: Seq<BorrowsEdgeView>,
    snapshot: MaybeOldPlaceView,
    history: Seq<UnblockHistoryActionView>,
    graph: Seq<BorrowsEdgeView>,
) -> Result<Seq<BorrowsEdgeView>, Revisit>
    decreases steps_left_with(state, place_node(snapshot), history), 0nat, 0nat,
{
    let node = place_node(snapshot);
    if history.contains(node) {
        Err(Revisit { history, revisited: node })
    } else {
        proof {
            lemma_steps_left(state, node, history);
        }
        after_trimming_lenders(state, state.filter(assigned_to(snapshot)), 0, history.push(node), graph)
    }
}

/// The graph after dealing with the reborrows of `edges` from position
/// `from` on: the snapshot that a reborrow borrows from is trimmed, with a
/// copy of `history`; then the reborrow is killed, with a history of its own.
pub open spec fn after_trimming_lenders(
    state: Seq<BorrowsEdgeView>,
    edges: Seq<BorrowsEdgeView>,
    from: int,
    history: Seq<UnblockHistoryActionView>,
    graph: Seq<BorrowsEdgeView>,
) -> Result<Seq<BorrowsEdgeView>, Revisit>
    decreases steps_left(state, history), 1nat, edges.len() - from,
    when 0 <= from && forall|i: int| 0 <= i < edges.len() ==> state.contains(#[trigger] edges[i])
{
    if from >= edges.len() {
        Ok(graph)
    } else {
        let edge = edges[from];
        let first = match lent_snapshot(edge) {
            Some(UnblockHistoryActionView::UnblockPlace(MaybeRemotePlaceView::Local(lent))) => {
                proof {
                    lemma_snapshot_in_universe(state, edge);
                    lemma_steps_left(state, place_node(lent), history);
                }
                after_trimming(state, lent, history, graph)
            },
            _ => Ok(graph),
        };
        match first {
            Err(revisit) => Err(revisit),
            Ok(graph) => match killed(state, edge, Seq::empty(), graph) {
                Err(revisit) => Err(revisit),
                Ok(graph) => after_trimming_lenders(state, edges, from + 1, history, graph),
            },
        }
    }
}

/// The graph after trimming the snapshots among `places` from position
/// `from` on, each with a history of its own.
pub open spec fn after_trimming_places(
    state: Seq<BorrowsEdgeView>,
    places: Seq<MaybeRemotePlaceView>,
    from: int,
    graph: Seq<BorrowsEdgeView>,
) -> Result<Seq<BorrowsEdgeView>, Revisit>
    decreases places.len() - from,
    when 0 <= from
{
    if from >= places.len() {
        Ok(graph)
    } else {
        let first = match places[from] {
            MaybeRemotePlaceView::Local(MaybeOldPlaceView::OldPlace(snapshot)) => after_trimming(
                state,
                MaybeOldPlaceView::OldPlace(snapshot),
                Seq::empty(),
                graph,
            ),
            _ => Ok(graph),
        };
        match first {
            Err(revisit) => Err(revisit),
            Ok(graph) => after_trimming_places(state, places, from + 1, graph),
        }
    }
}

} // verus!
