use pcs::borrows::borrows_edge::{BorrowsEdge, BorrowsEdgeKind, Conditioned};
use pcs::borrows::borrows_state::BorrowsState;
use pcs::borrows::domain::{
    AbstractionType, DerefExpansion, MaybeOldPlace, MaybeRemotePlace, Mutability, Reborrow,
    RegionProjectionMember, RegionProjectionMemberDirection,
};
use pcs::borrows::path_condition::{PathCondition, PathConditions};
use pcs::borrows::region_abstraction::AbstractionEdge;
use pcs::borrows::unblock_graph::{
    UnblockError, UnblockGraph, UnblockHistory, UnblockHistoryAction,
};
use pcs::cfg::{BasicBlock, Location};
use pcs::combined_pcs::UnblockAction;
use pcs::utils::place::{Local, Place, PlaceElem};

fn bb(i: u32) -> BasicBlock {
    BasicBlock::new(i)
}

fn at(block: u32, statement: usize) -> Location {
    Location::new(bb(block), statement)
}

fn place(local: u32, fields: &[u32]) -> Place {
    Place::new(Local(local), fields.iter().map(|f| PlaceElem::Field(*f)).collect())
}

fn cur(local: u32, fields: &[u32]) -> MaybeOldPlace {
    MaybeOldPlace::new(place(local, fields), None)
}

fn past(local: u32, fields: &[u32], point: Location) -> MaybeOldPlace {
    MaybeOldPlace::new(place(local, fields), Some(point))
}

fn local(place: MaybeOldPlace) -> MaybeRemotePlace {
    MaybeRemotePlace::Local(place)
}

fn seed() -> PathConditions {
    PathConditions::new(bb(0))
}

fn paths(edges: &[(u32, u32)]) -> PathConditions {
    let mut conditions = PathConditions::new(bb(edges[0].0));
    for (from, to) in edges {
        conditions.insert(PathCondition::new(bb(*from), bb(*to)));
    }
    conditions
}

/// `assigned` borrows from `blocked`, reserved at statement `n` of block 0.
fn reborrow(blocked: MaybeOldPlace, assigned: MaybeOldPlace, n: usize) -> Reborrow {
    Reborrow::new(local(blocked), assigned, Mutability::Mut, at(0, n))
}

fn reborrow_edge(blocked: MaybeOldPlace, assigned: MaybeOldPlace, n: usize) -> BorrowsEdge {
    BorrowsEdge::new(BorrowsEdgeKind::Reborrow(reborrow(blocked, assigned, n)), seed())
}

fn expansion_edge(base: MaybeOldPlace, parts: Vec<MaybeOldPlace>) -> BorrowsEdge {
    BorrowsEdge::new(BorrowsEdgeKind::DerefExpansion(DerefExpansion::new(base, parts)), seed())
}

fn abstraction(
    n: usize,
    blocked: Vec<MaybeOldPlace>,
    blockers: Vec<MaybeOldPlace>,
) -> AbstractionType {
    AbstractionType::new(at(1, n), blocked.into_iter().map(local).collect(), blockers)
}

fn abstraction_edge(
    n: usize,
    blocked: Vec<MaybeOldPlace>,
    blockers: Vec<MaybeOldPlace>,
) -> BorrowsEdge {
    BorrowsEdge::new(
        BorrowsEdgeKind::Abstraction(AbstractionEdge::new(abstraction(n, blocked, blockers))),
        seed(),
    )
}

fn member_edge(place: MaybeOldPlace, direction: RegionProjectionMemberDirection) -> BorrowsEdge {
    BorrowsEdge::new(
        BorrowsEdgeKind::RegionProjectionMember(RegionProjectionMember {
            place: local(place),
            region: 0,
            direction,
        }),
        seed(),
    )
}

fn state(edges: Vec<BorrowsEdge>) -> BorrowsState {
    let mut state = BorrowsState::new();
    for edge in edges {
        assert!(state.insert(edge));
    }
    state
}

fn graph(edges: Vec<BorrowsEdge>) -> UnblockGraph {
    let mut graph = UnblockGraph::new();
    for edge in edges {
        graph.add_dependency(edge);
    }
    graph
}

fn terminate(blocked: MaybeOldPlace, assigned: MaybeOldPlace, n: usize) -> UnblockAction {
    UnblockAction::TerminateReborrow {
        blocked_place: local(blocked),
        assigned_place: assigned,
        reserve_location: at(0, n),
        is_mut: true,
    }
}

fn same_edges(graph: &UnblockGraph, expected: &[BorrowsEdge]) -> bool {
    graph.edges().len() == expected.len() && expected.iter().all(|e| graph.edges().contains(e))
}

fn position(actions: &[UnblockAction], action: &UnblockAction) -> usize {
    let found: Vec<usize> =
        (0..actions.len()).filter(|i| actions[*i] == *action).collect();
    assert_eq!(found.len(), 1, "each action occurs exactly once");
    found[0]
}

#[test]
fn history_rejects_what_it_holds() {
    let mut history = UnblockHistory::new();
    assert!(history.steps().is_empty());
    let a = || UnblockHistoryAction::UnblockPlace(local(cur(1, &[])));
    let b = || UnblockHistoryAction::KillReborrow(reborrow(cur(1, &[]), cur(2, &[]), 0));
    assert!(history.record(a()));
    assert!(history.record(b()));
    assert!(!history.record(a()));
    assert!(!history.record(b()));
    assert_eq!(history.steps().len(), 2);
    assert!(history.steps()[0] == a());
    assert!(history.steps()[1] == b());
    let mut copy = history.clone();
    assert!(copy.record(UnblockHistoryAction::UnblockPlace(local(cur(3, &[])))));
    assert_eq!(copy.steps().len(), 3);
    assert_eq!(history.steps().len(), 2);
}

#[test]
fn new_graph_is_empty() {
    let graph = UnblockGraph::new();
    assert!(graph.is_empty());
    assert!(graph.edges().is_empty());
    assert!(matches!(graph.actions(), Ok(actions) if actions.is_empty()));
}

#[test]
fn dependencies_are_held_once() {
    let mut graph = UnblockGraph::new();
    graph.add_dependency(reborrow_edge(cur(1, &[]), cur(2, &[]), 0));
    graph.add_dependency(reborrow_edge(cur(2, &[]), cur(3, &[]), 1));
    graph.add_dependency(reborrow_edge(cur(1, &[]), cur(2, &[]), 0));
    assert!(!graph.is_empty());
    assert_eq!(graph.edges().len(), 2);
    assert!(graph.edges()[0] == reborrow_edge(cur(1, &[]), cur(2, &[]), 0));
    assert!(graph.edges()[1] == reborrow_edge(cur(2, &[]), cur(3, &[]), 1));
}

#[test]
fn unblocking_an_unblocked_place_needs_nothing() {
    let borrows = state(vec![reborrow_edge(cur(1, &[]), cur(2, &[]), 0)]);
    let graph = UnblockGraph::for_place(local(cur(9, &[])), &borrows).unwrap();
    assert!(graph.is_empty());
    let graph = UnblockGraph::for_place(MaybeRemotePlace::Remote(Local(1)), &borrows).unwrap();
    assert!(graph.is_empty());
}

#[test]
fn unblocking_follows_chains_of_reborrows() {
    // _2 borrows from _1, _3 borrows from _2; _5 borrows from _4.
    let r1 = || reborrow_edge(cur(1, &[]), cur(2, &[]), 0);
    let r2 = || reborrow_edge(cur(2, &[]), cur(3, &[]), 1);
    let other = || reborrow_edge(cur(4, &[]), cur(5, &[]), 2);
    let borrows = state(vec![r1(), other(), r2()]);
    let graph = UnblockGraph::for_place(local(cur(1, &[])), &borrows).unwrap();
    assert!(same_edges(&graph, &[r1(), r2()]));
    let graph = UnblockGraph::for_place(local(cur(2, &[])), &borrows).unwrap();
    assert!(same_edges(&graph, &[r2()]));
    let graph = UnblockGraph::for_place(local(cur(3, &[])), &borrows).unwrap();
    assert!(graph.is_empty());
}

#[test]
fn edges_are_recorded_in_the_order_of_the_traversal() {
    // A reborrow is recorded after what blocks the place that it lends to.
    let r1 = || reborrow_edge(cur(1, &[]), cur(2, &[]), 0);
    let r2 = || reborrow_edge(cur(2, &[]), cur(3, &[]), 1);
    let graph = UnblockGraph::for_place(local(cur(1, &[])), &state(vec![r1(), r2()])).unwrap();
    assert!(graph.edges() == &vec![r2(), r1()]);
    // An expansion is recorded before its parts are unblocked.
    let expansion = || expansion_edge(cur(1, &[]), vec![cur(1, &[0]), cur(1, &[1])]);
    let of_part = || reborrow_edge(cur(1, &[1]), cur(2, &[]), 0);
    let borrows = state(vec![of_part(), expansion()]);
    let graph = UnblockGraph::for_place(local(cur(1, &[])), &borrows).unwrap();
    assert!(graph.edges() == &vec![expansion(), of_part()]);
    // A region is recorded after the places that it waits for are unblocked.
    let region = || abstraction_edge(0, vec![cur(1, &[])], vec![cur(2, &[]), cur(3, &[])]);
    let of_blocker = || reborrow_edge(cur(3, &[]), cur(4, &[]), 0);
    let borrows = state(vec![region(), of_blocker()]);
    let graph = UnblockGraph::for_place(local(cur(1, &[])), &borrows).unwrap();
    assert!(graph.edges() == &vec![of_blocker(), region()]);
    // Edges that block the place come before the reborrows of its ancestors,
    // and what is there already stays in front.
    let whole = || reborrow_edge(cur(1, &[]), cur(5, &[]), 0);
    let field = || reborrow_edge(cur(1, &[0]), cur(6, &[]), 1);
    let borrows = state(vec![whole(), field()]);
    let mut graph = UnblockGraph::new();
    graph.add_dependency(r2());
    graph.unblock_place(local(cur(1, &[0])), &borrows).unwrap();
    assert!(graph.edges() == &vec![r2(), field(), whole()]);
}

#[test]
fn inner_reborrow_is_released_first() {
    let r1 = || reborrow_edge(cur(1, &[]), cur(2, &[]), 0);
    let r2 = || reborrow_edge(cur(2, &[]), cur(3, &[]), 1);
    let a1 = terminate(cur(1, &[]), cur(2, &[]), 0);
    let a2 = terminate(cur(2, &[]), cur(3, &[]), 1);
    for edges in [vec![r1(), r2()], vec![r2(), r1()]] {
        let actions = graph(edges).actions().unwrap();
        assert_eq!(actions.len(), 2);
        assert!(position(&actions, &a2) < position(&actions, &a1));
    }
    let borrows = state(vec![r1(), r2()]);
    let actions = UnblockGraph::for_place(local(cur(1, &[])), &borrows).unwrap().actions().unwrap();
    assert!(actions == vec![a2, a1]);
}

#[test]
fn independent_edges_are_released_in_edge_order() {
    let r1 = reborrow_edge(cur(1, &[]), cur(2, &[]), 0);
    let r2 = reborrow_edge(cur(3, &[]), cur(4, &[]), 1);
    let actions = graph(vec![r2, r1]).actions().unwrap();
    assert!(
        actions
            == vec![
                terminate(cur(3, &[]), cur(4, &[]), 1),
                terminate(cur(1, &[]), cur(2, &[]), 0),
            ]
    );
}

#[test]
fn equal_actions_are_emitted_once() {
    // The same reborrow under two path conditions: two edges, one action.
    let r = || reborrow(cur(1, &[]), cur(2, &[]), 0);
    let left = BorrowsEdge::new(BorrowsEdgeKind::Reborrow(r()), paths(&[(0, 1)]));
    let right = BorrowsEdge::new(BorrowsEdgeKind::Reborrow(r()), paths(&[(0, 2)]));
    assert!(left != right);
    let unblock = graph(vec![left, right]);
    assert_eq!(unblock.edges().len(), 2);
    let actions = unblock.actions().unwrap();
    assert!(actions == vec![terminate(cur(1, &[]), cur(2, &[]), 0)]);
}

#[test]
fn every_edge_is_released_exactly_once() {
    // A diamond: _2 and _3 both borrow from _1, _4 borrows from both.
    let edges = || {
        vec![
            reborrow_edge(cur(1, &[]), cur(2, &[]), 0),
            reborrow_edge(cur(1, &[]), cur(3, &[]), 1),
            reborrow_edge(cur(2, &[]), cur(4, &[]), 2),
            reborrow_edge(cur(3, &[]), cur(4, &[]), 3),
        ]
    };
    let actions = graph(edges()).actions().unwrap();
    assert_eq!(actions.len(), 4);
    let a = |blocked, assigned, n| position(&actions, &terminate(cur(blocked, &[]), cur(assigned, &[]), n));
    assert!(a(2, 4, 2) < a(1, 2, 0));
    assert!(a(3, 4, 3) < a(1, 3, 1));
    // Built from the state, the graph holds the same four edges.
    let built = UnblockGraph::for_place(local(cur(1, &[])), &state(edges())).unwrap();
    assert!(same_edges(&built, &edges()));
    assert_eq!(built.actions().unwrap().len(), 4);
}

#[test]
fn expansion_collapses_after_its_parts_are_free() {
    let base = || cur(1, &[]);
    let parts = || vec![cur(1, &[0]), cur(1, &[1])];
    let expansion = || expansion_edge(base(), parts());
    let inner = || reborrow_edge(cur(1, &[1]), cur(2, &[]), 0);
    let borrows = state(vec![expansion(), inner()]);
    let graph = UnblockGraph::for_place(local(base()), &borrows).unwrap();
    assert!(same_edges(&graph, &[expansion(), inner()]));
    let actions = graph.actions().unwrap();
    assert!(
        actions
            == vec![
                terminate(cur(1, &[1]), cur(2, &[]), 0),
                UnblockAction::Collapse(base(), parts()),
            ]
    );
}

#[test]
fn abstraction_ends_after_its_blockers_are_free() {
    let region = || abstraction_edge(0, vec![cur(1, &[])], vec![cur(2, &[]), cur(3, &[])]);
    let inner = || reborrow_edge(cur(3, &[]), cur(4, &[]), 0);
    let borrows = state(vec![inner(), region()]);
    let graph = UnblockGraph::for_place(local(cur(1, &[])), &borrows).unwrap();
    assert!(same_edges(&graph, &[region(), inner()]));
    let actions = graph.actions().unwrap();
    assert!(
        actions
            == vec![
                terminate(cur(3, &[]), cur(4, &[]), 0),
                UnblockAction::TerminateAbstraction(
                    at(1, 0),
                    abstraction(0, vec![cur(1, &[])], vec![cur(2, &[]), cur(3, &[])]),
                ),
            ]
    );
}

#[test]
fn region_membership_is_not_traversed() {
    let member = || member_edge(cur(1, &[]), RegionProjectionMemberDirection::PlaceIsRegionInput);
    assert!(member().blocks_place(&local(cur(1, &[]))));
    let output = member_edge(cur(1, &[]), RegionProjectionMemberDirection::PlaceIsRegionOutput);
    assert!(!output.blocks_place(&local(cur(1, &[]))));
    let borrows = state(vec![member()]);
    let graph = UnblockGraph::for_place(local(cur(1, &[])), &borrows).unwrap();
    assert!(graph.is_empty());
}

#[test]
fn region_membership_cannot_be_released() {
    let member = || member_edge(cur(1, &[]), RegionProjectionMemberDirection::PlaceIsRegionInput);
    let free = || reborrow_edge(cur(5, &[]), cur(6, &[]), 0);
    match graph(vec![member(), free()]).actions() {
        Err(UnblockError::NoLeaves { remaining }) => assert!(remaining == vec![member()]),
        other => panic!("expected the membership edge to be left over, got {:?}", other),
    }
}

#[test]
fn a_place_that_blocks_itself_is_a_cycle() {
    let borrows = state(vec![reborrow_edge(cur(1, &[]), cur(1, &[]), 0)]);
    match UnblockGraph::for_place(local(cur(1, &[])), &borrows) {
        Err(UnblockError::CyclicDependency { history, revisited }) => {
            assert!(revisited == UnblockHistoryAction::UnblockPlace(local(cur(1, &[]))));
            assert!(history.steps().contains(&revisited));
        }
        other => panic!("expected a cyclic dependency, got {:?}", other),
    }
}

#[test]
fn places_that_block_each_other_are_a_cycle() {
    let borrows = state(vec![
        reborrow_edge(cur(1, &[]), cur(2, &[]), 0),
        reborrow_edge(cur(2, &[]), cur(3, &[]), 1),
        reborrow_edge(cur(3, &[]), cur(1, &[]), 2),
        reborrow_edge(cur(7, &[]), cur(8, &[]), 3),
    ]);
    for start in [1, 2, 3] {
        let result = UnblockGraph::for_place(local(cur(start, &[])), &borrows);
        assert!(matches!(result, Err(UnblockError::CyclicDependency { .. })));
    }
    // The cycle cannot be reached from _7.
    let graph = UnblockGraph::for_place(local(cur(7, &[])), &borrows).unwrap();
    assert!(same_edges(&graph, &[reborrow_edge(cur(7, &[]), cur(8, &[]), 3)]));
}

#[test]
fn a_cycle_through_an_expansion_is_found() {
    let borrows = state(vec![
        expansion_edge(cur(1, &[]), vec![cur(1, &[0])]),
        reborrow_edge(cur(1, &[0]), cur(1, &[]), 0),
    ]);
    let mut graph = UnblockGraph::new();
    let result = graph.unblock_place(local(cur(1, &[])), &borrows);
    assert!(matches!(result, Err(UnblockError::CyclicDependency { .. })));
}

#[test]
fn a_shared_dependency_is_no_cycle() {
    // _4 is reached along two branches; neither branch sees the other's steps.
    let edges = || {
        vec![
            expansion_edge(cur(1, &[]), vec![cur(1, &[0]), cur(1, &[1])]),
            reborrow_edge(cur(1, &[0]), cur(4, &[]), 0),
            reborrow_edge(cur(1, &[1]), cur(4, &[]), 1),
            reborrow_edge(cur(4, &[]), cur(5, &[]), 2),
        ]
    };
    let graph = UnblockGraph::for_place(local(cur(1, &[])), &state(edges())).unwrap();
    assert!(same_edges(&graph, &edges()));
    let actions = graph.actions().unwrap();
    assert_eq!(actions.len(), 4);
    assert!(actions[0] == terminate(cur(4, &[]), cur(5, &[]), 2));
    assert!(
        actions[3]
            == UnblockAction::Collapse(cur(1, &[]), vec![cur(1, &[0]), cur(1, &[1])])
    );
}

#[test]
fn edges_that_wait_for_each_other_leave_no_leaf() {
    let r1 = || reborrow_edge(cur(1, &[]), cur(2, &[]), 0);
    let r2 = || reborrow_edge(cur(2, &[]), cur(1, &[]), 1);
    let free = || reborrow_edge(cur(5, &[]), cur(6, &[]), 2);
    match graph(vec![r1(), free(), r2()]).actions() {
        Err(UnblockError::NoLeaves { remaining }) => assert!(remaining == vec![r1(), r2()]),
        other => panic!("expected no leaves, got {:?}", other),
    }
}

#[test]
fn reborrows_of_ancestors_block_a_current_place() {
    // _2 borrows from _1, which is a proper ancestor of _1.0.1.
    let whole = || reborrow_edge(cur(1, &[]), cur(2, &[]), 0);
    let field = || reborrow_edge(cur(1, &[0]), cur(3, &[]), 1);
    let sibling = || reborrow_edge(cur(1, &[1]), cur(4, &[]), 2);
    let deeper = || reborrow_edge(cur(1, &[0, 1, 5]), cur(5, &[]), 3);
    let borrows = state(vec![whole(), field(), sibling(), deeper()]);
    let graph = UnblockGraph::for_place(local(cur(1, &[0, 1])), &borrows).unwrap();
    assert!(same_edges(&graph, &[whole(), field()]));
    // A snapshot is only blocked by what blocks it directly.
    let graph = UnblockGraph::for_place(local(past(1, &[0, 1], at(0, 0))), &borrows).unwrap();
    assert!(graph.is_empty());
}

#[test]
fn kill_reborrow_adds_the_reborrow_after_what_blocks_it() {
    let inner = || reborrow_edge(cur(2, &[]), cur(3, &[]), 1);
    let borrows = state(vec![inner()]);
    let mut graph = UnblockGraph::new();
    let outer = Conditioned::new(reborrow(cur(1, &[]), cur(2, &[]), 0), seed());
    graph.kill_reborrow(outer, &borrows).unwrap();
    assert!(same_edges(&graph, &[inner(), reborrow_edge(cur(1, &[]), cur(2, &[]), 0)]));
    assert!(graph.edges()[0] == inner());
}

#[test]
fn kill_reborrow_internal_respects_the_history() {
    let borrows = state(vec![]);
    let killed = || Conditioned::new(reborrow(cur(1, &[]), cur(2, &[]), 0), seed());
    let mut history = UnblockHistory::new();
    assert!(history.record(UnblockHistoryAction::KillReborrow(reborrow(cur(1, &[]), cur(2, &[]), 0))));
    let mut graph = UnblockGraph::new();
    let result = graph.kill_reborrow_internal(killed(), &borrows, history);
    assert!(matches!(result, Err(UnblockError::CyclicDependency { .. })));
    assert!(graph.is_empty());
    let mut history = UnblockHistory::new();
    assert!(history.record(UnblockHistoryAction::UnblockPlace(local(cur(2, &[])))));
    let result = graph.kill_reborrow_internal(killed(), &borrows, history);
    assert!(matches!(result, Err(UnblockError::CyclicDependency { .. })));
    let result = graph.kill_reborrow_internal(killed(), &borrows, UnblockHistory::new());
    assert!(result.is_ok());
    assert!(same_edges(&graph, &[reborrow_edge(cur(1, &[]), cur(2, &[]), 0)]));
}

#[test]
fn reborrows_reserved_at_a_location_are_killed() {
    let here = || reborrow_edge(cur(1, &[]), cur(2, &[]), 7);
    let below = || reborrow_edge(cur(2, &[]), cur(3, &[]), 1);
    let of_snapshot = || reborrow_edge(past(4, &[], at(0, 2)), cur(5, &[]), 7);
    let elsewhere = || reborrow_edge(cur(6, &[]), cur(7, &[]), 8);
    let borrows = state(vec![here(), below(), of_snapshot(), elsewhere()]);
    let mut graph = UnblockGraph::new();
    graph.kill_reborrows_reserved_at(at(0, 7), &borrows).unwrap();
    // Every reborrow reserved there is ended, each after what blocks the
    // place that it lends to; reborrows reserved elsewhere come in only
    // where they block such a place.
    assert!(graph.edges() == &vec![below(), here(), of_snapshot()]);
    let mut graph = UnblockGraph::new();
    graph.kill_reborrows_reserved_at(at(3, 7), &borrows).unwrap();
    assert!(graph.is_empty());
}

#[test]
fn a_reborrow_of_a_snapshot_reserved_at_a_location_is_killed() {
    let of_snapshot = || reborrow_edge(past(4, &[], at(0, 2)), cur(5, &[]), 7);
    let borrows = state(vec![of_snapshot()]);
    let mut graph = UnblockGraph::new();
    graph.kill_reborrows_reserved_at(at(0, 7), &borrows).unwrap();
    assert!(graph.edges() == &vec![of_snapshot()]);
    // What the graph holds already stays, in front.
    let kept = || reborrow_edge(cur(8, &[]), cur(9, &[]), 0);
    let mut graph = UnblockGraph::new();
    graph.add_dependency(kept());
    graph.kill_reborrows_reserved_at(at(0, 7), &borrows).unwrap();
    assert!(graph.edges() == &vec![kept(), of_snapshot()]);
}

#[test]
fn reborrows_reserved_at_a_location_on_a_cycle_fail() {
    let borrows = state(vec![
        reborrow_edge(cur(1, &[]), cur(2, &[]), 7),
        reborrow_edge(cur(2, &[]), cur(2, &[]), 1),
    ]);
    let mut graph = UnblockGraph::new();
    let result = graph.kill_reborrows_reserved_at(at(0, 7), &borrows);
    assert!(matches!(result, Err(UnblockError::CyclicDependency { .. })));
}

#[test]
fn trimming_ends_the_lenders_of_a_snapshot() {
    let p = at(0, 1);
    let q = at(0, 2);
    // The snapshot of _2 borrows from the snapshot of _1; _3 borrows from the
    // snapshot of _2; _9 is unrelated.
    let first = || reborrow_edge(past(1, &[], p), past(2, &[], q), 0);
    let second = || reborrow_edge(past(2, &[], q), cur(3, &[]), 1);
    let lender = || reborrow_edge(past(5, &[], p), past(1, &[], p), 2);
    let unrelated = || reborrow_edge(cur(8, &[]), cur(9, &[]), 3);
    let borrows = state(vec![first(), second(), lender(), unrelated()]);
    let snapshot = |place: MaybeOldPlace| match place {
        MaybeOldPlace::OldPlace(snapshot) => snapshot,
        MaybeOldPlace::Current { .. } => panic!("not a snapshot"),
    };
    // The lender of the snapshot of _2 is `first`, which borrows from the
    // snapshot of _1, whose lender is `lender`, which borrows from the
    // snapshot of _5, which has no lender. Killing a
    // reborrow first unblocks the place that it lends to.
    let mut graph = UnblockGraph::new();
    graph.trim_old_leaves_from(&borrows, snapshot(past(2, &[], q))).unwrap();
    assert!(same_edges(&graph, &[lender(), first(), second()]));
    let mut graph = UnblockGraph::new();
    graph.trim_old_leaves_from(&borrows, snapshot(past(5, &[], p))).unwrap();
    assert!(graph.is_empty());
}

#[test]
fn trimming_a_cycle_of_snapshots_fails() {
    let p = at(0, 1);
    let borrows = state(vec![
        reborrow_edge(past(1, &[], p), past(2, &[], p), 0),
        reborrow_edge(past(2, &[], p), past(1, &[], p), 1),
    ]);
    let mut graph = UnblockGraph::new();
    let snapshot = match past(1, &[], p) {
        MaybeOldPlace::OldPlace(snapshot) => snapshot,
        MaybeOldPlace::Current { .. } => panic!("not a snapshot"),
    };
    let result = graph.trim_old_leaves_from(&borrows, snapshot);
    assert!(matches!(result, Err(UnblockError::CyclicDependency { .. })));
}

#[test]
fn killing_an_abstraction_trims_its_snapshots() {
    let p = at(0, 1);
    let lender = || reborrow_edge(cur(7, &[]), past(1, &[], p), 0);
    let of_current = || reborrow_edge(cur(8, &[]), cur(2, &[]), 1);
    let borrows = state(vec![lender(), of_current()]);
    let region = || AbstractionEdge::new(abstraction(0, vec![past(1, &[], p), cur(2, &[])], vec![cur(3, &[])]));
    let mut graph = UnblockGraph::new();
    graph.kill_abstraction(&borrows, Conditioned::new(region(), seed())).unwrap();
    let edge = BorrowsEdge::new(BorrowsEdgeKind::Abstraction(region()), seed());
    assert!(same_edges(&graph, &[lender(), edge.clone()]));
    assert!(graph.edges()[1] == edge);
}

#[test]
fn filter_for_path_keeps_the_edges_on_the_path() {
    // Conditions over the edges b0 -> b1, b1 -> b2 and b0 -> b3.
    let taken = || BorrowsEdge::new(
        BorrowsEdgeKind::Reborrow(reborrow(cur(1, &[]), cur(2, &[]), 0)),
        paths(&[(0, 1), (1, 2)]),
    );
    let not_taken = || BorrowsEdge::new(
        BorrowsEdgeKind::Reborrow(reborrow(cur(3, &[]), cur(4, &[]), 1)),
        paths(&[(0, 3)]),
    );
    let path = [bb(0), bb(1), bb(2)];
    assert!(taken().valid_for_path(&path));
    assert!(!not_taken().valid_for_path(&path));
    let mut unblock = graph(vec![not_taken(), taken()]);
    unblock.filter_for_path(&path);
    assert!(unblock.edges() == &vec![taken()]);
    let mut unblock = graph(vec![not_taken(), taken()]);
    unblock.filter_for_path(&[bb(0), bb(3)]);
    assert!(unblock.edges() == &vec![not_taken()]);
}

#[test]
fn filter_for_path_goes_by_each_edge_s_own_conditions() {
    let e = |n: usize, conditions: PathConditions| {
        BorrowsEdge::new(
            BorrowsEdgeKind::Reborrow(reborrow(cur(1, &[]), cur(2, &[]), n)),
            conditions,
        )
    };
    let mut unblock = graph(vec![
        e(0, paths(&[(0, 1)])),
        e(1, paths(&[(1, 2)])),
        e(2, paths(&[(0, 3)])),
        e(3, PathConditions::new(bb(2))),
        e(4, PathConditions::new(bb(1))),
    ]);
    unblock.filter_for_path(&[bb(0), bb(1), bb(2)]);
    // The walk leaves the edge set {b0 -> b1} with its step b1 -> b2.
    assert!(unblock.edges() == &vec![e(1, paths(&[(1, 2)])), e(3, PathConditions::new(bb(2)))]);
}

#[test]
fn state_answers_by_place_and_location() {
    let r1 = || reborrow_edge(cur(1, &[]), cur(2, &[]), 0);
    let r2 = || reborrow_edge(cur(1, &[]), cur(3, &[]), 1);
    let x = || expansion_edge(cur(1, &[]), vec![cur(1, &[0])]);
    let mut borrows = state(vec![r1(), x(), r2()]);
    assert!(!borrows.insert(r1()));
    assert_eq!(borrows.len(), 3);
    assert!(borrows.edges() == &vec![r1(), x(), r2()]);
    assert!(borrows.edges_blocking(&local(cur(1, &[]))) == vec![r1(), x(), r2()]);
    assert!(borrows.edges_blocking(&local(cur(2, &[]))).is_empty());
    let reserved = borrows.reborrow_edges_reserved_at(at(0, 1));
    assert_eq!(reserved.len(), 1);
    assert!(reserved[0].value == reborrow(cur(1, &[]), cur(3, &[]), 1));
    let lending = borrows.reborrows_blocked_by(&cur(2, &[]));
    assert_eq!(lending.len(), 1);
    assert!(lending[0].value == reborrow(cur(1, &[]), cur(2, &[]), 0));
    let above = borrows.reborrows_blocking_prefix_of(&place(1, &[0]));
    assert_eq!(above.len(), 2);
    assert!(borrows.reborrows_blocking_prefix_of(&place(1, &[])).is_empty());
}

#[test]
fn edges_know_what_they_block_and_wait_for() {
    let r = reborrow_edge(cur(1, &[]), cur(2, &[]), 0);
    assert!(r.blocks_place(&local(cur(1, &[]))));
    assert!(!r.blocks_place(&local(cur(2, &[]))));
    assert!(r.kind().blocked_by_places() == vec![cur(2, &[])]);
    assert!(r.kind().action() == Some(terminate(cur(1, &[]), cur(2, &[]), 0)));
    let x = expansion_edge(cur(1, &[]), vec![cur(1, &[0]), cur(1, &[1])]);
    assert!(x.blocks_place(&local(cur(1, &[]))));
    assert!(!x.blocks_place(&local(cur(1, &[0]))));
    assert!(x.kind().blocked_by_places() == vec![cur(1, &[0]), cur(1, &[1])]);
    let a = abstraction_edge(0, vec![cur(1, &[]), cur(2, &[])], vec![cur(3, &[])]);
    assert!(a.blocks_place(&local(cur(2, &[]))));
    assert!(!a.blocks_place(&local(cur(3, &[]))));
    assert!(a.kind().blocked_by_places() == vec![cur(3, &[])]);
    let m = member_edge(cur(1, &[]), RegionProjectionMemberDirection::PlaceIsRegionInput);
    assert!(m.kind().action().is_none());
    assert!(m.kind().blocked_by_places().is_empty());
    let shared = Reborrow::new(local(cur(1, &[])), cur(2, &[]), Mutability::Not, at(0, 0));
    assert!(!shared.is_mut());
    assert_eq!(shared.reserve_location(), at(0, 0));
}
