//! The unblock graph: the blocking relations that have to be released to
//! regain access to a place, and the order in which to release them.

use vstd::prelude::*;
use vstd::std_specs::cmp::PartialEqSpecImpl;

use crate::borrows::borrows_edge::{BorrowsEdge, BorrowsEdgeKind, BorrowsEdgeView, Conditioned};
use crate::borrows::borrows_state::{
    assigned_to, blocking, reserved_at, BorrowsState,
};
use crate::borrows::dependencies::{
    all_guarded, blocking_step, contribution, contributions, dependencies, dependencies_of_all,
    edge_children, lemma_children_in_universe, lemma_edges_next,
    lemma_nodes_next, lemma_nothing_to_do, lemma_place_dependencies, lemma_place_guarded,
    lemma_reborrow_acyclic, lemma_reborrow_step, lemma_served, lemma_single_node,
    lemma_steps_left, place_node, place_nodes, prefix_reborrows, served_guarded, steps_left,
    steps_left_with, universe,
};
use crate::borrows::domain::{
    MaybeOldPlace, MaybeOldPlaceView, MaybeRemotePlace, MaybeRemotePlaceView, Reborrow,
    ReborrowView,
};
use crate::borrows::region_abstraction::AbstractionEdge;
use crate::borrows::release_order::{emit, is_leaf, release_order, resolvable, resolve, waiting};
use crate::borrows::traversal::{
    ended, killed, outcome, released, unblocked, unblocked_all, with_edge, Revisit,
};
use crate::borrows::trimming::{
    after_trimming, after_trimming_lenders, after_trimming_places, is_snapshot, lemma_lenders_in_state, lemma_no_places, lemma_no_snapshots, lemma_places_next,
    lemma_snapshot_in_universe, lemma_snapshots_next, lemma_trim_step, lenders, lent_snapshot,
    places_trim, places_trimmed, snapshots_trim, snapshots_trimmed, trimmed, trims,
};
use crate::cfg::{BasicBlock, Location};
use crate::combined_pcs::UnblockAction;
use crate::utils::items::{
    begins_with, clone_items, contains_item, lemma_filter_keeps_distinct, lemma_filter_members,
    lemma_view_each_push, view_each,
};
use crate::utils::place::PlaceSnapshot;
use crate::utils::walks::{acyclic_from, guarded};

verus! {

/// What an [`UnblockHistoryAction`] stands for.
pub enum UnblockHistoryActionView {
    UnblockPlace(MaybeRemotePlaceView),
    KillReborrow(ReborrowView),
}

/// A step of building an unblock graph.
#[derive(Debug)]
pub enum UnblockHistoryAction {
    UnblockPlace(MaybeRemotePlace),
    KillReborrow(Reborrow),
}

impl View for UnblockHistoryAction {
    type V = UnblockHistoryActionView;

    open spec fn view(&self) -> UnblockHistoryActionView {
        match self {
            UnblockHistoryAction::UnblockPlace(place) => UnblockHistoryActionView::UnblockPlace(
                place@,
            ),
            UnblockHistoryAction::KillReborrow(reborrow) => UnblockHistoryActionView::KillReborrow(
                reborrow@,
            ),
        }
    }
}

impl Clone for UnblockHistoryAction {
    fn clone(&self) -> (copy: Self)
        ensures
            copy@ == self@,
    {
        match self {
            UnblockHistoryAction::UnblockPlace(place) => UnblockHistoryAction::UnblockPlace(
                place.clone(),
            ),
            UnblockHistoryAction::KillReborrow(reborrow) => UnblockHistoryAction::KillReborrow(
                reborrow.clone(),
            ),
        }
    }
}

impl PartialEq for UnblockHistoryAction {
    fn eq(&self, other: &Self) -> (same: bool) {
        match (self, other) {
            (UnblockHistoryAction::UnblockPlace(a), UnblockHistoryAction::UnblockPlace(b)) => a
                == b,
            (UnblockHistoryAction::KillReborrow(a), UnblockHistoryAction::KillReborrow(b)) => a
                == b,
            _ => false,
        }
    }
}

impl Eq for UnblockHistoryAction {

}

impl PartialEqSpecImpl for UnblockHistoryAction {
    open spec fn obeys_eq_spec() -> bool {
        true
    }

    open spec fn eq_spec(&self, other: &Self) -> bool {
        self@ == other@
    }
}

/// The steps taken so far on the way from the start of a traversal to the
/// step at hand, each at most once.
#[derive(Debug)]
pub struct UnblockHistory(Vec<UnblockHistoryAction>);

impl View for UnblockHistory {
    type V = Seq<UnblockHistoryActionView>;

    closed spec fn view(&self) -> Seq<UnblockHistoryActionView> {
        view_each(self.0@)
    }
}

impl Clone for UnblockHistory {
    fn clone(&self) -> (copy: Self)
        ensures
            copy@ == self@,
    {
        proof {
            use_type_invariant(self);
        }
        UnblockHistory(clone_items(&self.0))
    }
}

impl UnblockHistory {
    #[verifier::type_invariant]
    spec fn inv(self) -> bool {
        view_each(self.0@).no_duplicates()
    }

    /// A history without any step.
    pub fn new() -> (history: Self)
        ensures
            history@ == Seq::<UnblockHistoryActionView>::empty(),
    {
        let steps: Vec<UnblockHistoryAction> = Vec::new();
        assert(view_each(steps@) =~= Seq::empty());
        Self(steps)
    }

    /// Adds an element to the end of the history if it is not already present.
    /// Returns false iff the element was already present.
    pub fn record(&mut self, action: UnblockHistoryAction) -> (recorded: bool)
        ensures
            recorded == !old(self)@.contains(action@),
            final(self)@ == if recorded {
                old(self)@.push(action@)
            } else {
                old(self)@
            },
            final(self)@.no_duplicates(),
    {
        proof {
            use_type_invariant(&*self);
        }
        if contains_item(&self.0, &action) {
            false
        } else {
            let mut steps: Vec<UnblockHistoryAction> = Vec::new();
            std::mem::swap(&mut steps, &mut self.0);
            proof {
                assert(view_each(self.0@) =~= Seq::empty());
                lemma_view_each_push(steps@, action);
            }
            steps.push(action);
            self.0 = steps;
            true
        }
    }

    /// The recorded steps, first to last.
    pub fn steps(&self) -> (steps: &Vec<UnblockHistoryAction>)
        ensures
            view_each(steps@) == self@,
            self@.no_duplicates(),
    {
        proof {
            use_type_invariant(self);
        }
        &self.0
    }
}

/// Why an unblock graph could not be built or released.
#[derive(Debug)]
pub enum UnblockError {
    /// A place or reborrow came up again while the relations that block it
    /// were still being collected: the borrows form a cycle.
    CyclicDependency { history: UnblockHistory, revisited: UnblockHistoryAction },
    /// Edges remain, and each of them waits for a place that another of them
    /// blocks.
    NoLeaves { remaining: Vec<BorrowsEdge> },
}

impl UnblockError {
    /// The failure of a traversal: it names a step that its history holds
    /// already.
    pub open spec fn is_revisit(self) -> bool {
        self matches UnblockError::CyclicDependency { history, revisited } && history@.contains(
            revisited@,
        )
    }

    /// The step and the history that a failed traversal reports.
    pub open spec fn revisit(self) -> Revisit {
        match self {
            UnblockError::CyclicDependency { history, revisited } => Revisit {
                history: history@,
                revisited: revisited@,
            },
            UnblockError::NoLeaves { .. } => arbitrary(),
        }
    }
}

/// The edges whose conditions are valid for the walk `path`.
pub open spec fn valid_on(path: Seq<BasicBlock>) -> spec_fn(BorrowsEdgeView) -> bool {
    |edge: BorrowsEdgeView| edge.conditions.valid_for_path(path)
}

/// The blocking relations that have to be released, each held once, in the
/// order in which they were added.
#[derive(Debug)]
pub struct UnblockGraph {
    edges: Vec<BorrowsEdge>,
}

impl View for UnblockGraph {
    type V = Seq<BorrowsEdgeView>;

    closed spec fn view(&self) -> Seq<BorrowsEdgeView> {
        view_each(self.edges@)
    }
}

impl Clone for UnblockGraph {
    fn clone(&self) -> (copy: Self)
        ensures
            copy@ == self@,
    {
        proof {
            use_type_invariant(self);
        }
        UnblockGraph { edges: clone_items(&self.edges) }
    }
}

/// Whether no edge of `edges` blocks `place`.
fn leaf(edges: &Vec<BorrowsEdge>, place: &MaybeRemotePlace) -> (free: bool)
    ensures
        free == is_leaf(view_each(edges@), place@),
{
    let mut i: usize = 0;
    while i < edges.len()
        invariant
            i <= edges@.len(),
            forall|k: int| 0 <= k < i ==> !(#[trigger] view_each(edges@)[k]).kind.blocks_place(place@),
        decreases edges@.len() - i,
    {
        if edges[i].blocks_place(place) {
            assert(view_each(edges@)[i as int].kind.blocks_place(place@));
            return false;
        }
        i = i + 1;
    }
    true
}

/// Whether `edge` can be released while `edges` remain.
fn can_release(edges: &Vec<BorrowsEdge>, edge: &BorrowsEdge) -> (free: bool)
    ensures
        free == resolvable(view_each(edges@), edge@),
{
    let action = edge.kind().action();
    if action.is_none() {
        return false;
    }
    let blockers = edge.kind().blocked_by_places();
    let mut j: usize = 0;
    while j < blockers.len()
        invariant
            j <= blockers@.len(),
            view_each(blockers@) == edge@.kind.blocked_by_places(),
            forall|k: int|
                0 <= k < j ==> is_leaf(
                    view_each(edges@),
                    MaybeRemotePlaceView::Local(#[trigger] edge@.kind.blocked_by_places()[k]),
                ),
        decreases blockers@.len() - j,
    {
        let place = MaybeRemotePlace::Local(blockers[j].clone());
        assert(place@ == MaybeRemotePlaceView::Local(edge@.kind.blocked_by_places()[j as int])) by {
            assert(view_each(blockers@)[j as int] == blockers@[j as int]@);
        }
        if !leaf(edges, &place) {
            return false;
        }
        j = j + 1;
    }
    true
}

impl UnblockGraph {
    #[verifier::type_invariant]
    spec fn inv(self) -> bool {
        view_each(self.edges@).no_duplicates()
    }

    /// The edges of the graph, in the order in which they were added.
    pub fn edges(&self) -> (edges: &Vec<BorrowsEdge>)
        ensures
            view_each(edges@) == self@,
            self@.no_duplicates(),
    {
        proof {
            use_type_invariant(self);
        }
        &self.edges
    }

    /// A graph without any edge.
    pub fn new() -> (graph: Self)
        ensures
            graph@ == Seq::<BorrowsEdgeView>::empty(),
    {
        let edges: Vec<BorrowsEdge> = Vec::new();
        assert(view_each(edges@) =~= Seq::empty());
        Self { edges }
    }

    /// Whether the graph holds no edge.
    pub fn is_empty(&self) -> (empty: bool)
        ensures
            empty == (self@.len() == 0),
    {
        self.edges.len() == 0
    }

    /// Keeps the edges whose conditions are valid for the walk `path`.
    pub fn filter_for_path(&mut self, path: &[BasicBlock])
        ensures
            final(self)@ == old(self)@.filter(valid_on(path@)),
    {
        proof {
            use_type_invariant(&*self);
        }
        let mut edges: Vec<BorrowsEdge> = Vec::new();
        std::mem::swap(&mut edges, &mut self.edges);
        let ghost all = view_each(edges@);
        let mut kept: Vec<BorrowsEdge> = Vec::new();
        let mut i: usize = 0;
        proof {
            reveal(Seq::filter);
            assert(all.take(0) =~= Seq::empty());
            assert(view_each(kept@) =~= Seq::empty());
            assert(view_each(self.edges@) =~= Seq::empty());
        }
        while i < edges.len()
            invariant
                i <= edges@.len(),
                all == view_each(edges@),
                view_each(kept@) == all.take(i as int).filter(valid_on(path@)),
            decreases edges@.len() - i,
        {
            let edge = &edges[i];
            proof {
                assert(all.take(i + 1) =~= all.take(i as int).push(edge@));
                all.take(i as int).lemma_filter_push(edge@, valid_on(path@));
            }
            if edge.valid_for_path(path) {
                let copy = edge.clone();
                proof {
                    lemma_view_each_push(kept@, copy);
                }
                kept.push(copy);
            }
            i = i + 1;
        }
        proof {
            assert(all.take(i as int) =~= all);
            lemma_filter_keeps_distinct(all, valid_on(path@));
        }
        self.edges = kept;
    }

    /// The actions that release every edge of the graph, in an order in which
    /// they can be carried out: an edge is released only after the edges that
    /// block the places it waits for. Fails when edges remain of which none
    /// can be released.
    pub fn actions(self) -> (result: Result<Vec<UnblockAction>, UnblockError>)
        ensures
            match release_order(self@) {
                Ok(order) => result matches Ok(actions) && view_each(actions@) == order,
                Err(stuck) => result matches Err(UnblockError::NoLeaves { remaining })
                    && view_each(remaining@) == stuck,
            },
    {
        let ghost start = self@;
        let mut edges = self.edges;
        let mut actions: Vec<UnblockAction> = Vec::new();
        assert(view_each(actions@) =~= Seq::empty());
        while edges.len() > 0
            invariant
                start == self@,
                resolve(view_each(edges@), view_each(actions@)) == release_order(start),
            decreases edges@.len(),
        {
            let ghost all = view_each(edges@);
            let ghost emitted = view_each(actions@);
            let mut to_keep: Vec<BorrowsEdge> = Vec::new();
            let mut i: usize = 0;
            proof {
                reveal(Seq::filter);
                assert(all.take(0) =~= Seq::empty());
                assert(view_each(to_keep@) =~= Seq::empty());
            }
            while i < edges.len()
                invariant
                    i <= edges@.len(),
                    all == view_each(edges@),
                    view_each(to_keep@) == all.take(i as int).filter(waiting(all)),
                    view_each(actions@) == emit(all.take(i as int), all, emitted),
                decreases edges@.len() - i,
            {
                let edge = &edges[i];
                proof {
                    assert(all.take(i + 1) =~= all.take(i as int).push(edge@));
                    assert(all.take(i + 1).drop_last() =~= all.take(i as int));
                    all.take(i as int).lemma_filter_push(edge@, waiting(all));
                }
                if can_release(&edges, edge) {
                    let action = edge.kind().action().unwrap();
                    if !contains_item(&actions, &action) {
                        proof {
                            lemma_view_each_push(actions@, action);
                        }
                        actions.push(action);
                    }
                } else {
                    let copy = edge.clone();
                    proof {
                        lemma_view_each_push(to_keep@, copy);
                    }
                    to_keep.push(copy);
                }
                i = i + 1;
            }
            proof {
                assert(all.take(i as int) =~= all);
                all.lemma_filter_len(waiting(all));
            }
            if to_keep.len() >= edges.len() {
                proof {
                    assert(all.filter(waiting(all)).len() == to_keep@.len());
                    assert(resolve(all, emitted) == Err::<
                        Seq<crate::combined_pcs::UnblockActionView>,
                        Seq<BorrowsEdgeView>,
                    >(all));
                }
                return Err(UnblockError::NoLeaves { remaining: edges });
            }
            proof {
                assert(all.filter(waiting(all)).len() == to_keep@.len());
            }
            edges = to_keep;
        }
        Ok(actions)
    }

    /// Adds `unblock_edge` unless the graph already holds an equal edge.
    pub fn add_dependency(&mut self, unblock_edge: BorrowsEdge)
        ensures
            final(self)@ == with_edge(old(self)@, unblock_edge@),
            final(self)@.to_set() == old(self)@.to_set().insert(unblock_edge@),
            begins_with(final(self)@, old(self)@),
    {
        proof {
            use_type_invariant(&*self);
            let before = view_each(self.edges@);
            let added = unblock_edge@;
            if before.contains(added) {
                assert(before.to_set().insert(added) =~= before.to_set());
            } else {
                before.lemma_push_to_set_commute(added);
            }
        }
        if !contains_item(&self.edges, &unblock_edge) {
            let mut edges: Vec<BorrowsEdge> = Vec::new();
            std::mem::swap(&mut edges, &mut self.edges);
            proof {
                assert(view_each(self.edges@) =~= Seq::empty());
                lemma_view_each_push(edges@, unblock_edge);
            }
            edges.push(unblock_edge);
            self.edges = edges;
        }
    }
    /// The graph of everything that has to be released to unblock `place`.
    pub fn for_place(place: MaybeRemotePlace, state: &BorrowsState) -> (result: Result<
        Self,
        UnblockError,
    >)
        ensures
            result is Ok <==> acyclic_from(
                blocking_step(state@),
                UnblockHistoryActionView::UnblockPlace(place@),
            ),
            result matches Ok(graph) ==> graph@.to_set() == dependencies(
                state@,
                UnblockHistoryActionView::UnblockPlace(place@),
            ),
            unblocked(state@, place@, Seq::empty(), Seq::empty()) == match result {
                Ok(graph) => Ok::<Seq<BorrowsEdgeView>, Revisit>(graph@),
                Err(error) => Err(error.revisit()),
            },
            result matches Err(e) ==> e.is_revisit(),
    {
        let mut ug = Self::new();
        let ghost node = UnblockHistoryActionView::UnblockPlace(place@);
        match ug.unblock_place(place, state) {
            Ok(()) => {
                assert(ug@.to_set() =~= dependencies(state@, node)) by {
                    assert(Seq::<BorrowsEdgeView>::empty().to_set() =~= Set::empty());
                }
                Ok(ug)
            },
            Err(e) => Err(e),
        }
    }

    /// Adds every relation that has to be released before `place` is free:
    /// the relations that block it, and in turn those that block the places
    /// that these wait for. Fails when the borrows reachable from `place`
    /// form a cycle.
    pub fn unblock_place(&mut self, place: MaybeRemotePlace, borrows: &BorrowsState) -> (result:
        Result<(), UnblockError>)
        ensures
            result is Ok <==> acyclic_from(
                blocking_step(borrows@),
                UnblockHistoryActionView::UnblockPlace(place@),
            ),
            result is Ok ==> final(self)@.to_set() == old(self)@.to_set().union(
                dependencies(borrows@, UnblockHistoryActionView::UnblockPlace(place@)),
            ),
            unblocked(borrows@, place@, Seq::empty(), old(self)@) == outcome(result, final(self)@),
            result matches Err(e) ==> e.is_revisit(),
            begins_with(final(self)@, old(self)@),
    {
        let history = UnblockHistory::new();
        assert(history@.to_set() =~= Set::empty());
        self.unblock_place_internal(place, borrows, history)
    }

    /// The failure for coming to `revisited` a second time.
    fn report_error(history: UnblockHistory, revisited: UnblockHistoryAction) -> (error:
        UnblockError)
        requires
            history@.contains(revisited@),
        ensures
            error.is_revisit(),
            error.revisit() == (Revisit { history: history@, revisited: revisited@ }),
    {
        UnblockError::CyclicDependency { history, revisited }
    }

    /// Unblocks `place`, with `history` as the steps that led here.
    fn unblock_place_internal(
        &mut self,
        place: MaybeRemotePlace,
        borrows: &BorrowsState,
        history: UnblockHistory,
    ) -> (result: Result<(), UnblockError>)
        ensures
            result is Ok <==> guarded(
                blocking_step(borrows@),
                UnblockHistoryActionView::UnblockPlace(place@),
                history@.to_set(),
            ),
            result is Ok ==> final(self)@.to_set() == old(self)@.to_set().union(
                dependencies(borrows@, UnblockHistoryActionView::UnblockPlace(place@)),
            ),
            unblocked(borrows@, place@, history@, old(self)@) == outcome(result, final(self)@),
            result matches Err(e) ==> e.is_revisit(),
            begins_with(final(self)@, old(self)@),
        decreases
                steps_left_with(
                    borrows@,
                    UnblockHistoryActionView::UnblockPlace(place@),
                    history@,
                ),
                0nat,
    {
        let ghost state = borrows@;
        let ghost node = UnblockHistoryActionView::UnblockPlace(place@);
        let ghost seen = history@.to_set();
        let ghost inner = seen.insert(node);
        let ghost base = self@.to_set();
        let ghost entered = history@;
        let ghost blockers = state.filter(blocking(place@));
        let ghost prefixes = prefix_reborrows(state, place@);
        proof {
            lemma_place_guarded(state, place@, seen);
            lemma_place_dependencies(state, place@);
            lemma_steps_left(state, node, entered);
            lemma_served(state, place@);
            lemma_nothing_to_do(state, inner);
        }
        let mut trail = history;
        let revisited = UnblockHistoryAction::UnblockPlace(place.clone());
        if !trail.record(UnblockHistoryAction::UnblockPlace(place.clone())) {
            return Err(Self::report_error(trail, revisited));
        }
        assert(trail@.to_set() =~= inner) by {
            entered.lemma_push_to_set_commute(node);
        }
        let blocking_edges = borrows.edges_blocking(&place);
        let mut k: usize = 0;
        assert(blockers.take(0) =~= Seq::empty());
        assert(self@.to_set() =~= base.union(contributions(state, blockers.take(0))));
        while k < blocking_edges.len()
            invariant
                k <= blocking_edges@.len(),
                state == borrows@,
                base == old(self)@.to_set(),
                begins_with(self@, old(self)@),
                node == UnblockHistoryActionView::UnblockPlace(place@),
                view_each(blocking_edges@) == blockers,
                entered == history@,
                seen == history@.to_set(),
                inner == seen.insert(node),
                trail@.to_set() == inner,
                steps_left(state, trail@) < steps_left_with(state, node, entered),
                forall|x: int| 0 <= x < blockers.len() ==> state.contains(#[trigger] blockers[x]),
                served_guarded(state, blockers.take(k as int), inner),
                self@.to_set() == base.union(contributions(state, blockers.take(k as int))),
                released(state, blockers, k as int, trail@, self@) == released(
                    state,
                    blockers,
                    0,
                    trail@,
                    old(self)@,
                ),
                unblocked(state, place@, entered, old(self)@) == match released(
                    state,
                    blockers,
                    0,
                    trail@,
                    old(self)@,
                ) {
                    Err(revisit) => Err(revisit),
                    Ok(graph) => released(state, prefixes, 0, trail@, graph),
                },
                prefixes == prefix_reborrows(state, place@),
                forall|x: int| 0 <= x < prefixes.len() ==> state.contains(#[trigger] prefixes[x]),
                !served_guarded(state, blockers, inner) ==> !guarded(
                    blocking_step(state),
                    node,
                    seen,
                ),
            decreases blocking_edges@.len() - k,
        {
            let edge = &blocking_edges[k];
            let ghost before = self@.to_set();
            proof {
                assert(edge@ == blockers[k as int]);
                lemma_edges_next(state, blockers, k as int, inner);
                lemma_children_in_universe(state, edge@);
            }
            match edge.kind() {
                BorrowsEdgeKind::Reborrow(reborrow) => {
                    let conditioned = Conditioned::new(reborrow.clone(), edge.conditions().clone());
                    let ghost child = UnblockHistoryActionView::KillReborrow(reborrow@);
                    proof {
                        lemma_single_node(state, child, inner);
                        assert(edge_children(edge@) =~= seq![child]);
                        assert(edge_children(edge@)[0] == child);
                        assert(conditioned@ == edge@);
                        lemma_steps_left(state, child, trail@);
                    }
                    let attempt = self.kill_reborrow_internal(conditioned, borrows, trail.clone());
                    if attempt.is_err() {
                        assert(!served_guarded(state, blockers.take(k + 1), inner));
                        assert(!served_guarded(state, blockers, inner)) by {
                            if served_guarded(state, blockers, inner) {
                                assert(all_guarded(state, edge_children(blockers[k as int]), inner));
                            }
                        }
                        return attempt;
                    }
                    assert(self@.to_set() =~= before.union(contribution(state, edge@)));
                },
                BorrowsEdgeKind::DerefExpansion(expansion) => {
                    self.add_dependency(edge.clone());
                    let parts = expansion.expansion();
                    proof {
                        assert(view_each(parts@) == edge@.kind.blocked_by_places());
                        assert(edge_children(edge@) == place_nodes(view_each(parts@)));
                        assert forall|j: int| 0 <= j < parts@.len() implies universe(
                            state,
                        ).contains(place_node(#[trigger] parts@[j]@)) by {
                            assert(edge_children(edge@)[j] == place_node(parts@[j]@));
                        }
                    }
                    let attempt = self.unblock_places(&parts, borrows, &trail);
                    if attempt.is_err() {
                        assert(!served_guarded(state, blockers, inner)) by {
                            if served_guarded(state, blockers, inner) {
                                assert(all_guarded(state, edge_children(blockers[k as int]), inner));
                            }
                        }
                        return attempt;
                    }
                    assert(self@.to_set() =~= before.union(contribution(state, edge@)));
                },
                BorrowsEdgeKind::Abstraction(abstraction) => {
                    let parts = abstraction.abstraction_type.blocker_places();
                    proof {
                        assert(view_each(parts@) == edge@.kind.blocked_by_places());
                        assert(edge_children(edge@) == place_nodes(view_each(parts@)));
                        assert forall|j: int| 0 <= j < parts@.len() implies universe(
                            state,
                        ).contains(place_node(#[trigger] parts@[j]@)) by {
                            assert(edge_children(edge@)[j] == place_node(parts@[j]@));
                        }
                    }
                    let attempt = self.unblock_places(&parts, borrows, &trail);
                    if attempt.is_err() {
                        assert(!served_guarded(state, blockers, inner)) by {
                            if served_guarded(state, blockers, inner) {
                                assert(all_guarded(state, edge_children(blockers[k as int]), inner));
                            }
                        }
                        return attempt;
                    }
                    self.add_dependency(edge.clone());
                    assert(self@.to_set() =~= before.union(contribution(state, edge@)));
                },
                BorrowsEdgeKind::RegionProjectionMember(_) => {
                    proof {
                        assert(edge_children(edge@) =~= Seq::empty());
                        lemma_nothing_to_do(state, inner);
                        assert(contribution(state, edge@) =~= Set::empty());
                        assert(self@.to_set() =~= before.union(contribution(state, edge@)));
                    }
                },
            }
            k = k + 1;
        }
        assert(blockers.take(k as int) =~= blockers);
        match &place {
            MaybeRemotePlace::Local(MaybeOldPlace::Current { place: current }) => {
                let reborrows = borrows.reborrows_blocking_prefix_of(current);
                proof {
                    assert(view_each(reborrows@) == prefixes);
                    assert forall|j: int| 0 <= j < reborrows@.len() implies state.contains(
                        #[trigger] reborrows@[j]@,
                    ) by {
                        assert(prefixes[j] == reborrows@[j]@);
                    }
                }
                let attempt = self.kill_reborrows(&reborrows, borrows, &trail);
                if attempt.is_err() {
                    return attempt;
                }
            },
            _ => {
                assert(prefixes =~= Seq::empty());
            },
        }
        assert(self@.to_set() =~= base.union(dependencies(state, node)));
        Ok(())
    }

    /// Unblocks each of `places` in turn, each with its own copy of `history`.
    fn unblock_places(
        &mut self,
        places: &Vec<MaybeOldPlace>,
        borrows: &BorrowsState,
        history: &UnblockHistory,
    ) -> (result: Result<(), UnblockError>)
        requires
            forall|j: int|
                0 <= j < places@.len() ==> universe(borrows@).contains(
                    place_node(#[trigger] places@[j]@),
                ),
        ensures
            result is Ok <==> all_guarded(
                borrows@,
                place_nodes(view_each(places@)),
                history@.to_set(),
            ),
            result is Ok ==> final(self)@.to_set() == old(self)@.to_set().union(
                dependencies_of_all(borrows@, place_nodes(view_each(places@))),
            ),
            unblocked_all(borrows@, view_each(places@), 0, history@, old(self)@) == outcome(
                result,
                final(self)@,
            ),
            result matches Err(e) ==> e.is_revisit(),
            begins_with(final(self)@, old(self)@),
        decreases steps_left(borrows@, history@), 2nat,
    {
        let ghost state = borrows@;
        let ghost nodes = place_nodes(view_each(places@));
        let ghost seen = history@.to_set();
        let ghost base = self@.to_set();
        let mut j: usize = 0;
        proof {
            lemma_nothing_to_do(state, seen);
            assert(nodes.take(0) =~= Seq::empty());
            assert(self@.to_set() =~= base.union(dependencies_of_all(state, nodes.take(0))));
            assert forall|x: int| 0 <= x < view_each(places@).len() implies universe(
                state,
            ).contains(place_node(#[trigger] view_each(places@)[x])) by {
                assert(view_each(places@)[x] == places@[x]@);
            }
        }
        while j < places.len()
            invariant
                j <= places@.len(),
                state == borrows@,
                base == old(self)@.to_set(),
                begins_with(self@, old(self)@),
                seen == history@.to_set(),
                nodes == place_nodes(view_each(places@)),
                forall|x: int|
                    0 <= x < places@.len() ==> universe(state).contains(
                        place_node(#[trigger] places@[x]@),
                    ),
                all_guarded(state, nodes.take(j as int), seen),
                self@.to_set() == base.union(dependencies_of_all(state, nodes.take(j as int))),
                forall|x: int|
                    0 <= x < view_each(places@).len() ==> universe(state).contains(
                        place_node(#[trigger] view_each(places@)[x]),
                    ),
                unblocked_all(state, view_each(places@), j as int, history@, self@)
                    == unblocked_all(state, view_each(places@), 0, history@, old(self)@),
            decreases places@.len() - j,
        {
            let place = MaybeRemotePlace::Local(places[j].clone());
            proof {
                assert(view_each(places@)[j as int] == places@[j as int]@);
                assert(nodes[j as int] == UnblockHistoryActionView::UnblockPlace(place@));
                assert(universe(state).contains(place_node(places@[j as int]@)));
                lemma_nodes_next(state, nodes, j as int, seen);
                lemma_steps_left(state, nodes[j as int], history@);
            }
            let attempt = self.unblock_place_internal(place, borrows, history.clone());
            if attempt.is_err() {
                assert(!all_guarded(state, nodes, seen)) by {
                    if all_guarded(state, nodes, seen) {
                        assert(guarded(blocking_step(state), nodes[j as int], seen));
                    }
                }
                return attempt;
            }
            assert(self@.to_set() =~= base.union(
                dependencies_of_all(state, nodes.take(j + 1)),
            ));
            j = j + 1;
        }
        assert(nodes.take(j as int) =~= nodes);
        Ok(())
    }

    /// Kills each of `reborrows` in turn, each with its own copy of `history`.
    fn kill_reborrows(
        &mut self,
        reborrows: &Vec<Conditioned<Reborrow>>,
        borrows: &BorrowsState,
        history: &UnblockHistory,
    ) -> (result: Result<(), UnblockError>)
        requires
            forall|j: int|
                0 <= j < reborrows@.len() ==> borrows@.contains(#[trigger] reborrows@[j]@),
        ensures
            result is Ok <==> served_guarded(borrows@, view_each(reborrows@), history@.to_set()),
            result is Ok ==> final(self)@.to_set() == old(self)@.to_set().union(
                contributions(borrows@, view_each(reborrows@)),
            ),
            released(borrows@, view_each(reborrows@), 0, history@, old(self)@) == outcome(
                result,
                final(self)@,
            ),
            result matches Err(e) ==> e.is_revisit(),
            begins_with(final(self)@, old(self)@),
        decreases steps_left(borrows@, history@), 2nat,
    {
        let ghost state = borrows@;
        let ghost edges = view_each(reborrows@);
        let ghost seen = history@.to_set();
        let ghost base = self@.to_set();
        let mut j: usize = 0;
        proof {
            lemma_nothing_to_do(state, seen);
            assert(edges.take(0) =~= Seq::empty());
            assert(self@.to_set() =~= base.union(contributions(state, edges.take(0))));
            assert forall|x: int| 0 <= x < edges.len() implies state.contains(
                #[trigger] edges[x],
            ) by {
                assert(edges[x] == reborrows@[x]@);
            }
        }
        while j < reborrows.len()
            invariant
                j <= reborrows@.len(),
                state == borrows@,
                base == old(self)@.to_set(),
                begins_with(self@, old(self)@),
                seen == history@.to_set(),
                edges == view_each(reborrows@),
                forall|x: int|
                    0 <= x < reborrows@.len() ==> state.contains(#[trigger] reborrows@[x]@),
                served_guarded(state, edges.take(j as int), seen),
                self@.to_set() == base.union(contributions(state, edges.take(j as int))),
                forall|x: int| 0 <= x < edges.len() ==> state.contains(#[trigger] edges[x]),
                released(state, edges, j as int, history@, self@) == released(
                    state,
                    edges,
                    0,
                    history@,
                    old(self)@,
                ),
            decreases reborrows@.len() - j,
        {
            let reborrow = Conditioned::new(
                reborrows[j].value.clone(),
                reborrows[j].conditions.clone(),
            );
            let ghost before = self@.to_set();
            let ghost child = UnblockHistoryActionView::KillReborrow(reborrow.value@);
            proof {
                assert(reborrow@ == edges[j as int]);
                assert(state.contains(reborrows@[j as int]@));
                lemma_edges_next(state, edges, j as int, seen);
                lemma_children_in_universe(state, reborrow@);
                assert(edge_children(reborrow@) =~= seq![child]);
                assert(edge_children(reborrow@)[0] == child);
                lemma_single_node(state, child, seen);
                lemma_steps_left(state, child, history@);
            }
            let attempt = self.kill_reborrow_internal(reborrow, borrows, history.clone());
            if attempt.is_err() {
                assert(!served_guarded(state, edges, seen)) by {
                    if served_guarded(state, edges, seen) {
                        assert(all_guarded(state, edge_children(edges[j as int]), seen));
                    }
                }
                return attempt;
            }
            assert(self@.to_set() =~= before.union(contribution(state, edges[j as int])));
            j = j + 1;
        }
        assert(edges.take(j as int) =~= edges);
        Ok(())
    }

    /// Adds `reborrow` after everything that has to be released before it
    /// can be ended, with `history` as the steps that led here.
    pub fn kill_reborrow_internal(
        &mut self,
        reborrow: Conditioned<Reborrow>,
        borrows: &BorrowsState,
        history: UnblockHistory,
    ) -> (result: Result<(), UnblockError>)
        ensures
            result is Ok <==> guarded(
                blocking_step(borrows@),
                UnblockHistoryActionView::KillReborrow(reborrow.value@),
                history@.to_set(),
            ),
            result is Ok ==> final(self)@.to_set() == old(self)@.to_set().union(
                dependencies(borrows@, UnblockHistoryActionView::KillReborrow(reborrow.value@)),
            ).insert(reborrow@),
            killed(borrows@, reborrow@, history@, old(self)@) == outcome(result, final(self)@),
            result matches Err(e) ==> e.is_revisit(),
            begins_with(final(self)@, old(self)@),
        decreases
                steps_left_with(
                    borrows@,
                    UnblockHistoryActionView::KillReborrow(reborrow.value@),
                    history@,
                ),
                1nat,
    {
        let ghost state = borrows@;
        let ghost node = UnblockHistoryActionView::KillReborrow(reborrow.value@);
        let ghost seen = history@.to_set();
        let ghost entered = history@;
        proof {
            lemma_reborrow_step(state, reborrow.value@, seen);
            lemma_steps_left(state, node, entered);
        }
        let mut trail = history;
        let revisited = UnblockHistoryAction::KillReborrow(reborrow.value.clone());
        if !trail.record(UnblockHistoryAction::KillReborrow(reborrow.value.clone())) {
            return Err(Self::report_error(trail, revisited));
        }
        proof {
            entered.lemma_push_to_set_commute(node);
            lemma_steps_left(state, place_node(reborrow.value@.assigned_place), trail@);
        }
        let place = MaybeRemotePlace::Local(reborrow.value.assigned_place.clone());
        let attempt = self.unblock_place_internal(place, borrows, trail);
        if attempt.is_err() {
            return attempt;
        }
        self.add_dependency(reborrow.to_borrows_edge());
        Ok(())
    }

    /// Adds `reborrow` after everything that has to be released before it
    /// can be ended.
    pub fn kill_reborrow(&mut self, reborrow: Conditioned<Reborrow>, borrows: &BorrowsState) -> (result:
        Result<(), UnblockError>)
        ensures
            result is Ok <==> acyclic_from(
                blocking_step(borrows@),
                UnblockHistoryActionView::KillReborrow(reborrow.value@),
            ),
            result is Ok ==> final(self)@.to_set() == old(self)@.to_set().union(
                dependencies(borrows@, UnblockHistoryActionView::KillReborrow(reborrow.value@)),
            ).insert(reborrow@),
            killed(borrows@, reborrow@, Seq::empty(), old(self)@) == outcome(result, final(self)@),
            result matches Err(e) ==> e.is_revisit(),
            begins_with(final(self)@, old(self)@),
    {
        let history = UnblockHistory::new();
        assert(history@.to_set() =~= Set::empty());
        self.kill_reborrow_internal(reborrow, borrows, history)
    }
    /// Ends every reborrow that was reserved at `location`: for each, the
    /// place that it lends to is unblocked first, then the reborrow is added.
    pub fn kill_reborrows_reserved_at(&mut self, location: Location, borrows: &BorrowsState) -> (result:
        Result<(), UnblockError>)
        ensures
            result is Ok <==> served_guarded(
                borrows@,
                borrows@.filter(reserved_at(location)),
                Set::empty(),
            ),
            result is Ok ==> final(self)@.to_set() == old(self)@.to_set().union(
                contributions(borrows@, borrows@.filter(reserved_at(location))),
            ),
            ended(borrows@, borrows@.filter(reserved_at(location)), 0, old(self)@) == outcome(
                result,
                final(self)@,
            ),
            result matches Err(e) ==> e.is_revisit(),
            begins_with(final(self)@, old(self)@),
    {
        let ghost state = borrows@;
        let ghost base = self@.to_set();
        let ghost none = Set::<UnblockHistoryActionView>::empty();
        let reserved = borrows.reborrow_edges_reserved_at(location);
        let ghost all = view_each(reserved@);
        let mut j: usize = 0;
        proof {
            lemma_nothing_to_do(state, none);
            lemma_filter_members(state, reserved_at(location));
            assert(all.take(0) =~= Seq::empty());
            assert(self@.to_set() =~= base.union(contributions(state, all.take(0))));
        }
        while j < reserved.len()
            invariant
                j <= reserved@.len(),
                state == borrows@,
                base == old(self)@.to_set(),
                begins_with(self@, old(self)@),
                none == Set::<UnblockHistoryActionView>::empty(),
                all == view_each(reserved@),
                all == state.filter(reserved_at(location)),
                forall|i: int| 0 <= i < all.len() ==> (#[trigger] all[i]).kind is Reborrow,
                ended(state, all, j as int, self@) == ended(state, all, 0, old(self)@),
                served_guarded(state, all.take(j as int), none),
                self@.to_set() == base.union(contributions(state, all.take(j as int))),
            decreases reserved@.len() - j,
        {
            let edge = &reserved[j];
            let ghost before = self@.to_set();
            let ghost child = UnblockHistoryActionView::KillReborrow(edge.value@);
            proof {
                assert(edge@ == all[j as int]);
                lemma_reborrow_acyclic(state, edge.value@);
                lemma_reborrow_step(state, edge.value@, none);
                lemma_single_node(state, child, none);
                lemma_edges_next(state, all, j as int, none);
                assert(edge_children(edge@) =~= seq![child]);
            }
            let place = MaybeRemotePlace::Local(edge.value.assigned_place.clone());
            let attempt = self.unblock_place(place, borrows);
            if attempt.is_err() {
                assert(!served_guarded(state, all, none)) by {
                    if served_guarded(state, all, none) {
                        assert(all_guarded(state, edge_children(all[j as int]), none));
                    }
                }
                return attempt;
            }
            let copy = Conditioned::new(edge.value.clone(), edge.conditions.clone());
            self.add_dependency(copy.to_borrows_edge());
            assert(self@.to_set() =~= before.union(contribution(state, edge@)));
            j = j + 1;
        }
        assert(all.take(j as int) =~= all);
        Ok(())
    }

    /// Adds the region `abstraction` after trimming the snapshots among the
    /// places that it blocks.
    pub fn kill_abstraction(
        &mut self,
        borrows: &BorrowsState,
        abstraction: Conditioned<AbstractionEdge>,
    ) -> (result: Result<(), UnblockError>)
        ensures
            result is Ok <==> places_trim(borrows@, abstraction.value@.blocks_places),
            result is Ok ==> final(self)@.to_set() == old(self)@.to_set().union(
                places_trimmed(borrows@, abstraction.value@.blocks_places),
            ).insert(abstraction@),
            match after_trimming_places(borrows@, abstraction.value@.blocks_places, 0, old(self)@) {
                Ok(graph) => result is Ok && final(self)@ == with_edge(graph, abstraction@),
                Err(revisit) => result matches Err(error) && error.revisit() == revisit,
            },
            result matches Err(e) ==> e.is_revisit(),
            begins_with(final(self)@, old(self)@),
    {
        let ghost state = borrows@;
        let ghost base = self@.to_set();
        let blocked = abstraction.value.blocks_places();
        let ghost places = view_each(blocked@);
        let mut j: usize = 0;
        proof {
            lemma_no_places(state);
            assert(places.take(0) =~= Seq::empty());
            assert(self@.to_set() =~= base.union(places_trimmed(state, places.take(0))));
        }
        while j < blocked.len()
            invariant
                j <= blocked@.len(),
                state == borrows@,
                base == old(self)@.to_set(),
                begins_with(self@, old(self)@),
                places == view_each(blocked@),
                places == abstraction.value@.blocks_places,
                after_trimming_places(state, places, j as int, self@) == after_trimming_places(
                    state,
                    places,
                    0,
                    old(self)@,
                ),
                places_trim(state, places.take(j as int)),
                self@.to_set() == base.union(places_trimmed(state, places.take(j as int))),
            decreases blocked@.len() - j,
        {
            proof {
                assert(places[j as int] == blocked@[j as int]@);
                lemma_places_next(state, places, j as int);
            }
            match &blocked[j] {
                MaybeRemotePlace::Local(MaybeOldPlace::OldPlace(snapshot)) => {
                    let attempt = self.trim_old_leaves_from(borrows, snapshot.clone());
                    if attempt.is_err() {
                        assert(!places_trim(state, places)) by {
                            if places_trim(state, places) {
                                assert(is_snapshot(places[j as int]));
                            }
                        }
                        return attempt;
                    }
                },
                _ => {},
            }
            j = j + 1;
        }
        assert(places.take(j as int) =~= places);
        self.add_dependency(abstraction.to_borrows_edge());
        Ok(())
    }

    /// Ends every reborrow that lends to the snapshot `place`, after trimming
    /// the snapshots that these reborrows borrow from.
    pub fn trim_old_leaves_from(&mut self, borrows: &BorrowsState, place: PlaceSnapshot) -> (result:
        Result<(), UnblockError>)
        ensures
            result is Ok <==> trims(
                borrows@,
                place_node(MaybeOldPlaceView::OldPlace(place@)),
                Set::empty(),
            ),
            result is Ok ==> final(self)@.to_set() == old(self)@.to_set().union(
                trimmed(borrows@, place_node(MaybeOldPlaceView::OldPlace(place@))),
            ),
            after_trimming(
                borrows@,
                MaybeOldPlaceView::OldPlace(place@),
                Seq::empty(),
                old(self)@,
            ) == outcome(result, final(self)@),
            result matches Err(e) ==> e.is_revisit(),
            begins_with(final(self)@, old(self)@),
    {
        let history = UnblockHistory::new();
        assert(history@.to_set() =~= Set::empty());
        self.trim_old_leaves_internal(borrows, place, history)
    }

    /// Trims the snapshot `place`, with `history` as the snapshots that led here.
    fn trim_old_leaves_internal(
        &mut self,
        borrows: &BorrowsState,
        place: PlaceSnapshot,
        history: UnblockHistory,
    ) -> (result: Result<(), UnblockError>)
        ensures
            result is Ok <==> trims(
                borrows@,
                place_node(MaybeOldPlaceView::OldPlace(place@)),
                history@.to_set(),
            ),
            result is Ok ==> final(self)@.to_set() == old(self)@.to_set().union(
                trimmed(borrows@, place_node(MaybeOldPlaceView::OldPlace(place@))),
            ),
            after_trimming(
                borrows@,
                MaybeOldPlaceView::OldPlace(place@),
                history@,
                old(self)@,
            ) == outcome(result, final(self)@),
            result matches Err(e) ==> e.is_revisit(),
            begins_with(final(self)@, old(self)@),
        decreases steps_left_with(
            borrows@,
            place_node(MaybeOldPlaceView::OldPlace(place@)),
            history@,
        ),
    {
        let ghost state = borrows@;
        let ghost node = place_node(MaybeOldPlaceView::OldPlace(place@));
        let ghost seen = history@.to_set();
        let ghost inner = seen.insert(node);
        let ghost none = Set::<UnblockHistoryActionView>::empty();
        let ghost base = self@.to_set();
        let ghost entered = history@;
        let ghost lending = lenders(state, node);
        proof {
            lemma_trim_step(state, node, seen);
            lemma_steps_left(state, node, entered);
            lemma_lenders_in_state(state, node);
            lemma_nothing_to_do(state, none);
            lemma_no_snapshots(state, inner);
        }
        let snapshot = MaybeOldPlace::OldPlace(place);
        let mut trail = history;
        let revisited = UnblockHistoryAction::UnblockPlace(MaybeRemotePlace::Local(snapshot.clone()));
        if !trail.record(
            UnblockHistoryAction::UnblockPlace(MaybeRemotePlace::Local(snapshot.clone())),
        ) {
            return Err(Self::report_error(trail, revisited));
        }
        assert(trail@.to_set() =~= inner) by {
            entered.lemma_push_to_set_commute(node);
        }
        let reborrows = borrows.reborrows_blocked_by(&snapshot);
        let mut j: usize = 0;
        proof {
            assert(view_each(reborrows@) == lending);
            assert(lending.take(0) =~= Seq::empty());
            assert(self@.to_set() =~= base.union(contributions(state, lending.take(0))).union(
                snapshots_trimmed(state, lending.take(0)),
            ));
        }
        while j < reborrows.len()
            invariant
                j <= reborrows@.len(),
                state == borrows@,
                base == old(self)@.to_set(),
                begins_with(self@, old(self)@),
                node == place_node(MaybeOldPlaceView::OldPlace(place@)),
                entered == history@,
                seen == history@.to_set(),
                inner == seen.insert(node),
                none == Set::<UnblockHistoryActionView>::empty(),
                trail@.to_set() == inner,
                steps_left(state, trail@) < steps_left_with(state, node, entered),
                lending == lenders(state, node),
                view_each(reborrows@) == lending,
                forall|x: int| 0 <= x < lending.len() ==> state.contains(#[trigger] lending[x]),
                lending == state.filter(assigned_to(MaybeOldPlaceView::OldPlace(place@))),
                after_trimming_lenders(state, lending, j as int, trail@, self@)
                    == after_trimming_lenders(state, lending, 0, trail@, old(self)@),
                after_trimming(state, MaybeOldPlaceView::OldPlace(place@), entered, old(self)@)
                    == after_trimming_lenders(state, lending, 0, trail@, old(self)@),
                served_guarded(state, lending.take(j as int), none),
                snapshots_trim(state, lending.take(j as int), inner),
                self@.to_set() == base.union(contributions(state, lending.take(j as int))).union(
                    snapshots_trimmed(state, lending.take(j as int)),
                ),
                !(served_guarded(state, lending, none) && snapshots_trim(state, lending, inner))
                    ==> !trims(state, node, seen),
            decreases reborrows@.len() - j,
        {
            let reborrow = Conditioned::new(
                reborrows[j].value.clone(),
                reborrows[j].conditions.clone(),
            );
            let ghost edge = lending[j as int];
            let ghost before = self@.to_set();
            let ghost child = UnblockHistoryActionView::KillReborrow(reborrow.value@);
            proof {
                assert(reborrow@ == edge);
                assert(state.contains(lending[j as int]));
                lemma_edges_next(state, lending, j as int, none);
                lemma_snapshots_next(state, lending, j as int, inner);
                lemma_single_node(state, child, none);
                assert(edge_children(edge) =~= seq![child]);
            }
            match &reborrow.value.blocked_place {
                MaybeRemotePlace::Local(MaybeOldPlace::OldPlace(lent)) => {
                    proof {
                        assert(lent_snapshot(edge) == Some(
                            place_node(MaybeOldPlaceView::OldPlace(lent@)),
                        ));
                        lemma_snapshot_in_universe(state, edge);
                        lemma_steps_left(state, lent_snapshot(edge).unwrap(), trail@);
                    }
                    let attempt = self.trim_old_leaves_internal(borrows, lent.clone(), trail.clone());
                    if attempt.is_err() {
                        assert(!snapshots_trim(state, lending, inner)) by {
                            if snapshots_trim(state, lending, inner) {
                                assert(lent_snapshot(lending[j as int]) is Some);
                            }
                        }
                        return attempt;
                    }
                },
                _ => {
                    assert(lent_snapshot(edge) is None);
                },
            }
            let attempt = self.kill_reborrow(reborrow, borrows);
            if attempt.is_err() {
                assert(!served_guarded(state, lending, none)) by {
                    if served_guarded(state, lending, none) {
                        assert(all_guarded(state, edge_children(lending[j as int]), none));
                    }
                }
                return attempt;
            }
            assert(self@.to_set() =~= base.union(contributions(state, lending.take(j + 1))).union(
                snapshots_trimmed(state, lending.take(j + 1)),
            ));
            j = j + 1;
        }
        assert(lending.take(j as int) =~= lending);
        Ok(())
    }
}

} // verus!
