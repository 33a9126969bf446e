//! The order in which the edges of an unblock graph are released: edges
//! that nothing waits behind go first, pass by pass.

use vstd::prelude::*;

use crate::borrows::borrows_edge::{lemma_action_fixes_blockers, BorrowsEdgeView};
use crate::borrows::domain::MaybeRemotePlaceView;
use crate::combined_pcs::UnblockActionView;
use crate::utils::items::{lemma_filter_drops, lemma_filter_members};
use crate::utils::walks::{
    acyclic_from, is_walk, lemma_distinct_walk_is_short, lemma_walk_push, steps_at, walk_from,
};

verus! {

/// No edge of `edges` blocks `place`.
pub open spec fn is_leaf(edges: Seq<BorrowsEdgeView>, place: MaybeRemotePlaceView) -> bool {
    forall|i: int| 0 <= i < edges.len() ==> !(#[trigger] edges[i]).kind.blocks_place(place)
}

/// `edge` can be released while `edges` remain: it has a releasing action and
/// every place that it waits for is a leaf.
pub open spec fn resolvable(edges: Seq<BorrowsEdgeView>, edge: BorrowsEdgeView) -> bool {
    &&& edge.kind.action() is Some
    &&& forall|j: int|
        0 <= j < edge.kind.blocked_by_places().len() ==> is_leaf(
            edges,
            MaybeRemotePlaceView::Local(#[trigger] edge.kind.blocked_by_places()[j]),
        )
}

/// The edges that have to wait while `edges` remain.
pub open spec fn waiting(edges: Seq<BorrowsEdgeView>) -> spec_fn(BorrowsEdgeView) -> bool {
    |edge: BorrowsEdgeView| !resolvable(edges, edge)
}

/// `actions`, with `action` added at the end unless it is already there.
pub open spec fn with_action(
    actions: Seq<UnblockActionView>,
    action: UnblockActionView,
) -> Seq<UnblockActionView> {
    if actions.contains(action) {
        actions
    } else {
        actions.push(action)
    }
}

/// The actions after one pass over `pass`, a front part of the remaining
/// edges `edges`: each resolvable edge adds its action, in edge order.
pub open spec fn emit(
    pass: Seq<BorrowsEdgeView>,
    edges: Seq<BorrowsEdgeView>,
    actions: Seq<UnblockActionView>,
) -> Seq<UnblockActionView>
    decreases pass.len(),
{
    if pass.len() == 0 {
        actions
    } else {
        let before = emit(pass.drop_last(), edges, actions);
        if resolvable(edges, pass.last()) {
            with_action(before, pass.last().kind.action().unwrap())
        } else {
            before
        }
    }
}

/// The outcome of releasing `edges` after `actions` were already emitted:
/// the full list of actions, or the edges among which no pass finds one to
/// release.
pub open spec fn resolve(
    edges: Seq<BorrowsEdgeView>,
    actions: Seq<UnblockActionView>,
) -> Result<Seq<UnblockActionView>, Seq<BorrowsEdgeView>>
    decreases edges.len(),
{
    if edges.len() == 0 {
        Ok(actions)
    } else {
        let rest = edges.filter(waiting(edges));
        if rest.len() < edges.len() {
            resolve(rest, emit(edges, edges, actions))
        } else {
            Err(edges)
        }
    }
}

/// The actions that release all of `edges`, in order.
pub open spec fn release_order(edges: Seq<BorrowsEdgeView>) -> Result<
    Seq<UnblockActionView>,
    Seq<BorrowsEdgeView>,
> {
    resolve(edges, Seq::empty())
}

/// `edge` waits for `other`: `other` blocks a place that has to be free
/// before `edge` can be released.
pub open spec fn waits_for(edge: BorrowsEdgeView, other: BorrowsEdgeView) -> bool {
    exists|j: int|
        0 <= j < edge.kind.blocked_by_places().len() && other.kind.blocks_place(
            MaybeRemotePlaceView::Local(#[trigger] edge.kind.blocked_by_places()[j]),
        )
}

/// `rank` numbers the edges so that every edge has a larger number than the
/// edges it waits for.
spec fn ranked(edges: Seq<BorrowsEdgeView>, rank: spec_fn(BorrowsEdgeView) -> nat) -> bool {
    forall|i: int, j: int|
        0 <= i < edges.len() && 0 <= j < edges.len() && waits_for(
            #[trigger] edges[i],
            #[trigger] edges[j],
        ) ==> rank(edges[j]) < rank(edges[i])
}

/// Every edge has a releasing action, and the edges can be numbered so that
/// each waits only for edges with smaller numbers: the waiting relation among
/// them has no cycle.
spec fn releasable(edges: Seq<BorrowsEdgeView>) -> bool {
    &&& forall|i: int| 0 <= i < edges.len() ==> (#[trigger] edges[i]).kind.action() is Some
    &&& exists|rank: spec_fn(BorrowsEdgeView) -> nat| ranked(edges, rank)
}

/// From an edge of `edges` to an edge of `edges` that it waits for.
pub open spec fn waiting_step(edges: Seq<BorrowsEdgeView>) -> spec_fn(
    BorrowsEdgeView,
    BorrowsEdgeView,
) -> bool {
    |edge: BorrowsEdgeView, other: BorrowsEdgeView|
        edges.contains(edge) && edges.contains(other) && waits_for(edge, other)
}

/// No edge of `edges` waits, directly or by way of other edges, for itself.
pub open spec fn waits_without_cycle(edges: Seq<BorrowsEdgeView>) -> bool {
    forall|i: int| 0 <= i < edges.len() ==> acyclic_from(waiting_step(edges), #[trigger] edges[i])
}

/// `front` is the beginning of `whole`.
pub open spec fn starts_with(whole: Seq<UnblockActionView>, front: Seq<UnblockActionView>) -> bool {
    &&& front.len() <= whole.len()
    &&& forall|k: int| 0 <= k < front.len() ==> whole[k] == front[k]
}

/// Some edge of `edges` is released by `action`.
pub open spec fn releases(edges: Seq<BorrowsEdgeView>, action: UnblockActionView) -> bool {
    exists|i: int| 0 <= i < edges.len() && (#[trigger] edges[i]).kind.action() == Some(action)
}

/// None of the actions that release an edge of `edges` is in `actions` yet.
pub open spec fn unreleased(edges: Seq<BorrowsEdgeView>, actions: Seq<UnblockActionView>) -> bool {
    forall|i: int|
        0 <= i < edges.len() && (#[trigger] edges[i]).kind.action() is Some ==> !actions.contains(
            edges[i].kind.action().unwrap(),
        )
}

proof fn lemma_resolvable_means_nothing_waited_for(
    edges: Seq<BorrowsEdgeView>,
    edge: BorrowsEdgeView,
)
    ensures
        resolvable(edges, edge) <==> edge.kind.action() is Some && forall|k: int|
            0 <= k < edges.len() ==> !waits_for(edge, #[trigger] edges[k]),
{
    let blockers = edge.kind.blocked_by_places();
    if resolvable(edges, edge) {
        assert forall|k: int| 0 <= k < edges.len() implies !waits_for(edge, #[trigger] edges[k]) by {
            if waits_for(edge, edges[k]) {
                let j = choose|j: int|
                    0 <= j < blockers.len() && edges[k].kind.blocks_place(
                        MaybeRemotePlaceView::Local(#[trigger] blockers[j]),
                    );
                assert(is_leaf(edges, MaybeRemotePlaceView::Local(blockers[j])));
            }
        }
    }
    if edge.kind.action() is Some && forall|k: int|
        0 <= k < edges.len() ==> !waits_for(edge, #[trigger] edges[k]) {
        assert forall|j: int| 0 <= j < blockers.len() implies is_leaf(
            edges,
            MaybeRemotePlaceView::Local(#[trigger] blockers[j]),
        ) by {
            assert forall|k: int| 0 <= k < edges.len() implies !(#[trigger] edges[k]).kind.blocks_place(
                MaybeRemotePlaceView::Local(blockers[j]),
            ) by {
                assert(!waits_for(edge, edges[k]));
            }
        }
    }
}

proof fn lemma_emit(
    pass: Seq<BorrowsEdgeView>,
    edges: Seq<BorrowsEdgeView>,
    actions: Seq<UnblockActionView>,
)
    requires
        actions.no_duplicates(),
    ensures
        emit(pass, edges, actions).no_duplicates(),
        starts_with(emit(pass, edges, actions), actions),
        forall|a: UnblockActionView|
            emit(pass, edges, actions).contains(a) <==> actions.contains(a) || exists|k: int|
                0 <= k < pass.len() && resolvable(edges, #[trigger] pass[k]) && pass[k].kind.action()
                    == Some(a),
    decreases pass.len(),
{
    if pass.len() > 0 {
        let front = pass.drop_last();
        lemma_emit(front, edges, actions);
        let before = emit(front, edges, actions);
        let out = emit(pass, edges, actions);
        let last = pass.last();
        assert forall|a: UnblockActionView|
            out.contains(a) <==> actions.contains(a) || exists|k: int|
                0 <= k < pass.len() && resolvable(edges, #[trigger] pass[k]) && pass[k].kind.action()
                    == Some(a) by {
            if out.contains(a) {
                if before.contains(a) {
                    if !actions.contains(a) {
                        let k = choose|k: int|
                            0 <= k < front.len() && resolvable(edges, #[trigger] front[k])
                                && front[k].kind.action() == Some(a);
                        assert(pass[k] == front[k]);
                    }
                } else {
                    let x = choose|x: int| 0 <= x < out.len() && out[x] == a;
                    assert(x == before.len());
                    assert(pass[pass.len() - 1] == last);
                }
            }
            if actions.contains(a) {
                let x = choose|x: int| 0 <= x < actions.len() && actions[x] == a;
                assert(before[x] == a);
                assert(before.contains(a));
                if out != before {
                    assert(out[x] == a);
                }
            }
            if exists|k: int|
                0 <= k < pass.len() && resolvable(edges, #[trigger] pass[k]) && pass[k].kind.action()
                    == Some(a) {
                let k = choose|k: int|
                    0 <= k < pass.len() && resolvable(edges, #[trigger] pass[k])
                        && pass[k].kind.action() == Some(a);
                if k < front.len() {
                    assert(front[k] == pass[k]);
                    assert(before.contains(a));
                    let x = choose|x: int| 0 <= x < before.len() && before[x] == a;
                    if out != before {
                        assert(out[x] == a);
                    }
                } else {
                    if !before.contains(a) {
                        assert(out == before.push(a));
                        assert(out[before.len() as int] == a);
                    }
                }
            }
        }
    }
}

proof fn lemma_lowest_rank(edges: Seq<BorrowsEdgeView>, rank: spec_fn(BorrowsEdgeView) -> nat) -> (m:
    int)
    requires
        edges.len() > 0,
    ensures
        0 <= m < edges.len(),
        forall|i: int| 0 <= i < edges.len() ==> rank(edges[m]) <= rank(#[trigger] edges[i]),
    decreases edges.len(),
{
    if edges.len() == 1 {
        0
    } else {
        let front = edges.drop_last();
        let m = lemma_lowest_rank(front, rank);
        assert(front[m] == edges[m]);
        if rank(edges.last()) < rank(edges[m]) {
            assert forall|i: int| 0 <= i < edges.len() implies rank(edges.last()) <= rank(
                #[trigger] edges[i],
            ) by {
                if i < front.len() {
                    assert(front[i] == edges[i]);
                }
            }
            edges.len() - 1
        } else {
            assert forall|i: int| 0 <= i < edges.len() implies rank(edges[m]) <= rank(
                #[trigger] edges[i],
            ) by {
                if i < front.len() {
                    assert(front[i] == edges[i]);
                }
            }
            m
        }
    }
}

proof fn lemma_releasable_rest(edges: Seq<BorrowsEdgeView>)
    requires
        releasable(edges),
        edges.len() > 0,
    ensures
        edges.filter(waiting(edges)).len() < edges.len(),
        releasable(edges.filter(waiting(edges))),
{
    let rank = choose|rank: spec_fn(BorrowsEdgeView) -> nat| ranked(edges, rank);
    let m = lemma_lowest_rank(edges, rank);
    lemma_resolvable_means_nothing_waited_for(edges, edges[m]);
    assert(resolvable(edges, edges[m]));
    lemma_filter_drops(edges, waiting(edges), m);
    let rest = edges.filter(waiting(edges));
    lemma_filter_members(edges, waiting(edges));
    assert forall|i: int| 0 <= i < rest.len() implies (#[trigger] rest[i]).kind.action() is Some by {
        let k = choose|k: int| 0 <= k < edges.len() && edges[k] == rest[i];
        assert(edges[k].kind.action() is Some);
    }
    assert(ranked(rest, rank)) by {
        assert forall|i: int, j: int|
            0 <= i < rest.len() && 0 <= j < rest.len() && waits_for(
                #[trigger] rest[i],
                #[trigger] rest[j],
            ) implies rank(rest[j]) < rank(rest[i]) by {
            let x = choose|x: int| 0 <= x < edges.len() && edges[x] == rest[i];
            let y = choose|y: int| 0 <= y < edges.len() && edges[y] == rest[j];
            assert(waits_for(edges[x], edges[y]));
        }
    }
}

proof fn lemma_releasable_resolves(edges: Seq<BorrowsEdgeView>, actions: Seq<UnblockActionView>)
    requires
        releasable(edges),
    ensures
        resolve(edges, actions) is Ok,
    decreases edges.len(),
{
    if edges.len() > 0 {
        lemma_releasable_rest(edges);
        lemma_releasable_resolves(edges.filter(waiting(edges)), emit(edges, edges, actions));
    }
}

proof fn lemma_resolved_is_releasable(edges: Seq<BorrowsEdgeView>, actions: Seq<UnblockActionView>)
    requires
        resolve(edges, actions) is Ok,
    ensures
        releasable(edges),
    decreases edges.len(),
{
    if edges.len() == 0 {
        let rank = |edge: BorrowsEdgeView| 0nat;
        assert(ranked(edges, rank));
    } else {
        let rest = edges.filter(waiting(edges));
        lemma_resolved_is_releasable(rest, emit(edges, edges, actions));
        lemma_filter_members(edges, waiting(edges));
        let below = choose|rank: spec_fn(BorrowsEdgeView) -> nat| ranked(rest, rank);
        let rank = |edge: BorrowsEdgeView|
            if rest.contains(edge) {
                below(edge) + 1
            } else {
                0nat
            };
        assert forall|i: int| 0 <= i < edges.len() implies (
        #[trigger] edges[i]).kind.action() is Some by {
            if waiting(edges)(edges[i]) {
                assert(rest.contains(edges[i]));
                let k = choose|k: int| 0 <= k < rest.len() && rest[k] == edges[i];
                assert(rest[k].kind.action() is Some);
            }
        }
        assert(ranked(edges, rank)) by {
            assert forall|i: int, j: int|
                0 <= i < edges.len() && 0 <= j < edges.len() && waits_for(
                    #[trigger] edges[i],
                    #[trigger] edges[j],
                ) implies rank(edges[j]) < rank(edges[i]) by {
                lemma_resolvable_means_nothing_waited_for(edges, edges[i]);
                assert(waiting(edges)(edges[i]));
                assert(rest.contains(edges[i]));
                if rest.contains(edges[j]) {
                    let x = choose|x: int| 0 <= x < rest.len() && rest[x] == edges[i];
                    let y = choose|y: int| 0 <= y < rest.len() && rest[y] == edges[j];
                    assert(waits_for(rest[x], rest[y]));
                }
            }
        }
    }
}

proof fn lemma_rest_unreleased(edges: Seq<BorrowsEdgeView>, actions: Seq<UnblockActionView>)
    requires
        actions.no_duplicates(),
        unreleased(edges, actions),
    ensures
        unreleased(edges.filter(waiting(edges)), emit(edges, edges, actions)),
{
    let rest = edges.filter(waiting(edges));
    let emitted = emit(edges, edges, actions);
    lemma_filter_members(edges, waiting(edges));
    lemma_emit(edges, edges, actions);
    assert forall|i: int|
        0 <= i < rest.len() && (#[trigger] rest[i]).kind.action() is Some implies !emitted.contains(
        rest[i].kind.action().unwrap(),
    ) by {
        let a = rest[i].kind.action().unwrap();
        let x = choose|x: int| 0 <= x < edges.len() && edges[x] == rest[i];
        assert(!actions.contains(edges[x].kind.action().unwrap()));
        if emitted.contains(a) {
            let k = choose|k: int|
                0 <= k < edges.len() && resolvable(edges, #[trigger] edges[k])
                    && edges[k].kind.action() == Some(a);
            lemma_action_fixes_blockers(edges[k].kind, rest[i].kind);
            assert(resolvable(edges, rest[i]));
            assert(waiting(edges)(rest[i]));
        }
    }
}

proof fn lemma_resolve(edges: Seq<BorrowsEdgeView>, actions: Seq<UnblockActionView>)
    requires
        actions.no_duplicates(),
        unreleased(edges, actions),
        resolve(edges, actions) is Ok,
    ensures
        ({
            let order = resolve(edges, actions)->Ok_0;
            &&& order.no_duplicates()
            &&& starts_with(order, actions)
            &&& forall|a: UnblockActionView|
                order.contains(a) <==> actions.contains(a) || releases(edges, a)
            &&& forall|i: int, j: int|
                0 <= i < edges.len() && 0 <= j < edges.len() && waits_for(
                    #[trigger] edges[i],
                    #[trigger] edges[j],
                ) ==> comes_before(
                    order,
                    edges[j].kind.action().unwrap(),
                    edges[i].kind.action().unwrap(),
                )
        }),
    decreases edges.len(),
{
    if edges.len() > 0 {
        let rest = edges.filter(waiting(edges));
        let emitted = emit(edges, edges, actions);
        let order = resolve(edges, actions)->Ok_0;
        lemma_emit(edges, edges, actions);
        lemma_rest_unreleased(edges, actions);
        lemma_resolve(rest, emitted);
        lemma_filter_members(edges, waiting(edges));
        lemma_resolved_is_releasable(edges, actions);
        assert forall|a: UnblockActionView|
            order.contains(a) <==> actions.contains(a) || releases(edges, a) by {
            if order.contains(a) && !actions.contains(a) {
                if emitted.contains(a) {
                    let k = choose|k: int|
                        0 <= k < edges.len() && resolvable(edges, #[trigger] edges[k])
                            && edges[k].kind.action() == Some(a);
                    assert(releases(edges, a));
                } else {
                    let k = choose|k: int|
                        0 <= k < rest.len() && (#[trigger] rest[k]).kind.action() == Some(a);
                    let x = choose|x: int| 0 <= x < edges.len() && edges[x] == rest[k];
                    assert(edges[x].kind.action() == Some(a));
                }
            }
            if releases(edges, a) {
                let i = choose|i: int|
                    0 <= i < edges.len() && (#[trigger] edges[i]).kind.action() == Some(a);
                if resolvable(edges, edges[i]) {
                    assert(emitted.contains(a));
                } else {
                    assert(waiting(edges)(edges[i]));
                    assert(rest.contains(edges[i]));
                    let k = choose|k: int| 0 <= k < rest.len() && rest[k] == edges[i];
                    assert(rest[k].kind.action() == Some(a));
                    assert(releases(rest, a));
                }
            }
        }
        assert forall|i: int, j: int|
            0 <= i < edges.len() && 0 <= j < edges.len() && waits_for(
                #[trigger] edges[i],
                #[trigger] edges[j],
            ) implies comes_before(
            order,
            edges[j].kind.action().unwrap(),
            edges[i].kind.action().unwrap(),
        ) by {
            let later = edges[i].kind.action().unwrap();
            let earlier = edges[j].kind.action().unwrap();
            lemma_resolvable_means_nothing_waited_for(edges, edges[i]);
            assert(waiting(edges)(edges[i]));
            assert(rest.contains(edges[i]));
            let x = choose|x: int| 0 <= x < rest.len() && rest[x] == edges[i];
            if resolvable(edges, edges[j]) {
                assert(emitted.contains(earlier));
                let p = choose|p: int| 0 <= p < emitted.len() && emitted[p] == earlier;
                assert(rest[x].kind.action() == Some(later));
                assert(releases(rest, later));
                assert(order.contains(later));
                let q = choose|q: int| 0 <= q < order.len() && order[q] == later;
                if q < emitted.len() {
                    assert(emitted[q] == later);
                    assert(emitted.contains(later));
                    assert(!emitted.contains(rest[x].kind.action().unwrap()));
                }
                assert(order[p] == earlier);
                assert(0 <= p < q < order.len() && order[p] == earlier && order[q] == later);
            } else {
                assert(waiting(edges)(edges[j]));
                assert(rest.contains(edges[j]));
                let y = choose|y: int| 0 <= y < rest.len() && rest[y] == edges[j];
                assert(waits_for(rest[x], rest[y]));
            }
        }
    }
}

proof fn lemma_ranks_fall(
    edges: Seq<BorrowsEdgeView>,
    rank: spec_fn(BorrowsEdgeView) -> nat,
    walk: Seq<BorrowsEdgeView>,
    i: int,
    j: int,
)
    requires
        ranked(edges, rank),
        is_walk(waiting_step(edges), walk),
        0 <= i < j < walk.len(),
    ensures
        rank(walk[j]) < rank(walk[i]),
    decreases j - i,
{
    assert(steps_at(waiting_step(edges), walk, j - 1));
    let x = choose|x: int| 0 <= x < edges.len() && edges[x] == walk[j - 1];
    let y = choose|y: int| 0 <= y < edges.len() && edges[y] == walk[j];
    assert(waits_for(edges[x], edges[y]));
    if i < j - 1 {
        lemma_ranks_fall(edges, rank, walk, i, j - 1);
    }
}

proof fn lemma_stuck_edges_wait_on(
    rest: Seq<BorrowsEdgeView>,
    edges: Seq<BorrowsEdgeView>,
    n: nat,
) -> (walk: Seq<BorrowsEdgeView>)
    requires
        rest.len() > 0,
        forall|i: int| 0 <= i < rest.len() ==> edges.contains(#[trigger] rest[i]),
        forall|i: int| 0 <= i < rest.len() ==> !resolvable(rest, #[trigger] rest[i]),
        forall|i: int| 0 <= i < rest.len() ==> (#[trigger] rest[i]).kind.action() is Some,
    ensures
        walk_from(waiting_step(edges), rest[0], walk),
        walk.len() == n + 1,
        forall|k: int| 0 <= k < walk.len() ==> rest.contains(#[trigger] walk[k]),
    decreases n,
{
    if n == 0 {
        let walk = seq![rest[0]];
        assert(rest.contains(walk[0]));
        walk
    } else {
        let before = lemma_stuck_edges_wait_on(rest, edges, (n - 1) as nat);
        let last = before.last();
        assert(rest.contains(before[before.len() - 1]));
        let i = choose|i: int| 0 <= i < rest.len() && rest[i] == last;
        lemma_resolvable_means_nothing_waited_for(rest, rest[i]);
        let k = choose|k: int| 0 <= k < rest.len() && waits_for(rest[i], #[trigger] rest[k]);
        assert(edges.contains(rest[i]) && edges.contains(rest[k]));
        lemma_walk_push(waiting_step(edges), before, rest[k]);
        let walk = before.push(rest[k]);
        assert forall|x: int| 0 <= x < walk.len() implies rest.contains(#[trigger] walk[x]) by {
            if x < before.len() {
                assert(rest.contains(before[x]));
            }
        }
        walk
    }
}

proof fn lemma_acyclic_resolves(
    rest: Seq<BorrowsEdgeView>,
    edges: Seq<BorrowsEdgeView>,
    actions: Seq<UnblockActionView>,
)
    requires
        waits_without_cycle(edges),
        forall|i: int| 0 <= i < rest.len() ==> edges.contains(#[trigger] rest[i]),
        forall|i: int| 0 <= i < rest.len() ==> (#[trigger] rest[i]).kind.action() is Some,
    ensures
        resolve(rest, actions) is Ok,
    decreases rest.len(),
{
    if rest.len() > 0 {
        if forall|i: int| 0 <= i < rest.len() ==> !resolvable(rest, #[trigger] rest[i]) {
            let walk = lemma_stuck_edges_wait_on(rest, edges, rest.len());
            let x = choose|x: int| 0 <= x < edges.len() && edges[x] == rest[0];
            assert(acyclic_from(waiting_step(edges), edges[x]));
            assert(walk.no_duplicates());
            lemma_distinct_walk_is_short(walk, rest);
        }
        let free = choose|i: int| 0 <= i < rest.len() && resolvable(rest, #[trigger] rest[i]);
        lemma_filter_drops(rest, waiting(rest), free);
        let kept = rest.filter(waiting(rest));
        lemma_filter_members(rest, waiting(rest));
        assert forall|i: int| 0 <= i < kept.len() implies edges.contains(#[trigger] kept[i]) && (
        kept[i]).kind.action() is Some by {
            let k = choose|k: int| 0 <= k < rest.len() && rest[k] == kept[i];
            assert(edges.contains(rest[k]));
        }
        lemma_acyclic_resolves(kept, edges, emit(rest, rest, actions));
    }
}

proof fn lemma_releasable_iff_no_cycle(edges: Seq<BorrowsEdgeView>)
    ensures
        releasable(edges) <==> {
            &&& forall|i: int| 0 <= i < edges.len() ==> (#[trigger] edges[i]).kind.action() is Some
            &&& waits_without_cycle(edges)
        },
{
    if releasable(edges) {
        let rank = choose|rank: spec_fn(BorrowsEdgeView) -> nat| ranked(edges, rank);
        assert forall|i: int| 0 <= i < edges.len() implies acyclic_from(
            waiting_step(edges),
            #[trigger] edges[i],
        ) by {
            assert forall|walk: Seq<BorrowsEdgeView>| #[trigger]
                walk_from(waiting_step(edges), edges[i], walk) implies walk.no_duplicates() by {
                assert forall|x: int, y: int|
                    0 <= x < walk.len() && 0 <= y < walk.len() && x != y implies walk[x]
                    != walk[y] by {
                    if x < y {
                        lemma_ranks_fall(edges, rank, walk, x, y);
                    } else {
                        lemma_ranks_fall(edges, rank, walk, y, x);
                    }
                }
            }
        }
    }
    if (forall|i: int| 0 <= i < edges.len() ==> (#[trigger] edges[i]).kind.action() is Some)
        && waits_without_cycle(edges) {
        assert forall|i: int| 0 <= i < edges.len() implies edges.contains(#[trigger] edges[i]) by {}
        lemma_acyclic_resolves(edges, edges, Seq::empty());
        lemma_resolved_is_releasable(edges, Seq::empty());
    }
}

/// `earlier` stands before `later` in `order`.
pub open spec fn comes_before(
    order: Seq<UnblockActionView>,
    earlier: UnblockActionView,
    later: UnblockActionView,
) -> bool {
    exists|p: int, q: int|
        0 <= p < q < order.len() && #[trigger] order[p] == earlier && #[trigger] order[q] == later
}

/// Each of `edges` has a releasing action and none waits, directly or by
/// way of other edges, for itself.
pub open spec fn can_be_released(edges: Seq<BorrowsEdgeView>) -> bool {
    &&& forall|i: int| 0 <= i < edges.len() ==> (#[trigger] edges[i]).kind.action() is Some
    &&& waits_without_cycle(edges)
}

/// The edges can all be released exactly when each of them has a releasing
/// action and their waiting relation has no cycle.
pub proof fn lemma_release_succeeds_iff_no_cycle(edges: Seq<BorrowsEdgeView>)
    ensures
        release_order(edges) is Ok <==> can_be_released(edges),
{
    lemma_releasable_iff_no_cycle(edges);
    if releasable(edges) {
        lemma_releasable_resolves(edges, Seq::empty());
    }
    if release_order(edges) is Ok {
        lemma_resolved_is_releasable(edges, Seq::empty());
    }
}

/// Releasing edges whose waiting relation has no cycle drains them all: the
/// outcome holds each action that releases one of the edges exactly once, and
/// nothing else.
pub proof fn lemma_release_is_complete(edges: Seq<BorrowsEdgeView>)
    requires
        can_be_released(edges),
    ensures
        release_order(edges) matches Ok(order) && order.no_duplicates() && forall|
            a: UnblockActionView,
        | order.contains(a) <==> releases(edges, a),
{
    lemma_releasable_iff_no_cycle(edges);
    lemma_releasable_resolves(edges, Seq::empty());
    lemma_resolve(edges, Seq::empty());
}

/// An edge is released after every edge that it waits for: where `edges[i]`
/// waits for `edges[j]`, the action of `edges[j]` stands before the action
/// of `edges[i]`.
pub proof fn lemma_release_respects_waiting(edges: Seq<BorrowsEdgeView>, i: int, j: int)
    requires
        release_order(edges) is Ok,
        0 <= i < edges.len(),
        0 <= j < edges.len(),
        waits_for(edges[i], edges[j]),
    ensures
        edges[i].kind.action() is Some,
        edges[j].kind.action() is Some,
        comes_before(
            release_order(edges)->Ok_0,
            edges[j].kind.action().unwrap(),
            edges[i].kind.action().unwrap(),
        ),
{
    lemma_resolved_is_releasable(edges, Seq::empty());
    lemma_resolve(edges, Seq::empty());
}

/// What can be released can still be released after some of its edges were
/// taken out.
pub proof fn lemma_filtered_edges_can_be_released(
    edges: Seq<BorrowsEdgeView>,
    keep: spec_fn(BorrowsEdgeView) -> bool,
)
    requires
        can_be_released(edges),
    ensures
        can_be_released(edges.filter(keep)),
{
    let kept = edges.filter(keep);
    lemma_filter_members(edges, keep);
    assert forall|i: int| 0 <= i < kept.len() implies (#[trigger] kept[i]).kind.action() is Some
        && acyclic_from(waiting_step(kept), kept[i]) by {
        let x = choose|x: int| 0 <= x < edges.len() && edges[x] == kept[i];
        assert(edges[x].kind.action() is Some);
        assert(acyclic_from(waiting_step(edges), edges[x]));
        assert forall|walk: Seq<BorrowsEdgeView>| #[trigger]
            walk_from(waiting_step(kept), kept[i], walk) implies walk.no_duplicates() by {
            assert forall|k: int| 0 <= k < walk.len() - 1 implies #[trigger] steps_at(
                waiting_step(edges),
                walk,
                k,
            ) by {
                assert(steps_at(waiting_step(kept), walk, k));
                let a = choose|a: int| 0 <= a < kept.len() && kept[a] == walk[k];
                let b = choose|b: int| 0 <= b < kept.len() && kept[b] == walk[k + 1];
                assert(edges.contains(kept[a]) && edges.contains(kept[b]));
            }
            assert(walk_from(waiting_step(edges), edges[x], walk));
        }
    }
}

/// A reborrow is ended before the reborrow whose assigned place it blocks:
/// where `edges[j]` borrows from the place that `edges[i]` lends to, the
/// action of `edges[j]` stands before the action of `edges[i]`.
pub proof fn lemma_blocking_reborrow_is_ended_first(edges: Seq<BorrowsEdgeView>, i: int, j: int)
    requires
        release_order(edges) is Ok,
        0 <= i < edges.len(),
        0 <= j < edges.len(),
        edges[i].kind is Reborrow,
        edges[j].kind is Reborrow,
        edges[j].kind->Reborrow_0.blocked_place == MaybeRemotePlaceView::Local(
            edges[i].kind->Reborrow_0.assigned_place,
        ),
    ensures
        comes_before(
            release_order(edges)->Ok_0,
            edges[j].kind.action().unwrap(),
            edges[i].kind.action().unwrap(),
        ),
{
    let waited_for = edges[i].kind.blocked_by_places();
    let blocked = edges[j].kind.blocked_places();
    assert(blocked[0] == MaybeRemotePlaceView::Local(waited_for[0]));
    assert(edges[j].kind.blocks_place(MaybeRemotePlaceView::Local(waited_for[0])));
    assert(waits_for(edges[i], edges[j]));
    lemma_release_respects_waiting(edges, i, j);
}

} // verus!
