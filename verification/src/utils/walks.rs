//! Walks along a relation: what can be reached from a node, and whether the
//! walks from a node ever come back to a node that was already seen.

use vstd::prelude::*;

verus! {

/// Position `i` of `walk` and the next one are related by `step`.
pub open spec fn steps_at<N>(step: spec_fn(N, N) -> bool, walk: Seq<N>, i: int) -> bool {
    step(walk[i], walk[i + 1])
}

/// `walk` is not empty and follows `step` from each node to the next.
pub open spec fn is_walk<N>(step: spec_fn(N, N) -> bool, walk: Seq<N>) -> bool {
    &&& walk.len() > 0
    &&& forall|i: int| 0 <= i < walk.len() - 1 ==> #[trigger] steps_at(step, walk, i)
}

/// `walk` is a walk that starts at `from`.
pub open spec fn walk_from<N>(step: spec_fn(N, N) -> bool, from: N, walk: Seq<N>) -> bool {
    is_walk(step, walk) && walk[0] == from
}

/// Some walk leads from `from` to `to`; the walk of one node counts.
pub open spec fn reaches<N>(step: spec_fn(N, N) -> bool, from: N, to: N) -> bool {
    exists|walk: Seq<N>| #[trigger] walk_from(step, from, walk) && walk.last() == to
}

/// No node of `walk` is in `seen`.
pub open spec fn avoids<N>(walk: Seq<N>, seen: Set<N>) -> bool {
    forall|i: int| 0 <= i < walk.len() ==> !seen.contains(#[trigger] walk[i])
}

/// No walk from `from` visits a node twice or visits a node of `seen`.
pub open spec fn guarded<N>(step: spec_fn(N, N) -> bool, from: N, seen: Set<N>) -> bool {
    forall|walk: Seq<N>| #[trigger]
        walk_from(step, from, walk) ==> walk.no_duplicates() && avoids(walk, seen)
}

/// No walk from `from` visits a node twice: no cycle can be reached from `from`.
pub open spec fn acyclic_from<N>(step: spec_fn(N, N) -> bool, from: N) -> bool {
    guarded(step, from, Set::empty())
}

proof fn lemma_walk_extends<N>(step: spec_fn(N, N) -> bool, from: N, walk: Seq<N>)
    requires
        is_walk(step, walk),
        step(from, walk[0]),
    ensures
        walk_from(step, from, seq![from] + walk),
        (seq![from] + walk).last() == walk.last(),
{
    let longer = seq![from] + walk;
    assert forall|i: int| 0 <= i < longer.len() - 1 implies #[trigger] steps_at(
        step,
        longer,
        i,
    ) by {
        if i > 0 {
            assert(steps_at(step, walk, i - 1));
            assert(longer[i] == walk[i - 1]);
            assert(longer[i + 1] == walk[i]);
        } else {
            assert(longer[1] == walk[0]);
        }
    }
}

proof fn lemma_walk_tail<N>(step: spec_fn(N, N) -> bool, walk: Seq<N>)
    requires
        is_walk(step, walk),
        walk.len() > 1,
    ensures
        step(walk[0], walk[1]),
        walk_from(step, walk[1], walk.skip(1)),
        walk.skip(1).last() == walk.last(),
{
    let tail = walk.skip(1);
    assert(steps_at(step, walk, 0));
    assert forall|i: int| 0 <= i < tail.len() - 1 implies #[trigger] steps_at(step, tail, i) by {
        assert(steps_at(step, walk, i + 1));
    }
}

/// A walk goes on by a step from its last node.
pub proof fn lemma_walk_push<N>(step: spec_fn(N, N) -> bool, walk: Seq<N>, next: N)
    requires
        is_walk(step, walk),
        step(walk.last(), next),
    ensures
        is_walk(step, walk.push(next)),
        walk.push(next)[0] == walk[0],
{
    let longer = walk.push(next);
    assert forall|i: int| 0 <= i < longer.len() - 1 implies #[trigger] steps_at(
        step,
        longer,
        i,
    ) by {
        if i < walk.len() - 1 {
            assert(steps_at(step, walk, i));
        }
    }
}

/// A walk without repetition through the items of a list is no longer than
/// the list.
pub proof fn lemma_distinct_walk_is_short<N>(walk: Seq<N>, items: Seq<N>)
    requires
        walk.no_duplicates(),
        forall|i: int| 0 <= i < walk.len() ==> items.contains(#[trigger] walk[i]),
    ensures
        walk.len() <= items.len(),
{
    walk.unique_seq_to_set();
    items.lemma_cardinality_of_set();
    vstd::seq_lib::seq_to_set_is_finite(items);
    assert(walk.to_set().subset_of(items.to_set())) by {
        assert forall|x: N| walk.to_set().contains(x) implies items.to_set().contains(x) by {
            let i = choose|i: int| 0 <= i < walk.len() && walk[i] == x;
            assert(items.contains(walk[i]));
        }
    }
    vstd::set_lib::lemma_len_subset(walk.to_set(), items.to_set());
}

/// A node is guarded exactly when it is not in `seen` and every node that it
/// leads to is guarded once the node itself counts as seen.
pub proof fn lemma_guarded_step<N>(step: spec_fn(N, N) -> bool, from: N, seen: Set<N>)
    ensures
        guarded(step, from, seen) <==> !seen.contains(from) && forall|next: N| #[trigger]
            step(from, next) ==> guarded(step, next, seen.insert(from)),
{
    if guarded(step, from, seen) {
        let single = seq![from];
        assert(walk_from(step, from, single));
        assert(!seen.contains(single[0]));
        assert forall|next: N| #[trigger] step(from, next) implies guarded(
            step,
            next,
            seen.insert(from),
        ) by {
            assert forall|walk: Seq<N>| #[trigger] walk_from(step, next, walk) implies (
            walk.no_duplicates() && avoids(walk, seen.insert(from))) by {
                lemma_walk_extends(step, from, walk);
                let longer = seq![from] + walk;
                assert(longer.no_duplicates() && avoids(longer, seen));
                assert forall|i: int, j: int|
                    0 <= i < walk.len() && 0 <= j < walk.len() && i != j implies walk[i]
                    != walk[j] by {
                    assert(longer[i + 1] == walk[i] && longer[j + 1] == walk[j]);
                }
                assert forall|i: int| 0 <= i < walk.len() implies !seen.insert(from).contains(
                    #[trigger] walk[i],
                ) by {
                    assert(longer[i + 1] == walk[i]);
                    assert(longer[0] == from);
                }
            }
        }
    }
    if !seen.contains(from) && forall|next: N| #[trigger]
        step(from, next) ==> guarded(step, next, seen.insert(from)) {
        assert forall|walk: Seq<N>| #[trigger] walk_from(step, from, walk) implies (
        walk.no_duplicates() && avoids(walk, seen)) by {
            if walk.len() > 1 {
                lemma_walk_tail(step, walk);
                let tail = walk.skip(1);
                assert(guarded(step, walk[1], seen.insert(from)));
                assert(walk_from(step, walk[1], tail));
                assert(tail.no_duplicates() && avoids(tail, seen.insert(from)));
                assert forall|i: int, j: int|
                    0 <= i < walk.len() && 0 <= j < walk.len() && i != j implies walk[i]
                    != walk[j] by {
                    if i > 0 {
                        assert(tail[i - 1] == walk[i]);
                    }
                    if j > 0 {
                        assert(tail[j - 1] == walk[j]);
                    }
                }
                assert forall|i: int| 0 <= i < walk.len() implies !seen.contains(
                    #[trigger] walk[i],
                ) by {
                    if i > 0 {
                        assert(tail[i - 1] == walk[i]);
                    }
                }
            }
        }
    }
}

/// A node reaches itself and whatever the nodes that it leads to reach.
pub proof fn lemma_reaches_step<N>(step: spec_fn(N, N) -> bool, from: N, to: N)
    ensures
        reaches(step, from, to) <==> from == to || exists|next: N| #[trigger]
            step(from, next) && reaches(step, next, to),
{
    if reaches(step, from, to) && from != to {
        let walk = choose|walk: Seq<N>| #[trigger] walk_from(step, from, walk) && walk.last() == to;
        lemma_walk_tail(step, walk);
        assert(walk_from(step, walk[1], walk.skip(1)));
        assert(step(from, walk[1]) && reaches(step, walk[1], to));
    }
    if from == to {
        assert(walk_from(step, from, seq![from]));
    }
    if exists|next: N| #[trigger] step(from, next) && reaches(step, next, to) {
        let next = choose|next: N| #[trigger] step(from, next) && reaches(step, next, to);
        let walk = choose|walk: Seq<N>| #[trigger] walk_from(step, next, walk) && walk.last() == to;
        lemma_walk_extends(step, from, walk);
    }
}

/// Where no cycle can be reached from `from`, no walk from `from` comes to a
/// node that leads back to `from`.
pub proof fn lemma_acyclic_avoids_predecessor<N>(step: spec_fn(N, N) -> bool, from: N, back: N)
    requires
        acyclic_from(step, from),
        step(back, from),
    ensures
        guarded(step, from, set![back]),
{
    assert forall|walk: Seq<N>| #[trigger] walk_from(step, from, walk) implies (
    walk.no_duplicates() && avoids(walk, set![back])) by {
        assert(walk.no_duplicates());
        assert forall|i: int| 0 <= i < walk.len() implies !set![back].contains(
            #[trigger] walk[i],
        ) by {
            if walk[i] == back {
                let round = walk.take(i + 1).push(from);
                assert forall|x: int| 0 <= x < round.len() - 1 implies #[trigger] steps_at(
                    step,
                    round,
                    x,
                ) by {
                    if x < i {
                        assert(steps_at(step, walk, x));
                    }
                }
                assert(walk_from(step, from, round));
                assert(round[0] == round[i + 1]);
            }
        }
    }
}

/// What is guarded with respect to a set is guarded with respect to less.
pub proof fn lemma_guarded_weakens<N>(
    step: spec_fn(N, N) -> bool,
    from: N,
    seen: Set<N>,
    fewer: Set<N>,
)
    requires
        guarded(step, from, seen),
        fewer.subset_of(seen),
    ensures
        guarded(step, from, fewer),
{
    assert forall|walk: Seq<N>| #[trigger] walk_from(step, from, walk) implies (
    walk.no_duplicates() && avoids(walk, fewer)) by {
        assert(avoids(walk, seen));
    }
}

} // verus!
