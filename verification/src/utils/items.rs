//! Lists of values that are compared, searched and copied by their views.

use vstd::prelude::*;
use vstd::std_specs::cmp::PartialEqSpec;

verus! {

/// The views of the items of a list, in order.
pub open spec fn view_each<T: View>(items: Seq<T>) -> Seq<T::V> {
    Seq::new(items.len(), |i: int| items[i]@)
}

/// `longer` begins with the items of `shorter`, in the same order.
pub open spec fn begins_with<A>(longer: Seq<A>, shorter: Seq<A>) -> bool {
    &&& shorter.len() <= longer.len()
    &&& forall|i: int| 0 <= i < shorter.len() ==> longer[i] == shorter[i]
}

/// `==` on `T` decides equality of views.
pub open spec fn eq_is_view_eq<T: PartialEq + View>() -> bool {
    &&& T::obeys_eq_spec()
    &&& forall|x: T, y: T| #[trigger] x.eq_spec(&y) == (x@ == y@)
}

/// A clone of a `T` has the view of the value that it was made from.
pub open spec fn clone_keeps_view<T: Clone + View>() -> bool {
    forall|x: T, y: T| #[trigger] cloned(x, y) ==> x@ == y@
}

pub proof fn lemma_view_each_push<T: View>(items: Seq<T>, item: T)
    ensures
        view_each(items.push(item)) == view_each(items).push(item@),
{
    assert(view_each(items.push(item)) =~= view_each(items).push(item@));
}

pub proof fn lemma_view_each_contains<T: View>(items: Seq<T>, i: int)
    requires
        0 <= i < items.len(),
    ensures
        view_each(items).contains(items[i]@),
{
    assert(view_each(items)[i] == items[i]@);
}

/// Whether some item of `items` has the view of `needle`.
pub fn contains_item<T: PartialEq + View>(items: &Vec<T>, needle: &T) -> (found: bool)
    requires
        eq_is_view_eq::<T>(),
    ensures
        found == view_each(items@).contains(needle@),
{
    let mut i: usize = 0;
    while i < items.len()
        invariant
            i <= items@.len(),
            eq_is_view_eq::<T>(),
            forall|k: int| 0 <= k < i ==> items@[k]@ != needle@,
        decreases items@.len() - i,
    {
        if items[i] == *needle {
            proof {
                lemma_view_each_contains(items@, i as int);
            }
            return true;
        }
        i = i + 1;
    }
    proof {
        if view_each(items@).contains(needle@) {
            let k = choose|k: int|
                0 <= k < view_each(items@).len() && view_each(items@)[k] == needle@;
            assert(items@[k]@ == needle@);
        }
    }
    false
}

/// Whether the two lists have the same views, item by item.
pub fn same_items<T: PartialEq + View>(a: &Vec<T>, b: &Vec<T>) -> (same: bool)
    requires
        eq_is_view_eq::<T>(),
    ensures
        same == (view_each(a@) == view_each(b@)),
{
    if a.len() != b.len() {
        assert(view_each(a@).len() != view_each(b@).len());
        return false;
    }
    let mut i: usize = 0;
    while i < a.len()
        invariant
            i <= a@.len(),
            a@.len() == b@.len(),
            eq_is_view_eq::<T>(),
            forall|k: int| 0 <= k < i ==> a@[k]@ == b@[k]@,
        decreases a@.len() - i,
    {
        if a[i] != b[i] {
            assert(view_each(a@)[i as int] != view_each(b@)[i as int]);
            return false;
        }
        i = i + 1;
    }
    assert(view_each(a@) =~= view_each(b@));
    true
}

/// A copy of the list, item by item.
pub fn clone_items<T: Clone + View>(items: &Vec<T>) -> (copy: Vec<T>)
    requires
        clone_keeps_view::<T>(),
    ensures
        view_each(copy@) == view_each(items@),
{
    let mut copy: Vec<T> = Vec::new();
    let mut i: usize = 0;
    while i < items.len()
        invariant
            i <= items@.len(),
            copy@.len() == i,
            clone_keeps_view::<T>(),
            forall|k: int| 0 <= k < i ==> copy@[k]@ == items@[k]@,
        decreases items@.len() - i,
    {
        let item = items[i].clone();
        assert(cloned(items@[i as int], item));
        copy.push(item);
        i = i + 1;
    }
    assert(view_each(copy@) =~= view_each(items@));
    copy
}

/// What filtering keeps: exactly the items that satisfy the filter.
pub proof fn lemma_filter_members<A>(items: Seq<A>, keep: spec_fn(A) -> bool)
    ensures
        forall|k: int| 0 <= k < items.filter(keep).len() ==> keep(#[trigger] items.filter(keep)[k]),
        forall|k: int|
            0 <= k < items.filter(keep).len() ==> items.contains(#[trigger] items.filter(keep)[k]),
        forall|i: int|
            0 <= i < items.len() && keep(items[i]) ==> items.filter(keep).contains(
                #[trigger] items[i],
            ),
{
    assert forall|k: int| 0 <= k < items.filter(keep).len() implies keep(
        #[trigger] items.filter(keep)[k],
    ) && items.contains(items.filter(keep)[k]) by {
        items.lemma_filter_pred(keep, k);
        assert(items.filter(keep).contains(items.filter(keep)[k]));
        items.lemma_filter_contains_rev(keep, items.filter(keep)[k]);
    }
    assert forall|i: int| 0 <= i < items.len() && keep(items[i]) implies items.filter(
        keep,
    ).contains(#[trigger] items[i]) by {
        items.lemma_filter_contains(keep, i);
    }
}

/// Filtering a list without repetition leaves a list without repetition.
pub proof fn lemma_filter_keeps_distinct<A>(items: Seq<A>, keep: spec_fn(A) -> bool)
    requires
        items.no_duplicates(),
    ensures
        items.filter(keep).no_duplicates(),
    decreases items.len(),
{
    reveal(Seq::filter);
    if items.len() > 0 {
        let front = items.drop_last();
        lemma_filter_keeps_distinct(front, keep);
        if keep(items.last()) {
            let kept = front.filter(keep);
            if kept.contains(items.last()) {
                front.lemma_filter_contains_rev(keep, items.last());
                let k = choose|k: int| 0 <= k < front.len() && front[k] == items.last();
                assert(items[k] == items[items.len() - 1]);
            }
            assert forall|i: int, j: int|
                0 <= i < kept.push(items.last()).len() && 0 <= j < kept.push(items.last()).len()
                    && i != j implies kept.push(items.last())[i] != kept.push(items.last())[j] by {
                if i < kept.len() {
                    assert(kept.contains(kept[i]));
                }
                if j < kept.len() {
                    assert(kept.contains(kept[j]));
                }
            }
        }
    }
}

/// Filtering a list that holds an item to drop leaves a shorter list.
pub proof fn lemma_filter_drops<A>(items: Seq<A>, keep: spec_fn(A) -> bool, dropped: int)
    requires
        0 <= dropped < items.len(),
        !keep(items[dropped]),
    ensures
        items.filter(keep).len() < items.len(),
    decreases items.len(),
{
    reveal(Seq::filter);
    let front = items.drop_last();
    front.lemma_filter_len(keep);
    if dropped < items.len() - 1 {
        assert(front[dropped] == items[dropped]);
        lemma_filter_drops(front, keep, dropped);
    }
}

} // verus!
