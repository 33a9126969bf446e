//! The borrow relations that are active at one program point, and the
//! questions that the unblock graph asks about them.

use vstd::prelude::*;

use crate::borrows::borrows_edge::{
    BorrowsEdge, BorrowsEdgeKind, BorrowsEdgeKindView, BorrowsEdgeView, Conditioned,
};
use crate::borrows::domain::{
    MaybeOldPlace, MaybeOldPlaceView, MaybeRemotePlace, MaybeRemotePlaceView, Reborrow,
};
use crate::cfg::Location;
use crate::utils::items::{contains_item, lemma_view_each_push, view_each};
use crate::utils::place::{Place, PlaceView};

verus! {

/// The edges that keep `place` from being accessed.
pub open spec fn blocking(place: MaybeRemotePlaceView) -> spec_fn(BorrowsEdgeView) -> bool {
    |edge: BorrowsEdgeView| edge.kind.blocks_place(place)
}

/// `edge` is a reborrow of a current place that is a proper ancestor of `place`.
pub open spec fn blocks_strict_prefix(edge: BorrowsEdgeView, place: PlaceView) -> bool {
    match edge.kind {
        BorrowsEdgeKindView::Reborrow(reborrow) => match reborrow.blocked_place {
            MaybeRemotePlaceView::Local(MaybeOldPlaceView::Current { place: blocked }) => {
                blocked.is_strict_prefix_of(place)
            },
            _ => false,
        },
        _ => false,
    }
}

/// The reborrows that block a proper ancestor of `place`.
pub open spec fn blocking_prefix_of(place: PlaceView) -> spec_fn(BorrowsEdgeView) -> bool {
    |edge: BorrowsEdgeView| blocks_strict_prefix(edge, place)
}

/// The reborrows that were reserved at `location`.
pub open spec fn reserved_at(location: Location) -> spec_fn(BorrowsEdgeView) -> bool {
    |edge: BorrowsEdgeView|
        match edge.kind {
            BorrowsEdgeKindView::Reborrow(reborrow) => reborrow.reserve_location == location,
            _ => false,
        }
}

/// The reborrows that lend to `place`.
pub open spec fn assigned_to(place: MaybeOldPlaceView) -> spec_fn(BorrowsEdgeView) -> bool {
    |edge: BorrowsEdgeView|
        match edge.kind {
            BorrowsEdgeKindView::Reborrow(reborrow) => reborrow.assigned_place == place,
            _ => false,
        }
}

/// The active borrow relations, in the order in which they were recorded.
#[derive(Debug)]
pub struct BorrowsState {
    edges: Vec<BorrowsEdge>,
}

impl View for BorrowsState {
    type V = Seq<BorrowsEdgeView>;

    closed spec fn view(&self) -> Seq<BorrowsEdgeView> {
        view_each(self.edges@)
    }
}

impl Clone for BorrowsState {
    fn clone(&self) -> (copy: Self)
        ensures
            copy@ == self@,
    {
        BorrowsState { edges: crate::utils::items::clone_items(&self.edges) }
    }
}

impl BorrowsState {
    /// A state without any borrow.
    pub fn new() -> (state: Self)
        ensures
            state@ == Seq::<BorrowsEdgeView>::empty(),
    {
        let edges: Vec<BorrowsEdge> = Vec::new();
        assert(view_each(edges@) =~= Seq::empty());
        BorrowsState { edges }
    }

    /// Records `edge` unless an equal edge is already there; tells whether it
    /// was new.
    pub fn insert(&mut self, edge: BorrowsEdge) -> (inserted: bool)
        ensures
            inserted == !old(self)@.contains(edge@),
            final(self)@ == if inserted {
                old(self)@.push(edge@)
            } else {
                old(self)@
            },
    {
        if contains_item(&self.edges, &edge) {
            return false;
        }
        proof {
            lemma_view_each_push(self.edges@, edge);
        }
        self.edges.push(edge);
        true
    }

    pub fn len(&self) -> (n: usize)
        ensures
            n == self@.len(),
    {
        self.edges.len()
    }

    /// The edges of the state, in order.
    pub fn edges(&self) -> (edges: &Vec<BorrowsEdge>)
        ensures
            view_each(edges@) == self@,
    {
        &self.edges
    }

    /// The edges that keep `place` from being accessed.
    pub fn edges_blocking(&self, place: &MaybeRemotePlace) -> (found: Vec<BorrowsEdge>)
        ensures
            view_each(found@) == self@.filter(blocking(place@)),
    {
        let mut found: Vec<BorrowsEdge> = Vec::new();
        let mut i: usize = 0;
        assert(self@.take(0) =~= Seq::empty());
        assert(view_each(found@) =~= Seq::empty());
        proof {
            reveal(Seq::filter);
        }
        while i < self.edges.len()
            invariant
                i <= self.edges@.len(),
                view_each(found@) == self@.take(i as int).filter(blocking(place@)),
            decreases self.edges@.len() - i,
        {
            let edge = &self.edges[i];
            proof {
                assert(self@.take(i + 1) =~= self@.take(i as int).push(edge@));
                self@.take(i as int).lemma_filter_push(edge@, blocking(place@));
            }
            if edge.blocks_place(place) {
                let copy = edge.clone();
                proof {
                    lemma_view_each_push(found@, copy);
                }
                found.push(copy);
            }
            i = i + 1;
        }
        assert(self@.take(i as int) =~= self@);
        found
    }

    /// The reborrows that block a proper ancestor of the current place `place`.
    pub fn reborrows_blocking_prefix_of(&self, place: &Place) -> (found: Vec<Conditioned<Reborrow>>)
        ensures
            view_each(found@) == self@.filter(blocking_prefix_of(place@)),
    {
        let mut found: Vec<Conditioned<Reborrow>> = Vec::new();
        let mut i: usize = 0;
        assert(self@.take(0) =~= Seq::empty());
        assert(view_each(found@) =~= Seq::empty());
        proof {
            reveal(Seq::filter);
        }
        while i < self.edges.len()
            invariant
                i <= self.edges@.len(),
                view_each(found@) == self@.take(i as int).filter(blocking_prefix_of(place@)),
            decreases self.edges@.len() - i,
        {
            let edge = &self.edges[i];
            proof {
                assert(self@.take(i + 1) =~= self@.take(i as int).push(edge@));
                self@.take(i as int).lemma_filter_push(edge@, blocking_prefix_of(place@));
            }
            match edge.kind() {
                BorrowsEdgeKind::Reborrow(reborrow) => {
                    let keep = match &reborrow.blocked_place {
                        MaybeRemotePlace::Local(MaybeOldPlace::Current { place: blocked }) => {
                            blocked.is_strict_prefix_of(place)
                        },
                        _ => false,
                    };
                    if keep {
                        let copy = Conditioned::new(reborrow.clone(), edge.conditions().clone());
                        proof {
                            lemma_view_each_push(found@, copy);
                        }
                        found.push(copy);
                    }
                },
                _ => {},
            }
            i = i + 1;
        }
        assert(self@.take(i as int) =~= self@);
        found
    }

    /// The reborrows that were reserved at `location`.
    pub fn reborrow_edges_reserved_at(&self, location: Location) -> (found: Vec<
        Conditioned<Reborrow>,
    >)
        ensures
            view_each(found@) == self@.filter(reserved_at(location)),
    {
        let mut found: Vec<Conditioned<Reborrow>> = Vec::new();
        let mut i: usize = 0;
        assert(self@.take(0) =~= Seq::empty());
        assert(view_each(found@) =~= Seq::empty());
        proof {
            reveal(Seq::filter);
        }
        while i < self.edges.len()
            invariant
                i <= self.edges@.len(),
                view_each(found@) == self@.take(i as int).filter(reserved_at(location)),
            decreases self.edges@.len() - i,
        {
            let edge = &self.edges[i];
            proof {
                assert(self@.take(i + 1) =~= self@.take(i as int).push(edge@));
                self@.take(i as int).lemma_filter_push(edge@, reserved_at(location));
            }
            match edge.kind() {
                BorrowsEdgeKind::Reborrow(reborrow) => {
                    if reborrow.reserve_location() == location {
                        let copy = Conditioned::new(reborrow.clone(), edge.conditions().clone());
                        proof {
                            lemma_view_each_push(found@, copy);
                        }
                        found.push(copy);
                    }
                },
                _ => {},
            }
            i = i + 1;
        }
        assert(self@.take(i as int) =~= self@);
        found
    }

    /// The reborrows that lend to `place`.
    pub fn reborrows_blocked_by(&self, place: &MaybeOldPlace) -> (found: Vec<Conditioned<Reborrow>>)
        ensures
            view_each(found@) == self@.filter(assigned_to(place@)),
    {
        let mut found: Vec<Conditioned<Reborrow>> = Vec::new();
        let mut i: usize = 0;
        assert(self@.take(0) =~= Seq::empty());
        assert(view_each(found@) =~= Seq::empty());
        proof {
            reveal(Seq::filter);
        }
        while i < self.edges.len()
            invariant
                i <= self.edges@.len(),
                view_each(found@) == self@.take(i as int).filter(assigned_to(place@)),
            decreases self.edges@.len() - i,
        {
            let edge = &self.edges[i];
            proof {
                assert(self@.take(i + 1) =~= self@.take(i as int).push(edge@));
                self@.take(i as int).lemma_filter_push(edge@, assigned_to(place@));
            }
            match edge.kind() {
                BorrowsEdgeKind::Reborrow(reborrow) => {
                    if reborrow.assigned_place == *place {
                        let copy = Conditioned::new(reborrow.clone(), edge.conditions().clone());
                        proof {
                            lemma_view_each_push(found@, copy);
                        }
                        found.push(copy);
                    }
                },
                _ => {},
            }
            i = i + 1;
        }
        assert(self@.take(i as int) =~= self@);
        found
    }
}

} // verus!
