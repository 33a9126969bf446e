//! A place is a local variable followed by a path of projections into it.

use vstd::prelude::*;
use vstd::std_specs::cmp::PartialEqSpecImpl;

use crate::cfg::Location;

verus! {

/// A local variable of the analysed procedure.
#[derive(Copy, Clone, PartialEq, Eq, Structural, Debug, Hash)]
pub struct Local(pub u32);

/// One step from a place into a part of it.
#[derive(Copy, Clone, PartialEq, Eq, Structural, Debug, Hash)]
pub enum PlaceElem {
    /// The target of a reference or box.
    Deref,
    /// A field of an aggregate, by its index.
    Field(u32),
}

/// What a [`Place`] stands for.
pub struct PlaceView {
    pub local: Local,
    pub projection: Seq<PlaceElem>,
}

impl PlaceView {
    /// `self` is a proper ancestor of `other`: the same local, and a
    /// projection path that `other`'s path extends by at least one step.
    pub open spec fn is_strict_prefix_of(self, other: PlaceView) -> bool {
        &&& self.local == other.local
        &&& self.projection.len() < other.projection.len()
        &&& forall|i: int|
            0 <= i < self.projection.len() ==> self.projection[i] == other.projection[i]
    }
}

/// No place is a strict prefix of itself, and strict prefixes chain.
pub proof fn lemma_strict_prefix_is_strict_order(a: PlaceView, b: PlaceView, c: PlaceView)
    ensures
        !a.is_strict_prefix_of(a),
        a.is_strict_prefix_of(b) && b.is_strict_prefix_of(c) ==> a.is_strict_prefix_of(c),
        a.is_strict_prefix_of(b) ==> !b.is_strict_prefix_of(a),
{
}

/// A memory location: a local and the projections that lead to a part of it.
#[derive(Debug, Hash)]
pub struct Place {
    pub local: Local,
    pub projection: Vec<PlaceElem>,
}

impl View for Place {
    type V = PlaceView;

    open spec fn view(&self) -> PlaceView {
        PlaceView { local: self.local, projection: self.projection@ }
    }
}

impl Clone for Place {
    fn clone(&self) -> (copy: Self)
        ensures
            copy@ == self@,
    {
        let projection = self.projection.clone();
        assert(projection@ =~= self.projection@);
        Place { local: self.local, projection }
    }
}

impl PartialEq for Place {
    fn eq(&self, other: &Self) -> (same: bool) {
        if self.local != other.local || self.projection.len() != other.projection.len() {
            return false;
        }
        let mut i: usize = 0;
        while i < self.projection.len()
            invariant
                i <= self.projection@.len(),
                self.projection@.len() == other.projection@.len(),
                forall|k: int| 0 <= k < i ==> self.projection@[k] == other.projection@[k],
            decreases self.projection@.len() - i,
        {
            if self.projection[i] != other.projection[i] {
                return false;
            }
            i = i + 1;
        }
        assert(self.projection@ =~= other.projection@);
        true
    }
}

impl Eq for Place {

}

impl PartialEqSpecImpl for Place {
    open spec fn obeys_eq_spec() -> bool {
        true
    }

    open spec fn eq_spec(&self, other: &Self) -> bool {
        self@ == other@
    }
}

impl Place {
    pub fn new(local: Local, projection: Vec<PlaceElem>) -> (place: Self)
        ensures
            place@ == (PlaceView { local, projection: projection@ }),
    {
        Place { local, projection }
    }

    /// Whether `self` is a proper ancestor of `other`.
    pub fn is_strict_prefix_of(&self, other: &Place) -> (prefix: bool)
        ensures
            prefix == self@.is_strict_prefix_of(other@),
    {
        if self.local != other.local || self.projection.len() >= other.projection.len() {
            return false;
        }
        let mut i: usize = 0;
        while i < self.projection.len()
            invariant
                i <= self.projection@.len(),
                self.projection@.len() < other.projection@.len(),
                forall|k: int| 0 <= k < i ==> self.projection@[k] == other.projection@[k],
            decreases self.projection@.len() - i,
        {
            if self.projection[i] != other.projection[i] {
                return false;
            }
            i = i + 1;
        }
        true
    }
}

/// What a [`PlaceSnapshot`] stands for.
pub struct PlaceSnapshotView {
    pub place: PlaceView,
    pub at: Location,
}

/// The value that a place held at an earlier program point.
#[derive(Debug, Hash)]
pub struct PlaceSnapshot {
    pub place: Place,
    pub at: Location,
}

impl View for PlaceSnapshot {
    type V = PlaceSnapshotView;

    open spec fn view(&self) -> PlaceSnapshotView {
        PlaceSnapshotView { place: self.place@, at: self.at }
    }
}

impl Clone for PlaceSnapshot {
    fn clone(&self) -> (copy: Self)
        ensures
            copy@ == self@,
    {
        PlaceSnapshot { place: self.place.clone(), at: self.at }
    }
}

impl PartialEq for PlaceSnapshot {
    fn eq(&self, other: &Self) -> (same: bool) {
        self.place == other.place && self.at == other.at
    }
}

impl Eq for PlaceSnapshot {

}

impl PartialEqSpecImpl for PlaceSnapshot {
    open spec fn obeys_eq_spec() -> bool {
        true
    }

    open spec fn eq_spec(&self, other: &Self) -> bool {
        self@ == other@
    }
}

impl PlaceSnapshot {
    pub fn new(place: Place, at: Location) -> (snapshot: Self)
        ensures
            snapshot@ == (PlaceSnapshotView { place: place@, at }),
    {
        PlaceSnapshot { place, at }
    }
}

} // verus!
