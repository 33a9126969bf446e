//! The edge that an abstract region contributes to the borrow graph.

use vstd::prelude::*;
use vstd::std_specs::cmp::PartialEqSpecImpl;

use crate::borrows::domain::{AbstractionType, AbstractionTypeView, MaybeRemotePlace};
use crate::cfg::Location;
use crate::utils::items::view_each;

verus! {

/// An abstract region as an edge of the borrow graph.
#[derive(Debug, Hash)]
pub struct AbstractionEdge {
    pub abstraction_type: AbstractionType,
}

impl View for AbstractionEdge {
    type V = AbstractionTypeView;

    open spec fn view(&self) -> AbstractionTypeView {
        self.abstraction_type@
    }
}

impl Clone for AbstractionEdge {
    fn clone(&self) -> (copy: Self)
        ensures
            copy@ == self@,
    {
        AbstractionEdge { abstraction_type: self.abstraction_type.clone() }
    }
}

impl PartialEq for AbstractionEdge {
    fn eq(&self, other: &Self) -> (same: bool) {
        self.abstraction_type == other.abstraction_type
    }
}

impl Eq for AbstractionEdge {

}

impl PartialEqSpecImpl for AbstractionEdge {
    open spec fn obeys_eq_spec() -> bool {
        true
    }

    open spec fn eq_spec(&self, other: &Self) -> bool {
        self@ == other@
    }
}

impl AbstractionEdge {
    pub fn new(abstraction_type: AbstractionType) -> (edge: Self)
        ensures
            edge@ == abstraction_type@,
    {
        AbstractionEdge { abstraction_type }
    }

    pub fn location(&self) -> (location: Location)
        ensures
            location == self@.location,
    {
        self.abstraction_type.location()
    }

    /// The places that the region blocks.
    pub fn blocks_places(&self) -> (places: Vec<MaybeRemotePlace>)
        ensures
            view_each(places@) == self@.blocks_places,
    {
        self.abstraction_type.blocks_places()
    }
}

} // verus!
