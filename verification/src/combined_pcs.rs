//! The actions that release blocking relations.

use vstd::prelude::*;
use vstd::std_specs::cmp::PartialEqSpecImpl;

use crate::borrows::domain::{
    AbstractionType, AbstractionTypeView, MaybeOldPlace, MaybeOldPlaceView, MaybeRemotePlace,
    MaybeRemotePlaceView,
};
use crate::cfg::Location;
use crate::utils::items::{clone_items, same_items, view_each};

verus! {

/// What an [`UnblockAction`] stands for.
pub enum UnblockActionView {
    TerminateAbstraction(Location, AbstractionTypeView),
    TerminateReborrow {
        blocked_place: MaybeRemotePlaceView,
        assigned_place: MaybeOldPlaceView,
        reserve_location: Location,
        is_mut: bool,
    },
    Collapse(MaybeOldPlaceView, Seq<MaybeOldPlaceView>),
}

/// One step of giving access back: end an abstract region, end a reborrow,
/// or put the parts of a place together again.
#[derive(Debug, Hash)]
pub enum UnblockAction {
    TerminateAbstraction(Location, AbstractionType),
    TerminateReborrow {
        blocked_place: MaybeRemotePlace,
        assigned_place: MaybeOldPlace,
        reserve_location: Location,
        is_mut: bool,
    },
    Collapse(MaybeOldPlace, Vec<MaybeOldPlace>),
}

impl View for UnblockAction {
    type V = UnblockActionView;

    open spec fn view(&self) -> UnblockActionView {
        match self {
            UnblockAction::TerminateAbstraction(location, abstraction) => {
                UnblockActionView::TerminateAbstraction(*location, abstraction@)
            },
            UnblockAction::TerminateReborrow {
                blocked_place,
                assigned_place,
                reserve_location,
                is_mut,
            } => UnblockActionView::TerminateReborrow {
                blocked_place: blocked_place@,
                assigned_place: assigned_place@,
                reserve_location: *reserve_location,
                is_mut: *is_mut,
            },
            UnblockAction::Collapse(base, parts) => UnblockActionView::Collapse(
                base@,
                view_each(parts@),
            ),
        }
    }
}

impl Clone for UnblockAction {
    fn clone(&self) -> (copy: Self)
        ensures
            copy@ == self@,
    {
        match self {
            UnblockAction::TerminateAbstraction(location, abstraction) => {
                UnblockAction::TerminateAbstraction(*location, abstraction.clone())
            },
            UnblockAction::TerminateReborrow {
                blocked_place,
                assigned_place,
                reserve_location,
                is_mut,
            } => UnblockAction::TerminateReborrow {
                blocked_place: blocked_place.clone(),
                assigned_place: assigned_place.clone(),
                reserve_location: *reserve_location,
                is_mut: *is_mut,
            },
            UnblockAction::Collapse(base, parts) => UnblockAction::Collapse(
                base.clone(),
                clone_items(parts),
            ),
        }
    }
}

impl PartialEq for UnblockAction {
    fn eq(&self, other: &Self) -> (same: bool) {
        match (self, other) {
            (
                UnblockAction::TerminateAbstraction(l1, a1),
                UnblockAction::TerminateAbstraction(l2, a2),
            ) => *l1 == *l2 && a1 == a2,
            (
                UnblockAction::TerminateReborrow {
                    blocked_place: b1,
                    assigned_place: a1,
                    reserve_location: l1,
                    is_mut: m1,
                },
                UnblockAction::TerminateReborrow {
                    blocked_place: b2,
                    assigned_place: a2,
                    reserve_location: l2,
                    is_mut: m2,
                },
            ) => b1 == b2 && a1 == a2 && *l1 == *l2 && *m1 == *m2,
            (UnblockAction::Collapse(base, parts), UnblockAction::Collapse(other_base, other_parts)) => {
                base == other_base && same_items(parts, other_parts)
            },
            _ => false,
        }
    }
}

impl Eq for UnblockAction {

}

impl PartialEqSpecImpl for UnblockAction {
    open spec fn obeys_eq_spec() -> bool {
        true
    }

    open spec fn eq_spec(&self, other: &Self) -> bool {
        self@ == other@
    }
}

} // verus!
