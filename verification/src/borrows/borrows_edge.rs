//! Edges of the borrow graph: a blocking relation together with the paths on
//! which it holds.

use vstd::prelude::*;
use vstd::std_specs::cmp::PartialEqSpecImpl;

use crate::borrows::domain::{
    AbstractionTypeView, DerefExpansion, DerefExpansionView, MaybeOldPlace, MaybeOldPlaceView,
    MaybeRemotePlace, MaybeRemotePlaceView, Mutability, Reborrow, ReborrowView,
    RegionProjectionMember, RegionProjectionMemberDirection, RegionProjectionMemberView,
};
use crate::borrows::path_condition::{PathConditions, PathConditionsView};
use crate::borrows::region_abstraction::AbstractionEdge;
use crate::cfg::BasicBlock;
use crate::combined_pcs::{UnblockAction, UnblockActionView};
use crate::utils::items::view_each;

verus! {

/// What a [`BorrowsEdgeKind`] stands for.
pub enum BorrowsEdgeKindView {
    Reborrow(ReborrowView),
    DerefExpansion(DerefExpansionView),
    Abstraction(AbstractionTypeView),
    RegionProjectionMember(RegionProjectionMemberView),
}

impl BorrowsEdgeKindView {
    /// The places that cannot be accessed while the relation lasts.
    pub open spec fn blocked_places(self) -> Seq<MaybeRemotePlaceView> {
        match self {
            BorrowsEdgeKindView::Reborrow(reborrow) => seq![reborrow.blocked_place],
            BorrowsEdgeKindView::DerefExpansion(expansion) => seq![
                MaybeRemotePlaceView::Local(expansion.base),
            ],
            BorrowsEdgeKindView::Abstraction(abstraction) => abstraction.blocks_places,
            BorrowsEdgeKindView::RegionProjectionMember(member) => match member.direction {
                RegionProjectionMemberDirection::PlaceIsRegionInput => seq![member.place],
                RegionProjectionMemberDirection::PlaceIsRegionOutput => Seq::empty(),
            },
        }
    }

    /// The places that have to be free before the relation can be released.
    pub open spec fn blocked_by_places(self) -> Seq<MaybeOldPlaceView> {
        match self {
            BorrowsEdgeKindView::Reborrow(reborrow) => seq![reborrow.assigned_place],
            BorrowsEdgeKindView::DerefExpansion(expansion) => expansion.expansion,
            BorrowsEdgeKindView::Abstraction(abstraction) => abstraction.blocker_places,
            BorrowsEdgeKindView::RegionProjectionMember(_) => Seq::empty(),
        }
    }

    pub open spec fn blocks_place(self, place: MaybeRemotePlaceView) -> bool {
        self.blocked_places().contains(place)
    }

    /// The action that releases the relation. Membership of a place in a
    /// region has none.
    pub open spec fn action(self) -> Option<UnblockActionView> {
        match self {
            BorrowsEdgeKindView::Reborrow(reborrow) => Some(
                UnblockActionView::TerminateReborrow {
                    blocked_place: reborrow.blocked_place,
                    assigned_place: reborrow.assigned_place,
                    reserve_location: reborrow.reserve_location,
                    is_mut: reborrow.mutability == Mutability::Mut,
                },
            ),
            BorrowsEdgeKindView::DerefExpansion(expansion) => Some(
                UnblockActionView::Collapse(expansion.base, expansion.expansion),
            ),
            BorrowsEdgeKindView::Abstraction(abstraction) => Some(
                UnblockActionView::TerminateAbstraction(abstraction.location, abstraction),
            ),
            BorrowsEdgeKindView::RegionProjectionMember(_) => None,
        }
    }
}

/// Two relations with the same releasing action wait for the same places.
pub proof fn lemma_action_fixes_blockers(a: BorrowsEdgeKindView, b: BorrowsEdgeKindView)
    requires
        a.action() is Some,
        a.action() == b.action(),
    ensures
        a.blocked_by_places() == b.blocked_by_places(),
{
}

/// The blocking relation of an edge.
#[derive(Debug, Hash)]
pub enum BorrowsEdgeKind {
    Reborrow(Reborrow),
    DerefExpansion(DerefExpansion),
    Abstraction(AbstractionEdge),
    RegionProjectionMember(RegionProjectionMember),
}

impl View for BorrowsEdgeKind {
    type V = BorrowsEdgeKindView;

    open spec fn view(&self) -> BorrowsEdgeKindView {
        match self {
            BorrowsEdgeKind::Reborrow(reborrow) => BorrowsEdgeKindView::Reborrow(reborrow@),
            BorrowsEdgeKind::DerefExpansion(expansion) => BorrowsEdgeKindView::DerefExpansion(
                expansion@,
            ),
            BorrowsEdgeKind::Abstraction(abstraction) => BorrowsEdgeKindView::Abstraction(
                abstraction@,
            ),
            BorrowsEdgeKind::RegionProjectionMember(member) => {
                BorrowsEdgeKindView::RegionProjectionMember(member@)
            },
        }
    }
}

impl Clone for BorrowsEdgeKind {
    fn clone(&self) -> (copy: Self)
        ensures
            copy@ == self@,
    {
        match self {
            BorrowsEdgeKind::Reborrow(reborrow) => BorrowsEdgeKind::Reborrow(reborrow.clone()),
            BorrowsEdgeKind::DerefExpansion(expansion) => BorrowsEdgeKind::DerefExpansion(
                expansion.clone(),
            ),
            BorrowsEdgeKind::Abstraction(abstraction) => BorrowsEdgeKind::Abstraction(
                abstraction.clone(),
            ),
            BorrowsEdgeKind::RegionProjectionMember(member) => {
                BorrowsEdgeKind::RegionProjectionMember(member.clone())
            },
        }
    }
}

impl PartialEq for BorrowsEdgeKind {
    fn eq(&self, other: &Self) -> (same: bool) {
        match (self, other) {
            (BorrowsEdgeKind::Reborrow(a), BorrowsEdgeKind::Reborrow(b)) => a == b,
            (BorrowsEdgeKind::DerefExpansion(a), BorrowsEdgeKind::DerefExpansion(b)) => a == b,
            (BorrowsEdgeKind::Abstraction(a), BorrowsEdgeKind::Abstraction(b)) => a == b,
            (
                BorrowsEdgeKind::RegionProjectionMember(a),
                BorrowsEdgeKind::RegionProjectionMember(b),
            ) => a == b,
            _ => false,
        }
    }
}

impl Eq for BorrowsEdgeKind {

}

impl PartialEqSpecImpl for BorrowsEdgeKind {
    open spec fn obeys_eq_spec() -> bool {
        true
    }

    open spec fn eq_spec(&self, other: &Self) -> bool {
        self@ == other@
    }
}

impl BorrowsEdgeKind {
    /// Whether the relation keeps `place` from being accessed.
    pub fn blocks_place(&self, place: &MaybeRemotePlace) -> (blocks: bool)
        ensures
            blocks == self@.blocks_place(place@),
    {
        match self {
            BorrowsEdgeKind::Reborrow(reborrow) => {
                assert(seq![reborrow@.blocked_place].contains(place@) == (reborrow@.blocked_place
                    == place@)) by {
                    assert(seq![reborrow@.blocked_place][0] == reborrow@.blocked_place);
                }
                reborrow.blocked_place == *place
            },
            BorrowsEdgeKind::DerefExpansion(expansion) => {
                let ghost base = MaybeRemotePlaceView::Local(expansion@.base);
                assert(seq![base].contains(place@) == (base == place@)) by {
                    assert(seq![base][0] == base);
                }
                expansion.is_base(place)
            },
            BorrowsEdgeKind::Abstraction(abstraction) => abstraction.abstraction_type.blocks(place),
            BorrowsEdgeKind::RegionProjectionMember(member) => match member.direction {
                RegionProjectionMemberDirection::PlaceIsRegionInput => {
                    assert(seq![member@.place].contains(place@) == (member@.place == place@)) by {
                        assert(seq![member@.place][0] == member@.place);
                    }
                    member.place == *place
                },
                RegionProjectionMemberDirection::PlaceIsRegionOutput => false,
            },
        }
    }

    /// The places that have to be free before the relation can be released.
    pub fn blocked_by_places(&self) -> (places: Vec<MaybeOldPlace>)
        ensures
            view_each(places@) == self@.blocked_by_places(),
    {
        match self {
            BorrowsEdgeKind::Reborrow(reborrow) => {
                let mut places: Vec<MaybeOldPlace> = Vec::new();
                places.push(reborrow.assigned_place.clone());
                assert(view_each(places@) =~= seq![reborrow@.assigned_place]);
                places
            },
            BorrowsEdgeKind::DerefExpansion(expansion) => expansion.expansion(),
            BorrowsEdgeKind::Abstraction(abstraction) => {
                abstraction.abstraction_type.blocker_places()
            },
            BorrowsEdgeKind::RegionProjectionMember(_) => {
                let places: Vec<MaybeOldPlace> = Vec::new();
                assert(view_each(places@) =~= Seq::empty());
                places
            },
        }
    }

    /// The action that releases the relation, if the relation has one.
    pub fn action(&self) -> (action: Option<UnblockAction>)
        ensures
            match action {
                Some(action) => self@.action() == Some(action@),
                None => self@.action() is None,
            },
    {
        match self {
            BorrowsEdgeKind::Reborrow(reborrow) => Some(
                UnblockAction::TerminateReborrow {
                    blocked_place: reborrow.blocked_place.clone(),
                    assigned_place: reborrow.assigned_place.clone(),
                    reserve_location: reborrow.reserve_location(),
                    is_mut: reborrow.is_mut(),
                },
            ),
            BorrowsEdgeKind::DerefExpansion(expansion) => Some(
                UnblockAction::Collapse(expansion.base(), expansion.expansion()),
            ),
            BorrowsEdgeKind::Abstraction(abstraction) => Some(
                UnblockAction::TerminateAbstraction(
                    abstraction.location(),
                    abstraction.abstraction_type.clone(),
                ),
            ),
            BorrowsEdgeKind::RegionProjectionMember(_) => None,
        }
    }
}

/// What a [`BorrowsEdge`] stands for.
pub struct BorrowsEdgeView {
    pub conditions: PathConditionsView,
    pub kind: BorrowsEdgeKindView,
}

/// A blocking relation and the paths on which it holds.
#[derive(Debug, Hash)]
pub struct BorrowsEdge {
    conditions: PathConditions,
    kind: BorrowsEdgeKind,
}

impl View for BorrowsEdge {
    type V = BorrowsEdgeView;

    closed spec fn view(&self) -> BorrowsEdgeView {
        BorrowsEdgeView { conditions: self.conditions@, kind: self.kind@ }
    }
}

impl Clone for BorrowsEdge {
    fn clone(&self) -> (copy: Self)
        ensures
            copy@ == self@,
    {
        BorrowsEdge { conditions: self.conditions.clone(), kind: self.kind.clone() }
    }
}

impl PartialEq for BorrowsEdge {
    fn eq(&self, other: &Self) -> (same: bool) {
        self.conditions == other.conditions && self.kind == other.kind
    }
}

impl Eq for BorrowsEdge {

}

impl PartialEqSpecImpl for BorrowsEdge {
    open spec fn obeys_eq_spec() -> bool {
        true
    }

    open spec fn eq_spec(&self, other: &Self) -> bool {
        self@ == other@
    }
}

impl BorrowsEdge {
    /// The relation `kind`, holding on the paths of `conditions`.
    pub fn new(kind: BorrowsEdgeKind, conditions: PathConditions) -> (edge: Self)
        ensures
            edge@ == (BorrowsEdgeView { conditions: conditions@, kind: kind@ }),
    {
        BorrowsEdge { conditions, kind }
    }

    /// The blocking relation.
    pub fn kind(&self) -> (kind: &BorrowsEdgeKind)
        ensures
            kind@ == self@.kind,
    {
        &self.kind
    }

    /// The paths on which the relation holds.
    pub fn conditions(&self) -> (conditions: &PathConditions)
        ensures
            conditions@ == self@.conditions,
    {
        &self.conditions
    }

    /// Whether the relation holds on the concrete walk `path`.
    pub fn valid_for_path(&self, path: &[BasicBlock]) -> (valid: bool)
        ensures
            valid == self@.conditions.valid_for_path(path@),
    {
        self.conditions.valid_for_path(path)
    }

    /// Whether the relation keeps `place` from being accessed.
    pub fn blocks_place(&self, place: &MaybeRemotePlace) -> (blocks: bool)
        ensures
            blocks == self@.kind.blocks_place(place@),
    {
        self.kind.blocks_place(place)
    }
}

/// A value together with the paths on which it holds.
#[derive(Debug, Hash)]
pub struct Conditioned<T> {
    pub conditions: PathConditions,
    pub value: T,
}

impl<T> Conditioned<T> {
    pub fn new(value: T, conditions: PathConditions) -> (conditioned: Self)
        ensures
            conditioned.value == value,
            conditioned.conditions == conditions,
    {
        Conditioned { conditions, value }
    }
}

impl View for Conditioned<Reborrow> {
    type V = BorrowsEdgeView;

    open spec fn view(&self) -> BorrowsEdgeView {
        BorrowsEdgeView {
            conditions: self.conditions@,
            kind: BorrowsEdgeKindView::Reborrow(self.value@),
        }
    }
}

impl View for Conditioned<AbstractionEdge> {
    type V = BorrowsEdgeView;

    open spec fn view(&self) -> BorrowsEdgeView {
        BorrowsEdgeView {
            conditions: self.conditions@,
            kind: BorrowsEdgeKindView::Abstraction(self.value@),
        }
    }
}

impl Conditioned<Reborrow> {
    /// The reborrow as an edge of the borrow graph.
    pub fn to_borrows_edge(self) -> (edge: BorrowsEdge)
        ensures
            edge@ == self@,
    {
        BorrowsEdge::new(BorrowsEdgeKind::Reborrow(self.value), self.conditions)
    }
}

impl Conditioned<AbstractionEdge> {
    /// The region as an edge of the borrow graph.
    pub fn to_borrows_edge(self) -> (edge: BorrowsEdge)
        ensures
            edge@ == self@,
    {
        BorrowsEdge::new(BorrowsEdgeKind::Abstraction(self.value), self.conditions)
    }
}

} // verus!
