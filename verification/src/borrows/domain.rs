//! The locations that borrow relations connect and the relations themselves.

use vstd::prelude::*;
use vstd::std_specs::cmp::PartialEqSpecImpl;
use vstd::std_specs::convert::FromSpecImpl;

use crate::cfg::Location;
use crate::utils::items::{clone_items, contains_item, same_items, view_each};
use crate::utils::place::{Local, Place, PlaceSnapshot, PlaceSnapshotView, PlaceView};

verus! {

/// What a [`MaybeOldPlace`] stands for.
pub enum MaybeOldPlaceView {
    Current { place: PlaceView },
    OldPlace(PlaceSnapshotView),
}

/// A place as it is now, or as it was at an earlier program point.
#[derive(Debug, Hash)]
pub enum MaybeOldPlace {
    Current { place: Place },
    OldPlace(PlaceSnapshot),
}

impl View for MaybeOldPlace {
    type V = MaybeOldPlaceView;

    open spec fn view(&self) -> MaybeOldPlaceView {
        match self {
            MaybeOldPlace::Current { place } => MaybeOldPlaceView::Current { place: place@ },
            MaybeOldPlace::OldPlace(snapshot) => MaybeOldPlaceView::OldPlace(snapshot@),
        }
    }
}

impl Clone for MaybeOldPlace {
    fn clone(&self) -> (copy: Self)
        ensures
            copy@ == self@,
    {
        match self {
            MaybeOldPlace::Current { place } => MaybeOldPlace::Current { place: place.clone() },
            MaybeOldPlace::OldPlace(snapshot) => MaybeOldPlace::OldPlace(snapshot.clone()),
        }
    }
}

impl PartialEq for MaybeOldPlace {
    fn eq(&self, other: &Self) -> (same: bool) {
        match (self, other) {
            (MaybeOldPlace::Current { place: a }, MaybeOldPlace::Current { place: b }) => a == b,
            (MaybeOldPlace::OldPlace(a), MaybeOldPlace::OldPlace(b)) => a == b,
            _ => false,
        }
    }
}

impl Eq for MaybeOldPlace {

}

impl PartialEqSpecImpl for MaybeOldPlace {
    open spec fn obeys_eq_spec() -> bool {
        true
    }

    open spec fn eq_spec(&self, other: &Self) -> bool {
        self@ == other@
    }
}

impl MaybeOldPlace {
    pub fn new(place: Place, at: Option<Location>) -> (result: Self)
        ensures
            result@ == match at {
                Some(at) => MaybeOldPlaceView::OldPlace(PlaceSnapshotView { place: place@, at }),
                None => MaybeOldPlaceView::Current { place: place@ },
            },
    {
        match at {
            Some(at) => MaybeOldPlace::OldPlace(PlaceSnapshot::new(place, at)),
            None => MaybeOldPlace::Current { place },
        }
    }

    pub fn is_old(&self) -> (old: bool)
        ensures
            old == (self@ is OldPlace),
    {
        match self {
            MaybeOldPlace::OldPlace(_) => true,
            MaybeOldPlace::Current { .. } => false,
        }
    }

    pub fn is_current(&self) -> (current: bool)
        ensures
            current == (self@ is Current),
    {
        !self.is_old()
    }
}

/// What a [`MaybeRemotePlace`] stands for.
pub enum MaybeRemotePlaceView {
    Local(MaybeOldPlaceView),
    Remote(Local),
}

/// A place of the analysed procedure, or the caller's memory that an argument
/// points into.
#[derive(Debug, Hash)]
pub enum MaybeRemotePlace {
    Local(MaybeOldPlace),
    Remote(Local),
}

impl View for MaybeRemotePlace {
    type V = MaybeRemotePlaceView;

    open spec fn view(&self) -> MaybeRemotePlaceView {
        match self {
            MaybeRemotePlace::Local(place) => MaybeRemotePlaceView::Local(place@),
            MaybeRemotePlace::Remote(local) => MaybeRemotePlaceView::Remote(*local),
        }
    }
}

impl Clone for MaybeRemotePlace {
    fn clone(&self) -> (copy: Self)
        ensures
            copy@ == self@,
    {
        match self {
            MaybeRemotePlace::Local(place) => MaybeRemotePlace::Local(place.clone()),
            MaybeRemotePlace::Remote(local) => MaybeRemotePlace::Remote(*local),
        }
    }
}

impl PartialEq for MaybeRemotePlace {
    fn eq(&self, other: &Self) -> (same: bool) {
        match (self, other) {
            (MaybeRemotePlace::Local(a), MaybeRemotePlace::Local(b)) => a == b,
            (MaybeRemotePlace::Remote(a), MaybeRemotePlace::Remote(b)) => *a == *b,
            _ => false,
        }
    }
}

impl Eq for MaybeRemotePlace {

}

impl PartialEqSpecImpl for MaybeRemotePlace {
    open spec fn obeys_eq_spec() -> bool {
        true
    }

    open spec fn eq_spec(&self, other: &Self) -> bool {
        self@ == other@
    }
}

impl From<MaybeOldPlace> for MaybeRemotePlace {
    fn from(place: MaybeOldPlace) -> (result: Self) {
        MaybeRemotePlace::Local(place)
    }
}

impl FromSpecImpl<MaybeOldPlace> for MaybeRemotePlace {
    open spec fn obeys_from_spec() -> bool {
        true
    }

    open spec fn from_spec(place: MaybeOldPlace) -> Self {
        MaybeRemotePlace::Local(place)
    }
}

impl MaybeRemotePlace {
    pub fn is_old(&self) -> (old: bool)
        ensures
            old == (self@ matches MaybeRemotePlaceView::Local(MaybeOldPlaceView::OldPlace(_))),
    {
        match self {
            MaybeRemotePlace::Local(place) => place.is_old(),
            MaybeRemotePlace::Remote(_) => false,
        }
    }

    /// Whether this is the local place `place`.
    pub fn is_local(&self, place: &MaybeOldPlace) -> (same: bool)
        ensures
            same == (self@ == MaybeRemotePlaceView::Local(place@)),
    {
        match self {
            MaybeRemotePlace::Local(own) => own == place,
            MaybeRemotePlace::Remote(_) => false,
        }
    }
}

#[derive(Copy, Clone, PartialEq, Eq, Structural, Debug, Hash)]
pub enum Mutability {
    Not,
    Mut,
}

/// What a [`Reborrow`] stands for.
pub struct ReborrowView {
    pub blocked_place: MaybeRemotePlaceView,
    pub assigned_place: MaybeOldPlaceView,
    pub mutability: Mutability,
    pub reserve_location: Location,
}

/// The access right to `blocked_place` is lent to `assigned_place`: as long
/// as the reborrow lives, `assigned_place` blocks `blocked_place`.
#[derive(Debug, Hash)]
pub struct Reborrow {
    pub blocked_place: MaybeRemotePlace,
    pub assigned_place: MaybeOldPlace,
    pub mutability: Mutability,
    pub reserve_location: Location,
}

impl View for Reborrow {
    type V = ReborrowView;

    open spec fn view(&self) -> ReborrowView {
        ReborrowView {
            blocked_place: self.blocked_place@,
            assigned_place: self.assigned_place@,
            mutability: self.mutability,
            reserve_location: self.reserve_location,
        }
    }
}

impl Clone for Reborrow {
    fn clone(&self) -> (copy: Self)
        ensures
            copy@ == self@,
    {
        Reborrow {
            blocked_place: self.blocked_place.clone(),
            assigned_place: self.assigned_place.clone(),
            mutability: self.mutability,
            reserve_location: self.reserve_location,
        }
    }
}

impl PartialEq for Reborrow {
    fn eq(&self, other: &Self) -> (same: bool) {
        self.blocked_place == other.blocked_place && self.assigned_place == other.assigned_place
            && self.mutability == other.mutability && self.reserve_location
            == other.reserve_location
    }
}

impl Eq for Reborrow {

}

impl PartialEqSpecImpl for Reborrow {
    open spec fn obeys_eq_spec() -> bool {
        true
    }

    open spec fn eq_spec(&self, other: &Self) -> bool {
        self@ == other@
    }
}

impl Reborrow {
    pub fn new(
        blocked_place: MaybeRemotePlace,
        assigned_place: MaybeOldPlace,
        mutability: Mutability,
        reserve_location: Location,
    ) -> (reborrow: Self)
        ensures
            reborrow@ == (ReborrowView {
                blocked_place: blocked_place@,
                assigned_place: assigned_place@,
                mutability,
                reserve_location,
            }),
    {
        Reborrow { blocked_place, assigned_place, mutability, reserve_location }
    }

    /// The program point at which the borrow was reserved.
    pub fn reserve_location(&self) -> (location: Location)
        ensures
            location == self@.reserve_location,
    {
        self.reserve_location
    }

    pub fn is_mut(&self) -> (is_mut: bool)
        ensures
            is_mut == (self@.mutability == Mutability::Mut),
    {
        self.mutability == Mutability::Mut
    }
}

/// What a [`DerefExpansion`] stands for.
pub struct DerefExpansionView {
    pub base: MaybeOldPlaceView,
    pub expansion: Seq<MaybeOldPlaceView>,
}

/// The place `base` is split into the parts listed in `expansion`; the parts
/// block the base until they are collapsed into it again.
#[derive(Debug, Hash)]
pub struct DerefExpansion {
    base: MaybeOldPlace,
    expansion: Vec<MaybeOldPlace>,
}

impl View for DerefExpansion {
    type V = DerefExpansionView;

    closed spec fn view(&self) -> DerefExpansionView {
        DerefExpansionView { base: self.base@, expansion: view_each(self.expansion@) }
    }
}

impl Clone for DerefExpansion {
    fn clone(&self) -> (copy: Self)
        ensures
            copy@ == self@,
    {
        DerefExpansion { base: self.base.clone(), expansion: clone_items(&self.expansion) }
    }
}

impl PartialEq for DerefExpansion {
    fn eq(&self, other: &Self) -> (same: bool) {
        self.base == other.base && same_items(&self.expansion, &other.expansion)
    }
}

impl Eq for DerefExpansion {

}

impl PartialEqSpecImpl for DerefExpansion {
    open spec fn obeys_eq_spec() -> bool {
        true
    }

    open spec fn eq_spec(&self, other: &Self) -> bool {
        self@ == other@
    }
}

impl DerefExpansion {
    pub fn new(base: MaybeOldPlace, expansion: Vec<MaybeOldPlace>) -> (result: Self)
        ensures
            result@ == (DerefExpansionView { base: base@, expansion: view_each(expansion@) }),
    {
        DerefExpansion { base, expansion }
    }

    /// The place that was split.
    pub fn base(&self) -> (base: MaybeOldPlace)
        ensures
            base@ == self@.base,
    {
        self.base.clone()
    }

    /// The parts that the base was split into.
    pub fn expansion(&self) -> (parts: Vec<MaybeOldPlace>)
        ensures
            view_each(parts@) == self@.expansion,
    {
        clone_items(&self.expansion)
    }

    /// Whether `place` is the base of the expansion.
    pub fn is_base(&self, place: &MaybeRemotePlace) -> (same: bool)
        ensures
            same == (place@ == MaybeRemotePlaceView::Local(self@.base)),
    {
        place.is_local(&self.base)
    }
}

/// What an [`AbstractionType`] stands for.
pub struct AbstractionTypeView {
    pub location: Location,
    pub blocks_places: Seq<MaybeRemotePlaceView>,
    pub blocker_places: Seq<MaybeOldPlaceView>,
}

/// A region that stands, from the program point `location` on, for a group
/// of borrows: it blocks the places that went into it and is blocked by the
/// places that came out of it.
#[derive(Debug, Hash)]
pub struct AbstractionType {
    location: Location,
    blocks_places: Vec<MaybeRemotePlace>,
    blocker_places: Vec<MaybeOldPlace>,
}

impl View for AbstractionType {
    type V = AbstractionTypeView;

    closed spec fn view(&self) -> AbstractionTypeView {
        AbstractionTypeView {
            location: self.location,
            blocks_places: view_each(self.blocks_places@),
            blocker_places: view_each(self.blocker_places@),
        }
    }
}

impl Clone for AbstractionType {
    fn clone(&self) -> (copy: Self)
        ensures
            copy@ == self@,
    {
        AbstractionType {
            location: self.location,
            blocks_places: clone_items(&self.blocks_places),
            blocker_places: clone_items(&self.blocker_places),
        }
    }
}

impl PartialEq for AbstractionType {
    fn eq(&self, other: &Self) -> (same: bool) {
        self.location == other.location && same_items(&self.blocks_places, &other.blocks_places)
            && same_items(&self.blocker_places, &other.blocker_places)
    }
}

impl Eq for AbstractionType {

}

impl PartialEqSpecImpl for AbstractionType {
    open spec fn obeys_eq_spec() -> bool {
        true
    }

    open spec fn eq_spec(&self, other: &Self) -> bool {
        self@ == other@
    }
}

impl AbstractionType {
    pub fn new(
        location: Location,
        blocks_places: Vec<MaybeRemotePlace>,
        blocker_places: Vec<MaybeOldPlace>,
    ) -> (result: Self)
        ensures
            result@ == (AbstractionTypeView {
                location,
                blocks_places: view_each(blocks_places@),
                blocker_places: view_each(blocker_places@),
            }),
    {
        AbstractionType { location, blocks_places, blocker_places }
    }

    pub fn location(&self) -> (location: Location)
        ensures
            location == self@.location,
    {
        self.location
    }

    /// The places that the region blocks.
    pub fn blocks_places(&self) -> (places: Vec<MaybeRemotePlace>)
        ensures
            view_each(places@) == self@.blocks_places,
    {
        clone_items(&self.blocks_places)
    }

    /// The places that block the region.
    pub fn blocker_places(&self) -> (places: Vec<MaybeOldPlace>)
        ensures
            view_each(places@) == self@.blocker_places,
    {
        clone_items(&self.blocker_places)
    }

    /// Whether the region blocks `place`.
    pub fn blocks(&self, place: &MaybeRemotePlace) -> (found: bool)
        ensures
            found == self@.blocks_places.contains(place@),
    {
        contains_item(&self.blocks_places, place)
    }
}

#[derive(Copy, Clone, PartialEq, Eq, Structural, Debug, Hash)]
pub enum RegionProjectionMemberDirection {
    PlaceIsRegionInput,
    PlaceIsRegionOutput,
}

/// What a [`RegionProjectionMember`] stands for.
pub struct RegionProjectionMemberView {
    pub place: MaybeRemotePlaceView,
    pub region: u32,
    pub direction: RegionProjectionMemberDirection,
}

/// A place flows into, or out of, an abstract region.
#[derive(Debug, Hash)]
pub struct RegionProjectionMember {
    pub place: MaybeRemotePlace,
    pub region: u32,
    pub direction: RegionProjectionMemberDirection,
}

impl View for RegionProjectionMember {
    type V = RegionProjectionMemberView;

    open spec fn view(&self) -> RegionProjectionMemberView {
        RegionProjectionMemberView {
            place: self.place@,
            region: self.region,
            direction: self.direction,
        }
    }
}

impl Clone for RegionProjectionMember {
    fn clone(&self) -> (copy: Self)
        ensures
            copy@ == self@,
    {
        RegionProjectionMember {
            place: self.place.clone(),
            region: self.region,
            direction: self.direction,
        }
    }
}

impl PartialEq for RegionProjectionMember {
    fn eq(&self, other: &Self) -> (same: bool) {
        self.place == other.place && self.region == other.region && self.direction
            == other.direction
    }
}

impl Eq for RegionProjectionMember {

}

impl PartialEqSpecImpl for RegionProjectionMember {
    open spec fn obeys_eq_spec() -> bool {
        true
    }

    open spec fn eq_spec(&self, other: &Self) -> bool {
        self@ == other@
    }
}

} // verus!
