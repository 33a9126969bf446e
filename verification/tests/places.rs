use pcs::borrows::domain::{MaybeOldPlace, MaybeRemotePlace};
use pcs::cfg::{BasicBlock, Location};
use pcs::utils::place::{Local, Place, PlaceElem, PlaceSnapshot};

fn place(local: u32, fields: &[u32]) -> Place {
    Place::new(Local(local), fields.iter().map(|f| PlaceElem::Field(*f)).collect())
}

fn at(block: u32, statement: usize) -> Location {
    Location::new(BasicBlock::new(block), statement)
}

#[test]
fn places_are_equal_by_local_and_projection() {
    assert!(place(1, &[0, 2]) == place(1, &[0, 2]));
    assert!(place(1, &[0, 2]) != place(1, &[0]));
    assert!(place(1, &[0, 2]) != place(2, &[0, 2]));
    assert!(place(1, &[0, 2]) != place(1, &[0, 3]));
    assert!(place(1, &[0, 2]).clone() == place(1, &[0, 2]));
    let deref = Place::new(Local(1), vec![PlaceElem::Deref]);
    assert!(deref != place(1, &[0]));
}

#[test]
fn strict_prefixes() {
    assert!(place(1, &[]).is_strict_prefix_of(&place(1, &[0])));
    assert!(place(1, &[0]).is_strict_prefix_of(&place(1, &[0, 2])));
    assert!(place(1, &[]).is_strict_prefix_of(&place(1, &[0, 2])));
    assert!(!place(1, &[0]).is_strict_prefix_of(&place(1, &[0])));
    assert!(!place(1, &[0, 2]).is_strict_prefix_of(&place(1, &[0])));
    assert!(!place(1, &[1]).is_strict_prefix_of(&place(1, &[0, 2])));
    assert!(!place(2, &[]).is_strict_prefix_of(&place(1, &[0])));
}

#[test]
fn snapshots_differ_by_place_and_point() {
    let a = PlaceSnapshot::new(place(1, &[0]), at(2, 3));
    assert!(a == PlaceSnapshot::new(place(1, &[0]), at(2, 3)));
    assert!(a != PlaceSnapshot::new(place(1, &[0]), at(2, 4)));
    assert!(a != PlaceSnapshot::new(place(1, &[]), at(2, 3)));
}

#[test]
fn current_and_old_places() {
    let current = MaybeOldPlace::new(place(1, &[0]), None);
    let old = MaybeOldPlace::new(place(1, &[0]), Some(at(0, 1)));
    assert!(current.is_current() && !current.is_old());
    assert!(old.is_old() && !old.is_current());
    assert!(current != old);
    assert!(matches!(&current, MaybeOldPlace::Current { place: p } if *p == place(1, &[0])));
    assert!(old == MaybeOldPlace::OldPlace(PlaceSnapshot::new(place(1, &[0]), at(0, 1))));
}

#[test]
fn remote_and_local_places() {
    let current = MaybeOldPlace::new(place(1, &[]), None);
    let old = MaybeOldPlace::new(place(1, &[]), Some(at(0, 0)));
    let local = MaybeRemotePlace::from(current.clone());
    assert!(local == MaybeRemotePlace::Local(current.clone()));
    assert!(local.is_local(&current));
    assert!(!local.is_local(&old));
    assert!(!local.is_old());
    assert!(MaybeRemotePlace::from(old.clone()).is_old());
    let remote = MaybeRemotePlace::Remote(Local(1));
    assert!(!remote.is_old());
    assert!(!remote.is_local(&current));
    assert!(remote != local);
    assert!(remote == MaybeRemotePlace::Remote(Local(1)));
}
