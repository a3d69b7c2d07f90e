use dagger::change::{Change, Edits};
use dagger::diagnostic::Diagnostic;
use dagger::model::{Identity, Part};
use dagger::propagate::affected;
use dagger::reference::{Reference, Target};
use dagger::testing::reference;
use std::collections::{BTreeMap, BTreeSet};

/// A contract break at `0`, and nothing else changed.
fn broken_at_zero() -> Vec<(Identity, Change)> {
    vec![(Identity(0), Change::Kept(Edits { contract_changed: true, ..Edits::default() }))]
}

/// Everything reached at unlimited depth.
fn reached(references: &[Reference]) -> BTreeSet<Identity> {
    affected(&broken_at_zero(), &references.to_vec(), u32::MAX).0.into_iter().map(|(identity, _)| identity).collect()
}

/// How far out each one sits.
fn away(references: &[Reference], depth: u32) -> BTreeMap<Identity, u32> {
    affected(&broken_at_zero(), &references.to_vec(), depth).0.into_iter().collect()
}

#[test]
fn a_type_reference_carries_the_break_along() {
    let references = [reference(1, 0, Part::Contract), reference(2, 1, Part::Contract), reference(3, 2, Part::Contract)];

    assert_eq!(reached(&references), BTreeSet::from([Identity(1), Identity(2), Identity(3)]));
}

#[test]
fn a_body_reference_stops_the_trail() {
    let references = [reference(1, 0, Part::Body), reference(2, 1, Part::Contract)];

    assert!(reached(&references).is_empty());
}

/// `1` still gets hit, but nothing rides along behind it.
#[test]
fn the_trail_stops_at_the_first_body() {
    let references = [reference(1, 0, Part::Contract), reference(2, 1, Part::Body)];

    assert_eq!(reached(&references), BTreeSet::from([Identity(1)]));
}

#[test]
fn a_mention_that_was_deleted_breaks_nobody() {
    let mut deleted = reference(1, 0, Part::Contract);
    deleted.after.clear();

    assert!(reached(&[deleted]).is_empty());
}

#[test]
fn nothing_is_affected_when_nothing_breaks() {
    let untouched = vec![(Identity(0), Change::Kept(Edits::default()))];
    let references = vec![reference(1, 0, Part::Contract)];

    assert!(affected(&untouched, &references, u32::MAX).0.is_empty());
}

#[test]
fn a_cycle_settles() {
    let references = [reference(1, 0, Part::Contract), reference(0, 1, Part::Contract)];

    assert_eq!(reached(&references), BTreeSet::from([Identity(0), Identity(1)]));
}

#[test]
fn each_one_says_how_far_out_it_sits() {
    let references = [reference(1, 0, Part::Contract), reference(2, 1, Part::Contract), reference(3, 2, Part::Contract)];

    assert_eq!(away(&references, u32::MAX), BTreeMap::from([(Identity(1), 1), (Identity(2), 2), (Identity(3), 3)]));
}

#[test]
fn following_no_distance_at_all_reaches_nobody() {
    let references = [reference(1, 0, Part::Contract)];

    assert!(away(&references, 0).is_empty());
}

#[test]
fn the_trail_stops_where_it_was_told_to() {
    let references = [reference(1, 0, Part::Contract), reference(2, 1, Part::Contract), reference(3, 2, Part::Contract)];

    assert_eq!(away(&references, 1), BTreeMap::from([(Identity(1), 1)]));
    assert_eq!(away(&references, 2), BTreeMap::from([(Identity(1), 1), (Identity(2), 2)]));
}

#[test]
fn the_shortest_way_is_the_one_that_counts() {
    let references = [reference(1, 0, Part::Contract), reference(2, 1, Part::Contract), reference(2, 0, Part::Contract)];

    assert_eq!(away(&references, u32::MAX)[&Identity(2)], 1);
}

#[test]
fn a_name_we_could_not_place_is_reported() {
    let mut unbound = reference(1, 0, Part::Contract);
    unbound.to = Target::Unknown { symbol: "Money".to_string() };

    let (_, diagnostics) = affected(&broken_at_zero(), &vec![unbound], u32::MAX);
    assert_eq!(diagnostics, vec![Diagnostic::UnboundInContract { definition: Identity(1), symbol: "Money".to_string() }]);
}

#[test]
fn what_is_reached_comes_in_order_of_identity() {
    let references = [reference(3, 0, Part::Contract), reference(1, 3, Part::Contract), reference(2, 0, Part::Contract)];
    let (found, _) = affected(&broken_at_zero(), &references.to_vec(), u32::MAX);
    assert_eq!(found, vec![(Identity(1), 2), (Identity(2), 1), (Identity(3), 1)]);
}
