use dagger::group::Grouping;
use dagger::model::{Definition, Identity, Part, Role, Sides};
use dagger::reference::Reference;
use dagger::review::{review, Edge, Review};
use dagger::testing::{occurrence, reference};
use std::collections::BTreeSet;

fn edited(id: u32, name: &str) -> Definition {
    Definition {
        identity: Identity(id),
        sides: Sides::Kept {
            before: occurrence(name, &[(Part::Body, "old")]),
            after: occurrence(name, &[(Part::Body, "new")]),
        },
    }
}

fn untouched(id: u32, name: &str) -> Definition {
    Definition {
        identity: Identity(id),
        sides: Sides::Kept {
            before: occurrence(name, &[(Part::Body, "same")]),
            after: occurrence(name, &[(Part::Body, "same")]),
        },
    }
}

fn reviewed(definitions: Vec<Definition>, references: &[Reference], ripples: u32) -> Review {
    review(definitions, &references.to_vec(), ripples, &Grouping::default(), Vec::new(), Vec::new(), None)
}

fn entry(review: &Review, identity: Identity) -> Option<&dagger::review::Definition> {
    review.definitions.iter().find(|(id, _)| *id == identity).map(|(_, one)| one)
}

/// Everything handed over is either worth reading or holds something that is.
#[test]
fn only_definitions_worth_reading_get_in() {
    let review = reviewed(vec![edited(0, "lookupPrice"), untouched(1, "withRetry")], &[], 1);

    assert_eq!(review.definitions.iter().map(|(id, _)| *id).collect::<Vec<_>>(), vec![Identity(0)]);
    assert_eq!(review.reading.len(), 1);
}

/// buildLineItems calls withRetry calls lookupPrice. The helper is untouched and
/// generic, so the reader never sees it, but the two edits are still related.
#[test]
fn an_untouched_helper_is_stepped_over() {
    let review = reviewed(
        vec![edited(0, "buildLineItems"), untouched(1, "withRetry"), edited(2, "lookupPrice")],
        &[reference(0, 1, Part::Body), reference(1, 2, Part::Body)],
        u32::MAX,
    );

    assert_eq!(review.edges, vec![Edge { from: Identity(0), to: Identity(2) }]);
}

#[test]
fn a_direct_mention_is_an_edge() {
    let review = reviewed(vec![edited(0, "cartTotal"), edited(1, "lineTotal")], &[reference(0, 1, Part::Body)], u32::MAX);

    assert_eq!(review.edges, vec![Edge { from: Identity(0), to: Identity(1) }]);
}

#[test]
fn a_dead_end_helper_produces_no_edge() {
    let review = reviewed(vec![edited(0, "cartTotal"), untouched(1, "log")], &[reference(0, 1, Part::Body)], u32::MAX);

    assert!(review.edges.is_empty());
}

/// Every identity named anywhere is a definition that was handed over.
#[test]
fn nothing_names_a_definition_that_was_not_handed_over() {
    let review = reviewed(
        vec![edited(0, "buildLineItems"), untouched(1, "withRetry"), edited(2, "lookupPrice")],
        &[reference(0, 1, Part::Body), reference(1, 2, Part::Body)],
        u32::MAX,
    );

    let known = |identity: &Identity| entry(&review, *identity).is_some();
    for edge in &review.edges {
        assert!(known(&edge.from) && known(&edge.to), "edge {edge:?} dangles");
    }
    for step in &review.reading {
        assert!(known(&step.definition), "a step names nobody");
        assert!(step.on_faith.iter().all(known), "on_faith names nobody");
    }
    for (identity, one) in &review.definitions {
        if let Some(parent) = one.parent {
            assert!(known(&parent), "{identity:?} is inside nobody");
            assert_eq!(
                entry(&review, parent).unwrap().role,
                Role::Container,
                "{identity:?} is inside something that holds nothing"
            );
        }
    }
    for warning in &review.warnings {
        assert!(warning.about.is_none_or(|about| known(&about)));
        assert!(!warning.message.is_empty(), "a warning nobody can read");
    }
}

/// Nothing is written inside itself, however the extractors describe it.
#[test]
fn containment_does_not_go_in_circles() {
    let review = reviewed(vec![edited(0, "one"), edited(1, "two")], &[], 1);

    for (identity, one) in &review.definitions {
        let mut seen = BTreeSet::from([*identity]);
        let mut at = one.parent;
        while let Some(up) = at {
            assert!(seen.insert(up), "{identity:?} is inside itself");
            at = entry(&review, up).unwrap().parent;
        }
    }
}

#[test]
fn a_warning_about_a_definition_left_out_names_nobody() {
    let mut before = occurrence("steady", &[(Part::Body, "same")]);
    before.contract_from_compiler = Some("fn steady()".to_string());
    let after = occurrence("steady", &[(Part::Body, "same")]);
    let definitions = vec![Definition { identity: Identity(0), sides: Sides::Kept { before, after } }];
    let review = reviewed(definitions, &[], 1);
    assert!(!review.warnings.is_empty(), "the lopsided contract is still told");
    for warning in &review.warnings {
        assert!(warning.about.is_none_or(|about| entry(&review, about).is_some()));
        assert!(!warning.message.is_empty());
    }
}

/// From one definition, what is drawn nearest comes first: a direct mention before one
/// reached through a helper the reader won't see, whatever order they were mentioned in.
#[test]
fn edges_from_one_definition_come_nearest_first() {
    let review = reviewed(
        vec![edited(0, "checkout"), untouched(1, "withRetry"), edited(2, "applyCoupon"), edited(3, "lookupPrice")],
        &[reference(0, 1, Part::Body), reference(0, 2, Part::Body), reference(1, 3, Part::Body)],
        u32::MAX,
    );

    assert_eq!(
        review.edges,
        vec![Edge { from: Identity(0), to: Identity(2) }, Edge { from: Identity(0), to: Identity(3) }]
    );
}

/// The reading reads each definition worth reading once, and nothing else.
#[test]
fn every_definition_worth_reading_is_read_once() {
    let review = reviewed(
        vec![edited(0, "checkout"), untouched(1, "withRetry"), edited(2, "lookupPrice")],
        &[reference(0, 1, Part::Body), reference(1, 2, Part::Body)],
        1,
    );

    let mut read: Vec<Identity> = review.reading.iter().map(|step| step.definition).collect();
    read.sort();
    assert_eq!(read, vec![Identity(0), Identity(2)]);
}
