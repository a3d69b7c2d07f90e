use dagger::group::Grouping;
use dagger::model::{Definition, Identity, Locator, Part, Role, Sides};
use dagger::order::order;
use dagger::review::Edge;
use dagger::testing::occurrence;
use std::collections::BTreeSet;

/// `count` edited definitions, wired up by pairs of "the first depends on the second".
fn built(count: u32, leans: &[(u32, u32)], files: &[&str]) -> (Vec<Identity>, Vec<Edge>, Vec<Definition>) {
    let definitions: Vec<Definition> = (0..count)
        .map(|id| {
            let mut before = occurrence(&format!("d{id}"), &[(Part::Body, "old")]);
            let mut after = occurrence(&format!("d{id}"), &[(Part::Body, "new")]);
            let file = files.get(id as usize).copied().unwrap_or("one.rs");
            before.file = file.to_string();
            after.file = file.to_string();
            Definition { identity: Identity(id), sides: Sides::Kept { before, after } }
        })
        .collect();

    let edges = leans.iter().map(|(from, to)| Edge { from: Identity(*from), to: Identity(*to) }).collect();

    ((0..count).map(Identity).collect(), edges, definitions)
}

fn reading(count: u32, leans: &[(u32, u32)]) -> Vec<u32> {
    let (read, edges, definitions) = built(count, leans, &[]);
    order(&read, &edges, &definitions, &Grouping::default()).steps.iter().map(|step| step.definition.0).collect()
}

#[test]
fn nothing_is_read_before_what_it_leans_on() {
    // 0 leans on 1 leans on 2.
    assert_eq!(reading(3, &[(0, 1), (1, 2)]), vec![2, 1, 0]);
}

#[test]
fn everything_gets_read_exactly_once() {
    let reading = reading(6, &[(0, 1), (1, 2), (3, 4), (5, 0)]);

    assert_eq!(reading.len(), 6);
    assert_eq!(reading.iter().copied().collect::<BTreeSet<u32>>().len(), 6);
}

/// 0 and 1 both depend on 2, so 2 is read first.
#[test]
fn a_shared_foundation_comes_first() {
    let reading = reading(3, &[(0, 2), (1, 2)]);

    assert_eq!(reading[0], 2);
}

/// Finishing one chain before starting the other keeps fewer things open.
#[test]
fn one_chain_is_finished_before_the_next_is_started() {
    let reading = reading(4, &[(0, 1), (2, 3)]);
    let chains: Vec<bool> = reading.iter().map(|id| *id < 2).collect();

    assert!(
        chains == vec![true, true, false, false] || chains == vec![false, false, true, true],
        "chains were interleaved: {reading:?}"
    );
}

/// A definition with no dependencies either way is read last: it can go anywhere, so
/// it shouldn't interrupt a branch.
#[test]
fn a_foundation_is_read_first_and_what_stands_alone_last() {
    // 0 leans on 2, and 1 stands alone.
    assert_eq!(reading(3, &[(0, 2)]), vec![2, 0, 1]);
}

#[test]
fn a_circle_is_read_with_one_thing_taken_on_faith() {
    let (read, edges, definitions) = built(3, &[(0, 1), (1, 2), (2, 0)], &[]);
    let ordering = order(&read, &edges, &definitions, &Grouping::default());

    assert_eq!(ordering.steps.len(), 3);
    assert_eq!(ordering.cost.taken_on_faith, 1);
}

#[test]
fn nothing_is_taken_on_faith_when_it_doesnt_have_to_be() {
    let (read, edges, definitions) = built(4, &[(0, 1), (1, 2), (2, 3)], &[]);

    assert_eq!(order(&read, &edges, &definitions, &Grouping::default()).cost.taken_on_faith, 0);
}

/// 1 sits in another file; with all else equal, the reading stays put.
#[test]
fn a_reading_would_rather_stay_in_one_file() {
    let (read, edges, definitions) = built(3, &[(0, 1), (0, 2)], &["a.rs", "b.rs", "a.rs"]);
    let ordering = order(&read, &edges, &definitions, &Grouping::default());

    assert_eq!(ordering.cost.jumps, 1);
}

#[test]
fn a_chain_keeps_only_one_thing_in_mind_at_a_time() {
    let (read, edges, definitions) = built(5, &[(0, 1), (1, 2), (2, 3), (3, 4)], &[]);

    assert_eq!(order(&read, &edges, &definitions, &Grouping::default()).cost.peak_open, 1);
}

#[test]
fn unrelated_definitions_leave_nothing_open() {
    let (read, edges, definitions) = built(4, &[], &[]);

    assert_eq!(order(&read, &edges, &definitions, &Grouping::default()).cost.peak_open, 0);
}

/// A container's header is read right before its contents, not before what they depend
/// on. 1 sits inside 0 and depends on 2 in another file, so 0 waits for 2 too.
#[test]
fn a_containers_header_is_read_right_before_what_it_holds() {
    let (read, edges, mut definitions) = built(3, &[(1, 2)], &["a.rs", "a.rs", "b.rs"]);
    for definition in &mut definitions {
        let identity = definition.identity;
        let Sides::Kept { before, after } = &mut definition.sides else {
            unreachable!("built() keeps everything");
        };
        for side in [before, after] {
            if identity == Identity(0) {
                side.role = Role::Container;
            }
            if identity == Identity(1) {
                side.parent = Some(Locator { scope: Vec::new(), name: "d0".to_string() });
            }
        }
    }

    let reading: Vec<u32> =
        order(&read, &edges, &definitions, &Grouping::default()).steps.iter().map(|step| step.definition.0).collect();
    assert_eq!(reading, vec![2, 0, 1]);
}
