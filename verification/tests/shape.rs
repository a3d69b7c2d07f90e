use dagger::change::{Change, Mark};
use dagger::group::Grouping;
use dagger::model::{Identity, Part, Role, Sides};
use dagger::order::Step;
use dagger::review::{Definition, Edge};
use dagger::shape::{Group, Shape};
use dagger::testing::occurrence;

/// A definition written inside `parent`.
fn one(id: u32, name: &str, parent: Option<u32>) -> (Identity, Definition) {
    (
        Identity(id),
        Definition {
            role: Role::Item,
            sides: Sides::Added(occurrence(name, &[(Part::Body, "new")])),
            change: Change::Added,
            reached: None,
            mark: Mark::Added,
            parent: parent.map(Identity),
        },
    )
}

fn edge(from: u32, to: u32) -> Edge {
    Edge { from: Identity(from), to: Identity(to) }
}

fn grouping(of: &[(u32, &[&str])]) -> Grouping {
    Grouping {
        name: String::new(),
        of: of.iter().map(|(id, path)| (Identity(*id), path.iter().map(|s| s.to_string()).collect())).collect(),
    }
}

fn steps(reading: &[u32]) -> Vec<Step> {
    reading.iter().map(|id| Step { definition: Identity(*id), on_faith: Vec::new() }).collect()
}

fn shaped(definitions: &[(Identity, Definition)], edges: &[Edge], reading: &[u32]) -> Vec<Group> {
    let mut definitions: Vec<(Identity, Definition)> = definitions.to_vec();
    definitions.sort_by_key(|(id, _)| *id);
    let none = grouping(&[]);
    Shape::new(&definitions, &none).groups(&edges.to_vec(), &steps(reading))
}

/// The node for `id`, wherever it sits.
fn node(groups: &[Group], id: u32) -> Option<&Group> {
    groups.iter().find_map(|one| match one {
        Group::Node { id: own, .. } => (own.0 == id).then_some(one),
        Group::Group { children, .. } => node(children, id),
    })
}

/// The box called `name`, wherever it sits.
fn boxed<'g>(groups: &'g [Group], name: &str) -> Option<&'g Group> {
    groups.iter().find_map(|one| match one {
        Group::Group { name: own, .. } if own == name => Some(one),
        Group::Group { children, .. } => boxed(children, name),
        Group::Node { .. } => None,
    })
}

/// What each child is: a node's id, or a box's name.
fn along(children: &[Group]) -> Vec<String> {
    children
        .iter()
        .map(|child| match child {
            Group::Node { id, .. } => id.0.to_string(),
            Group::Group { name, .. } => name.clone(),
        })
        .collect()
}

/// A box of tests counts as one thing that depends on whatever its contents do.
#[test]
fn what_leans_on_the_code_around_it_sits_below_it_box_or_not() {
    let groups = shaped(
        &[one(1, "lib", None), one(2, "helper", Some(1)), one(3, "tests", Some(1)), one(4, "checks_helper", Some(3))],
        &[edge(4, 2)],
        &[1, 2, 4],
    );
    assert_eq!(node(&groups, 2).unwrap().tier(), 0);
    assert_eq!(boxed(&groups, "tests").unwrap().tier(), 1, "the box of tests, below the helper");
}

#[test]
fn a_box_holds_its_own_node_and_an_empty_one_is_a_node() {
    let groups = shaped(&[one(1, "lib", None), one(2, "Alias", Some(1))], &[], &[1, 2]);
    let lib = boxed(&groups, "lib").unwrap();
    assert!(matches!(lib, Group::Group { children, .. } if along(children) == ["1", "2"]));
    assert!(boxed(&groups, "Alias").is_none());
}

#[test]
fn a_box_that_something_leans_on_is_a_dependency_like_any_other() {
    let groups = shaped(&[one(1, "field", None), one(2, "Unit", None), one(3, "value", Some(2))], &[edge(1, 2)], &[2, 3, 1]);
    assert_eq!(boxed(&groups, "Unit").unwrap().tier(), 0);
    assert_eq!(node(&groups, 1).unwrap().tier(), 1);
}

#[test]
fn along_a_tier_the_reading_decides() {
    let definitions = [
        one(1, "lib", None),
        one(2, "helper", Some(1)),
        one(3, "used", Some(1)),
        one(4, "tests", Some(1)),
        one(5, "checks", Some(4)),
    ];
    let edges = [edge(3, 2), edge(5, 2)];
    let inside = |reading: &[u32]| match shaped(&definitions, &edges, reading).as_slice() {
        [Group::Group { children, .. }] => along(children),
        other => panic!("one box, not {other:?}"),
    };
    assert_eq!(inside(&[1, 2, 3, 5]), ["1", "2", "3", "tests"]);
    assert_eq!(inside(&[1, 2, 5, 3]), ["1", "2", "tests", "3"]);
}

#[test]
fn a_group_sits_below_what_it_leans_on_and_the_ungrouped_beside_them() {
    let definitions = vec![one(1, "main", None), one(2, "util", None), one(3, "loose", None)];
    let grouping = grouping(&[(1, &["app"]), (2, &["lib"])]);
    let groups = Shape::new(&definitions, &grouping).groups(&vec![edge(1, 2), edge(3, 1)], &steps(&[1, 2, 3]));
    assert_eq!(boxed(&groups, "lib").unwrap().tier(), 0);
    assert_eq!(boxed(&groups, "app").unwrap().tier(), 1);
    assert_eq!(node(&groups, 3).unwrap().tier(), 2);
}
