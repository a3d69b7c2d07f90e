use dagger::frontier::{Frontier, Wanted};
use dagger::model::{Locator, Span};

fn named(name: &str) -> Locator {
    Locator {
        scope: Vec::new(),
        name: name.to_string(),
    }
}

fn just(names: &[&str]) -> Wanted {
    Wanted::new(Vec::new(), names.iter().map(|name| named(name)).collect())
}

#[test]
#[allow(clippy::single_range_in_vec_init)]
fn a_definition_is_covered_only_where_a_range_touches_its_own_span() {
    let touched = Wanted::new(vec![40..60], Vec::new());
    assert!(touched.covers(&(50..70), &named("inside")));
    assert!(!touched.covers(&(100..120), &named("elsewhere")));
}

/// A range ending exactly where a definition begins hasn't touched it.
#[test]
#[allow(clippy::single_range_in_vec_init)]
fn touching_at_the_edge_is_not_covering() {
    let wanted = Wanted::new(vec![0..10], Vec::new());
    assert!(!wanted.covers(&(10..20), &named("after")));
}

#[test]
fn a_named_definition_is_covered_with_no_ranges_at_all() {
    let wanted = just(&["carries"]);
    assert!(wanted.covers(&(0..5), &named("carries")));
    assert!(!wanted.covers(&(0..5), &named("someone_else")));
}

#[test]
fn everything_covers_any_span_at_all() {
    let wanted = Wanted::everything();
    assert!(wanted.covers(&(0..1), &named("first")));
    assert!(wanted.covers(&(1_000_000..1_000_010), &named("far away")));
}

#[test]
fn spans_narrow_to_only_what_they_cover() {
    let wanted = Wanted::from_spans(&[Span { start: 10, end: 20 }]);
    assert!(wanted.covers(&(12..15), &named("inside")));
    assert!(!wanted.covers(&(100..200), &named("elsewhere")));
}

#[test]
fn no_spans_at_all_wants_the_whole_thing() {
    let wanted = Wanted::from_spans(&[]);
    assert!(wanted.covers(&(0..1), &named("anything")));
    assert!(wanted.covers(&(9_999..10_000), &named("anything else")));
}

#[test]
fn a_file_is_walked_once_however_often_it_turns_up() {
    let mut front = Frontier::default();
    front.want("a.ts", Wanted::everything(), 0);
    for _ in 0..20 {
        front.want("b.ts", just(&["one"]), 0);
    }

    let mut walked = Vec::new();
    while let Some((path, _, _)) = front.take() {
        walked.push(path);
    }
    assert_eq!(walked, vec!["a.ts", "b.ts"]);
    assert_eq!(front.walked(), 2);
}

#[test]
fn what_is_walked_never_outruns_what_is_known() {
    let mut front = Frontier::default();
    front.want("a.ts", just(&["one"]), 0);

    for step in 0..5 {
        front.take();
        let more = format!("more{step}");
        front.want("a.ts", just(&[&more]), 0);
        assert!(
            front.walked() <= front.known(),
            "walked {} of {}",
            front.walked(),
            front.known()
        );
    }
}

#[test]
fn a_file_reached_by_a_break_is_asked_only_about_what_carried_it() {
    let mut front = Frontier::default();
    front.want("b.ts", just(&["carries"]), 0);

    let (path, wanted, _) = front.take().expect("something to walk");
    assert_eq!(path, "b.ts");
    assert_eq!(wanted, just(&["carries"]));
}

#[test]
fn what_several_breaks_want_is_gathered_into_one_visit() {
    let mut front = Frontier::default();
    front.want("b.ts", just(&["one"]), 0);
    front.want("b.ts", just(&["two"]), 0);

    assert_eq!(front.take().unwrap().1, just(&["one", "two"]));
    assert_eq!(front.take(), None, "one file, one visit");
}

#[test]
fn wanting_everything_leaves_nothing_for_a_name_to_add() {
    let mut front = Frontier::default();
    front.want("a.ts", Wanted::everything(), 0);
    front.want("a.ts", just(&["one"]), 0);
    assert_eq!(front.take().unwrap().1, Wanted::everything());
}

#[test]
fn a_file_already_walked_is_never_asked_the_same_thing_twice() {
    let mut front = Frontier::default();
    front.want("a.ts", just(&["one"]), 0);
    assert_eq!(front.take().unwrap().1, just(&["one"]));

    front.want("a.ts", just(&["one"]), 0);
    assert_eq!(
        front.take(),
        None,
        "asked again for what it already answered"
    );
}

#[test]
fn a_file_already_walked_is_revisited_for_something_new() {
    let mut front = Frontier::default();
    front.want("a.ts", just(&["one"]), 0);
    front.take();

    front.want("a.ts", just(&["one", "two"]), 0);
    assert_eq!(
        front.take().unwrap().1,
        just(&["two"]),
        "should ask only for the part it hasn't"
    );
}

#[test]
fn a_file_keeps_the_shortest_distance_found_to_it() {
    let mut front = Frontier::default();
    front.want("a.ts", just(&["one"]), 3);
    front.want("a.ts", just(&["two"]), 1);

    assert_eq!(front.take().unwrap().2, 1);
}

#[test]
fn nothing_more_is_wanted_of_a_file_read_whole() {
    let mut front = Frontier::default();
    front.want("a.ts", Wanted::everything(), 0);
    front.take();

    front.want("a.ts", just(&["anything"]), 0);
    assert_eq!(front.take(), None);
}

#[test]
fn names_given_in_any_order_are_held_once_each() {
    let wanted = Wanted::new(Vec::new(), vec![named("two"), named("one"), named("two")]);
    assert_eq!(wanted, just(&["one", "two"]));
    assert!(!wanted.is_empty());
    assert!(Wanted::new(Vec::new(), Vec::new()).is_empty());
}

#[test]
fn the_queue_lists_each_waiting_file_in_the_order_it_turned_up() {
    let mut front = Frontier::default();
    front.want("b.ts", just(&["one"]), 2);
    front.want("a.ts", Wanted::everything(), 0);
    front.want("b.ts", just(&["two"]), 0);
    assert_eq!(front.waiting(), vec!["b.ts".to_string(), "a.ts".to_string()]);
    assert_eq!(front.known(), 2);
    assert_eq!(front.walked(), 0);
    front.take();
    assert_eq!(front.waiting(), vec!["a.ts".to_string()]);
    assert_eq!(front.walked(), 1);
}

#[test]
fn a_named_definition_is_wanted_by_name_alone() {
    let wanted = Wanted::named(named("carries"));
    assert_eq!(wanted, just(&["carries"]));
}
