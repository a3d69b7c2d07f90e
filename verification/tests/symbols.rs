use dagger::lines::Lines;
use dagger::model::Part;
use dagger::symbols::{read, Reported, Stretch};

const SOURCE: &str = "\
export interface Money {
  amount: number;
}

export function addMoney(a: Money, b: Money): Money {
  return a;
}
";

/// One symbol as a server reports it: `line`/`character` pairs for the whole thing and
/// for the name.
fn reported(name: &str, kind: u64, whole: (u64, u64, u64, u64), at: (u64, u64, u64)) -> Reported {
    Reported {
        name: Some(name.to_string()),
        kind,
        range: Some(Stretch { start_line: whole.0, start_character: whole.1, end_line: whole.2, end_character: whole.3 }),
        location_range: None,
        selection: Some(Stretch { start_line: at.0, start_character: at.1, end_line: at.0, end_character: at.2 }),
        children: Vec::new(),
    }
}

#[test]
fn names_declared_together_each_keep_their_own_stretch() {
    let source = "const A = 1, B = 2;\n";
    let lines = Lines::new(source);
    let symbols = read(
        &vec![reported("A", 13, (0, 0, 0, 19), (0, 6, 7)), reported("B", 13, (0, 0, 0, 19), (0, 13, 14))],
        &lines,
        &Vec::new(),
    );

    let text = |name: &str| {
        let one = symbols.iter().find(|one| one.name == name).unwrap();
        &source[one.whole.clone()]
    };
    assert_eq!(text("A"), "const A = 1, ");
    assert_eq!(text("B"), "B = 2;");
}

#[test]
fn a_function_splits_at_the_brace() {
    let lines = Lines::new(SOURCE);
    let symbols = read(&vec![reported("addMoney", 12, (4, 0, 6, 1), (4, 16, 24))], &lines, &Vec::new());

    let symbol = &symbols[0];
    assert_eq!(lines.slice(&symbol.declaration()), "export function addMoney(a: Money, b: Money): Money ");
    assert_eq!(lines.slice(&symbol.body().expect("a function has a body")), "{\n  return a;\n}");
}

/// A type is contract all the way through, so there's nothing to split off.
#[test]
fn an_interface_is_all_declaration() {
    let lines = Lines::new(SOURCE);
    let symbols = read(&vec![reported("Money", 11, (0, 0, 2, 1), (0, 17, 22))], &lines, &Vec::new());

    assert!(symbols[0].body().is_none());
    assert_eq!(lines.slice(&symbols[0].declaration()), "export interface Money {\n  amount: number;\n}");
}

#[test]
fn what_an_interface_holds_is_part_of_it() {
    let lines = Lines::new(SOURCE);
    let mut interface = reported("Money", 11, (0, 0, 2, 1), (0, 17, 22));
    interface.children = vec![reported("amount", 7, (1, 2, 1, 17), (1, 2, 8))];

    let symbols = read(&vec![interface], &lines, &Vec::new());

    assert_eq!(symbols.len(), 1);
    assert_eq!(symbols[0].name, "Money");
}

#[test]
fn anonymous_things_are_left_out() {
    let lines = Lines::new(SOURCE);
    let reported = vec![
        reported("lazyRouter() callback", 12, (4, 0, 6, 1), (4, 0, 1)),
        reported("() => {}", 12, (4, 0, 6, 1), (4, 0, 1)),
        reported("<anonymous>", 12, (4, 0, 6, 1), (4, 0, 1)),
        reported("addMoney", 12, (4, 0, 6, 1), (4, 16, 24)),
    ];

    let symbols = read(&reported, &lines, &Vec::new());
    let names: Vec<&str> = symbols.iter().map(|symbol| symbol.name.as_str()).collect();
    assert_eq!(names, vec!["addMoney"]);
}

#[test]
fn a_name_with_spaces_in_it_is_still_a_name() {
    let lines = Lines::new(SOURCE);
    let reported = vec![
        reported("applies stacked promos", 12, (4, 0, 6, 1), (4, 0, 1)),
        reported("impl Display for Money", 5, (0, 0, 2, 1), (0, 0, 1)),
    ];

    let symbols = read(&reported, &lines, &Vec::new());
    let names: Vec<&str> = symbols.iter().map(|symbol| symbol.name.as_str()).collect();
    assert_eq!(names, vec!["applies stacked promos", "impl Display for Money"]);
}

/// Locals belong to whoever contains them, not to a reader's list.
#[test]
fn what_lives_inside_a_function_is_not_reported() {
    let lines = Lines::new(SOURCE);
    let mut outer = reported("addMoney", 12, (4, 0, 6, 1), (4, 16, 24));
    outer.children = vec![reported("total", 13, (5, 2, 5, 12), (5, 8, 13))];

    assert_eq!(read(&vec![outer], &lines, &Vec::new()).len(), 1);
}

/// A class's methods are worth listing, unlike a function's variables.
#[test]
fn what_lives_inside_a_class_is_reported_with_its_scope() {
    let lines = Lines::new(SOURCE);
    let mut outer = reported("Repo", 5, (0, 0, 2, 1), (0, 17, 21));
    outer.children = vec![reported("find", 6, (1, 2, 1, 16), (1, 2, 6))];

    let symbols = read(&vec![outer], &lines, &Vec::new());
    assert_eq!(symbols.len(), 2);
    assert_eq!(symbols[1].name, "find");
    assert_eq!(symbols[1].scope, vec!["Repo".to_string()]);
}

/// Servers that don't do the nested form hang the range off a location instead.
#[test]
fn the_flat_form_is_understood_too() {
    let lines = Lines::new(SOURCE);
    let flat = vec![Reported {
        name: Some("Money".to_string()),
        kind: 11,
        range: None,
        location_range: Some(Stretch { start_line: 0, start_character: 0, end_line: 2, end_character: 1 }),
        selection: None,
        children: Vec::new(),
    }];

    let symbols = read(&flat, &lines, &Vec::new());
    assert_eq!(symbols.len(), 1);
    assert_eq!(lines.slice(&symbols[0].whole).lines().count(), 3);
}

#[test]
fn what_a_class_holds_is_held_by_it_and_named_from_the_file() {
    let lines = Lines::new(SOURCE);
    let mut outer = reported("Repo", 5, (0, 0, 2, 1), (0, 17, 21));
    outer.children = vec![reported("find", 6, (1, 2, 1, 16), (1, 2, 6))];

    let symbols = read(&vec![outer], &lines, &vec!["src".to_string(), "repo".to_string()]);
    assert_eq!(symbols[0].locator.scope, vec!["src", "repo"]);
    assert_eq!(symbols[0].parent, None);
    assert_eq!(symbols[0].kind, "class");
    assert_eq!(symbols[1].locator.scope, vec!["src", "repo", "Repo"]);
    let parent = symbols[1].parent.clone().expect("held by the class");
    assert_eq!(parent.name, "Repo");
    assert!(parent.scope.is_empty());
}

#[test]
fn the_declaration_wins_where_parts_overlap() {
    let lines = Lines::new(SOURCE);
    let symbols = read(&vec![reported("addMoney", 12, (4, 0, 6, 1), (4, 16, 24))], &lines, &Vec::new());
    let symbol = &symbols[0];
    let declared = symbol.declaration();
    assert_eq!(symbol.part_at(declared.start), Some(Part::Contract));
    assert_eq!(symbol.part_at(declared.end), Some(Part::Body));
    assert_eq!(symbol.part_at(symbol.whole.end), None);
}

#[test]
fn a_stretch_that_ends_before_it_starts_is_not_read() {
    let lines = Lines::new(SOURCE);
    let backwards = reported("Money", 11, (2, 1, 0, 0), (0, 17, 22));
    assert!(read(&vec![backwards], &lines, &Vec::new()).is_empty());
}
