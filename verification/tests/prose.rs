use dagger::prose::{line_end, line_start, preamble};
use std::ops::Range;

/// Where `what` sits in `source`.
fn at(source: &str, what: &str) -> Range<usize> {
    let from = source.find(what).expect("the source should hold it");
    from..from + what.len()
}

/// The prose above each of these.
fn above(source: &str, wholes: &[Range<usize>]) -> Vec<String> {
    wholes
        .iter()
        .filter_map(|own| preamble(source, own, wholes))
        .map(|found| source[found].trim().to_string())
        .collect()
}

#[test]
fn a_comment_above_a_definition_belongs_to_it() {
    let source = "// what it is\nfn one() {}\n";
    assert_eq!(above(source, &[at(source, "fn one() {}")]), ["// what it is"]);
}

#[test]
fn it_does_not_know_what_a_comment_looks_like() {
    let source = "/* one */\n/* two */\nfn one() {}\n";
    assert_eq!(above(source, &[at(source, "fn one() {}")]), ["/* one */\n/* two */"]);
}

#[test]
fn a_blank_line_ends_it() {
    let source = "// far above\n\n// against it\nfn one() {}\n";
    assert_eq!(above(source, &[at(source, "fn one() {}")]), ["// against it"]);
}

#[test]
fn another_definition_ends_it() {
    let source = "fn one() {}\n// against two\nfn two() {}\n";
    let wholes = [at(source, "fn one() {}"), at(source, "fn two() {}")];
    assert_eq!(above(source, &wholes), ["// against two"]);
}

/// The enclosing class's range covers the comment above the method; it must not stop the walk.
#[test]
fn being_written_inside_something_does_not_end_it() {
    let source = "class One {\n  // what it does\n  two() {}\n}\n";
    let wholes = [at(source, "class One {\n  // what it does\n  two() {}\n}"), at(source, "two() {}")];
    assert_eq!(above(source, &wholes), ["// what it does"]);
}

#[test]
fn it_stops_below_the_line_it_is_written_inside() {
    let source = "// about the class\nclass One {\n  two() {}\n}\n";
    let whole = at(source, "class One {\n  two() {}\n}");
    let wholes = [whole.clone(), at(source, "two() {}")];
    assert_eq!(above(source, &wholes), ["// about the class"]);
}

/// A server may report a definition from a token in the middle of the line.
#[test]
fn prose_ends_where_the_line_does_not_where_the_name_does() {
    let source = "// about it\nconst [said, setSaid] = make();\n";
    let found = preamble(source, &at(source, "said, setSaid"), &[]).expect("prose");
    assert_eq!(&source[found], "// about it\n");
}

#[test]
fn nothing_above_is_nothing_at_all() {
    let source = "fn one() {}\n";
    assert_eq!(preamble(source, &at(source, "fn one() {}"), &[]), None);
}

#[test]
fn lines_are_found_by_their_breaks() {
    let source = "ab\ncd\n\nef";
    assert_eq!(line_start(source, 4), 3);
    assert_eq!(line_start(source, 3), 3);
    assert_eq!(line_start(source, 1), 0);
    assert_eq!(line_end(source, 4), 6);
    assert_eq!(line_end(source, 6), 7);
    assert_eq!(line_end(source, 8), 9);
}

#[test]
fn a_line_of_unicode_spaces_counts_as_blank() {
    let source = "// far\n\u{3000}\u{a0}\n// near\nfn one() {}\n";
    assert_eq!(above(source, &[at(source, "fn one() {}")]), ["// near"]);
}
