use dagger::checks::{tangled, twins};
use dagger::diagnostic::Diagnostic;
use dagger::model::{Locator, Part, Piece, Span};
use dagger::testing::occurrence;

fn stretch(file: &str, start: u32, end: u32) -> Piece {
    Piece { text: String::new(), span: Span { start, end }, line: 1, file: file.to_string() }
}

#[test]
fn pieces_in_different_files_never_overlap() {
    let mut one = occurrence("one", &[]);
    one.parts.insert(Part::Contract, vec![stretch("a.h", 0, 10)]);
    one.parts.insert(Part::Body, vec![stretch("a.c", 5, 20)]);
    assert_eq!(tangled(&one), None);
}

#[test]
fn the_first_overlap_in_order_of_start_is_reported() {
    let mut one = occurrence("one", &[]);
    one.parts.insert(Part::Contract, vec![stretch("a.c", 30, 40), stretch("a.c", 0, 12)]);
    one.parts.insert(Part::Body, vec![stretch("a.c", 10, 35)]);
    assert_eq!(
        tangled(&one),
        Some(Diagnostic::Tangled { definition: Locator { scope: Vec::new(), name: "one".to_string() }, at: 10 })
    );
}

#[test]
fn twins_are_listed_in_order_of_name() {
    let found = twins(&vec![
        occurrence("b", &[]),
        occurrence("a", &[]),
        occurrence("b", &[]),
        occurrence("a", &[]),
        occurrence("c", &[]),
    ]);
    let named = |name: &str| Locator { scope: Vec::new(), name: name.to_string() };
    assert_eq!(
        found,
        vec![
            Diagnostic::TwoOfOneName { locator: named("a"), times: 2 },
            Diagnostic::TwoOfOneName { locator: named("b"), times: 2 },
        ]
    );
}
