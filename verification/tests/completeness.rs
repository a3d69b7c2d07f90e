use dagger::completeness::{check, covered, unaccounted};
use dagger::diagnostic::Diagnostic;
use dagger::model::{Definition, Identity, Part, Piece, Sides, Span};
use dagger::testing::occurrence;

fn stretch(file: &str, start: u32, end: u32) -> Piece {
    Piece { text: String::new(), span: Span { start, end }, line: 1, file: file.to_string() }
}

fn kept(id: u32, file: &str, before: (u32, u32), after: (u32, u32)) -> Definition {
    let mut was = occurrence("f", &[]);
    was.parts.insert(Part::Body, vec![stretch(file, before.0, before.1)]);
    let mut is = occurrence("f", &[]);
    is.parts.insert(Part::Body, vec![stretch(file, after.0, after.1)]);
    Definition { identity: Identity(id), sides: Sides::Kept { before: was, after: is } }
}

#[test]
fn a_line_no_definition_covers_is_reported() {
    let before = "fn f() {}\n";
    let after = "use a;\nfn f() {}\n";
    let was = vec![0..9];
    let is = vec![7..16];
    assert_eq!(unaccounted(before, after, &was, &is), Some(vec![1]));
}

#[test]
fn a_changed_line_inside_a_definition_is_accounted_for() {
    let before = "fn f() {\n  1\n}\n";
    let after = "fn f() {\n  2\n}\n";
    let was = vec![0..14];
    let is = vec![0..14];
    assert_eq!(unaccounted(before, after, &was, &is), Some(Vec::new()));
}

#[test]
fn blank_lines_are_not_worth_reporting() {
    let before = "a\n";
    let after = "a\n\n   \n";
    assert_eq!(unaccounted(before, after, &Vec::new(), &Vec::new()), Some(Vec::new()));
}

#[test]
fn deleted_lines_are_numbered_on_the_before_side() {
    let before = "x\ny\nz\n";
    let after = "x\nz\n";
    assert_eq!(unaccounted(before, after, &Vec::new(), &Vec::new()), Some(vec![2]));
}

#[test]
fn coverage_counts_only_the_file_asked_about() {
    let defs = vec![kept(1, "a.rs", (0, 5), (0, 7)), kept(2, "b.rs", (3, 4), (3, 4))];
    assert_eq!(covered(&defs, false, "a.rs"), vec![0..5]);
    assert_eq!(covered(&defs, true, "a.rs"), vec![0..7]);
    assert_eq!(covered(&defs, true, "c.rs"), Vec::new());
}

#[test]
fn only_a_few_lines_are_named_but_all_are_counted() {
    let before = "";
    let after = "a\nb\nc\nd\ne\nf\ng\n";
    let found = check(&vec!["x.rs".to_string()], &vec![before.to_string()], &vec![after.to_string()], &Vec::new());
    assert_eq!(
        found,
        vec![Diagnostic::Unattributed { file: "x.rs".to_string(), lines: 7, at: vec![1, 2, 3, 4, 5] }]
    );
}

#[test]
fn a_fully_covered_file_reports_nothing() {
    let defs = vec![kept(1, "a.rs", (0, 2), (0, 2))];
    let found = check(&vec!["a.rs".to_string()], &vec!["a\n".to_string()], &vec!["b\n".to_string()], &defs);
    assert_eq!(found, Vec::new());
}
