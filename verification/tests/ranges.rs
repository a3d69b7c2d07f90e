use dagger::diff::{line_starts, ranges, spans_of, Op};
use dagger::model::Span;

/// Whether any span covers this byte, the way an adapter checks a seam.
fn covered(spans: &[Span], at: u32) -> bool {
    spans.iter().any(|span| span.start <= at && at < span.end.max(span.start + 1))
}

#[test]
fn identical_text_has_nothing_to_say() {
    let (before, after) = ranges("fn one() {}\n", "fn one() {}\n");
    assert!(before.is_empty() && after.is_empty());
}

#[test]
fn a_changed_line_is_marked_on_both_sides() {
    let (before, after) = ranges("let a = 1;\n", "let a = 2;\n");
    assert_eq!(before.len(), 1);
    assert_eq!(after.len(), 1);
    assert!(covered(&before, 4)); // somewhere inside "let a = 1;"
    assert!(covered(&after, 4));
}

#[test]
fn a_pure_insertion_still_marks_a_seam_on_the_other_side() {
    let before = "interface Money {\n  amount: number;\n}\n";
    let after = "interface Money {\n  amount: number;\n  precise: boolean;\n}\n";
    let (before_at, after_at) = ranges(before, after);

    assert!(!before_at.is_empty(), "the side with nothing removed still needs a seam");
    assert!(!after_at.is_empty());

    // The seam must land inside the interface's own span.
    let whole = 0..before.len() as u32;
    assert!(before_at.iter().all(|span| whole.contains(&span.start)));
}

#[test]
fn a_pure_deletion_mirrors_the_same_seam() {
    let before = "interface Money {\n  amount: number;\n  precise: boolean;\n}\n";
    let after = "interface Money {\n  amount: number;\n}\n";
    let (before_at, after_at) = ranges(before, after);

    assert!(!before_at.is_empty());
    assert!(!after_at.is_empty(), "the side with nothing added still needs a seam");
}

#[test]
fn separate_hunks_are_reported_separately() {
    let before = "fn a() { 1 }\nfn mid() { 0 }\nfn b() { 2 }\n";
    let after = "fn a() { 10 }\nfn mid() { 0 }\nfn b() { 20 }\n";
    let (before_at, _) = ranges(before, after);
    assert_eq!(before_at.len(), 2, "the untouched middle line shouldn't join them");
}

#[test]
fn lines_start_at_zero_and_after_each_break() {
    assert_eq!(line_starts("ab\ncd\n"), vec![0, 3, 6]);
    assert_eq!(line_starts(""), vec![0]);
    assert_eq!(line_starts("é\nx"), vec![0, 3]);
}

#[test]
fn each_step_marks_its_lines_or_a_seam() {
    let before = "a\nb\nc\n";
    let after = "a\nx\ny\nc\n";
    let ops = vec![
        Op::Equal { old_index: 0, new_index: 0, len: 1 },
        Op::Replace { old_index: 1, old_len: 1, new_index: 1, new_len: 2 },
        Op::Delete { old_index: 2, old_len: 1, new_index: 3 },
        Op::Insert { old_index: 3, new_index: 3, new_len: 1 },
    ];
    let (was, is) = spans_of(&ops, before, after);
    assert_eq!(was, vec![Span { start: 2, end: 4 }, Span { start: 4, end: 6 }, Span { start: 6, end: 6 }]);
    assert_eq!(is, vec![Span { start: 2, end: 6 }, Span { start: 6, end: 6 }, Span { start: 6, end: 8 }]);
}
