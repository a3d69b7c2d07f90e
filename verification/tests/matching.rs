use dagger::change::{classify, Change};
use dagger::checks::checked;
use dagger::diagnostic::Diagnostic;
use dagger::matching::{match_snapshots, Extraction};
use dagger::model::{Identity, Locator, Occurrence, Part, Piece, Span};
use dagger::reference::{ExtractorId, Mention, Site, Target};
use dagger::testing::occurrence;

fn extraction(occurrences: Vec<Occurrence>) -> Extraction {
    Extraction { occurrences, mentions: Vec::new() }
}

fn changes(before: Vec<Occurrence>, after: Vec<Occurrence>) -> Vec<Change> {
    match_snapshots(extraction(before), extraction(after))
        .definitions
        .iter()
        .map(|definition| classify(definition).0)
        .collect()
}

fn stretch(text: &str, start: u32, end: u32, line: u32) -> Piece {
    Piece { text: text.to_string(), span: Span { start, end }, line, file: "money.ts".to_string() }
}

#[test]
fn pieces_that_cover_each_other_are_reported() {
    let mut occurrence = occurrence("one", &[]);
    occurrence.parts.insert(Part::Docs, vec![stretch("/** One. */\nconst ", 0, 19, 1)]);
    occurrence.parts.insert(Part::Contract, vec![stretch("const one = 1;", 13, 27, 2)]);

    let said = checked(&vec![occurrence]);
    assert!(
        matches!(said.as_slice(), [Diagnostic::Tangled { at: 13, .. }]),
        "expected the overlap to be reported, got {said:?}"
    );
}

#[test]
fn an_overlap_is_found_however_the_file_is_spelled() {
    let mut occurrence = occurrence("one", &[]);
    occurrence.file = "money.ts".to_string();
    occurrence.parts.insert(Part::Docs, vec![stretch("/** One. */\nconst ", 0, 19, 1)]);
    occurrence.parts.insert(Part::Contract, vec![stretch("const one = 1;", 13, 27, 2)]);

    let said = checked(&vec![occurrence]);
    assert!(
        matches!(said.as_slice(), [Diagnostic::Tangled { at: 13, .. }]),
        "expected the overlap to be reported, got {said:?}"
    );
}

#[test]
fn pieces_that_divide_a_definition_up_are_fine() {
    let mut occurrence = occurrence("one", &[]);
    occurrence.parts.insert(Part::Docs, vec![stretch("/** One. */\n", 0, 12, 1)]);
    occurrence.parts.insert(Part::Contract, vec![stretch("const one = 1;", 12, 26, 2)]);

    assert!(checked(&vec![occurrence]).is_empty());
}

#[test]
fn the_same_locator_on_both_sides_is_one_definition() {
    let changes = changes(
        vec![occurrence("zero", &[(Part::Body, "old")])],
        vec![occurrence("zero", &[(Part::Body, "new")])],
    );

    assert!(matches!(changes.as_slice(), [Change::Kept(_)]));
}

#[test]
fn a_locator_on_one_side_only_is_added_or_removed() {
    let changes = changes(
        vec![occurrence("ZERO", &[(Part::Body, "= 0")])],
        vec![occurrence("SUPPORTED", &[(Part::Body, "= new Set()")])],
    );

    assert_eq!(changes, vec![Change::Removed, Change::Added]);
}

/// Same text, new name, and nothing else to confuse it with.
#[test]
fn a_rename_is_caught_when_the_text_is_untouched() {
    let changes = changes(
        vec![occurrence("addMoney", &[(Part::Body, "a + b")])],
        vec![occurrence("plusMoney", &[(Part::Body, "a + b")])],
    );

    let [Change::Kept(edits)] = changes.as_slice() else {
        panic!("expected one kept definition, got {changes:?}");
    };
    assert!(edits.contract_changed);
    assert!(!edits.changed(Part::Body));
}

#[test]
fn a_move_is_caught_when_the_text_is_untouched() {
    let mut moved = occurrence("zero", &[(Part::Body, "return 0")]);
    moved.file = "amount.ts".to_string();

    let changes = changes(vec![occurrence("zero", &[(Part::Body, "return 0")])], vec![moved]);

    let [Change::Kept(edits)] = changes.as_slice() else {
        panic!("expected one kept definition, got {changes:?}");
    };
    assert!(edits.moved);
    assert!(!edits.worth_reading());
}

/// Renaming and editing together is the usual case, so it must pair up as one definition.
#[test]
fn a_rename_with_an_edit_is_still_one_definition() {
    let before = "let sum = a + b;\nlog(sum);\nreturn sum;";
    let after = "let sum = a + b;\nlog(sum);\nreturn round(sum);";

    let changed = changes(
        vec![occurrence("addMoney", &[(Part::Body, before)])],
        vec![occurrence("plusMoney", &[(Part::Body, after)])],
    );
    let [Change::Kept(edits)] = changed.as_slice() else {
        panic!("expected the rename to be paired up, got {changed:?}");
    };

    assert!(edits.contract_changed, "a new name is a new type");
    assert!(edits.changed(Part::Body));
}

/// Two things sharing no lines are two things, however tempting a pair they make.
#[test]
fn leftovers_that_read_nothing_alike_stay_apart() {
    let changes = changes(
        vec![occurrence("parse", &[(Part::Body, "read(); decode(); done();")])],
        vec![occurrence("render", &[(Part::Body, "paint(); flush();")])],
    );

    assert_eq!(changes, vec![Change::Removed, Change::Added]);
}

/// Identical leftovers pair up either way round; it makes no difference which.
#[test]
fn identical_leftovers_pair_up_rather_than_being_given_up_on() {
    let changes = changes(
        vec![occurrence("one", &[(Part::Body, "noop")]), occurrence("two", &[(Part::Body, "noop")])],
        vec![occurrence("three", &[(Part::Body, "noop")]), occurrence("four", &[(Part::Body, "noop")])],
    );

    assert!(changes.iter().all(|change| matches!(change, Change::Kept(_))), "expected two renames, got {changes:?}");
}

fn locator(name: &str) -> Locator {
    Locator { scope: Vec::new(), name: name.to_string() }
}

fn mention(from: &str, to: Target<Locator>, part: Part) -> Mention {
    Mention { from: locator(from), to, site: Site { part, span: Span { start: 0, end: 0 }, extractor: ExtractorId("tsc".to_string()) } }
}

#[test]
fn a_name_answered_to_twice_is_reported_once_with_how_often() {
    let before = vec![
        occurrence("zero", &[(Part::Body, "a")]),
        occurrence("one", &[(Part::Body, "b")]),
        occurrence("zero", &[(Part::Body, "c")]),
        occurrence("zero", &[(Part::Body, "d")]),
    ];
    let matched = match_snapshots(extraction(before), extraction(Vec::new()));
    assert_eq!(
        matched.diagnostics,
        vec![Diagnostic::TwoOfOneName { locator: locator("zero"), times: 3 }]
    );
    assert_eq!(matched.definitions.len(), 4);
}

#[test]
fn the_first_of_a_name_wins_and_its_twin_is_removed() {
    let matched = match_snapshots(
        extraction(vec![occurrence("zero", &[(Part::Body, "a")]), occurrence("zero", &[(Part::Body, "b")])]),
        extraction(vec![occurrence("zero", &[(Part::Body, "a")])]),
    );
    let changes: Vec<Change> = matched.definitions.iter().map(|d| classify(d).0).collect();
    assert!(matches!(changes.as_slice(), [Change::Kept(_), Change::Removed]));
    let ids: Vec<u32> = matched.definitions.iter().map(|d| d.identity.0).collect();
    assert_eq!(ids, vec![0, 1]);
}

#[test]
fn mentions_line_up_by_identity_across_snapshots() {
    let mut before = extraction(vec![occurrence("caller", &[(Part::Body, "x")]), occurrence("callee", &[(Part::Body, "y")])]);
    let mut after = extraction(vec![occurrence("caller", &[(Part::Body, "x2")]), occurrence("callee", &[(Part::Body, "y")])]);
    before.mentions = vec![mention("caller", Target::Known(locator("callee")), Part::Body)];
    after.mentions = vec![
        mention("caller", Target::Known(locator("callee")), Part::Body),
        mention("caller", Target::Known(locator("gone")), Part::Body),
        mention("nobody", Target::Unknown { symbol: "x".to_string() }, Part::Body),
    ];
    let matched = match_snapshots(before, after);

    assert_eq!(matched.references.len(), 2);
    assert_eq!(matched.references[0].from, Identity(0));
    assert_eq!(matched.references[0].to, Target::Known(Identity(1)));
    assert_eq!(matched.references[0].before.len(), 1);
    assert_eq!(matched.references[0].after.len(), 1);
    assert_eq!(matched.references[1].to, Target::Unknown { symbol: "gone".to_string() });
    assert!(matched.references[1].before.is_empty());
    assert_eq!(
        matched.diagnostics,
        vec![Diagnostic::MentionFromNowhere { from: locator("nobody") }]
    );
}
