use dagger::change::{classify, Change, Edits};
use dagger::diagnostic::Diagnostic;
use dagger::model::{Definition, Identity, Part, Sides};
use dagger::testing::{occurrence, piece};

fn classify_sides(sides: Sides) -> (Change, Option<Diagnostic>) {
    classify(&Definition { identity: Identity(0), sides })
}

fn edits(sides: Sides) -> Edits {
    match classify_sides(sides).0 {
        Change::Kept(edits) => edits,
        other => panic!("expected a kept definition, got {other:?}"),
    }
}

#[test]
fn presence_decides_added_and_removed() {
    let occ = occurrence("zero", &[(Part::Contract, "sig")]);
    assert_eq!(classify_sides(Sides::Added(occ.clone())).0, Change::Added);
    assert_eq!(classify_sides(Sides::Removed(occ)).0, Change::Removed);
}

#[test]
fn a_body_edit_leaves_the_type_alone() {
    let before = occurrence("addMoney", &[(Part::Contract, "sig"), (Part::Body, "a + b")]);
    let after = occurrence("addMoney", &[(Part::Contract, "sig"), (Part::Body, "add(a, b)")]);
    let edits = edits(Sides::Kept { before, after });

    assert!(!edits.contract_changed);
    assert!(edits.changed(Part::Body));
    assert!(!edits.changed(Part::Contract));
    assert!(edits.worth_reading());
}

#[test]
fn a_rename_breaks_callers() {
    let before = occurrence("addMoney", &[(Part::Contract, "sig")]);
    let after = occurrence("plusMoney", &[(Part::Contract, "sig")]);

    assert!(edits(Sides::Kept { before, after }).contract_changed);
}

/// A C declaration migrating to a different header, body left where it was.
#[test]
fn a_part_can_move_on_its_own() {
    let before = occurrence("zero", &[(Part::Contract, "sig")]);
    let mut after = occurrence("zero", &[(Part::Contract, "sig")]);
    after.parts.get_mut(Part::Contract).unwrap()[0].file = "money.h".to_string();
    let edits = edits(Sides::Kept { before, after });

    assert!(edits.moved);
    assert!(!edits.worth_reading());
}

/// A module's imports are rarely one stretch; editing the second must count like the first.
#[test]
fn a_part_made_of_several_pieces_is_compared_as_a_whole() {
    let mut before = occurrence("money", &[(Part::Body, "use std::fmt;")]);
    before.parts.get_mut(Part::Body).unwrap().push(piece("use std::io;"));

    let mut after = occurrence("money", &[(Part::Body, "use std::fmt;")]);
    after.parts.get_mut(Part::Body).unwrap().push(piece("use std::net;"));

    assert!(edits(Sides::Kept { before, after }).changed(Part::Body));
}

/// A declaration in a header and again in its source file: one part, two files.
#[test]
fn a_part_can_sit_in_two_files_without_having_moved() {
    let split = || {
        let mut occurrence = occurrence("helper", &[(Part::Contract, "int helper(void);")]);
        let pieces = occurrence.parts.get_mut(Part::Contract).unwrap();
        pieces[0].file = "money.h".to_string();
        pieces.push(piece("int helper(void)"));
        occurrence
    };

    let edits = edits(Sides::Kept { before: split(), after: split() });
    assert!(!edits.moved);
    assert!(!edits.worth_reading());
}

/// A body showing up where there wasn't one isn't a part changing address.
#[test]
fn gaining_a_part_is_not_a_move() {
    let before = occurrence("zero", &[(Part::Contract, "sig")]);
    let after = occurrence("zero", &[(Part::Contract, "sig"), (Part::Body, "return 0")]);

    assert!(!edits(Sides::Kept { before, after }).moved);
}

#[test]
fn moving_is_not_worth_reading_on_its_own() {
    let before = occurrence("zero", &[(Part::Contract, "sig")]);
    let mut after = occurrence("zero", &[(Part::Contract, "sig")]);
    after.file = "amount.ts".to_string();
    let edits = edits(Sides::Kept { before, after });

    assert!(edits.moved);
    assert!(!edits.worth_reading());
}

/// The signature is untouched, but the compiler says callers see something else.
#[test]
fn an_inferred_return_type_counts_as_a_type_change() {
    let mut before = occurrence("parseId", &[(Part::Contract, "sig"), (Part::Body, "Number(s)")]);
    before.contract_from_compiler = Some("parseId(s: string): number".to_string());
    let mut after = occurrence("parseId", &[(Part::Contract, "sig"), (Part::Body, "s.trim()")]);
    after.contract_from_compiler = Some("parseId(s: string): string".to_string());
    let edits = edits(Sides::Kept { before, after });

    assert!(edits.contract_changed);
    assert!(!edits.changed(Part::Contract));
}

/// A reflowed signature counts because the compiler's contract may be a summary that hides real breaks.
#[test]
fn a_rewritten_signature_counts_even_when_the_compiler_agrees() {
    let mut before = occurrence("parseId", &[(Part::Contract, "parseId(s: string)")]);
    before.contract_from_compiler = Some("parseId(s: string): number".to_string());
    let mut after = occurrence("parseId", &[(Part::Contract, "parseId(\n  s: string,\n)")]);
    after.contract_from_compiler = Some("parseId(s: string): number".to_string());
    let edits = edits(Sides::Kept { before, after });

    assert!(edits.contract_changed);
    assert!(edits.changed(Part::Contract));
}

#[test]
fn a_summarising_type_cannot_hide_a_changed_declaration() {
    let mut before = occurrence("Money", &[(Part::Contract, "interface Money { amount: number }")]);
    before.contract_from_compiler = Some("interface Money".to_string());
    let mut after =
        occurrence("Money", &[(Part::Contract, "interface Money { amount: number; precise: boolean }")]);
    after.contract_from_compiler = Some("interface Money".to_string());

    assert!(edits(Sides::Kept { before, after }).contract_changed);
}

#[test]
fn a_type_on_only_one_side_is_reported() {
    let mut before = occurrence("parseId", &[(Part::Contract, "sig")]);
    before.contract_from_compiler = Some("parseId(s: string): number".to_string());
    let after = occurrence("parseId", &[(Part::Contract, "sig")]);

    let (_, diagnostic) = classify_sides(Sides::Kept { before, after });
    assert_eq!(diagnostic, Some(Diagnostic::LopsidedContract { definition: Identity(0) }));
}
