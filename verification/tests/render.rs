use dagger::change::{Change, Edits, Mark};
use dagger::diff::{lines, render, render_hunks, render_unchanged, render_whole, Paint, Tag};
use dagger::model::{Identity, Part, Sides};
use dagger::order::{Cost, Step};
use dagger::review::{Definition, Edge, Impact, Review, Warning};
use dagger::testing::occurrence;
use dagger::report::glyph;
use dagger::walk::{broken_by, depends_on, listed, short, stitched};

#[test]
fn lines_split_as_str_lines_does() {
    assert_eq!(lines("a\r\nb\n\nc\n"), ["a", "b", "", "c"]);
    assert_eq!(lines(""), Vec::<String>::new());
    assert_eq!(lines("\n"), [""]);
    assert_eq!(lines("a\r"), ["a\r"]);
}

#[test]
fn paint_wraps_only_when_on() {
    assert_eq!(Paint::new(true, false).wrap(dagger::diff::RED, "x"), "\x1b[31mx\x1b[0m");
    assert_eq!(Paint::new(true, true).wrap(dagger::diff::RED, "x"), "x");
    assert_eq!(Paint::new(false, false).wrap(dagger::diff::RED, "x"), "x");
}

#[test]
fn an_unchanged_text_is_indented_and_dimmed() {
    let plain = Paint::new(false, false);
    assert_eq!(render_unchanged("one\ntwo\n", &plain), "    one\n    two\n");
    let painted = Paint::new(true, false);
    assert_eq!(render_unchanged("one", &painted), "  \x1b[2m  one\x1b[0m\n");
}

#[test]
fn a_whole_text_is_marked_line_by_line() {
    let plain = Paint::new(false, false);
    assert_eq!(render_whole("a\nb", '+', &plain), "  + a\n  + b\n");
    assert_eq!(render_whole("a", '-', &Paint::new(true, false)), "  \x1b[31m- a\x1b[0m\n");
}

#[test]
fn hunks_are_written_with_their_marks_and_a_seam_between() {
    let plain = Paint::new(false, false);
    let groups = vec![
        vec![(Tag::Equal, "keep\n".to_string()), (Tag::Delete, "old\n".to_string())],
        vec![(Tag::Insert, "new\n\n".to_string())],
    ];
    assert_eq!(render_hunks(&groups, &plain), "    keep\n  - old\n    ...\n  + new\n");
}

#[test]
fn a_changed_line_is_shown_with_its_neighbours() {
    let plain = Paint::new(false, false);
    let out = render("a\nb\nc\n", "a\nB\nc\n", &plain);
    assert_eq!(out, "    a\n  - b\n  + B\n    c\n");
    assert_eq!(render("same\n", "same\n", &plain), "");
}

#[test]
fn a_short_name_is_what_follows_the_last_path_separator() {
    assert_eq!(short("money::cart::total"), "total");
    assert_eq!(short("total"), "total");
    assert_eq!(short("a::"), "");
    assert_eq!(short("a:b"), "a:b");
}

#[test]
fn long_lists_are_capped_and_unread_entries_marked() {
    let names: Vec<(String, bool)> = (0..8).map(|k| (format!("n{k}"), k == 1)).collect();
    assert_eq!(listed(&names), "n0, n1 (not yet read), n2, n3, n4, n5, and 2 more");
    assert_eq!(listed(&names[..2].to_vec()), "n0, n1 (not yet read)");
}

#[test]
fn stitching_joins_pieces_in_file_order_without_blank_edges() {
    let mut one = occurrence("one", &[(Part::Contract, "\nfn one()\n"), (Part::Body, "{ 1 }")]);
    one.parts.get_mut(Part::Body).unwrap()[0].span.start = 9;
    assert_eq!(stitched(Some(&one)), Some("fn one()\n{ 1 }".to_string()));
    assert_eq!(stitched(None), None);
}

fn entry(id: u32, name: &str, change: Change) -> (Identity, Definition) {
    let mark = change.mark(false);
    (
        Identity(id),
        Definition {
            role: dagger::model::Role::Item,
            sides: Sides::Kept {
                before: occurrence(name, &[(Part::Body, "old")]),
                after: occurrence(name, &[(Part::Body, "new")]),
            },
            change,
            reached: None,
            mark,
            parent: None,
        },
    )
}

fn small_review() -> Review {
    let broke = Change::Kept(Edits { contract_changed: true, ..Edits::default() });
    let body = Change::Kept(Edits { parts: vec![Part::Body], ..Edits::default() });
    Review {
        title: Some("Tidy up".to_string()),
        definitions: vec![entry(0, "total", body.clone()), entry(1, "price", broke), entry(2, "tax", body)],
        reading: vec![
            Step { definition: Identity(1), on_faith: Vec::new() },
            Step { definition: Identity(2), on_faith: Vec::new() },
            Step { definition: Identity(0), on_faith: vec![Identity(2)] },
        ],
        edges: vec![Edge { from: Identity(0), to: Identity(1) }, Edge { from: Identity(0), to: Identity(2) }],
        groups: Vec::new(),
        grouping: None,
        ripples: 1,
        cost: Cost { peak_open: 1, total_open: 2, taken_on_faith: 1, jumps: 0 },
        warnings: vec![
            Warning { impact: Impact::Degraded, message: "worked out from text".to_string(), about: None },
            Warning { impact: Impact::Incomplete, message: "lines nobody claims".to_string(), about: None },
        ],
    }
}

#[test]
fn dependencies_come_from_the_edges_and_breaks_from_the_changes() {
    let review = small_review();
    assert_eq!(depends_on(&review, Identity(0)), vec![Identity(1), Identity(2)]);
    assert_eq!(broken_by(&review, Identity(0)), vec![Identity(1)]);
    assert!(depends_on(&review, Identity(2)).is_empty());
}

#[test]
fn the_summary_counts_lists_and_warns_hiding_things_first() {
    let review = small_review();
    let said = dagger::report::summary(&review);
    let lines: Vec<&str> = said.lines().collect();
    assert_eq!(lines[0], "3 definitions, 3 to read (3 changed, 0 reached)");
    assert_eq!(lines[2], "at most 1 held in mind at once, 1 read early, 0 jumps between files");
    assert_eq!(lines[4], format!("  1. ! {:<44} money.ts", "price"));
    assert_eq!(lines[6], format!("  3. ~ {:<44} money.ts (1 not read yet)", "total"));
    assert_eq!(lines[8], "1 things this review might not be showing:");
    assert_eq!(lines[9], "  lines nobody claims");
    assert_eq!(lines[11], "1 worked out a weaker way:");
}

#[test]
fn markdown_tells_the_story_in_reading_order() {
    let review = small_review();
    let md = dagger::md::render(&review);
    assert!(md.starts_with("# Tidy up\n\n3 definitions to read, in the order below. Marks: + added, "));
    assert!(md.contains("## 1. ! price `money.ts`\n\n```diff\n- old\n+ new\n```\n\n"));
    assert!(md.contains("## 3. ~ total `money.ts`\n\nDepends on contracts that changed: price.\n\nDepends on: tax.\n\nTaken on faith (a cycle): tax.\n\n"));
    assert!(md.ends_with("## Warnings\n\n- worked out from text\n- lines nobody claims\n"));
}

#[test]
fn a_glyph_is_louder_for_a_contract_than_a_body() {
    assert_eq!(glyph(&Change::Added), '+');
    assert_eq!(glyph(&Change::Removed), '-');
    assert_eq!(glyph(&Change::Kept(Edits { contract_changed: true, ..Edits::default() })), '!');
    assert_eq!(glyph(&Change::Kept(Edits { parts: vec![Part::Docs], ..Edits::default() })), '"');
    assert_eq!(glyph(&Change::Kept(Edits::default())), '.');
    assert_eq!(Mark::Reached.glyph(), '=');
}

#[test]
fn a_step_is_shown_with_its_place_dependencies_and_change() {
    let review = small_review();
    let plain = Paint::new(false, false);
    assert_eq!(
        dagger::walk::shown(&review, 2, &plain),
        "\n3/3 ~ total  money.ts\n  broken by: price\n  depends on: tax (not yet read)\n\n  - old\n  + new\n"
    );
    assert_eq!(dagger::walk::shown(&review, 0, &plain), "\n1/3 ! price  money.ts\n\n  - old\n  + new\n");
}
