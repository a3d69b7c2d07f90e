use dagger::fallback::{extract, occurrence, segments};
use dagger::grouping::{ancestor_dirs, group_of, of};
use dagger::model::{Definition, Identity, Part, Role, Sides};

#[test]
fn a_path_is_cut_into_the_names_it_is_made_of() {
    assert_eq!(segments("src/a/b.rs"), vec!["src", "a", "b.rs"]);
    assert_eq!(segments("./src//b.rs"), vec!["src", "b.rs"]);
    assert_eq!(segments(""), Vec::<String>::new());
}

#[test]
fn a_file_nobody_claimed_is_one_body_named_after_it() {
    let found = occurrence("src/util/notes.txt", "hello\nthere\n").expect("a file");
    assert_eq!(found.locator.scope, vec!["src", "util"]);
    assert_eq!(found.locator.name, "notes.txt");
    assert_eq!(found.role, Role::Item);
    assert_eq!(found.parent, None);
    assert_eq!(found.kind, "file");
    assert_eq!(found.file, "src/util/notes.txt");
    assert_eq!(found.contract_from_compiler, None);
    assert_eq!(found.parts.get(Part::Contract), None);
    assert_eq!(found.parts.get(Part::Docs), None);
    let body = found.parts.get(Part::Body).expect("a body");
    assert_eq!(body.len(), 1);
    assert_eq!(body[0].text, "hello\nthere\n");
    assert_eq!(body[0].span.start, 0);
    assert_eq!(body[0].span.end, 12);
    assert_eq!(body[0].line, 1);
}

#[test]
fn a_span_counts_bytes_not_characters() {
    let found = occurrence("é.txt", "é").expect("a file");
    let body = found.parts.get(Part::Body).expect("a body");
    assert_eq!(body[0].span.end, 2);
}

#[test]
fn a_path_naming_no_file_reads_as_nothing() {
    assert!(occurrence("", "x").is_none());
    assert!(occurrence("src/..", "x").is_none());
}

#[test]
fn files_are_read_in_order_and_the_unnamed_skipped() {
    let found = extract(&vec![
        ("b.txt".to_string(), "b".to_string()),
        ("".to_string(), "nothing".to_string()),
        ("a.txt".to_string(), "a".to_string()),
    ]);
    let names: Vec<String> = found.occurrences.iter().map(|o| o.locator.name.clone()).collect();
    assert_eq!(names, vec!["b.txt", "a.txt"]);
    assert!(found.mentions.is_empty());
}

#[test]
fn the_directories_above_a_file_come_nearest_first() {
    assert_eq!(ancestor_dirs("a/b/c.rs"), vec!["a/b", "a", ""]);
    assert_eq!(ancestor_dirs("c.rs"), vec![""]);
    assert_eq!(ancestor_dirs(""), Vec::<String>::new());
}

#[test]
fn the_nearest_marked_directory_is_the_group() {
    let marked = vec!["a".to_string(), "a/b".to_string()];
    assert_eq!(group_of("a/b/c/d.rs", &marked), vec!["a", "b"]);
    assert_eq!(group_of("a/x/d.rs", &marked), vec!["a"]);
}

#[test]
fn with_no_marker_a_file_is_grouped_by_its_own_directory() {
    assert_eq!(group_of("x/y/z.c", &Vec::new()), vec!["x", "y"]);
    assert_eq!(group_of("top.c", &Vec::new()), Vec::<String>::new());
}

#[test]
fn a_marker_at_the_top_puts_everything_below_in_one_group() {
    let marked = vec!["".to_string()];
    assert_eq!(group_of("x/y/z.c", &marked), Vec::<String>::new());
}

#[test]
fn each_definition_is_grouped_by_where_it_now_lives() {
    let was = occurrence("old/f.rs", "fn f() {}").unwrap();
    let is = occurrence("new/f.rs", "fn f() {}").unwrap();
    let defs = vec![Definition { identity: Identity(7), sides: Sides::Kept { before: was, after: is } }];
    let grouping = of("package", &defs, &vec!["new".to_string()]);
    assert_eq!(grouping.name, "package");
    assert_eq!(grouping.of, vec![(Identity(7), vec!["new".to_string()])]);
}
