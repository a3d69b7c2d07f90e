use dagger::lines::Lines;
use dagger::lsp::relative;
use dagger::model::{Part, Role};
use dagger::opened::{borrowed, claimed, definitions, kept, leftovers, module, module_of, path_scope, Place};
use dagger::prose::preamble;
use dagger::symbols::{read, Reported, Stretch, Symbol};
use std::ops::Range;

/// Where a piece of text sits, as a server would say it: a line and a character.
fn spot(source: &str, at: usize) -> (u64, u64) {
    let before = &source[..at];
    let line = before.matches('\n').count() as u64;
    let column = (at - before.rfind('\n').map_or(0, |found| found + 1)) as u64;
    (line, column)
}

/// A symbol as a server reports one, located by searching for its text in the source.
fn reported(source: &str, name: &str, kind: u64, whole: &str) -> Reported {
    let from = source.find(whole).expect("the source should hold it");
    let (line, column) = spot(source, from);
    let (ends, at_end) = spot(source, from + whole.len());
    let (named, at_name) = spot(source, source.find(name).expect("named"));
    Reported {
        name: Some(name.to_string()),
        kind,
        range: Some(Stretch { start_line: line, start_character: column, end_line: ends, end_character: at_end }),
        location_range: None,
        selection: Some(Stretch {
            start_line: named,
            start_character: at_name,
            end_line: named,
            end_character: at_name + name.len() as u64,
        }),
        children: Vec::new(),
    }
}

fn opened(source: &str, reported: Vec<Reported>) -> (Lines, Vec<Symbol>) {
    let lines = Lines::new(source);
    let scope = vec!["src".to_string(), "money".to_string()];
    let items = read(&reported, &lines, &scope);
    (lines, items)
}

fn preambles(file: &(Lines, Vec<Symbol>)) -> Vec<String> {
    let (lines, items) = file;
    let wholes: Vec<Range<usize>> = items.iter().map(|symbol| symbol.whole.clone()).collect();
    items
        .iter()
        .filter_map(|symbol| preamble(lines.text(), &symbol.whole, &wholes))
        .map(|range| lines.slice(&range).to_string())
        .collect()
}

#[test]
fn what_is_written_above_a_definition_belongs_to_it() {
    let source = "/** Money. */\nexport interface Money {\n  pence: number;\n}\n";
    let file = opened(source, vec![reported(source, "Money", 11, "export interface Money {\n  pence: number;\n}")]);

    assert_eq!(preambles(&file), vec!["/** Money. */\n"]);
}

#[test]
fn a_blank_line_ends_the_preamble() {
    let source = "// About the file.\n\n/** Money. */\nexport interface Money {}\n";
    let file = opened(source, vec![reported(source, "Money", 11, "export interface Money {}")]);

    assert_eq!(preambles(&file), vec!["/** Money. */\n"]);
}

#[test]
fn a_preamble_never_takes_another_definitions_line() {
    let source = "export const one = 1;\nexport const two = 2;\n";
    let file = opened(
        source,
        vec![reported(source, "one", 13, "export const one = 1;"), reported(source, "two", 13, "export const two = 2;")],
    );

    assert!(preambles(&file).is_empty());
}

#[test]
fn a_preamble_stops_at_the_line_not_the_name() {
    let source = "/** Both. */\nconst [one, two] = pair();\n";
    let file = opened(source, vec![reported(source, "one", 13, "one"), reported(source, "two", 13, "two")]);

    assert_eq!(preambles(&file), vec!["/** Both. */\n", "/** Both. */\n"]);
}

#[test]
fn a_preamble_inside_something_else_keeps_its_place() {
    let source = "class Money {\n  /** Pence. */\n  pence() {}\n}\n";
    let mut money = reported(source, "Money", 5, source.trim_end());
    money.children = vec![reported(source, "pence", 6, "pence() {}")];
    let file = opened(source, vec![money]);

    assert_eq!(preambles(&file), vec!["  /** Pence. */\n"]);
}

#[test]
fn nothing_is_taken_from_the_definition_above() {
    let source = "/** One. */\nconst one = 1;\nconst two = 2;\n";
    let file = opened(source, vec![reported(source, "one", 13, "one = 1"), reported(source, "two", 13, "two = 2")]);

    assert_eq!(preambles(&file), vec!["/** One. */\n"]);
}

#[test]
fn a_uri_comes_back_as_a_path_inside_the_snapshot() {
    let root = "/tmp/dagger-1";

    assert_eq!(relative("file:///tmp/dagger-1/src/money.ts", root).as_deref(), Some("src/money.ts"));
    assert_eq!(relative("file:///elsewhere/money.ts", root), None);
}

const PATH: &str = "src/money.ts";

#[test]
fn a_module_keeps_only_what_nobody_else_claims() {
    let source = "import { a } from \"./a\";\n\n/** Money. */\nexport interface Money {}\n";
    let (lines, items) = opened(source, vec![reported(source, "Money", 11, "export interface Money {}")]);

    let left: Vec<String> = leftovers(&lines, &items).iter().map(|range| lines.slice(range).to_string()).collect();
    assert_eq!(left, vec!["import { a } from \"./a\";\n\n"]);
}

#[test]
fn a_module_is_named_after_its_file() {
    let source = "import { a } from \"./a\";\n";
    let (lines, items) = opened(source, Vec::new());
    let module = module(&lines, PATH, &items).expect("a module");

    assert_eq!(module.locator.name, "money");
    assert_eq!(module.locator.scope, vec!["src"]);
}

#[test]
fn a_file_with_nothing_left_over_has_no_module() {
    let source = "export interface Money {}\n";
    let (lines, items) = opened(source, vec![reported(source, "Money", 11, "export interface Money {}")]);

    assert!(module(&lines, PATH, &items).is_none());
}

#[test]
fn a_files_scope_is_its_path_without_the_extension() {
    assert_eq!(path_scope("src/money.ts"), vec!["src", "money"]);
    assert_eq!(path_scope("src/lib.d.ts"), vec!["src", "lib.d"]);
    assert_eq!(path_scope("src/.hidden"), vec!["src", ".hidden"]);
    assert_eq!(path_scope("Makefile"), vec!["Makefile"]);
    assert!(module_of("").is_none());
    let named = module_of("a/b/c.rs").expect("a module");
    assert_eq!(named.scope, vec!["a", "b"]);
    assert_eq!(named.name, "c");
}

#[test]
fn a_definition_claims_its_whole_lines() {
    let source = "const one = 1;\nconst two = 2;\n";
    let (lines, items) = opened(source, vec![reported(source, "two", 13, "two = 2")]);
    assert_eq!(claimed(&lines, &items), vec![15..30]);
}

#[test]
fn a_function_reads_as_declaration_body_and_docs() {
    let source = "import { x } from \"./x\";\n\n/** Adds. */\nexport function add(a: number) {\n  return a;\n}\n";
    let (lines, items) = opened(
        source,
        vec![reported(source, "add", 12, "function add(a: number) {\n  return a;\n}")],
    );
    let contracts = vec![(items[0].locator.clone(), "function add(a: number): number".to_string())];
    let found = definitions(&lines, PATH, &items, &contracts);
    assert_eq!(found.len(), 2);

    let add = &found[0];
    assert_eq!(add.locator.name, "add");
    assert_eq!(add.locator.scope, vec!["src", "money"]);
    assert_eq!(add.role, Role::Item);
    assert_eq!(add.kind, "function");
    assert_eq!(add.file, PATH);
    assert_eq!(add.contract_from_compiler.as_deref(), Some("function add(a: number): number"));
    let parent = add.parent.clone().expect("the file's module holds it");
    assert_eq!(parent.name, "money");
    let declared = add.parts.get(Part::Contract).expect("a declaration");
    assert_eq!(declared[0].text, "export function add(a: number) ");
    assert_eq!(declared[0].line, 4);
    let body = add.parts.get(Part::Body).expect("a body");
    assert_eq!(body[0].text, "{\n  return a;\n}");
    let docs = add.parts.get(Part::Docs).expect("docs");
    assert_eq!(docs[0].text, "/** Adds. */\n");

    let module = &found[1];
    assert_eq!(module.kind, "module");
    assert_eq!(module.role, Role::Container);
    let held = module.parts.get(Part::Body).expect("what is left over");
    assert_eq!(held[0].text, "import { x } from \"./x\";\n\n");
}

#[test]
fn a_name_defined_in_another_file_or_line_is_borrowed() {
    let source = "import { a } from \"./a\";\nexport const b = a;\n";
    let (lines, items) = opened(source, vec![reported(source, "b", 14, "const b = a;")]);
    let b = &items[0];
    let here = |line: u64, uri: &str| Place { uri: Some(uri.to_string()), line: Some(line) };

    assert_eq!(borrowed(&lines, PATH, b, &None), None);
    assert_eq!(borrowed(&lines, PATH, b, &Some(vec![here(1, "file:///repo/src/money.ts")])), Some(false));
    assert_eq!(borrowed(&lines, PATH, b, &Some(vec![here(1, "file:///repo/src/other.ts")])), Some(true));
    assert_eq!(borrowed(&lines, PATH, b, &Some(vec![here(0, "file:///repo/src/money.ts")])), Some(true));
    assert_eq!(borrowed(&lines, PATH, b, &Some(vec![Place { uri: None, line: None }])), Some(false));
}

#[test]
fn a_symbol_that_is_only_its_name_is_an_import() {
    let source = "import { a } from \"./a\";\n";
    let (lines, items) = opened(source, vec![reported(source, "a", 13, "a")]);
    assert_eq!(borrowed(&lines, PATH, &items[0], &None), Some(true));
}

#[test]
fn only_traced_definitions_are_kept_and_the_rest_are_noted() {
    let source = "fn one() {}\nfn two() {}\nfn three() {}\n";
    let (_, items) = opened(
        source,
        vec![
            reported(source, "one", 12, "fn one() {}"),
            reported(source, "two", 12, "fn two() {}"),
            reported(source, "three", 12, "fn three() {}"),
        ],
    );
    let (kept_items, note) = kept(items, &vec![Some(false), None, Some(true)], "src/money.rs");
    let names: Vec<&str> = kept_items.iter().map(|s| s.name.as_str()).collect();
    assert_eq!(names, vec!["one"]);
    let note = note.expect("one name was left out");
    assert_eq!(note.message, "src/money.rs: a name could not be traced to a definition, so left out: two");
    assert_eq!(note.file, Some("src/money.rs".to_string()));
}

#[test]
fn a_second_definition_with_the_same_name_is_dropped() {
    let source = "fn one() {}\nfn one() {}\nfn two() {}\n";
    let first = reported(source, "one", 12, "fn one() {}");
    let mut second = reported(source, "two", 12, "fn two() {}");
    second.name = Some("one".to_string());
    let (_, items) = opened(source, vec![first, second]);
    let (kept_items, note) = kept(items, &vec![Some(false), Some(false)], "src/money.rs");
    assert_eq!(kept_items.len(), 1);
    assert!(note.is_none());

    let (_, items) = opened(source, vec![reported(source, "one", 12, "fn one() {}"), reported(source, "two", 12, "fn two() {}")]);
    let (_, note) = kept(items, &vec![None, None], "a.rs");
    assert_eq!(note.unwrap().message, "a.rs: names could not be traced to a definition, so left out: one, two");
}
