use dagger::items::{read, Found};
use dagger::model::Part;

/// Everything one file yields, the module first, then whatever it holds.
fn read_all(source: &str) -> Vec<Found> {
    read(source, &vec!["thing".to_string()]).expect("the source should parse")
}

fn named<'a>(found: &'a [Found], name: &str) -> &'a Found {
    found
        .iter()
        .find(|one| one.name == name)
        .unwrap_or_else(|| panic!("nothing called {name} in {:?}", names(found)))
}

fn names(found: &[Found]) -> Vec<&str> {
    found.iter().map(|one| one.name.as_str()).collect()
}

fn part<'a>(found: &'a Found, part: Part) -> Option<&'a Vec<(usize, usize)>> {
    found.parts.iter().find(|(p, _)| *p == part).map(|(_, ranges)| ranges)
}

fn text(source: &str, range: (usize, usize)) -> &str {
    &source[range.0..range.1]
}

/// What a reader would be shown, with a marker wherever the parts don't meet.
fn shown(source: &str, found: &Found) -> String {
    let mut pieces: Vec<(usize, usize)> = found.parts.iter().flat_map(|(_, r)| r.iter().copied()).collect();
    pieces.sort_by_key(|range| range.0);

    let mut out = String::new();
    let mut last: Option<usize> = None;
    for piece in pieces {
        if last.is_some_and(|end| piece.0 > end) {
            out.push('…');
        }
        out.push_str(text(source, piece));
        last = Some(piece.1);
    }
    out
}

#[test]
fn the_parts_of_a_definition_meet() {
    let source = "/// Adds them up.\npub fn add(a: u8, b: u8) -> u8 {\n    a + b\n}\n";
    let found = read_all(source);

    assert_eq!(shown(source, named(&found, "add")), source.trim_end());
}

#[test]
fn prose_is_docs_and_the_signature_is_the_contract() {
    let source = "/// Adds them up.\npub fn add(a: u8) -> u8 {\n    a\n}\n";
    let found = read_all(source);
    let add = named(&found, "add");

    assert!(text(source, part(add, Part::Docs).unwrap()[0]).contains("Adds them up"));
    assert!(text(source, part(add, Part::Contract).unwrap()[0]).contains("pub fn add(a: u8) -> u8"));
    assert!(text(source, part(add, Part::Body).unwrap()[0]).starts_with('{'));
}

#[test]
fn a_struct_has_no_workings() {
    let source = "/// Money.\npub struct Money {\n    pub pence: u8,\n}\n";
    let found = read_all(source);
    let money = named(&found, "Money");

    assert!(part(money, Part::Body).is_none());
    assert!(text(source, part(money, Part::Contract).unwrap()[0]).contains("pub pence"));
    assert_eq!(shown(source, money), source.trim_end());
}

#[test]
fn a_struct_holds_no_definitions_of_its_own() {
    let found = read_all("pub struct Money {\n    pub pence: u8,\n}\n");
    assert_eq!(names(&found), vec!["thing", "Money"]);
}

#[test]
fn a_run_of_declarations_is_one_stretch() {
    let source = "pub mod one;\npub mod two;\npub mod three;\n";
    let found = read_all(source);

    assert_eq!(shown(source, named(&found, "thing")), source.trim_end());
}

#[test]
fn a_modules_prose_reaches_what_it_introduces() {
    let source = "//! About this.\n\nuse std::fmt;\n";
    let found = read_all(source);

    assert_eq!(shown(source, named(&found, "thing")), source.trim_end());
}

#[test]
fn a_public_import_is_contract_and_a_private_one_is_not() {
    let source = "pub use one::Thing;\nuse two::Other;\n";
    let found = read_all(source);
    let module = named(&found, "thing");

    assert!(text(source, part(module, Part::Contract).unwrap()[0]).contains("pub use one::Thing"));
    assert!(text(source, part(module, Part::Body).unwrap()[0]).contains("use two::Other"));
}

#[test]
fn an_implementation_claims_its_header_and_its_brace() {
    let source = "impl Money {\n    pub fn pence(&self) -> u8 {\n        0\n    }\n}\n";
    let found = read_all(source);

    assert_eq!(names(&found), vec!["thing", "impl Money", "pence"]);
    assert_eq!(shown(source, named(&found, "impl Money")), "impl Money…}");
}

#[test]
fn an_implementation_says_what_it_implements() {
    let found = read_all("impl fmt::Display for Money {\n    fn fmt(&self) {}\n}\n");

    assert_eq!(named(&found, "impl Money as Display").kind, "impl");
    assert_eq!(named(&found, "fmt").scope, vec!["thing", "Money as Display"]);
}

#[test]
fn two_blocks_for_one_type_are_one_definition() {
    let found = read_all("impl Money {\n    fn a(&self) {}\n}\nimpl Money {\n    fn b(&self) {}\n}\n");

    assert_eq!(found.iter().filter(|one| one.name == "impl Money").count(), 1);
    assert_eq!(names(&found), vec!["thing", "impl Money", "a", "b"]);
}

#[test]
fn a_module_and_an_implementation_cant_be_asked_about() {
    let found = read_all("impl Money {\n    fn a(&self) {}\n}\n");

    assert!(!named(&found, "thing").referenceable());
    assert!(!named(&found, "impl Money").referenceable());
    assert!(named(&found, "a").referenceable());
}

#[test]
fn an_inline_module_holds_its_own() {
    let found = read_all("mod inner {\n    pub fn deep() {}\n}\n");

    assert_eq!(named(&found, "inner").kind, "module");
    assert_eq!(named(&found, "deep").scope, vec!["thing", "inner"]);
}

#[test]
fn a_declaration_wins_where_parts_overlap() {
    let source = "pub fn add(a: u8) -> u8 {\n    a\n}\n";
    let found = read_all(source);
    let add = named(&found, "add");

    assert_eq!(add.part_at(0), Some(Part::Contract));
    assert_eq!(add.part_at(source.find("    a").unwrap()), Some(Part::Body));
}

#[test]
fn merged_stretches_come_in_order_of_where_they_start() {
    let source = "impl Money {\n    fn a(&self) {}\n}\nimpl Money {\n    fn b(&self) {}\n}\n";
    let found = read_all(source);
    let block = named(&found, "impl Money");
    let contract = part(block, Part::Contract).unwrap();
    assert_eq!(contract.len(), 4);
    assert!(contract.windows(2).all(|w| w[0].0 <= w[1].0));
    assert_eq!(block.extent(), (0, source.trim_end().len()));
}

#[test]
fn a_source_that_does_not_parse_gives_nothing() {
    assert!(read("fn (", &vec!["thing".to_string()]).is_none());
}

#[test]
fn a_nameless_path_gives_no_module_of_its_own() {
    let found = read("pub fn add() {}\n", &Vec::new()).unwrap();
    assert_eq!(names(&found), vec!["add"]);
}

#[test]
fn a_plain_comment_above_a_definition_is_its_prose() {
    let source = "// Adds them up.\npub fn add(a: u8) -> u8 {\n    a\n}\n";
    let found = dagger::items::parse(source, &vec!["thing".to_string()]).unwrap();
    let add = named(&found, "add");
    let docs = part(add, Part::Docs).expect("the comment should be prose");
    assert!(text(source, docs[0]).contains("Adds them up"));
    let plain = read_all(source);
    assert!(part(named(&plain, "add"), Part::Docs).is_none());
}

#[test]
fn a_method_is_written_inside_its_implementation() {
    let source = "impl Money {\n    fn a(&self) {}\n}\n";
    let found = read_all(source);
    assert_eq!(dagger::items::holding(&found, 2), Some(1));
    assert_eq!(dagger::items::holding(&found, 1), None);

    let lines = dagger::lines::Lines::new(source);
    let contracts = vec![(
        dagger::model::Locator { scope: vec!["thing".to_string(), "Money".to_string()], name: "a".to_string() },
        "fn a(&self)".to_string(),
    )];
    let o = dagger::items::occurrence(&lines, "src/money.rs", &found, 2, &contracts).unwrap();
    assert_eq!(o.locator.name, "a");
    assert_eq!(o.locator.scope, vec!["thing", "Money"]);
    assert_eq!(o.parent.unwrap().name, "impl Money");
    assert_eq!(o.role, dagger::model::Role::Item);
    assert_eq!(o.kind, "method");
    assert_eq!(o.file, "src/money.rs");
    assert_eq!(o.contract_from_compiler, Some("fn a(&self)".to_string()));
    let body = o.parts.body.unwrap();
    assert_eq!(body[0].text, "{}");
    assert_eq!(body[0].line, 2);

    let block = dagger::items::occurrence(&lines, "src/money.rs", &found, 1, &contracts).unwrap();
    assert_eq!(block.role, dagger::model::Role::Container);
    assert!(block.contract_from_compiler.is_none());
    assert_eq!(dagger::items::role_of("trait"), dagger::model::Role::Container);
    assert_eq!(dagger::items::role_of("fn"), dagger::model::Role::Item);
}
