use dagger::model::{Locator, Occurrence, Part, Parts, Piece, Role, Span};

fn at(file: &str, start: u32, end: u32) -> Piece {
    Piece { text: String::new(), span: Span { start, end }, line: 1, file: file.to_string() }
}

fn spread(pieces: Vec<Piece>) -> Occurrence {
    Occurrence {
        locator: Locator { scope: Vec::new(), name: "one".to_string() },
        role: Role::Item,
        parent: None,
        kind: "function".to_string(),
        file: "own.c".to_string(),
        parts: Parts { contract: Some(pieces), body: None, docs: None },
        contract_from_compiler: None,
    }
}

/* A part that leaves its own file and comes back sits in two files, not three. Counted
 * as three, comparing one side against the other says it moved when nothing did. */
#[test]
fn a_part_that_returns_to_a_file_is_not_in_it_twice() {
    let occurrence = spread(vec![at("own.c", 0, 1), at("other.h", 0, 1), at("own.c", 2, 3)]);
    assert_eq!(occurrence.files_of(Part::Contract), ["other.h", "own.c"]);
}

#[test]
fn pieces_come_in_order_of_file_then_of_where_they_start() {
    let mut occurrence = spread(vec![at("own.c", 5, 6), at("other.h", 0, 1), at("own.c", 2, 3)]);
    occurrence.parts.body = Some(vec![at("own.c", 2, 4)]);
    let pieces: Vec<(String, u32, u32)> =
        occurrence.pieces().iter().map(|p| (p.file.clone(), p.span.start, p.span.end)).collect();
    assert_eq!(
        pieces,
        vec![
            ("other.h".to_string(), 0, 1),
            ("own.c".to_string(), 2, 3),
            ("own.c".to_string(), 2, 4),
            ("own.c".to_string(), 5, 6),
        ]
    );
}

#[test]
fn a_locator_is_written_with_its_scope() {
    let locator = Locator { scope: vec!["money".to_string(), "cart".to_string()], name: "total".to_string() };
    assert_eq!(locator.written(), "money::cart::total");
}
