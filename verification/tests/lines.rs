use dagger::hover::fenced;
use dagger::lines::Lines;

const SOURCE: &str = "export function zero() {\n  return 0;\n}\n";

#[test]
fn a_type_stops_at_the_documentation() {
    let hover = "```ts\nfunction add(a: number): number\n```\n---\nAdds.\n\n```ts\nadd(1)\n```";

    assert_eq!(
        fenced(Some(hover), None).as_deref(),
        Some("function add(a: number): number")
    );
}

/* Servers often put the definition's module in a block of its own first. */
#[test]
fn the_last_block_before_the_rule_is_the_declaration() {
    let hover = "```ts\nmodule \"money\"\n```\n```ts\nconst pence: number\n```";

    assert_eq!(fenced(Some(hover), None).as_deref(), Some("const pence: number"));
}

#[test]
fn a_hover_with_nothing_fenced_says_nothing() {
    assert_eq!(fenced(Some("Adds."), None), None);
}

#[test]
fn only_fences_in_the_language_asked_for_open_a_block() {
    let hover = "```text\nnot this\n```\n```rust\nfn add(a: u8) -> u8\n```";

    assert_eq!(
        fenced(Some(hover), Some("rust")).as_deref(),
        Some("fn add(a: u8) -> u8")
    );
}

#[test]
fn a_hover_without_markdown_says_nothing() {
    assert_eq!(fenced(None, None), None);
}

#[test]
fn a_block_of_several_lines_keeps_its_line_breaks() {
    let hover = "```ts\ninterface Money {\n  pence: number\n}\n```";
    assert_eq!(
        fenced(Some(hover), Some("ts")).as_deref(),
        Some("interface Money {\n  pence: number\n}")
    );
}

#[test]
fn an_empty_block_is_passed_over_for_an_earlier_one() {
    let hover = "```ts\nconst pence: number\n```\n```ts\n```";
    assert_eq!(fenced(Some(hover), None).as_deref(), Some("const pence: number"));
}

#[test]
fn a_position_and_an_offset_mean_the_same_spot() {
    let lines = Lines::new(SOURCE);

    for (line, column) in [(0, 0), (0, 16), (1, 2), (2, 0)] {
        let offset = lines.offset(line, column);
        assert_eq!(
            lines.position(offset),
            (line, column),
            "{line}:{column} didn't survive the round trip"
        );
    }
}

#[test]
fn an_offset_lands_where_the_name_starts() {
    let lines = Lines::new(SOURCE);
    let at = lines.offset(0, 16);

    assert!(SOURCE[at..].starts_with("zero"));
}

/// Columns in the protocol count UTF-16 units, so anything outside the basic plane
/// counts twice. Getting this wrong shifts every position after it on the line.
#[test]
fn columns_count_the_way_the_protocol_counts() {
    let source = "const 🎉 = \"party\";\nconst after = 1;\n";
    let lines = Lines::new(source);

    // The emoji is two UTF-16 units, so `=` sits at column 9 rather than 8.
    let equals = lines.offset(0, 9);
    assert_eq!(&source[equals..equals + 1], "=");
    assert_eq!(lines.position(equals), (0, 9));
}

#[test]
fn a_line_past_the_end_lands_at_the_end() {
    let lines = Lines::new(SOURCE);

    assert_eq!(lines.offset(99, 0), SOURCE.len());
}

#[test]
fn every_character_start_comes_back_from_its_position() {
    let source = "const 🎉 = \"é\";\nnext\n";
    let lines = Lines::new(source);
    for (at, _) in source.char_indices() {
        let (line, column) = lines.position(at);
        assert_eq!(lines.offset(line, column), at);
    }
    let (line, column) = lines.position(source.len());
    assert_eq!(lines.offset(line, column), source.len());
}

#[test]
fn a_piece_says_its_text_span_line_and_file() {
    let lines = Lines::new(SOURCE);
    let piece = lines.piece("zero.ts", &(27..36));
    assert_eq!(piece.text, "return 0;");
    assert_eq!(piece.span.start, 27);
    assert_eq!(piece.span.end, 36);
    assert_eq!(piece.line, 2);
    assert_eq!(piece.file, "zero.ts");
    assert_eq!(lines.slice(&(16..20)), "zero");
    assert_eq!(lines.text(), SOURCE);
}

#[test]
fn a_column_past_the_line_runs_into_the_next() {
    let lines = Lines::new("ab\ncd");
    assert_eq!(lines.offset(0, 4), 4);
    assert_eq!(lines.offset(1, 9), 5);
}
