use dagger::assign::assign;

fn strings(words: &[&str]) -> Vec<String> {
    words.iter().map(|w| w.to_string()).collect()
}

#[test]
fn the_last_claim_wins_and_the_rest_is_read_whole() {
    let files = strings(&["src/a.rs", "src/b.ts", "web/c.ts", "README.md", "target/x.rs"]);
    let includes = vec![strings(&["**/*.ts", "**/*.rs"]), strings(&["web/**"])];
    let got = assign(&strings(&["target/**"]), &includes, &files).unwrap();
    assert_eq!(got.extractors, vec![strings(&["src/a.rs", "src/b.ts"]), strings(&["web/c.ts"])]);
    assert_eq!(got.fallback, strings(&["README.md"]));
    assert_eq!(got.ignored, 1);
}

#[test]
fn a_bad_pattern_is_named() {
    let files = strings(&["a.rs"]);
    let said = assign(&strings(&["ok/**"]), &vec![strings(&["[unclosed"])], &files).unwrap_err();
    assert_eq!(said, "[unclosed isn't a valid pattern");
    let first = assign(&strings(&["***bad"]), &vec![strings(&["[unclosed"])], &files).unwrap_err();
    assert_eq!(first, "***bad isn't a valid pattern");
}

#[test]
fn nothing_configured_reads_everything_whole() {
    let files = strings(&["a.rs", "b.rs"]);
    let got = assign(&Vec::new(), &Vec::new(), &files).unwrap();
    assert!(got.extractors.is_empty());
    assert_eq!(got.fallback, files);
    assert_eq!(got.ignored, 0);
}
