use dagger::lsp::{holds, kind_of, language_of, relative, uri};

#[test]
fn a_language_is_guessed_from_the_extension() {
    assert_eq!(language_of("src/money.ts"), "typescript");
    assert_eq!(language_of("src/App.tsx"), "typescriptreact");
    assert_eq!(language_of("main.rs"), "rust");
    assert_eq!(language_of("Makefile"), "plaintext");
}

#[test]
fn the_last_dot_decides_the_language() {
    assert_eq!(language_of("lib.d.ts"), "typescript");
    assert_eq!(language_of("money.h"), "c");
    assert_eq!(language_of("money.hpp"), "cpp");
    assert_eq!(language_of("archive."), "plaintext");
}

#[test]
fn boxes_are_the_kinds_that_hold_definitions() {
    for kind in ["class", "namespace", "module", "package", "file"] {
        assert!(holds(kind), "{kind} holds others");
    }
    for kind in ["interface", "function", "variable", "Class"] {
        assert!(!holds(kind), "{kind} holds nothing");
    }
}

#[test]
fn the_protocols_numbers_read_as_words() {
    assert_eq!(kind_of(5), "class");
    assert_eq!(kind_of(12), "function");
    assert_eq!(kind_of(22), "enum member");
    assert_eq!(kind_of(26), "type parameter");
    assert_eq!(kind_of(0), "definition");
    assert_eq!(kind_of(99), "definition");
}

#[test]
fn a_path_becomes_a_file_uri_and_back() {
    assert_eq!(uri("/repo/src/money.ts"), "file:///repo/src/money.ts");
    assert_eq!(relative("file:///repo/src/money.ts", "/repo"), Some("src/money.ts".to_string()));
    assert_eq!(relative("file:///elsewhere/money.ts", "/repo"), None);
    assert_eq!(relative("https://repo/money.ts", "/repo"), None);
    assert_eq!(relative("file:///repository/money.ts", "/repo"), None);
}
