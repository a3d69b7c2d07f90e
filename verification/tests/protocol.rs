use dagger::protocol::Progress;

#[test]
fn rendering_matches_what_adapters_used_to_write_by_hand() {
    assert_eq!(
        Progress::StartingServer { name: "rust-analyzer".to_string() }.render(),
        "  starting rust-analyzer"
    );
    assert_eq!(
        Progress::Indexing { name: "rust-analyzer".to_string() }.render(),
        "  waiting for rust-analyzer to index"
    );
    assert_eq!(Progress::Walked { done: 3, known: 5, opened: 7 }.render(), "  walked 3 of 5 files, opened 7");
    assert_eq!(
        Progress::Finished { files: 8, definitions: 141 }.render(),
        "  read 8 files, found 141 definitions"
    );
}

#[test]
fn large_and_zero_counts_are_written_in_full() {
    assert_eq!(Progress::Walked { done: 0, known: 1000, opened: 10 }.render(), "  walked 0 of 1000 files, opened 10");
}
