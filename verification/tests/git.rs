use dagger::git::{read, span, Ends};

fn asked(words: &[&str]) -> Vec<String> {
    words.iter().map(|word| word.to_string()).collect()
}

fn ends(left: &str, right: &str, parted: bool) -> Ends {
    Ends { left: left.to_string(), right: right.to_string(), parted }
}

#[test]
fn lib_a_branch_is_read_against_the_trunk() {
    let words = asked(&["branch", "feature"]);
    assert_eq!(read(&words).unwrap(), ends("", "feature", true));
}

#[test]
fn lib_two_commits_are_those_two() {
    let words = asked(&["commits", "a", "b"]);
    assert_eq!(read(&words).unwrap(), ends("a", "b", false));
}

#[test]
fn lib_gits_own_ranges_are_understood() {
    let two = asked(&["commits", "main..feature"]);
    assert_eq!(read(&two).unwrap(), ends("main", "feature", false));
    let three = asked(&["main...feature"]);
    assert_eq!(read(&three).unwrap(), ends("main", "feature", true));
}

#[test]
fn lib_three_dots_are_not_read_as_two() {
    assert_eq!(span("main...HEAD").left, "main");
    assert_eq!(span("main...HEAD").right, "HEAD");
    assert!(span("main...HEAD").parted);
}

#[test]
fn lib_an_end_left_out_is_where_you_are() {
    assert_eq!(span("main..").right, "HEAD");
    assert_eq!(span("..main").left, "HEAD");
}

#[test]
fn lib_a_bare_name_is_refused_rather_than_guessed_at() {
    let words = asked(&["main"]);
    let said = read(&words).unwrap_err().to_string();
    assert!(said.contains("branch <name>"), "should say what it knows: {said}");
}

#[test]
fn lib_nonsense_is_refused() {
    for words in [asked(&[]), asked(&["commits"]), asked(&["branch", "a", "b"])] {
        assert!(read(&words).is_err(), "{words:?} should not be understood");
    }
}

#[test]
fn main_a_branch_is_read_against_the_trunk() {
    let words = asked(&["branch", "feature"]);
    assert_eq!(read(&words).unwrap(), ends("", "feature", true));
}

#[test]
fn main_two_commits_are_those_two() {
    let words = asked(&["commits", "a", "b"]);
    assert_eq!(read(&words).unwrap(), ends("a", "b", false));
}

#[test]
fn main_gits_own_ranges_are_understood() {
    let two = asked(&["commits", "main..feature"]);
    assert_eq!(read(&two).unwrap(), ends("main", "feature", false));
    let three = asked(&["main...feature"]);
    assert_eq!(read(&three).unwrap(), ends("main", "feature", true));
}

#[test]
fn main_three_dots_are_not_read_as_two() {
    assert_eq!(span("main...HEAD").left, "main");
    assert_eq!(span("main...HEAD").right, "HEAD");
    assert!(span("main...HEAD").parted);
}

#[test]
fn main_an_end_left_out_is_where_you_are() {
    assert_eq!(span("main..").right, "HEAD");
    assert_eq!(span("..main").left, "HEAD");
}

#[test]
fn main_a_bare_name_is_refused_rather_than_guessed_at() {
    let words = asked(&["main"]);
    let said = read(&words).unwrap_err().to_string();
    assert!(said.contains("branch <name>"), "should say what it knows: {said}");
}

#[test]
fn main_nonsense_is_refused() {
    for words in [asked(&[]), asked(&["commits"]), asked(&["branch", "a", "b"])] {
        assert!(read(&words).is_err(), "{words:?} should not be understood");
    }
}

#[test]
fn a_commits_word_without_a_range_is_refused() {
    let words = asked(&["commits", "main"]);
    assert_eq!(
        read(&words).unwrap_err(),
        format!("dagger-git doesn't know what that means. It understands:\n{}", dagger::git::understood())
    );
}

#[test]
fn both_ends_left_out_are_both_where_you_are() {
    assert_eq!(span(".."), ends("HEAD", "HEAD", false));
    assert_eq!(span("a...b...c"), ends("a", "b...c", true));
}
