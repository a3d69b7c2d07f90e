use dagger::git::{
    answer_lines, ignored_entry, kept_files, listed, parted_before, said, subject_of, tracking_branch,
    worth_reviewing,
};

#[test]
fn one_line_of_answer_loses_its_line_break() {
    assert_eq!(said("  abc123\n"), "abc123");
    assert_eq!(said("\n"), "");
}

#[test]
fn a_nul_separated_answer_is_read_name_by_name() {
    assert_eq!(listed("a.rs\0src/b.rs\0\0"), vec!["a.rs", "src/b.rs"]);
    assert_eq!(listed(""), Vec::<String>::new());
}

#[test]
fn an_answer_a_line_at_a_time_drops_the_empty_lines() {
    assert_eq!(answer_lines(" origin/main \n\n upstream/main\n"), vec!["origin/main", "upstream/main"]);
}

#[test]
fn a_file_deleted_but_not_staged_is_not_listed() {
    let listed = vec!["a.rs".to_string(), "b.rs".to_string(), "c.rs".to_string()];
    let gone = vec!["b.rs".to_string()];
    assert_eq!(kept_files(&listed, &gone), vec!["a.rs", "c.rs"]);
}

#[test]
fn a_name_on_one_remote_is_that_remotes_branch() {
    assert_eq!(tracking_branch("feature", &vec!["origin/feature".to_string()]), Ok("origin/feature".to_string()));
}

#[test]
fn a_name_nobody_has_is_refused() {
    assert_eq!(
        tracking_branch("feature", &Vec::new()),
        Err("there's no branch, tag or commit called feature here. If it's someone else's branch, fetch it first"
            .to_string())
    );
}

#[test]
fn a_name_on_several_remotes_asks_which() {
    let several = vec!["origin/feature".to_string(), "fork/feature".to_string()];
    assert_eq!(
        tracking_branch("feature", &several),
        Err("feature is on more than one remote, so say which: origin/feature, fork/feature".to_string())
    );
}

#[test]
fn a_branch_parts_where_its_history_meets_the_base() {
    assert_eq!(parted_before("abc", "def", "main", "feature"), Ok("abc".to_string()));
    assert_eq!(
        parted_before("", "def", "main", "feature"),
        Err("feature and main share no history, so there's nothing between them".to_string())
    );
    assert_eq!(
        parted_before("def", "def", "main", "feature"),
        Err("feature has nothing beyond main, so there's nothing to read".to_string())
    );
}

#[test]
fn unfinished_work_is_worth_reviewing_first() {
    let dirty = worth_reviewing(true, Some("ignored".to_string()));
    assert_eq!((dirty.before.as_str(), dirty.after.as_str(), dirty.title), ("HEAD", "current", None));
    let clean = worth_reviewing(false, Some("Adds money".to_string()));
    assert_eq!(
        (clean.before.as_str(), clean.after.as_str(), clean.title),
        ("HEAD~1", "HEAD", Some("Adds money".to_string()))
    );
}

#[test]
fn an_empty_subject_is_none() {
    assert_eq!(subject_of(String::new()), None);
    assert_eq!(subject_of("Adds".to_string()), Some("Adds".to_string()));
}

#[test]
fn only_ignored_entries_name_a_path_to_carry() {
    assert_eq!(ignored_entry("!! node_modules/"), Some("node_modules".to_string()));
    assert_eq!(ignored_entry("!! target"), Some("target".to_string()));
    assert_eq!(ignored_entry("?? new.rs"), None);
}
