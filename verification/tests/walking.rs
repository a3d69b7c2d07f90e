use dagger::frontier::Wanted;
use dagger::model::{Locator, Part, Span};
use dagger::protocol::Changed;
use dagger::reference::{ExtractorId, Target};
use dagger::walking::{follows, innermost, mention_at, over_limit, part_at, questions, seeds, stopped, worth_opening, Answer, Ask, Spot, Walk};

fn locator(name: &str) -> Locator {
    Locator { scope: vec!["src".to_string()], name: name.to_string() }
}

fn spot(name: &str, whole: std::ops::Range<usize>, signature: std::ops::Range<usize>, referenceable: bool) -> Spot {
    let body = signature.end..whole.end;
    Spot {
        locator: locator(name),
        name: name.to_string(),
        whole: whole.clone(),
        name_at: whole.start..whole.start + name.len(),
        referenceable,
        parts: vec![(Part::Contract, vec![signature]), (Part::Body, vec![body])],
    }
}

#[test]
fn the_walk_starts_from_changed_files_it_claims() {
    let changed = vec![
        Changed { file: "a.rs".to_string(), at: vec![] },
        Changed { file: "notes.txt".to_string(), at: vec![] },
        Changed { file: "b.rs".to_string(), at: vec![Span { start: 1, end: 2 }] },
    ];
    let ours = vec!["b.rs".to_string(), "a.rs".to_string()];
    assert_eq!(seeds(&changed, &ours), vec!["a.rs".to_string(), "b.rs".to_string()]);
}

#[test]
fn the_walk_stops_one_short_of_the_ripples() {
    assert!(follows(0, 2));
    assert!(!follows(1, 2));
    assert!(!follows(0, 1));
    assert!(!follows(0, 0));
    assert!(follows(u32::MAX - 2, u32::MAX));
}

#[test]
fn the_walk_gives_up_past_its_limit_and_says_so() {
    assert!(!over_limit(10, 10));
    assert!(over_limit(11, 10));
    let note = stopped(500);
    assert_eq!(
        note.message,
        "stopped after chasing users of 500 files. This change reaches further than that, so some of what it affects is missing"
    );
    assert!(note.file.is_none());
}

#[test]
fn only_definitions_that_changed_or_were_named_are_asked_about() {
    let found = vec![
        spot("one", 0..20, 0..10, true),
        spot("two", 20..40, 20..30, true),
        spot("module", 0..60, 0..0, false),
        spot("three", 40..60, 40..50, true),
    ];
    let wanted = Wanted::new(vec![15..25], vec![locator("three")]);
    assert_eq!(questions(&found, &wanted), vec![0, 1, 3]);
    assert_eq!(questions(&found, &Wanted::nothing()), Vec::<usize>::new());
}

#[test]
fn a_place_is_opened_only_where_it_could_end_up_in_the_review() {
    assert!(worth_opening(true, false, 5, 1, 100, 1));
    assert!(worth_opening(false, true, 5, 1, 0, 1));
    assert!(!worth_opening(false, true, 5, 1, 1, 1));
    assert!(worth_opening(false, false, 0, 1, 0, 10));
    assert!(!worth_opening(false, false, 1, 1, 0, 10));
}

#[test]
fn a_place_belongs_to_the_smallest_definition_holding_it() {
    let found = vec![spot("outer", 0..100, 0..10, true), spot("inner", 20..40, 20..25, true), spot("twin", 20..40, 20..25, true)];
    assert_eq!(innermost(&found, 22), Some(1));
    assert_eq!(innermost(&found, 50), Some(0));
    assert_eq!(innermost(&found, 100), None);
    assert_eq!(part_at(&found[1], 22), Some(Part::Contract));
    assert_eq!(part_at(&found[1], 30), Some(Part::Body));
}

#[test]
fn a_use_in_a_signature_carries_the_break_on_and_one_in_a_body_does_not() {
    let found = vec![spot("caller", 0..40, 0..10, true)];
    let to = locator("callee");
    let binder = ExtractorId("lsp".to_string());
    let (mention, onward) = mention_at(&found, 5, &to, &binder).unwrap();
    assert!(onward);
    assert_eq!(mention.from, locator("caller"));
    assert_eq!(mention.to, Target::Known(to.clone()));
    assert_eq!(mention.site.part, Part::Contract);
    assert_eq!(mention.site.span, Span { start: 5, end: 5 });
    let (mention, onward) = mention_at(&found, 20, &to, &binder).unwrap();
    assert!(!onward);
    assert_eq!(mention.site.part, Part::Body);
    assert!(mention_at(&found, 45, &to, &binder).is_none());
}

fn file_spot(file: &str, name: &str, whole: std::ops::Range<usize>, signature: std::ops::Range<usize>) -> Spot {
    let body = signature.end..whole.end;
    Spot {
        locator: Locator { scope: vec![file.to_string()], name: name.to_string() },
        name: name.to_string(),
        whole: whole.clone(),
        name_at: whole.start + 3..whole.start + 3 + name.len(),
        referenceable: true,
        parts: vec![(Part::Contract, vec![signature]), (Part::Body, vec![body])],
    }
}

/// Runs a walk against a pretend server: `a.rs` defines `f`, which `b.rs`'s `g` uses in
/// its signature; nothing uses `g`.
fn walk_with(ripples: u32) -> (Vec<String>, Vec<dagger::reference::Mention>, usize) {
    let a = "fn f() {}\n";
    let b = "fn g(x: f) {}\n";
    let changed = vec![Changed { file: "a.rs".to_string(), at: vec![] }];
    let mut walk = Walk::new(&changed, vec!["a.rs".to_string(), "b.rs".to_string()], ExtractorId("lsp".to_string()), ripples, 100, 100);
    let mut answer = Answer::Nothing;
    let mut opened = Vec::new();
    let mut asked = 0;
    for _ in 0..200 {
        match walk.step(answer) {
            Ask::Open { path } => {
                opened.push(path.clone());
                answer = match path.as_str() {
                    "a.rs" => Answer::Opened(Ok((a.to_string(), vec![file_spot("a.rs", "f", 0..9, 0..7)]))),
                    "b.rs" => Answer::Opened(Ok((b.to_string(), vec![file_spot("b.rs", "g", 0..13, 0..11)]))),
                    _ => Answer::Opened(Err("no such file".to_string())),
                };
            }
            Ask::Hover { .. } => answer = Answer::Hovered(Some("fn f()".to_string())),
            Ask::References { path, .. } => {
                asked += 1;
                answer = if path == "a.rs" {
                    Answer::Referred(Ok(vec![("b.rs".to_string(), 0, 8)]))
                } else {
                    Answer::Referred(Ok(vec![]))
                };
            }
            Ask::Next => answer = Answer::Nothing,
            Ask::Done => break,
        }
    }
    let (_, mentions, _, _) = walk.finish();
    (opened, mentions, asked)
}

#[test]
fn a_walk_records_who_uses_what_changed_and_follows_them_on() {
    let (opened, mentions, asked) = walk_with(2);
    assert_eq!(opened, vec!["a.rs".to_string(), "b.rs".to_string()]);
    assert_eq!(mentions.len(), 1);
    assert_eq!(mentions[0].from.name, "g");
    assert_eq!(mentions[0].to, Target::Known(Locator { scope: vec!["a.rs".to_string()], name: "f".to_string() }));
    assert_eq!(mentions[0].site.part, Part::Contract);
    // Two steps out, `g` was followed on and asked about too.
    assert_eq!(asked, 2);
}

#[test]
fn a_walk_of_one_ripple_records_but_does_not_follow_on() {
    let (_, mentions, asked) = walk_with(1);
    assert_eq!(mentions.len(), 1);
    assert_eq!(asked, 1);
}
