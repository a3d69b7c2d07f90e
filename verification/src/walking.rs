//! The decisions of a walk outward from what changed, through a language server: which
//! changed files start it, which definitions in a file are worth asking about, which places
//! that use one are worth opening, what a place says, and when the walk stops. Asking the
//! server and opening files is the caller's business; it hands back what came of each.

use crate::frontier::{covered, Frontier, Wanted, WantedView};
use crate::lines::Lines;
use crate::model::{Locator, LocatorView, Part, Span};
use crate::protocol::{Changed, Note, NoteView};
use crate::reference::{ExtractorId, Mention, Site, Target};
use crate::text::{decimal, number, owned, views};
use std::ops::Range;
use vstd::prelude::*;
use vstd::string::StringSliceAdditionalSpecFns;

verus! {

/// One definition, as far as the walk needs to know about it: what it is called, what it
/// covers, where its name sits, whether a server can be asked about it by name, and the
/// stretches of each of its parts, in the order they win where they overlap.
pub struct Spot {
    pub locator: Locator,
    pub name: String,
    pub whole: Range<usize>,
    pub name_at: Range<usize>,
    pub referenceable: bool,
    pub parts: Vec<(Part, Vec<Range<usize>>)>,
}

/// The changed files the walk starts from, in the order given: those among the files this
/// reading claims.
pub open spec fn seeds_spec(changed: Seq<Changed>, ours: Seq<Seq<char>>) -> Seq<Seq<char>>
    decreases changed.len(),
{
    if changed.len() == 0 {
        Seq::empty()
    } else {
        seeds_spec(changed.drop_last(), ours) + if ours.contains(changed.last().file@) {
            seq![changed.last().file@]
        } else {
            Seq::empty()
        }
    }
}

fn claims(ours: &Vec<String>, file: &String) -> (r: bool)
    ensures
        r == views(ours@).contains(file@),
{
    for i in 0..ours.len()
        invariant
            forall|j: int| 0 <= j < i ==> (#[trigger] ours@[j])@ != file@,
    {
        if crate::text::str_eq(ours[i].as_str(), file.as_str()) {
            assert(views(ours@)[i as int] == file@);
            return true;
        }
    }
    proof {
        if views(ours@).contains(file@) {
            let j = choose|j: int| 0 <= j < views(ours@).len() && views(ours@)[j] == file@;
            assert(ours@[j]@ == file@);
        }
    }
    false
}

/// Which changed files the walk starts from: those this reading claims. Each is opened
/// before anything is asked, since telling a server about a file is what loads its project.
pub fn seeds(changed: &Vec<Changed>, ours: &Vec<String>) -> (r: Vec<String>)
    ensures
        views(r@) == seeds_spec(changed@, views(ours@)),
{
    let mut r: Vec<String> = Vec::new();
    for i in 0..changed.len()
        invariant
            views(r@) == seeds_spec(changed@.take(i as int), views(ours@)),
    {
        assert(changed@.take(i + 1).drop_last() =~= changed@.take(i as int));
        assert(changed@.take(i + 1).last() == changed@[i as int]);
        if claims(ours, &changed[i].file) {
            let ghost was = views(r@);
            r.push(owned(changed[i].file.as_str()));
            assert(views(r@) =~= was.push(changed@[i as int].file@));
        }
    }
    assert(changed@.take(changed@.len() as int) =~= changed@);
    r
}

/// The walk follows a file's users on only while a break could still travel: walking a
/// file one step out is what turns up what sits two steps out, so it stops one short of how
/// far the reading was asked to go. What the last step reaches is still recorded.
pub fn follows(away: u32, ripples: u32) -> (r: bool)
    ensures
        r == (away + 1 < ripples),
{
    (away as u64) + 1 < ripples as u64
}

/// The walk gives up once it has chased users of more files than the limit.
pub fn over_limit(walked: usize, limit: usize) -> (r: bool)
    ensures
        r == (walked > limit),
{
    walked > limit
}

/// What the walk says when it gives up.
pub open spec fn stop_message(limit: usize) -> Seq<char> {
    "stopped after chasing users of "@ + decimal(limit as nat)
        + " files. This change reaches further than that, so some of what it affects is missing"@
}

/// The note the walk leaves when it gives up, about no file in particular.
pub fn stopped(limit: usize) -> (r: Note)
    ensures
        r@ == (NoteView { message: stop_message(limit), file: None }),
{
    let lead = "stopped after chasing users of ";
    let tail = " files. This change reaches further than that, so some of what it affects is missing";
    proof {
        reveal_strlit("stopped after chasing users of ");
        reveal_strlit(" files. This change reaches further than that, so some of what it affects is missing");
    }
    let mut message = String::new();
    message.append(lead);
    let n = number(limit);
    message.append(n.as_str());
    message.append(tail);
    Note { message, file: None }
}

/// The definitions of a file worth asking about: those a server can be asked about by name
/// whose span overlaps something that changed, or that were named outright.
pub open spec fn asked_about(found: Seq<Spot>, wanted: WantedView, n: int) -> Seq<usize>
    decreases n,
{
    if n <= 0 {
        Seq::empty()
    } else {
        asked_about(found, wanted, n - 1) + if found[n - 1].referenceable && covered(wanted, found[n - 1].whole, found[n - 1].locator@) {
            seq![(n - 1) as usize]
        } else {
            Seq::empty()
        }
    }
}

proof fn lemma_asked_within(found: Seq<Spot>, wanted: WantedView, n: int)
    ensures
        forall|j: int| 0 <= j < asked_about(found, wanted, n).len() ==> #[trigger] asked_about(found, wanted, n)[j] < n,
    decreases n,
{
    if n > 0 {
        lemma_asked_within(found, wanted, n - 1);
        let before = asked_about(found, wanted, n - 1);
        assert forall|j: int| 0 <= j < asked_about(found, wanted, n).len() implies #[trigger] asked_about(found, wanted, n)[j] < n by {
            if j < before.len() {
                assert(asked_about(found, wanted, n)[j] == before[j]);
            }
        }
    }
}

/// Where, in a file's definitions, the ones worth asking about sit, in order.
pub fn questions(found: &Vec<Spot>, wanted: &Wanted) -> (r: Vec<usize>)
    ensures
        r@ == asked_about(found@, wanted@, found@.len() as int),
{
    let mut r: Vec<usize> = Vec::new();
    for k in 0..found.len()
        invariant
            r@ == asked_about(found@, wanted@, k as int),
    {
        if found[k].referenceable && wanted.covers(&found[k].whole, &found[k].locator) {
            r.push(k);
        }
    }
    proof {
        lemma_asked_within(found@, wanted@, found@.len() as int);
    }
    r
}

/// Whether a place that uses a definition is worth opening: where the file is open
/// anyway, or changed, or sits near enough to be reached at the distance asked for; and a
/// file not yet open only while fewer than the limit are.
pub fn worth_opening(already: bool, changed: bool, away: u32, ripples: u32, opened: usize, open_limit: usize) -> (r: bool)
    ensures
        r == ((already || changed || away < ripples) && (already || opened < open_limit)),
{
    (already || changed || away < ripples) && (already || opened < open_limit)
}

/// The smallest of the definitions whose span holds `at`, the first of those equally
/// small; none where none holds it.
pub open spec fn innermost_spec(found: Seq<Spot>, at: usize) -> Option<int> {
    if exists|k: int| 0 <= k < found.len() && #[trigger] holds_at(found[k], at) {
        Some(
            choose|k: int|
                0 <= k < found.len() && #[trigger] holds_at(found[k], at) && (forall|j: int|
                    0 <= j < found.len() && holds_at(found[j], at) ==> width(found[k]) <= #[trigger] width(found[j])) && (forall|j: int|
                    0 <= j < k && holds_at(found[j], at) ==> width(found[k]) < #[trigger] width(found[j])),
        )
    } else {
        None
    }
}

/// Whether a definition's span holds `at`.
pub open spec fn holds_at(s: Spot, at: usize) -> bool {
    s.whole.start <= at < s.whole.end
}

/// How much a definition covers.
pub open spec fn width(s: Spot) -> int {
    s.whole.end - s.whole.start
}

/// The definition a place sits in: the smallest whose span holds it.
pub fn innermost(found: &Vec<Spot>, at: usize) -> (r: Option<usize>)
    ensures
        match r {
            Some(k) => innermost_spec(found@, at) == Some(k as int) && k < found@.len(),
            None => innermost_spec(found@, at) is None,
        },
{
    let mut best: Option<usize> = None;
    for k in 0..found.len()
        invariant
            best matches Some(b) ==> b < k && holds_at(found@[b as int], at)
                && (forall|j: int| 0 <= j < k && holds_at(found@[j], at) ==> width(found@[b as int]) <= #[trigger] width(found@[j]))
                && (forall|j: int| 0 <= j < b && holds_at(found@[j], at) ==> width(found@[b as int]) < #[trigger] width(found@[j])),
            best is None ==> forall|j: int| 0 <= j < k ==> !#[trigger] holds_at(found@[j], at),
    {
        let s = &found[k];
        if s.whole.start <= at && at < s.whole.end {
            match best {
                Some(b) => {
                    let wb = found[b].whole.end - found[b].whole.start;
                    let wk = s.whole.end - s.whole.start;
                    if wk < wb {
                        best = Some(k);
                    }
                },
                None => {
                    best = Some(k);
                },
            }
        }
    }
    match best {
        Some(b) => {
            proof {
                let c = choose|c: int|
                    0 <= c < found@.len() && #[trigger] holds_at(found@[c], at) && (forall|j: int|
                        0 <= j < found@.len() && holds_at(found@[j], at) ==> width(found@[c]) <= #[trigger] width(found@[j])) && (forall|j: int|
                        0 <= j < c && holds_at(found@[j], at) ==> width(found@[c]) < #[trigger] width(found@[j]));
                assert(holds_at(found@[b as int], at));
                if c < b {
                    assert(width(found@[b as int]) < width(found@[c]));
                    assert(width(found@[b as int]) <= width(found@[c]));
                } else if c > b {
                    assert(width(found@[c]) < width(found@[b as int]));
                    assert(width(found@[c]) <= width(found@[b as int]));
                }
            }
            Some(b)
        },
        None => None,
    }
}

/// The first of a definition's parts whose stretches hold `at`.
pub open spec fn part_at_spec(parts: Seq<(Part, Vec<Range<usize>>)>, at: usize) -> Option<Part>
    decreases parts.len(),
{
    if parts.len() == 0 {
        None
    } else if exists|j: int| 0 <= j < parts[0].1@.len() && (#[trigger] parts[0].1@[j]).start <= at < parts[0].1@[j].end {
        Some(parts[0].0)
    } else {
        part_at_spec(parts.drop_first(), at)
    }
}

/// The part of a definition a place sits in.
pub fn part_at(spot: &Spot, at: usize) -> (r: Option<Part>)
    ensures
        r == part_at_spec(spot.parts@, at),
{
    let mut i: usize = 0;
    assert(spot.parts@.skip(0) =~= spot.parts@);
    while i < spot.parts.len()
        invariant
            i <= spot.parts@.len(),
            part_at_spec(spot.parts@, at) == part_at_spec(spot.parts@.skip(i as int), at),
        decreases spot.parts@.len() - i,
    {
        let ghost rest = spot.parts@.skip(i as int);
        assert(rest[0] == spot.parts@[i as int]);
        assert(rest.drop_first() =~= spot.parts@.skip(i + 1));
        let list = &spot.parts[i].1;
        let mut hit = false;
        for j in 0..list.len()
            invariant
                hit == exists|q: int| 0 <= q < j && (#[trigger] list@[q]).start <= at < list@[q].end,
        {
            if list[j].start <= at && at < list[j].end {
                hit = true;
            }
        }
        if hit {
            return Some(spot.parts[i].0);
        }
        i = i + 1;
    }
    None
}

/// What a place that uses `to` says: a mention from the definition it sits in, in the part
/// it sits in, found by `binder`; and, where it sits in that definition's contract, the
/// definition a break travels on through. Nothing where no definition holds the place or
/// no part of it does. A mention inside a body stops there: nobody outside can tell it
/// changed.
pub open spec fn mention_spec(found: Seq<Spot>, at: usize, to: LocatorView, binder: Seq<char>) -> Option<(Seq<char>, LocatorView, Part, bool)> {
    match innermost_spec(found, at) {
        Some(k) => match part_at_spec(found[k].parts@, at) {
            Some(part) => Some((binder, found[k].locator@, part, part == Part::Contract)),
            None => None,
        },
        None => None,
    }
}

/// What a place that uses `to` says, as a mention and whether a break travels on through
/// the definition it sits in.
pub fn mention_at(found: &Vec<Spot>, at: usize, to: &Locator, binder: &ExtractorId) -> (r: Option<(Mention, bool)>)
    requires
        at <= u32::MAX,
    ensures
        match r {
            Some((m, onward)) => {
                &&& mention_spec(found@, at, to@, binder.0@) == Some((m.site.extractor.0@, m.from@, m.site.part, onward))
                &&& (m.to matches Target::Known(l) && l@ == to@)
                &&& m.site.span == (Span { start: at as u32, end: at as u32 })
            },
            None => mention_spec(found@, at, to@, binder.0@) is None,
        },
{
    match innermost(found, at) {
        Some(k) => match part_at(&found[k], at) {
            Some(part) => {
                let from = found[k].locator.duplicate();
                let site = Site { part, span: Span { start: at as u32, end: at as u32 }, extractor: ExtractorId(owned(binder.0.as_str())) };
                let m = Mention { from, to: Target::Known(to.duplicate()), site };
                let onward = part == Part::Contract;
                Some((m, onward))
            },
            None => None,
        },
        None => None,
    }
}


// ---------------------------------------------------------------------------------------
// The walk, one step at a time.

/// What the walk needs done outside before it can go on.
pub enum Ask {
    /// Open this file: read it and find its definitions, then hand back `Answer::Opened`.
    Open { path: String },
    /// Ask the server what the definition whose name sits here looks like from outside,
    /// then hand back `Answer::Hovered` with the contract read out of the answer.
    Hover { path: String, line: u32, column: u32 },
    /// Ask the server who uses the definition whose name sits here, then hand back
    /// `Answer::Referred` with each place as a path inside the snapshot, a line and a column.
    References { path: String, line: u32, column: u32 },
    /// Nothing to do outside: step again.
    Next,
    /// The walk is over.
    Done,
}

/// What came of what the walk asked for.
pub enum Answer {
    /// Nothing was asked, or nothing came back.
    Nothing,
    /// The file asked for, as its text and its definitions, or why it couldn't be read.
    Opened(Result<(String, Vec<Spot>), String>),
    /// The contract a hover answer gives, if it gives one.
    Hovered(Option<String>),
    /// The places that use a definition, or why the server couldn't say.
    Referred(Result<Vec<(String, u32, u32)>, String>),
}

/// Where the walk is.
#[derive(Clone, Copy, PartialEq, Eq, Structural)]
pub enum Stage {
    /// Opening the changed files, before anything is asked.
    Seed,
    /// Taking the next file off the frontier.
    Take,
    /// Making sure the file taken is open.
    Look,
    /// Asking about the next definition worth asking about.
    Question,
    /// Waiting for what a hover says.
    Hover,
    /// Waiting for who uses the definition.
    Refer,
    /// Going through the places that use it.
    Place,
    /// Finished.
    Done,
}

/// A walk outward from what changed: which files are open, what has been found, and where
/// the walk is.
pub struct Walk {
    ours: Vec<String>,
    binder: ExtractorId,
    ripples: u32,
    walk_limit: usize,
    open_limit: usize,
    front: Frontier,
    changed: Vec<String>,
    seen: Vec<(String, Lines, Vec<Spot>)>,
    failed: Vec<String>,
    mentions: Vec<Mention>,
    contracts: Vec<(Locator, String)>,
    notes: Vec<Note>,
    stage: Stage,
    next_seed: usize,
    pending: Option<String>,
    current: String,
    wanted: Wanted,
    away: u32,
    asking: Vec<usize>,
    q: usize,
    places: Vec<(String, u32, u32)>,
    p: usize,
    onward: Vec<(String, Locator)>,
}

/// The open files, each once.
pub open spec fn distinct_seen(seen: Seq<(String, Lines, Vec<Spot>)>) -> bool {
    forall|a: int, b: int| 0 <= a < b < seen.len() ==> (#[trigger] seen[a]).0@ != (#[trigger] seen[b]).0@
}

/// The definitions of an open file.
pub open spec fn spots_in(seen: Seq<(String, Lines, Vec<Spot>)>, path: Seq<char>) -> Seq<Spot> {
    seen[choose|k: int| 0 <= k < seen.len() && (#[trigger] seen[k]).0@ == path].2@
}

proof fn lemma_pick(seen: Seq<(String, Lines, Vec<Spot>)>, k: int)
    requires
        distinct_seen(seen),
        0 <= k < seen.len(),
    ensures
        spots_in(seen, seen[k].0@) == seen[k].2@,
{
    let c = choose|c: int| 0 <= c < seen.len() && (#[trigger] seen[c]).0@ == seen[k].0@;
    if c != k {
        if c < k {
            assert(seen[c].0@ != seen[k].0@);
        } else {
            assert(seen[k].0@ != seen[c].0@);
        }
    }
}

/// Whether a file is among the open ones.
pub open spec fn is_open(seen: Seq<(String, Lines, Vec<Spot>)>, path: Seq<char>) -> bool {
    exists|k: int| 0 <= k < seen.len() && (#[trigger] seen[k]).0@ == path
}

// ---------------------------------------------------------------------------------------
// The walk as values.

/// A mention as values.
pub struct MentionView {
    pub from: LocatorView,
    /// What it points at, where that is known.
    pub to: Option<LocatorView>,
    pub part: Part,
    pub span: Span,
    pub extractor: Seq<char>,
}

/// A mention as values.
pub open spec fn mention_view(m: Mention) -> MentionView {
    MentionView {
        from: m.from@,
        to: match m.to {
            Target::Known(l) => Some(l@),
            Target::Unknown { .. } => None,
        },
        part: m.site.part,
        span: m.site.span,
        extractor: m.site.extractor.0@,
    }
}

/// A walk as values: what it was set up with, what it has opened (each file's path, text
/// and definitions), what it has found, and where it is.
#[verifier::ext_equal]
pub struct WalkView {
    pub ours: Seq<Seq<char>>,
    pub binder: Seq<char>,
    pub ripples: u32,
    pub walk_limit: usize,
    pub open_limit: usize,
    pub front: crate::frontier::FrontierView,
    pub changed: Seq<Seq<char>>,
    pub seen: Seq<(Seq<char>, Seq<char>, Seq<Spot>)>,
    pub failed: Seq<Seq<char>>,
    pub mentions: Seq<MentionView>,
    pub contracts: Seq<(LocatorView, Seq<char>)>,
    pub notes: Seq<NoteView>,
    pub stage: Stage,
    pub next_seed: usize,
    pub pending: Option<Seq<char>>,
    pub current: Seq<char>,
    pub wanted: WantedView,
    pub away: u32,
    pub asking: Seq<usize>,
    pub q: usize,
    pub places: Seq<(Seq<char>, u32, u32)>,
    pub p: usize,
    pub onward: Seq<(Seq<char>, LocatorView)>,
}

/// What the walk asks for, as values.
pub enum AskView {
    Open(Seq<char>),
    Hover(Seq<char>, u32, u32),
    References(Seq<char>, u32, u32),
    Next,
    Done,
}

impl View for Ask {
    type V = AskView;

    open spec fn view(&self) -> AskView {
        match self {
            Ask::Open { path } => AskView::Open(path@),
            Ask::Hover { path, line, column } => AskView::Hover(path@, *line, *column),
            Ask::References { path, line, column } => AskView::References(path@, *line, *column),
            Ask::Next => AskView::Next,
            Ask::Done => AskView::Done,
        }
    }
}

/// What came back, as values.
pub enum AnswerView {
    Nothing,
    Opened(Result<(Seq<char>, Seq<Spot>), Seq<char>>),
    Hovered(Option<Seq<char>>),
    Referred(Result<Seq<(Seq<char>, u32, u32)>, Seq<char>>),
}

/// Places as values.
pub open spec fn place_views(p: Seq<(String, u32, u32)>) -> Seq<(Seq<char>, u32, u32)> {
    p.map_values(|x: (String, u32, u32)| (x.0@, x.1, x.2))
}

impl View for Answer {
    type V = AnswerView;

    open spec fn view(&self) -> AnswerView {
        match self {
            Answer::Nothing => AnswerView::Nothing,
            Answer::Opened(Ok((text, spots))) => AnswerView::Opened(Ok((text@, spots@))),
            Answer::Opened(Err(why)) => AnswerView::Opened(Err(why@)),
            Answer::Hovered(Some(c)) => AnswerView::Hovered(Some(c@)),
            Answer::Hovered(None) => AnswerView::Hovered(None),
            Answer::Referred(Ok(places)) => AnswerView::Referred(Ok(place_views(places@))),
            Answer::Referred(Err(why)) => AnswerView::Referred(Err(why@)),
        }
    }
}

/// Where a file sits among the open ones.
pub open spec fn file_at(seen: Seq<(Seq<char>, Seq<char>, Seq<Spot>)>, path: Seq<char>) -> int {
    choose|k: int| 0 <= k < seen.len() && (#[trigger] seen[k]).0 == path
}

/// Whether a file is open.
pub open spec fn opened(seen: Seq<(Seq<char>, Seq<char>, Seq<Spot>)>, path: Seq<char>) -> bool {
    exists|k: int| 0 <= k < seen.len() && (#[trigger] seen[k]).0 == path
}

/// An open file's text.
pub open spec fn text_at(seen: Seq<(Seq<char>, Seq<char>, Seq<Spot>)>, path: Seq<char>) -> Seq<char> {
    seen[file_at(seen, path)].1
}

/// An open file's definitions.
pub open spec fn spots_at(seen: Seq<(Seq<char>, Seq<char>, Seq<Spot>)>, path: Seq<char>) -> Seq<Spot> {
    seen[file_at(seen, path)].2
}

/// The line and column of a byte that starts a character in a text, none for one inside a
/// character or past its end.
pub open spec fn spot_spec(t: Seq<char>, at: usize) -> Option<(u32, u32)> {
    if vstd::utf8::is_char_boundary(vstd::utf8::encode_utf8(t), at as int) {
        Some(crate::lines::position_spec(t, at as int))
    } else {
        None
    }
}

/// The places among some that lie in files this reading claims, in order.
pub open spec fn claimed_places(places: Seq<(Seq<char>, u32, u32)>, ours: Seq<Seq<char>>) -> Seq<(Seq<char>, u32, u32)>
    decreases places.len(),
{
    if places.len() == 0 {
        Seq::empty()
    } else {
        claimed_places(places.drop_last(), ours) + if ours.contains(places.last().0) { seq![places.last()] } else { Seq::empty() }
    }
}

/// The frontier after each of some definitions is wanted, by name, at a distance.
pub open spec fn want_all(f: crate::frontier::FrontierView, onward: Seq<(Seq<char>, LocatorView)>, away: u32) -> crate::frontier::FrontierView
    decreases onward.len(),
{
    if onward.len() == 0 {
        f
    } else {
        let before = want_all(f, onward.drop_last(), away);
        crate::frontier::after_want(
            before,
            onward.last().0,
            WantedView { ranges: Seq::empty(), names: set![onward.last().1] },
            away,
        )
    }
}

/// The frontier a walk starts with: each changed file this reading claims, wanted where it
/// changed (or whole), at no distance.
pub open spec fn seed_front(changed: Seq<Changed>, ours: Seq<Seq<char>>) -> crate::frontier::FrontierView
    decreases changed.len(),
{
    if changed.len() == 0 {
        crate::frontier::FrontierView { queue: Seq::empty(), files: Seq::empty() }
    } else {
        let before = seed_front(changed.drop_last(), ours);
        if ours.contains(changed.last().file@) {
            crate::frontier::after_want(before, changed.last().file@, crate::frontier::from_spans_spec(changed.last().at@), 0)
        } else {
            before
        }
    }
}

/// The note a file that couldn't be opened gets.
pub open spec fn skipped_message(why: Seq<char>) -> Seq<char> {
    "skipped it: "@ + why
}

/// The note a definition gets when the server couldn't say what uses it.
pub open spec fn unused_message(name: Seq<char>, why: Seq<char>) -> Seq<char> {
    "couldn't find what uses "@ + name + ": "@ + why
}

/// The definition being asked about.
pub open spec fn asked_item(w: WalkView) -> Spot {
    spots_at(w.seen, w.current)[w.asking[w.q as int] as int]
}

/// What the walk makes of what came back, and what it asks for straight away if that
/// settles it.
pub open spec fn absorb_spec(w: WalkView, a: AnswerView) -> (WalkView, Option<AskView>) {
    match a {
        AnswerView::Opened(got) => match w.pending {
            Some(path) => {
                let w1 = WalkView { pending: None, ..w };
                if opened(w.seen, path) {
                    (w1, None)
                } else {
                    match got {
                        Ok((text, spots)) => (WalkView { seen: w.seen.push((path, text, spots)), ..w1 }, None),
                        Err(why) => (
                            WalkView {
                                notes: w.notes.push(NoteView { message: skipped_message(why), file: Some(path) }),
                                failed: w.failed.push(path),
                                ..w1
                            },
                            None,
                        ),
                    }
                }
            },
            None => (w, None),
        },
        AnswerView::Hovered(c) => if w.stage == Stage::Hover {
            let item = asked_item(w);
            let w1 = match c {
                Some(x) => WalkView { contracts: w.contracts.push((item.locator@, x)), ..w },
                None => w,
            };
            match spot_spec(text_at(w.seen, w.current), item.name_at.start) {
                Some((line, column)) => (WalkView { stage: Stage::Refer, ..w1 }, Some(AskView::References(w.current, line, column))),
                None => (WalkView { q: (w.q + 1) as usize, stage: Stage::Question, ..w1 }, None),
            }
        } else {
            (w, None)
        },
        AnswerView::Referred(said) => if w.stage == Stage::Refer {
            match said {
                Ok(places) => (WalkView { places: claimed_places(places, w.ours), p: 0, stage: Stage::Place, ..w }, None),
                Err(why) => (
                    WalkView {
                        notes: w.notes.push(NoteView { message: unused_message(asked_item(w).name@, why), file: Some(w.current) }),
                        q: (w.q + 1) as usize,
                        stage: Stage::Question,
                        ..w
                    },
                    None,
                ),
            }
        } else {
            (w, None)
        },
        AnswerView::Nothing => (w, None),
    }
}

/// What the walk does next from where it is.
///
/// - Seeding, it asks for each changed file this reading claims to be opened, unless it
///   is open or couldn't be opened; then it starts taking files off the frontier.
/// - Taking, it is done when the frontier is exhausted, or when it has now chased users
///   of more files than its limit (and says so); else it looks at the file taken.
/// - Looking, it asks about the definitions worth asking about in the file, once the file
///   is open; a file that couldn't be opened is passed over.
/// - Questioning, it asks what each of those looks like from outside; when they are all
///   asked about, the definitions a break travels on through are wanted one step further
///   out, where the walk still follows, and the next file is taken.
/// - With places that use a definition, it opens each file worth opening, and records
///   the mention each place makes, through the definition it sits in; where it sits in
///   that definition's contract, the break travels on through it.
pub open spec fn advance_spec(w: WalkView) -> (WalkView, AskView) {
    match w.stage {
        Stage::Seed => if w.next_seed < w.changed.len() {
            let path = w.changed[w.next_seed as int];
            let w1 = WalkView { next_seed: (w.next_seed + 1) as usize, ..w };
            if !opened(w.seen, path) && !w.failed.contains(path) {
                (WalkView { pending: Some(path), ..w1 }, AskView::Open(path))
            } else {
                (w1, AskView::Next)
            }
        } else {
            (WalkView { stage: Stage::Take, ..w }, AskView::Next)
        },
        Stage::Take => {
            let (f2, got) = crate::frontier::after_take(w.front);
            match got {
                None => (WalkView { front: f2, stage: Stage::Done, ..w }, AskView::Done),
                Some((path, wanted, away)) => if crate::frontier::walked_count(f2.files) > w.walk_limit {
                    (
                        WalkView {
                            front: f2,
                            notes: w.notes.push(NoteView { message: stop_message(w.walk_limit), file: None }),
                            stage: Stage::Done,
                            ..w
                        },
                        AskView::Done,
                    )
                } else {
                    (WalkView { front: f2, current: path, wanted, away, stage: Stage::Look, ..w }, AskView::Next)
                },
            }
        },
        Stage::Look => if opened(w.seen, w.current) {
            let spots = spots_at(w.seen, w.current);
            (
                WalkView { asking: asked_about(spots, w.wanted, spots.len() as int), q: 0, onward: Seq::empty(), stage: Stage::Question, ..w },
                AskView::Next,
            )
        } else if w.failed.contains(w.current) {
            (WalkView { stage: Stage::Take, ..w }, AskView::Next)
        } else {
            (WalkView { pending: Some(w.current), ..w }, AskView::Open(w.current))
        },
        Stage::Question => if w.q < w.asking.len() {
            match spot_spec(text_at(w.seen, w.current), asked_item(w).name_at.start) {
                Some((line, column)) => (WalkView { stage: Stage::Hover, ..w }, AskView::Hover(w.current, line, column)),
                None => (WalkView { q: (w.q + 1) as usize, ..w }, AskView::Next),
            }
        } else {
            (
                WalkView {
                    front: if w.away + 1 < w.ripples { want_all(w.front, w.onward, (w.away + 1) as u32) } else { w.front },
                    onward: Seq::empty(),
                    stage: Stage::Take,
                    ..w
                },
                AskView::Next,
            )
        },
        Stage::Hover | Stage::Refer => (w, AskView::Next),
        Stage::Place => if w.p < w.places.len() {
            let place = w.places[w.p as int];
            let already = opened(w.seen, place.0);
            let worth = (already || w.changed.contains(place.0) || w.away < w.ripples) && (already || w.seen.len() < w.open_limit);
            let w1 = WalkView { p: (w.p + 1) as usize, ..w };
            if !worth {
                (w1, AskView::Next)
            } else if !already {
                if w.failed.contains(place.0) {
                    (w1, AskView::Next)
                } else {
                    (WalkView { pending: Some(place.0), ..w }, AskView::Open(place.0))
                }
            } else {
                let at = crate::lines::offset_spec(text_at(w.seen, place.0), place.1 as int, place.2 as nat);
                if at <= u32::MAX {
                    let to = asked_item(w).locator@;
                    match mention_spec(spots_at(w.seen, place.0), at as usize, to, w.binder) {
                        Some((ext, from, part, onward)) => (
                            WalkView {
                                mentions: w.mentions.push(
                                    MentionView { from, to: Some(to), part, span: Span { start: at as u32, end: at as u32 }, extractor: ext },
                                ),
                                onward: if onward { w.onward.push((place.0, from)) } else { w.onward },
                                ..w1
                            },
                            AskView::Next,
                        ),
                        None => (w1, AskView::Next),
                    }
                } else {
                    (w1, AskView::Next)
                }
            }
        } else {
            (WalkView { q: (w.q + 1) as usize, stage: Stage::Question, ..w }, AskView::Next)
        },
        Stage::Done => (w, AskView::Done),
    }
}

/// One step of the walk: what it makes of what came back, and what it asks for next.
pub open spec fn next(w: WalkView, a: AnswerView) -> (WalkView, AskView) {
    let (w1, early) = absorb_spec(w, a);
    match early {
        Some(ask) => (w1, ask),
        None => advance_spec(w1),
    }
}

/// Where a walk starts: nothing open or found, each changed file this reading claims
/// seeded on the frontier, those files to be opened first.
pub open spec fn start_spec(changed: Seq<Changed>, ours: Seq<Seq<char>>, binder: Seq<char>, ripples: u32, walk_limit: usize, open_limit: usize) -> WalkView {
    WalkView {
        ours,
        binder,
        ripples,
        walk_limit,
        open_limit,
        front: seed_front(changed, ours),
        changed: seeds_spec(changed, ours),
        seen: Seq::empty(),
        failed: Seq::empty(),
        mentions: Seq::empty(),
        contracts: Seq::empty(),
        notes: Seq::empty(),
        stage: Stage::Seed,
        next_seed: 0,
        pending: None,
        current: Seq::empty(),
        wanted: crate::frontier::nothing(),
        away: 0,
        asking: Seq::empty(),
        q: 0,
        places: Seq::empty(),
        p: 0,
        onward: Seq::empty(),
    }
}

/// A distance the walk may stand at: a seed, at no distance, or fewer steps out than the
/// ripples setting.
pub open spec fn near_enough(away: u32, ripples: u32) -> bool {
    away == 0 || away < ripples
}

/// The walk reaches no further than the ripples setting allows: where it stands, and every
/// file it has wanted, is near enough.
pub open spec fn within_ripples(w: WalkView) -> bool {
    &&& near_enough(w.away, w.ripples)
    &&& forall|i: int| 0 <= i < w.front.files.len() ==> near_enough((#[trigger] w.front.files[i]).away, w.ripples)
}

/// Wanting a file from near enough leaves every file wanted near enough.
proof fn lemma_want_near(f: crate::frontier::FrontierView, path: Seq<char>, wanted: WantedView, away: u32, ripples: u32)
    requires
        near_enough(away, ripples),
        forall|i: int| 0 <= i < f.files.len() ==> near_enough((#[trigger] f.files[i]).away, ripples),
    ensures
        forall|i: int|
            0 <= i < crate::frontier::after_want(f, path, wanted, away).files.len() ==> near_enough(
                (#[trigger] crate::frontier::after_want(f, path, wanted, away).files[i]).away,
                ripples,
            ),
{
    let g = crate::frontier::after_want(f, path, wanted, away);
    let known = exists|i: int| crate::frontier::at(f.files, path, i);
    let k = choose|i: int| crate::frontier::at(f.files, path, i);
    let work = if known { f.files[k] } else { crate::frontier::WorkView { path, away, asked: crate::frontier::nothing(), pending: crate::frontier::nothing() } };
    let (nx, queued) = crate::frontier::wanting(work, wanted, away);
    assert(near_enough(work.away, ripples));
    assert(near_enough(nx.away, ripples));
    assert forall|i: int| 0 <= i < g.files.len() implies near_enough((#[trigger] g.files[i]).away, ripples) by {
        if known {
            if i != k {
                assert(g.files[i] == f.files[i]);
            }
        } else if i < f.files.len() {
            assert(g.files[i] == f.files[i]);
        }
    }
}

proof fn lemma_want_all_near(f: crate::frontier::FrontierView, onward: Seq<(Seq<char>, LocatorView)>, away: u32, ripples: u32)
    requires
        near_enough(away, ripples),
        forall|i: int| 0 <= i < f.files.len() ==> near_enough((#[trigger] f.files[i]).away, ripples),
    ensures
        forall|i: int| 0 <= i < want_all(f, onward, away).files.len() ==> near_enough((#[trigger] want_all(f, onward, away).files[i]).away, ripples),
    decreases onward.len(),
{
    if onward.len() > 0 {
        lemma_want_all_near(f, onward.drop_last(), away, ripples);
        lemma_want_near(
            want_all(f, onward.drop_last(), away),
            onward.last().0,
            WantedView { ranges: Seq::empty(), names: set![onward.last().1] },
            away,
            ripples,
        );
    }
}

proof fn lemma_seed_near(changed: Seq<Changed>, ours: Seq<Seq<char>>, ripples: u32)
    ensures
        forall|i: int| 0 <= i < seed_front(changed, ours).files.len() ==> near_enough((#[trigger] seed_front(changed, ours).files[i]).away, ripples),
    decreases changed.len(),
{
    if changed.len() > 0 {
        lemma_seed_near(changed.drop_last(), ours, ripples);
        if ours.contains(changed.last().file@) {
            lemma_want_near(seed_front(changed.drop_last(), ours), changed.last().file@, crate::frontier::from_spans_spec(changed.last().at@), 0, ripples);
        }
    }
}

/// A walk starts within its ripples.
pub proof fn lemma_start_within_ripples(changed: Seq<Changed>, ours: Seq<Seq<char>>, binder: Seq<char>, ripples: u32, walk_limit: usize, open_limit: usize)
    ensures
        within_ripples(start_spec(changed, ours, binder, ripples, walk_limit, open_limit)),
{
    lemma_seed_near(changed, ours, ripples);
}

/// The walk follows references outward only as far as the ripples setting allows: every
/// step from a walk within its ripples, whatever came back, leaves it within them.
pub proof fn lemma_step_within_ripples(w: WalkView, a: AnswerView)
    requires
        within_ripples(w),
    ensures
        within_ripples(next(w, a).0),
        next(w, a).0.ripples == w.ripples,
{
    let (w1, early) = absorb_spec(w, a);
    assert(w1.front == w.front && w1.away == w.away && w1.ripples == w.ripples);
    if early is None {
        match w1.stage {
            Stage::Take => {
                let (f2, got) = crate::frontier::after_take(w1.front);
                if w1.front.queue.len() > 0 {
                    let path = w1.front.queue[0];
                    if exists|i: int| crate::frontier::at(w1.front.files, path, i) {
                        let i = choose|i: int| crate::frontier::at(w1.front.files, path, i);
                        assert(near_enough(w1.front.files[i].away, w1.ripples));
                        assert forall|j: int| 0 <= j < f2.files.len() implies near_enough((#[trigger] f2.files[j]).away, w1.ripples) by {
                            if j != i {
                                assert(f2.files[j] == w1.front.files[j]);
                            }
                        }
                    }
                }
            },
            Stage::Question => {
                if !(w1.q < w1.asking.len()) && w1.away + 1 < w1.ripples {
                    lemma_want_all_near(w1.front, w1.onward, (w1.away + 1) as u32, w1.ripples);
                }
            },
            _ => {},
        }
    }
}

/// The open files as values.
pub open spec fn seen_views(seen: Seq<(String, Lines, Vec<Spot>)>) -> Seq<(Seq<char>, Seq<char>, Seq<Spot>)> {
    seen.map_values(|e: (String, Lines, Vec<Spot>)| (e.0@, e.1@, e.2@))
}

proof fn lemma_file_at(seen: Seq<(String, Lines, Vec<Spot>)>, k: int)
    requires
        distinct_seen(seen),
        0 <= k < seen.len(),
    ensures
        file_at(seen_views(seen), seen[k].0@) == k,
        opened(seen_views(seen), seen[k].0@),
        text_at(seen_views(seen), seen[k].0@) == seen[k].1@,
        spots_at(seen_views(seen), seen[k].0@) == seen[k].2@,
{
    let v = seen_views(seen);
    assert(v[k].0 == seen[k].0@);
    let c = file_at(v, seen[k].0@);
    assert(v[c].0 == seen[c].0@);
    if c != k {
        if c < k {
            assert(seen[c].0@ != seen[k].0@);
        } else {
            assert(seen[k].0@ != seen[c].0@);
        }
    }
}

proof fn lemma_opened(seen: Seq<(String, Lines, Vec<Spot>)>, path: Seq<char>)
    ensures
        opened(seen_views(seen), path) == is_open(seen, path),
{
    let v = seen_views(seen);
    if is_open(seen, path) {
        let k = choose|k: int| 0 <= k < seen.len() && (#[trigger] seen[k]).0@ == path;
        assert(v[k].0 == path);
    }
    if opened(v, path) {
        let k = choose|k: int| 0 <= k < v.len() && (#[trigger] v[k]).0 == path;
        assert(seen[k].0@ == path);
    }
}

// ---------------------------------------------------------------------------------------
// The walk.

/// The line and column of a byte that starts a character, none for one inside a character.
fn spot_of(lines: &Lines, at: usize) -> (r: Option<(u32, u32)>)
    requires
        lines.wf(),
    ensures
        r == spot_spec(lines@, at),
{
    let t = lines.text();
    proof {
        broadcast use {
            vstd::utf8::char_is_scalar,
            vstd::utf8::encode_utf8_valid_utf8,
            vstd::utf8::encode_utf8_decode_utf8,
            vstd::utf8::decode_utf8_encode_utf8,
        };
        assert(t.spec_bytes() == vstd::utf8::encode_utf8(lines@));
    }
    if t.is_char_boundary(at) {
        Some(lines.position(at))
    } else {
        None
    }
}

/// The places that lie in files this reading claims, in order.
fn claimed(places: &Vec<(String, u32, u32)>, ours: &Vec<String>) -> (r: Vec<(String, u32, u32)>)
    ensures
        place_views(r@) == claimed_places(place_views(places@), views(ours@)),
{
    let ghost all = place_views(places@);
    let mut kept: Vec<(String, u32, u32)> = Vec::new();
    for i in 0..places.len()
        invariant
            all == place_views(places@),
            place_views(kept@) == claimed_places(all.take(i as int), views(ours@)),
    {
        assert(all.take(i + 1).drop_last() =~= all.take(i as int));
        assert(all.take(i + 1).last() == all[i as int]);
        if claims(ours, &places[i].0) {
            let ghost was = place_views(kept@);
            kept.push((owned(places[i].0.as_str()), places[i].1, places[i].2));
            assert(place_views(kept@) =~= was.push(all[i as int]));
        }
    }
    assert(all.take(places@.len() as int) =~= all);
    kept
}

impl View for Walk {
    type V = WalkView;

    closed spec fn view(&self) -> WalkView {
        WalkView {
            ours: views(self.ours@),
            binder: self.binder.0@,
            ripples: self.ripples,
            walk_limit: self.walk_limit,
            open_limit: self.open_limit,
            front: self.front@,
            changed: views(self.changed@),
            seen: seen_views(self.seen@),
            failed: views(self.failed@),
            mentions: self.mentions@.map_values(|m: Mention| mention_view(m)),
            contracts: self.contracts@.map_values(|c: (Locator, String)| (c.0@, c.1@)),
            notes: self.notes@.map_values(|n: Note| n@),
            stage: self.stage,
            next_seed: self.next_seed,
            pending: crate::syntax::opt_text(self.pending),
            current: self.current@,
            wanted: self.wanted@,
            away: self.away,
            asking: self.asking@,
            q: self.q,
            places: place_views(self.places@),
            p: self.p,
            onward: self.onward@.map_values(|o: (String, Locator)| (o.0@, o.1@)),
        }
    }
}

impl Walk {
    /// Every file open is open once, with its lines in order; the frontier is sound; and
    /// where the walk is asking about a file, that file is open and what is asked about
    /// is among its definitions.
    pub closed spec fn wf(&self) -> bool {
        &&& self.front.wf()
        &&& self.wanted.wf()
        &&& distinct_seen(self.seen@)
        &&& forall|k: int| 0 <= k < self.seen@.len() ==> (#[trigger] self.seen@[k]).1.wf()
        &&& (self.stage == Stage::Question || self.stage == Stage::Hover || self.stage == Stage::Refer || self.stage == Stage::Place) ==> {
            &&& is_open(self.seen@, self.current@)
            &&& forall|j: int| 0 <= j < self.asking@.len() ==> (#[trigger] self.asking@[j]) < spots_in(self.seen@, self.current@).len()
        }
        &&& (self.stage == Stage::Hover || self.stage == Stage::Refer || self.stage == Stage::Place) ==> self.q < self.asking@.len()
    }

    /// A walk from the changes this reading was handed, over the files it claims, through
    /// a server named `binder`: `ripples` steps out, chasing users of at most `walk_limit`
    /// files and opening at most `open_limit`. Each changed file it claims is wanted whole,
    /// or where it changed, at no distance.
    pub fn new(changed: &Vec<Changed>, ours: Vec<String>, binder: ExtractorId, ripples: u32, walk_limit: usize, open_limit: usize) -> (r: Walk)
        ensures
            r.wf(),
            r@ == start_spec(changed@, views(ours@), binder.0@, ripples, walk_limit, open_limit),
    {
        let mut front = Frontier::default();
        for i in 0..changed.len()
            invariant
                front.wf(),
                front@ == seed_front(changed@.take(i as int), views(ours@)),
        {
            assert(changed@.take(i + 1).drop_last() =~= changed@.take(i as int));
            assert(changed@.take(i + 1).last() == changed@[i as int]);
            if claims(&ours, &changed[i].file) {
                front.want(changed[i].file.as_str(), Wanted::from_spans(changed[i].at.as_slice()), 0);
            }
        }
        assert(changed@.take(changed@.len() as int) =~= changed@);
        let seeded = seeds(changed, &ours);
        let r = Walk {
            ours,
            binder,
            ripples,
            walk_limit,
            open_limit,
            front,
            changed: seeded,
            seen: Vec::new(),
            failed: Vec::new(),
            mentions: Vec::new(),
            contracts: Vec::new(),
            notes: Vec::new(),
            stage: Stage::Seed,
            next_seed: 0,
            pending: None,
            current: String::new(),
            wanted: Wanted::nothing(),
            away: 0,
            asking: Vec::new(),
            q: 0,
            places: Vec::new(),
            p: 0,
            onward: Vec::new(),
        };
        assert(r@ =~= start_spec(changed@, views(r.ours@), r.binder.0@, ripples, walk_limit, open_limit));
        r
    }

    fn open_at(&self, path: &str) -> (r: Option<usize>)
        ensures
            match r {
                Some(k) => k < self.seen@.len() && self.seen@[k as int].0@ == path@,
                None => !is_open(self.seen@, path@),
            },
    {
        for k in 0..self.seen.len()
            invariant
                forall|j: int| 0 <= j < k ==> (#[trigger] self.seen@[j]).0@ != path@,
        {
            if crate::text::str_eq(self.seen[k].0.as_str(), path) {
                return Some(k);
            }
        }
        None
    }

    fn has_failed(&self, path: &str) -> (r: bool)
        ensures
            r == views(self.failed@).contains(path@),
    {
        for k in 0..self.failed.len()
            invariant
                forall|j: int| 0 <= j < k ==> (#[trigger] self.failed@[j])@ != path@,
        {
            if crate::text::str_eq(self.failed[k].as_str(), path) {
                assert(views(self.failed@)[k as int] == path@);
                return true;
            }
        }
        proof {
            if views(self.failed@).contains(path@) {
                let j = choose|j: int| 0 <= j < views(self.failed@).len() && views(self.failed@)[j] == path@;
                assert(self.failed@[j]@ == path@);
            }
        }
        false
    }

    /// Where the file asked about sits among the open ones, with what that means for the
    /// walk as values.
    fn current_at(&self) -> (k: usize)
        requires
            self.wf(),
            is_open(self.seen@, self.current@),
        ensures
            k < self.seen@.len(),
            self.seen@[k as int].0@ == self.current@,
            spots_in(self.seen@, self.current@) == self.seen@[k as int].2@,
            spots_at(self@.seen, self@.current) == self.seen@[k as int].2@,
            text_at(self@.seen, self@.current) == self.seen@[k as int].1@,
    {
        let k = self.open_at(self.current.as_str()).unwrap();
        proof {
            lemma_pick(self.seen@, k as int);
            lemma_file_at(self.seen@, k as int);
        }
        k
    }

    /// Takes in what came of the last thing asked, decides, and says what to do next: one
    /// step of `next`, the walk as a function of where it is and what came back.
    pub fn step(&mut self, answer: Answer) -> (r: Ask)
        requires
            old(self).wf(),
        ensures
            final(self).wf(),
            (final(self)@, r@) == next(old(self)@, answer@),
    {
        let ghost a = answer@;
        match self.absorb(answer) {
            Some(ask) => ask,
            None => self.advance(),
        }
    }

    fn absorb(&mut self, answer: Answer) -> (r: Option<Ask>)
        requires
            old(self).wf(),
        ensures
            final(self).wf(),
            absorb_spec(old(self)@, answer@) == (final(self)@, match r {
                Some(ask) => Some(ask@),
                None => None,
            }),
    {
        match answer {
            Answer::Opened(got) => {
                self.take_file(got);
                None
            },
            Answer::Hovered(contract) => self.take_hover(contract),
            Answer::Referred(said) => {
                self.take_places(said);
                None
            },
            Answer::Nothing => None,
        }
    }

    fn take_file(&mut self, got: Result<(String, Vec<Spot>), String>)
        requires
            old(self).wf(),
        ensures
            final(self).wf(),
            absorb_spec(old(self)@, AnswerView::Opened(match got {
                Ok((text, spots)) => Ok((text@, spots@)),
                Err(why) => Err(why@),
            })) == (final(self)@, None::<AskView>),
    {
        let ghost w = self@;
        let pending = self.pending.take();
        match pending {
            Some(path) => {
                proof {
                    lemma_opened(self.seen@, path@);
                }
                match self.open_at(path.as_str()) {
                    Some(_) => {
                        assert(self@ =~= WalkView { pending: None, ..w });
                    },
                    None => match got {
                        Ok((text, spots)) => {
                            let lines = Lines::new(text.as_str());
                            let ghost was = self.seen@;
                            let ghost entry = (path@, text@, spots@);
                            self.seen.push((path, lines, spots));
                            proof {
                                assert forall|a: int, b: int| 0 <= a < b < self.seen@.len() implies (#[trigger] self.seen@[a]).0@ != (#[trigger] self.seen@[b]).0@ by {
                                    if b == was.len() {
                                        assert(self.seen@[a] == was[a]);
                                    } else {
                                        assert(self.seen@[a] == was[a] && self.seen@[b] == was[b]);
                                    }
                                }
                                assert forall|k: int| 0 <= k < self.seen@.len() implies (#[trigger] self.seen@[k]).1.wf() by {
                                    if k < was.len() {
                                        assert(self.seen@[k] == was[k]);
                                    }
                                }
                                if is_open(was, self.current@) {
                                    let c = choose|c: int| 0 <= c < was.len() && (#[trigger] was[c]).0@ == self.current@;
                                    lemma_pick(was, c);
                                    assert(self.seen@[c] == was[c]);
                                    lemma_pick(self.seen@, c);
                                    assert(is_open(self.seen@, self.current@));
                                }
                                assert(seen_views(self.seen@) =~= seen_views(was).push(entry));
                                assert(self@ =~= WalkView { seen: w.seen.push(entry), pending: None, ..w });
                            }
                        },
                        Err(why) => {
                            let mut message = String::new();
                            let lead = "skipped it: ";
                            proof {
                                reveal_strlit("skipped it: ");
                            }
                            message.append(lead);
                            message.append(why.as_str());
                            let file = owned(path.as_str());
                            let note = Note { message, file: Some(file) };
                            let ghost n0 = self.notes@;
                            let ghost f0 = self.failed@;
                            self.notes.push(note);
                            self.failed.push(path);
                            proof {
                                assert(self.notes@.map_values(|n: Note| n@) =~= n0.map_values(|n: Note| n@).push(
                                    NoteView { message: skipped_message(why@), file: Some(path@) },
                                ));
                                assert(views(self.failed@) =~= views(f0).push(path@));
                                assert(self@ =~= WalkView {
                                    notes: w.notes.push(NoteView { message: skipped_message(why@), file: Some(path@) }),
                                    failed: w.failed.push(path@),
                                    pending: None,
                                    ..w
                                });
                            }
                        },
                    },
                }
            },
            None => {
                assert(self@ =~= w);
            },
        }
    }

    fn take_hover(&mut self, contract: Option<String>) -> (r: Option<Ask>)
        requires
            old(self).wf(),
        ensures
            final(self).wf(),
            absorb_spec(old(self)@, AnswerView::Hovered(crate::syntax::opt_text(contract))) == (final(self)@, match r {
                Some(ask) => Some(ask@),
                None => None,
            }),
    {
        let ghost w = self@;
        if self.stage != Stage::Hover {
            return None;
        }
        let q = self.q;
        let total = self.asking.len();
        assert(q < total);
        let k = self.current_at();
        let at = self.asking[q];
        assert(asked_item(w) == self.seen@[k as int].2@[at as int]);
        match contract {
            Some(c) => {
                let l = self.seen[k].2[at].locator.duplicate();
                let ghost c0 = self.contracts@;
                self.contracts.push((l, c));
                assert(self.contracts@.map_values(|c: (Locator, String)| (c.0@, c.1@)) =~= c0.map_values(
                    |c: (Locator, String)| (c.0@, c.1@),
                ).push((asked_item(w).locator@, c@)));
            },
            None => {},
        }
        let ghost w1 = self@;
        match spot_of(&self.seen[k].1, self.seen[k].2[at].name_at.start) {
            Some((line, column)) => {
                self.stage = Stage::Refer;
                assert(self@ =~= WalkView { stage: Stage::Refer, ..w1 });
                Some(Ask::References { path: owned(self.current.as_str()), line, column })
            },
            None => {
                self.q = q + 1;
                self.stage = Stage::Question;
                assert(self@ =~= WalkView { q: (q + 1) as usize, stage: Stage::Question, ..w1 });
                None
            },
        }
    }

    fn take_places(&mut self, said: Result<Vec<(String, u32, u32)>, String>)
        requires
            old(self).wf(),
        ensures
            final(self).wf(),
            absorb_spec(old(self)@, AnswerView::Referred(match said {
                Ok(places) => Ok(place_views(places@)),
                Err(why) => Err(why@),
            })) == (final(self)@, None::<AskView>),
    {
        let ghost w = self@;
        if self.stage != Stage::Refer {
            return;
        }
        let q = self.q;
        let total = self.asking.len();
        assert(q < total);
        match said {
            Ok(places) => {
                self.places = claimed(&places, &self.ours);
                self.p = 0;
                self.stage = Stage::Place;
                assert(self@ =~= WalkView { places: claimed_places(place_views(places@), w.ours), p: 0, stage: Stage::Place, ..w });
            },
            Err(why) => {
                let k = self.current_at();
                let at = self.asking[q];
                assert(asked_item(w) == self.seen@[k as int].2@[at as int]);
                let mut message = String::new();
                let lead = "couldn't find what uses ";
                let sep = ": ";
                proof {
                    reveal_strlit("couldn't find what uses ");
                    reveal_strlit(": ");
                }
                message.append(lead);
                message.append(self.seen[k].2[at].name.as_str());
                message.append(sep);
                message.append(why.as_str());
                let file = owned(self.current.as_str());
                let ghost n0 = self.notes@;
                self.notes.push(Note { message, file: Some(file) });
                self.q = q + 1;
                self.stage = Stage::Question;
                assert(self.notes@.map_values(|n: Note| n@) =~= n0.map_values(|n: Note| n@).push(
                    NoteView { message: unused_message(asked_item(w).name@, why@), file: Some(w.current) },
                ));
                assert(self@ =~= WalkView {
                    notes: w.notes.push(NoteView { message: unused_message(asked_item(w).name@, why@), file: Some(w.current) }),
                    q: (q + 1) as usize,
                    stage: Stage::Question,
                    ..w
                });
            },
        }
    }

    /// Decides what to do next, from where the walk is.
    fn advance(&mut self) -> (r: Ask)
        requires
            old(self).wf(),
        ensures
            final(self).wf(),
            (final(self)@, r@) == advance_spec(old(self)@),
    {
        match self.stage {
            Stage::Seed => self.seed(),
            Stage::Take => self.take_next(),
            Stage::Look => self.look(),
            Stage::Question => self.question(),
            Stage::Hover | Stage::Refer => Ask::Next,
            Stage::Place => self.place(),
            Stage::Done => Ask::Done,
        }
    }

    fn seed(&mut self) -> (r: Ask)
        requires
            old(self).wf(),
            old(self).stage == Stage::Seed,
        ensures
            final(self).wf(),
            (final(self)@, r@) == advance_spec(old(self)@),
    {
        let ghost w = self@;
        if self.next_seed < self.changed.len() {
            let path = owned(self.changed[self.next_seed].as_str());
            assert(path@ == w.changed[w.next_seed as int]);
            self.next_seed = self.next_seed + 1;
            proof {
                lemma_opened(self.seen@, path@);
            }
            if self.open_at(path.as_str()).is_none() && !self.has_failed(path.as_str()) {
                self.pending = Some(owned(path.as_str()));
                assert(self@ =~= WalkView { pending: Some(path@), next_seed: (w.next_seed + 1) as usize, ..w });
                return Ask::Open { path };
            }
            assert(self@ =~= WalkView { next_seed: (w.next_seed + 1) as usize, ..w });
        } else {
            self.stage = Stage::Take;
            assert(self@ =~= WalkView { stage: Stage::Take, ..w });
        }
        Ask::Next
    }

    fn take_next(&mut self) -> (r: Ask)
        requires
            old(self).wf(),
            old(self).stage == Stage::Take,
        ensures
            final(self).wf(),
            (final(self)@, r@) == advance_spec(old(self)@),
    {
        let ghost w = self@;
        match self.front.take() {
            None => {
                self.stage = Stage::Done;
                assert(self@ =~= WalkView { front: crate::frontier::after_take(w.front).0, stage: Stage::Done, ..w });
                Ask::Done
            },
            Some((path, wanted, away)) => {
                let ghost f2 = self.front@;
                if over_limit(self.front.walked(), self.walk_limit) {
                    let ghost n0 = self.notes@;
                    self.notes.push(stopped(self.walk_limit));
                    self.stage = Stage::Done;
                    assert(self.notes@.map_values(|n: Note| n@) =~= n0.map_values(|n: Note| n@).push(
                        NoteView { message: stop_message(w.walk_limit), file: None },
                    ));
                    assert(self@ =~= WalkView {
                        front: f2,
                        notes: w.notes.push(NoteView { message: stop_message(w.walk_limit), file: None }),
                        stage: Stage::Done,
                        ..w
                    });
                    return Ask::Done;
                }
                self.current = path;
                self.wanted = wanted;
                self.away = away;
                self.stage = Stage::Look;
                assert(self@ =~= WalkView { front: f2, current: path@, wanted: wanted@, away, stage: Stage::Look, ..w });
                Ask::Next
            },
        }
    }

    fn look(&mut self) -> (r: Ask)
        requires
            old(self).wf(),
            old(self).stage == Stage::Look,
        ensures
            final(self).wf(),
            (final(self)@, r@) == advance_spec(old(self)@),
    {
        let ghost w = self@;
        proof {
            lemma_opened(self.seen@, self.current@);
        }
        match self.open_at(self.current.as_str()) {
            Some(k) => {
                proof {
                    lemma_pick(self.seen@, k as int);
                    lemma_file_at(self.seen@, k as int);
                }
                self.asking = questions(&self.seen[k].2, &self.wanted);
                proof {
                    lemma_asked_within(self.seen@[k as int].2@, self.wanted@, self.seen@[k as int].2@.len() as int);
                    assert(is_open(self.seen@, self.current@));
                }
                self.q = 0;
                self.onward = Vec::new();
                self.stage = Stage::Question;
                let ghost spots = spots_at(w.seen, w.current);
                assert(self@ =~= WalkView {
                    asking: asked_about(spots, w.wanted, spots.len() as int),
                    q: 0,
                    onward: Seq::empty(),
                    stage: Stage::Question,
                    ..w
                });
                Ask::Next
            },
            None => {
                if self.has_failed(self.current.as_str()) {
                    self.stage = Stage::Take;
                    assert(self@ =~= WalkView { stage: Stage::Take, ..w });
                    Ask::Next
                } else {
                    self.pending = Some(owned(self.current.as_str()));
                    assert(self@ =~= WalkView { pending: Some(w.current), ..w });
                    Ask::Open { path: owned(self.current.as_str()) }
                }
            },
        }
    }

    fn question(&mut self) -> (r: Ask)
        requires
            old(self).wf(),
            old(self).stage == Stage::Question,
        ensures
            final(self).wf(),
            (final(self)@, r@) == advance_spec(old(self)@),
    {
        let ghost w = self@;
        if self.q < self.asking.len() {
            let k = self.current_at();
            let at = self.asking[self.q];
            assert(asked_item(w) == self.seen@[k as int].2@[at as int]);
            match spot_of(&self.seen[k].1, self.seen[k].2[at].name_at.start) {
                Some((line, column)) => {
                    self.stage = Stage::Hover;
                    assert(self@ =~= WalkView { stage: Stage::Hover, ..w });
                    Ask::Hover { path: owned(self.current.as_str()), line, column }
                },
                None => {
                    self.q = self.q + 1;
                    assert(self@ =~= WalkView { q: (w.q + 1) as usize, ..w });
                    Ask::Next
                },
            }
        } else {
            if follows(self.away, self.ripples) {
                let n = self.onward.len();
                let ghost onward = w.onward;
                for i in 0..n
                    invariant
                        self.front.wf(),
                        self.wanted.wf(),
                        self.away + 1 < self.ripples,
                        n == self.onward@.len(),
                        onward == self.onward@.map_values(|o: (String, Locator)| (o.0@, o.1@)),
                        self.front@ == want_all(w.front, onward.take(i as int), (w.away + 1) as u32),
                        self.away == w.away,
                        self@ == (WalkView { front: self.front@, ..w }),
                        distinct_seen(self.seen@),
                        forall|k: int| 0 <= k < self.seen@.len() ==> (#[trigger] self.seen@[k]).1.wf(),
                {
                    let l = self.onward[i].1.duplicate();
                    assert(onward.take(i + 1).drop_last() =~= onward.take(i as int));
                    assert(onward.take(i + 1).last() == (self.onward@[i as int].0@, self.onward@[i as int].1@));
                    let named = Wanted::named(l);
                    self.front.want(self.onward[i].0.as_str(), named, self.away + 1);
                }
                assert(onward.take(n as int) =~= onward);
            }
            self.onward = Vec::new();
            self.stage = Stage::Take;
            assert(self@ =~= WalkView {
                front: if w.away + 1 < w.ripples { want_all(w.front, w.onward, (w.away + 1) as u32) } else { w.front },
                onward: Seq::empty(),
                stage: Stage::Take,
                ..w
            });
            Ask::Next
        }
    }

    fn place(&mut self) -> (r: Ask)
        requires
            old(self).wf(),
            old(self).stage == Stage::Place,
        ensures
            final(self).wf(),
            (final(self)@, r@) == advance_spec(old(self)@),
    {
        let ghost w = self@;
        if self.p >= self.places.len() {
            let total = self.asking.len();
            assert(self.q < total);
            self.q = self.q + 1;
            self.stage = Stage::Question;
            assert(self@ =~= WalkView { q: (w.q + 1) as usize, stage: Stage::Question, ..w });
            return Ask::Next;
        }
        let place = (owned(self.places[self.p].0.as_str()), self.places[self.p].1, self.places[self.p].2);
        assert(place.0@ == w.places[w.p as int].0);
        proof {
            lemma_opened(self.seen@, place.0@);
        }
        let already = self.open_at(place.0.as_str());
        let in_changed = claims(&self.changed, &place.0);
        if !worth_opening(already.is_some(), in_changed, self.away, self.ripples, self.seen.len(), self.open_limit) {
            self.p = self.p + 1;
            assert(self@ =~= WalkView { p: (w.p + 1) as usize, ..w });
            return Ask::Next;
        }
        match already {
            None => {
                if self.has_failed(place.0.as_str()) {
                    self.p = self.p + 1;
                    assert(self@ =~= WalkView { p: (w.p + 1) as usize, ..w });
                    Ask::Next
                } else {
                    self.pending = Some(owned(place.0.as_str()));
                    assert(self@ =~= WalkView { pending: Some(place.0@), ..w });
                    Ask::Open { path: place.0 }
                }
            },
            Some(k) => {
                proof {
                    lemma_file_at(self.seen@, k as int);
                }
                let at = self.seen[k].1.offset(place.1, place.2);
                if at <= 0xffff_ffff {
                    let c = self.current_at();
                    assert(asked_item(w) == self.seen@[c as int].2@[self.asking@[self.q as int] as int]);
                    let to = self.seen[c].2[self.asking[self.q]].locator.duplicate();
                    match mention_at(&self.seen[k].2, at, &to, &self.binder) {
                        Some((m, onward)) => {
                            let ghost o0 = self.onward@;
                            let ghost m0 = self.mentions@;
                            let ghost mv = mention_view(m);
                            assert(mv == MentionView {
                                from: m.from@,
                                to: Some(to@),
                                part: m.site.part,
                                span: Span { start: at as u32, end: at as u32 },
                                extractor: m.site.extractor.0@,
                            });
                            if onward {
                                let from = m.from.duplicate();
                                self.onward.push((place.0, from));
                                assert(self.onward@.map_values(|o: (String, Locator)| (o.0@, o.1@)) =~= o0.map_values(
                                    |o: (String, Locator)| (o.0@, o.1@),
                                ).push((w.places[w.p as int].0, m.from@)));
                            }
                            self.mentions.push(m);
                            self.p = self.p + 1;
                            assert(self.mentions@.map_values(|m: Mention| mention_view(m)) =~= m0.map_values(|m: Mention| mention_view(m)).push(mv));
                            assert(self@ =~= WalkView {
                                mentions: w.mentions.push(mv),
                                onward: if onward { w.onward.push((w.places[w.p as int].0, mv.from)) } else { w.onward },
                                p: (w.p + 1) as usize,
                                ..w
                            });
                        },
                        None => {
                            self.p = self.p + 1;
                            assert(self@ =~= WalkView { p: (w.p + 1) as usize, ..w });
                        },
                    }
                } else {
                    self.p = self.p + 1;
                    assert(self@ =~= WalkView { p: (w.p + 1) as usize, ..w });
                }
                Ask::Next
            },
        }
    }

    /// What the walk found: the files it opened, each with its lines and definitions; the
    /// mentions; the contracts hovers gave; and its notes.
    pub fn finish(self) -> (r: (Vec<(String, Lines, Vec<Spot>)>, Vec<Mention>, Vec<(Locator, String)>, Vec<Note>))
        ensures
            seen_views(r.0@) == self@.seen,
            r.1@.map_values(|m: Mention| mention_view(m)) == self@.mentions,
            r.2@.map_values(|c: (Locator, String)| (c.0@, c.1@)) == self@.contracts,
            r.3@.map_values(|n: Note| n@) == self@.notes,
    {
        (self.seen, self.mentions, self.contracts, self.notes)
    }
}

} // verus!
