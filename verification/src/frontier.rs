//! Which files are still worth asking a language server about, and what for, while a walk
//! spreads outward from a change.

use crate::checks::{lemma_locator_lt_order, locator_before, locator_lt};
use crate::model::{Locator, LocatorView, Span};
use crate::text::{owned, str_eq, views};
use std::ops::Range;
use vstd::prelude::*;

verus! {

// ---------------------------------------------------------------------------------------
// What one file is wanted for.

/// The stretch that stands for a whole file: it overlaps any definition at all.
pub open spec fn whole_file() -> Range<usize> {
    Range { start: 0, end: usize::MAX }
}

/// Whether two stretches share a byte. Meeting at an edge is not sharing.
pub open spec fn overlaps(a: Range<usize>, b: Range<usize>) -> bool {
    a.start < b.end && b.start < a.end
}

/// Locators in strictly ascending order: a set written down in the order a derived `Ord`
/// gives them.
pub open spec fn ascending(names: Seq<Locator>) -> bool {
    forall|i: int, j: int| 0 <= i < j < names.len() ==> locator_lt(#[trigger] names[i]@, #[trigger] names[j]@)
}

/// The locators a list holds.
pub open spec fn name_set(names: Seq<Locator>) -> Set<LocatorView> {
    Set::new(|v: LocatorView| exists|i: int| 0 <= i < names.len() && #[trigger] names[i]@ == v)
}

/// What is wanted from one file: byte ranges that changed, and definitions named because a
/// break reached them.
pub struct WantedView {
    pub ranges: Seq<Range<usize>>,
    pub names: Set<LocatorView>,
}

/// Nothing wanted at all.
pub open spec fn nothing() -> WantedView {
    WantedView { ranges: Seq::empty(), names: Set::empty() }
}

/// Whether nothing is wanted.
pub open spec fn is_nothing(w: WantedView) -> bool {
    w.ranges.len() == 0 && w.names == Set::<LocatorView>::empty()
}

/// Whether the whole file is wanted.
pub open spec fn reads_whole(w: WantedView) -> bool {
    w.ranges.contains(whole_file())
}

/// Whether a definition spanning `whole` and called `name` earns being asked about: it was
/// named outright, or its own span overlaps something that changed.
pub open spec fn covered(w: WantedView, whole: Range<usize>, name: LocatorView) -> bool {
    w.names.contains(name) || exists|i: int| 0 <= i < w.ranges.len() && overlaps(#[trigger] w.ranges[i], whole)
}

/// What a changed file wants, from the spans that differ: no spans means the whole file.
pub open spec fn from_spans_spec(spans: Seq<Span>) -> WantedView {
    if spans.len() == 0 {
        WantedView { ranges: seq![whole_file()], names: Set::empty() }
    } else {
        WantedView {
            ranges: spans.map_values(|s: Span| Range { start: s.start as usize, end: s.end as usize }),
            names: Set::empty(),
        }
    }
}

/// What's wanted from one file. Nothing here ever means "everything the file happens to
/// define".
#[derive(Debug, Clone, PartialEq)]
pub struct Wanted {
    ranges: Vec<Range<usize>>,
    names: Vec<Locator>,
}

impl View for Wanted {
    type V = WantedView;

    open spec fn view(&self) -> WantedView {
        WantedView { ranges: self.ranges(), names: name_set(self.names()) }
    }
}

proof fn lemma_empty_names(names: Seq<Locator>)
    ensures
        (names.len() == 0) == (name_set(names) == Set::<LocatorView>::empty()),
{
    if names.len() == 0 {
        assert(name_set(names) =~= Set::<LocatorView>::empty());
    } else {
        assert(name_set(names).contains(names[0]@));
    }
}

proof fn lemma_names_grow(names: Seq<Locator>, k: int)
    requires
        0 <= k < names.len(),
    ensures
        name_set(names.subrange(0, k + 1)) == name_set(names.subrange(0, k)).insert(names[k]@),
{
    let a = names.subrange(0, k + 1);
    let b = names.subrange(0, k);
    assert forall|v: LocatorView| name_set(a).contains(v) == name_set(b).insert(names[k]@).contains(v) by {
        if name_set(a).contains(v) {
            let i = choose|i: int| 0 <= i < a.len() && #[trigger] a[i]@ == v;
            if i < k {
                assert(b[i]@ == v);
            }
        }
        if name_set(b).contains(v) {
            let i = choose|i: int| 0 <= i < b.len() && #[trigger] b[i]@ == v;
            assert(a[i]@ == v);
        }
        if v == names[k]@ {
            assert(a[k]@ == v);
        }
    }
    assert(name_set(a) =~= name_set(b).insert(names[k]@));
}

proof fn lemma_names_whole(names: Seq<Locator>)
    ensures
        name_set(names.subrange(0, names.len() as int)) == name_set(names),
{
    assert(names.subrange(0, names.len() as int) =~= names);
}

/// Adds a name to an ascending list, keeping it ascending and holding each name once.
fn insert_name(names: &mut Vec<Locator>, l: &Locator)
    requires
        ascending(old(names)@),
    ensures
        ascending(final(names)@),
        name_set(final(names)@) == name_set(old(names)@).insert(l@),
{
    let ghost before = names@;
    let mut k: usize = 0;
    while k < names.len() && locator_before(&names[k], l)
        invariant
            names@ == before,
            ascending(before),
            k <= before.len(),
            forall|i: int| 0 <= i < k ==> locator_lt(#[trigger] before[i]@, l@),
        decreases before.len() - k,
    {
        k = k + 1;
    }
    if k < names.len() && names[k].same_as(l) {
        assert(name_set(before) =~= name_set(before).insert(l@)) by {
            assert(name_set(before).contains(before[k as int]@));
        }
        return;
    }
    proof {
        if k < before.len() {
            lemma_locator_lt_order(l@, before[k as int]@, l@);
        }
        assert forall|j: int| k <= j < before.len() implies locator_lt(l@, #[trigger] before[j]@) by {
            lemma_locator_lt_order(l@, before[k as int]@, before[j]@);
        }
    }
    names.insert(k, l.duplicate());
    let ghost after = names@;
    assert(after =~= before.subrange(0, k as int).push(after[k as int]) + before.subrange(k as int, before.len() as int));
    assert forall|i: int, j: int| 0 <= i < j < after.len() implies locator_lt(#[trigger] after[i]@, #[trigger] after[j]@) by {
        if i < k && j == k {
        } else if i < k && j > k {
            assert(after[j] == before[j - 1]);
            lemma_locator_lt_order(before[i]@, l@, before[j - 1]@);
        } else if i == k {
            assert(after[j] == before[j - 1]);
        } else if i < k {
        } else {
            assert(after[i] == before[i - 1]);
            assert(after[j] == before[j - 1]);
        }
    }
    assert forall|v: LocatorView| name_set(after).contains(v) == name_set(before).insert(l@).contains(v) by {
        if name_set(after).contains(v) {
            let i = choose|i: int| 0 <= i < after.len() && #[trigger] after[i]@ == v;
            if i < k {
                assert(before[i]@ == v);
            } else if i > k {
                assert(before[i - 1]@ == v);
            }
        }
        if name_set(before).contains(v) {
            let i = choose|i: int| 0 <= i < before.len() && #[trigger] before[i]@ == v;
            if i < k {
                assert(after[i]@ == v);
            } else {
                assert(after[i + 1]@ == v);
            }
        }
        if v == l@ {
            assert(after[k as int]@ == v);
        }
    }
    assert(name_set(after) =~= name_set(before).insert(l@));
}

/// Whether a name is in a list.
fn holds_name(names: &Vec<Locator>, l: &Locator) -> (r: bool)
    ensures
        r == name_set(names@).contains(l@),
{
    for i in 0..names.len()
        invariant
            forall|j: int| 0 <= j < i ==> names@[j]@ != l@,
    {
        if names[i].same_as(l) {
            assert(name_set(names@).contains(names@[i as int]@));
            return true;
        }
    }
    false
}

/// A copy of a list of ranges.
pub(crate) fn copy_ranges(ranges: &Vec<Range<usize>>) -> (r: Vec<Range<usize>>)
    ensures
        r@ == ranges@,
{
    let mut r: Vec<Range<usize>> = Vec::new();
    for i in 0..ranges.len()
        invariant
            r@ == ranges@.subrange(0, i as int),
    {
        r.push(Range { start: ranges[i].start, end: ranges[i].end });
        assert(r@ =~= ranges@.subrange(0, i + 1));
    }
    assert(ranges@.subrange(0, ranges@.len() as int) =~= ranges@);
    r
}

/// Whether a list of ranges holds the whole file.
fn holds_whole(ranges: &Vec<Range<usize>>) -> (r: bool)
    ensures
        r == ranges@.contains(whole_file()),
{
    for i in 0..ranges.len()
        invariant
            forall|j: int| 0 <= j < i ==> ranges@[j] != whole_file(),
    {
        if ranges[i].start == 0 && ranges[i].end == usize::MAX {
            assert(ranges@[i as int] == whole_file());
            return true;
        }
    }
    false
}

impl Wanted {
    /// The ranges wanted.
    pub closed spec fn ranges(&self) -> Seq<Range<usize>> {
        self.ranges@
    }

    /// The names wanted, in ascending order.
    pub closed spec fn names(&self) -> Seq<Locator> {
        self.names@
    }

    /// Whether the names are held in ascending order, each once.
    pub closed spec fn wf(&self) -> bool {
        ascending(self.names@)
    }

    /// What is wanted, from ranges and names given in any order.
    pub fn new(ranges: Vec<Range<usize>>, names: Vec<Locator>) -> (r: Wanted)
        ensures
            r.wf(),
            r@ == (WantedView { ranges: ranges@, names: name_set(names@) }),
    {
        let mut sorted: Vec<Locator> = Vec::new();
        for k in 0..names.len()
            invariant
                ascending(sorted@),
                name_set(sorted@) == name_set(names@.subrange(0, k as int)),
        {
            insert_name(&mut sorted, &names[k]);
            proof {
                lemma_names_grow(names@, k as int);
            }
        }
        proof {
            lemma_names_whole(names@);
        }
        Wanted { ranges, names: sorted }
    }

    /// Nothing at all.
    pub fn nothing() -> (r: Wanted)
        ensures
            r.wf(),
            r@ == nothing(),
    {
        let r = Wanted { ranges: Vec::new(), names: Vec::new() };
        proof {
            lemma_empty_names(r.names@);
        }
        assert(r@.ranges =~= Seq::<Range<usize>>::empty());
        r
    }

    /// The whole file, for when there's nothing narrower to say (a binary file, say).
    pub fn everything() -> (r: Wanted)
        ensures
            r.wf(),
            r@ == (WantedView { ranges: seq![whole_file()], names: Set::empty() }),
    {
        let r = Wanted { ranges: vec![Range { start: 0, end: usize::MAX }], names: Vec::new() };
        proof {
            lemma_empty_names(r.names@);
        }
        assert(r@.ranges =~= seq![whole_file()]);
        r
    }

    /// What a changed file wants, from wherever it differs. No spans at all means the same
    /// as no narrower answer: the whole file.
    pub fn from_spans(spans: &[Span]) -> (r: Wanted)
        ensures
            r.wf(),
            r@ == from_spans_spec(spans@),
    {
        if spans.len() == 0 {
            return Wanted::everything();
        }
        let ghost want = spans@.map_values(|s: Span| Range { start: s.start as usize, end: s.end as usize });
        let mut ranges: Vec<Range<usize>> = Vec::new();
        for i in 0..spans.len()
            invariant
                want == spans@.map_values(|s: Span| Range { start: s.start as usize, end: s.end as usize }),
                ranges@ == want.subrange(0, i as int),
        {
            ranges.push(Range { start: spans[i].start as usize, end: spans[i].end as usize });
            assert(ranges@ =~= want.subrange(0, i + 1));
        }
        assert(want.subrange(0, want.len() as int) =~= want);
        let r = Wanted { ranges, names: Vec::new() };
        proof {
            lemma_empty_names(r.names@);
        }
        r
    }

    /// Wanted for one definition, named because a break reached it.
    pub fn named(locator: Locator) -> (r: Wanted)
        ensures
            r.wf(),
            r@ == (WantedView { ranges: Seq::empty(), names: set![locator@] }),
    {
        let r = Wanted { ranges: Vec::new(), names: vec![locator] };
        assert(r.names@[0]@ == locator@);
        assert(name_set(r.names@) =~= set![locator@]);
        assert(r@.ranges =~= Seq::<Range<usize>>::empty());
        r
    }

    pub fn is_empty(&self) -> (r: bool)
        ensures
            r == is_nothing(self@),
    {
        proof {
            lemma_empty_names(self.names@);
        }
        self.ranges.len() == 0 && self.names.len() == 0
    }

    /// Whether a definition earns being asked about: its own span overlaps something that
    /// changed, or it was named outright.
    pub fn covers(&self, whole: &Range<usize>, name: &Locator) -> (r: bool)
        ensures
            r == covered(self@, *whole, name@),
    {
        if holds_name(&self.names, name) {
            return true;
        }
        for i in 0..self.ranges.len()
            invariant
                forall|j: int| 0 <= j < i ==> !overlaps(#[trigger] self.ranges@[j], *whole),
        {
            if self.ranges[i].start < whole.end && whole.start < self.ranges[i].end {
                assert(overlaps(self@.ranges[i as int], *whole));
                return true;
            }
        }
        false
    }

    /// A copy of what is wanted.
    fn duplicate(&self) -> (r: Wanted)
        requires
            self.wf(),
        ensures
            r.wf(),
            r@ == self@,
    {
        let mut names: Vec<Locator> = Vec::new();
        for i in 0..self.names.len()
            invariant
                self.wf(),
                names@.len() == i,
                forall|j: int| 0 <= j < i ==> (#[trigger] names@[j])@ == self.names@[j]@,
        {
            names.push(self.names[i].duplicate());
        }
        assert(name_set(names@) =~= name_set(self.names@)) by {
            assert forall|v: LocatorView| name_set(names@).contains(v) implies name_set(self.names@).contains(v) by {
                let i = choose|i: int| 0 <= i < names@.len() && #[trigger] names@[i]@ == v;
                assert(self.names@[i]@ == v);
            }
            assert forall|v: LocatorView| name_set(self.names@).contains(v) implies name_set(names@).contains(v) by {
                let i = choose|i: int| 0 <= i < self.names@.len() && #[trigger] self.names@[i]@ == v;
                assert(names@[i]@ == v);
            }
        }
        assert forall|i: int, j: int| 0 <= i < j < names@.len() implies locator_lt(#[trigger] names@[i]@, #[trigger] names@[j]@) by {
            assert(locator_lt(self.names@[i]@, self.names@[j]@));
        }
        Wanted { ranges: copy_ranges(&self.ranges), names }
    }
}

// ---------------------------------------------------------------------------------------
// Which files are still to be walked.

/// One file's place on the frontier: how far out it sits, what has been asked about it, and
/// what is still waiting to be.
pub struct WorkView {
    pub path: Seq<char>,
    pub away: u32,
    pub asked: WantedView,
    pub pending: WantedView,
}

/// Which files are still to be walked, in order, and what each is wanted for. A file is
/// known from the first time it is wanted.
pub struct FrontierView {
    pub queue: Seq<Seq<char>>,
    pub files: Seq<WorkView>,
}

/// Whether some entry is the file at `path`.
pub open spec fn is_known(files: Seq<WorkView>, path: Seq<char>) -> bool {
    exists|i: int| at(files, path, i)
}

/// Whether entry `i` is the file at `path`.
pub open spec fn at(files: Seq<WorkView>, path: Seq<char>, i: int) -> bool {
    0 <= i < files.len() && files[i].path == path
}

/// What a file's work becomes when it is wanted again, and whether it joins the queue.
///
/// Ranges are only taken while the file has none, asked or pending: they are seeded once,
/// when the file is first found changed. A file wanted whole already covers every name, so
/// names arriving then add nothing. A name already asked about is dropped; anything already
/// waiting is folded in rather than queued twice.
pub open spec fn wanting(work: WorkView, w: WantedView, away: u32) -> (WorkView, bool) {
    let nearer = WorkView { away: if away < work.away { away } else { work.away }, ..work };
    let fresh_ranges = if work.asked.ranges.len() > 0 || work.pending.ranges.len() > 0 {
        Seq::empty()
    } else {
        w.ranges
    };
    let whole = reads_whole(work.asked) || reads_whole(work.pending) || fresh_ranges.contains(whole_file());
    let fresh_names = if whole { Set::empty() } else { w.names.difference(work.asked.names) };
    if fresh_ranges.len() == 0 && fresh_names == Set::<LocatorView>::empty() {
        (nearer, false)
    } else {
        (
            WorkView {
                pending: WantedView {
                    ranges: work.pending.ranges + fresh_ranges,
                    names: work.pending.names.union(fresh_names),
                },
                ..nearer
            },
            is_nothing(work.pending),
        )
    }
}

/// The frontier once a file has been wanted for `w`, found `away` steps from a change.
pub open spec fn after_want(f: FrontierView, path: Seq<char>, w: WantedView, away: u32) -> FrontierView {
    let known = exists|i: int| at(f.files, path, i);
    let i = choose|i: int| at(f.files, path, i);
    let work = if known { f.files[i] } else { WorkView { path, away, asked: nothing(), pending: nothing() } };
    let (next, queued) = wanting(work, w, away);
    FrontierView {
        queue: if queued { f.queue.push(path) } else { f.queue },
        files: if known { f.files.update(i, next) } else { f.files.push(next) },
    }
}

/// The frontier once the next file is taken, and what it was taken for: its path, what it
/// was waiting to be asked, and how far out it sits. What was waiting counts as asked from
/// then on.
pub open spec fn after_take(f: FrontierView) -> (FrontierView, Option<(Seq<char>, WantedView, u32)>) {
    if f.queue.len() == 0 {
        (f, None)
    } else {
        let path = f.queue[0];
        if exists|i: int| at(f.files, path, i) {
            let i = choose|i: int| at(f.files, path, i);
            let work = f.files[i];
            let asked = WantedView {
                ranges: work.asked.ranges + work.pending.ranges,
                names: work.asked.names.union(work.pending.names),
            };
            (
                FrontierView {
                    queue: f.queue.drop_first(),
                    files: f.files.update(i, WorkView { asked, pending: nothing(), ..work }),
                },
                Some((path, work.pending, work.away)),
            )
        } else {
            (FrontierView { queue: f.queue.drop_first(), files: f.files }, None)
        }
    }
}

/// How many files have been asked about at least once.
pub open spec fn walked_count(files: Seq<WorkView>) -> nat
    decreases files.len(),
{
    if files.len() == 0 {
        0
    } else {
        walked_count(files.drop_last()) + if is_nothing(files.last().asked) { 0nat } else { 1nat }
    }
}

/// What every frontier keeps: each file known once; each queued once, and queued exactly
/// while something about it is waiting; nothing waiting that was already asked; and ranges
/// waiting only for a file never asked about by range.
pub open spec fn settled(f: FrontierView) -> bool {
    &&& forall|i: int, j: int| 0 <= i < j < f.files.len() ==> (#[trigger] f.files[i]).path != (#[trigger] f.files[j]).path
    &&& forall|i: int, j: int| 0 <= i < j < f.queue.len() ==> #[trigger] f.queue[i] != #[trigger] f.queue[j]
    &&& forall|k: int| 0 <= k < f.queue.len() ==> is_known(f.files, #[trigger] f.queue[k])
    &&& forall|i: int|
        0 <= i < f.files.len() ==> (!is_nothing((#[trigger] f.files[i]).pending) <==> f.queue.contains(f.files[i].path))
    &&& forall|i: int| 0 <= i < f.files.len() ==> (#[trigger] f.files[i]).pending.names.disjoint(f.files[i].asked.names)
    &&& forall|i: int|
        0 <= i < f.files.len() ==> !((#[trigger] f.files[i]).asked.ranges.len() > 0 && f.files[i].pending.ranges.len() > 0)
}

/// Wanting a file keeps every frontier settled.
pub proof fn lemma_want_keeps(f: FrontierView, path: Seq<char>, w: WantedView, away: u32)
    requires
        settled(f),
    ensures
        settled(after_want(f, path, w, away)),
{
    let g = after_want(f, path, w, away);
    let known = exists|i: int| at(f.files, path, i);
    let i = choose|i: int| at(f.files, path, i);
    let work = if known { f.files[i] } else { WorkView { path, away, asked: nothing(), pending: nothing() } };
    let (next, queued) = wanting(work, w, away);
    let idx = if known { i } else { f.files.len() as int };
    assert(g.files.len() == if known { f.files.len() } else { f.files.len() + 1 });
    assert(g.files[idx] == next);
    assert(next.path == path);
    assert(next.asked == work.asked);
    assert forall|j: int| 0 <= j < g.files.len() && j != idx implies #[trigger] g.files[j] == f.files[j] by {}
    if !known {
        assert(!f.queue.contains(path)) by {
            if f.queue.contains(path) {
                let k = choose|k: int| 0 <= k < f.queue.len() && f.queue[k] == path;
                assert(is_known(f.files, f.queue[k]));
            }
        }
        assert(is_nothing(work.pending)) by {
            assert(work.pending.names =~= Set::<LocatorView>::empty());
        }
    }
    if queued {
        assert(is_nothing(work.pending));
        assert(!f.queue.contains(path)) by {
            if known {
                assert(f.files[i].path == path);
            }
        }
    }
    // Each file known once.
    assert forall|a: int, b: int| 0 <= a < b < g.files.len() implies (#[trigger] g.files[a]).path != (#[trigger] g.files[b]).path by {
        if !known && b == idx {
            assert(!at(f.files, path, a));
        }
    }
    // Each queued file queued once, and known.
    assert forall|a: int, b: int| 0 <= a < b < g.queue.len() implies #[trigger] g.queue[a] != #[trigger] g.queue[b] by {
        if queued && b == f.queue.len() {
            assert(f.queue.contains(f.queue[a]));
        }
    }
    assert forall|k: int| 0 <= k < g.queue.len() implies is_known(g.files, #[trigger] g.queue[k]) by {
        if queued && k == f.queue.len() {
            assert(at(g.files, g.queue[k], idx));
        } else {
            assert(g.queue[k] == f.queue[k]);
            let j = choose|j: int| at(f.files, f.queue[k], j);
            assert(at(g.files, g.queue[k], j));
        }
    }
    // Queued exactly while waiting.
    assert forall|j: int| 0 <= j < g.files.len() implies (!is_nothing((#[trigger] g.files[j]).pending) <==> g.queue.contains(
        g.files[j].path,
    )) by {
        if j != idx {
            assert(g.files[j] == f.files[j]);
            if queued {
                assert(g.files[j].path != path);
                assert(g.queue.contains(g.files[j].path) == f.queue.contains(g.files[j].path)) by {
                    if g.queue.contains(g.files[j].path) {
                        let k = choose|k: int| 0 <= k < g.queue.len() && g.queue[k] == g.files[j].path;
                        assert(f.queue[k] == g.files[j].path);
                    }
                    if f.queue.contains(g.files[j].path) {
                        let k = choose|k: int| 0 <= k < f.queue.len() && f.queue[k] == g.files[j].path;
                        assert(g.queue[k] == g.files[j].path);
                    }
                }
            }
        } else {
            if queued {
                assert(g.queue[f.queue.len() as int] == path);
            }
            let fresh_ranges = if work.asked.ranges.len() > 0 || work.pending.ranges.len() > 0 {
                Seq::<Range<usize>>::empty()
            } else {
                w.ranges
            };
            let whole = reads_whole(work.asked) || reads_whole(work.pending) || fresh_ranges.contains(whole_file());
            let fresh_names = if whole { Set::<LocatorView>::empty() } else { w.names.difference(work.asked.names) };
            if !(fresh_ranges.len() == 0 && fresh_names == Set::<LocatorView>::empty()) {
                if fresh_ranges.len() == 0 {
                    assert(!(fresh_names =~= Set::<LocatorView>::empty()));
                    let v = choose|v: LocatorView| fresh_names.contains(v);
                    assert(next.pending.names.contains(v));
                }
                if !is_nothing(work.pending) && known {
                    assert(f.queue.contains(f.files[i].path));
                }
            }
        }
    }
    // Nothing waiting that was already asked.
    assert forall|j: int| 0 <= j < g.files.len() implies (#[trigger] g.files[j]).pending.names.disjoint(g.files[j].asked.names) by {
        if j == idx && known {
            assert(f.files[i].pending.names.disjoint(f.files[i].asked.names));
        }
        if j == idx && !known {
            assert(work.pending.names.disjoint(work.asked.names));
        }
    }
    // Ranges waiting only for a file never asked about by range.
    assert forall|j: int| 0 <= j < g.files.len() implies !((#[trigger] g.files[j]).asked.ranges.len() > 0
        && g.files[j].pending.ranges.len() > 0) by {
        if j == idx && known {
            assert(!(f.files[i].asked.ranges.len() > 0 && f.files[i].pending.ranges.len() > 0));
        }
    }
    assert(settled(g));
}

/// Taking the next file keeps every frontier settled.
pub proof fn lemma_take_keeps(f: FrontierView)
    requires
        settled(f),
    ensures
        settled(after_take(f).0),
{
    if f.queue.len() > 0 {
        let path = f.queue[0];
        assert(is_known(f.files, f.queue[0]));
        let i = choose|i: int| at(f.files, path, i);
        let g = after_take(f).0;
        assert(g.files[i].path == path);
        assert(is_nothing(g.files[i].pending));
        assert forall|j: int| 0 <= j < g.files.len() && j != i implies #[trigger] g.files[j] == f.files[j] by {}
        assert(!g.queue.contains(path)) by {
            if g.queue.contains(path) {
                let k = choose|k: int| 0 <= k < g.queue.len() && g.queue[k] == path;
                assert(f.queue[k + 1] == path);
            }
        }
        assert forall|k: int| 0 <= k < g.queue.len() implies is_known(g.files, #[trigger] g.queue[k]) by {
            assert(g.queue[k] == f.queue[k + 1]);
            let q = f.queue[k + 1];
            let j = choose|j: int| at(f.files, q, j);
            assert(at(g.files, g.queue[k], j));
        }
        assert forall|a: int, b: int| 0 <= a < b < g.queue.len() implies #[trigger] g.queue[a] != #[trigger] g.queue[b] by {
            assert(g.queue[a] == f.queue[a + 1]);
            assert(g.queue[b] == f.queue[b + 1]);
        }
        assert forall|j: int| 0 <= j < g.files.len() implies (!is_nothing((#[trigger] g.files[j]).pending) <==> g.queue.contains(
            g.files[j].path,
        )) by {
            if j != i {
                assert(g.files[j].path != path);
                assert(g.queue.contains(g.files[j].path) == f.queue.contains(g.files[j].path)) by {
                    if g.queue.contains(g.files[j].path) {
                        let k = choose|k: int| 0 <= k < g.queue.len() && g.queue[k] == g.files[j].path;
                        assert(f.queue[k + 1] == g.files[j].path);
                    }
                    if f.queue.contains(g.files[j].path) {
                        let k = choose|k: int| 0 <= k < f.queue.len() && f.queue[k] == g.files[j].path;
                        assert(k != 0);
                        assert(g.queue[k - 1] == g.files[j].path);
                    }
                }
            } else {
                assert(g.files[j].pending.names =~= Set::<LocatorView>::empty());
            }
        }
        assert forall|j: int| 0 <= j < g.files.len() implies (#[trigger] g.files[j]).pending.names.disjoint(g.files[j].asked.names) by {
            if j == i {
                assert(g.files[j].pending.names =~= Set::<LocatorView>::empty());
            }
        }
        assert forall|j: int| 0 <= j < g.files.len() implies !((#[trigger] g.files[j]).asked.ranges.len() > 0
            && g.files[j].pending.ranges.len() > 0) by {}
        assert forall|a: int, b: int| 0 <= a < b < g.files.len() implies (#[trigger] g.files[a]).path != (#[trigger] g.files[b]).path by {
            assert(f.files[a].path != f.files[b].path);
        }
        assert(settled(g));
    }
}

/// Files walked never outrun files known.
pub proof fn lemma_walked_within_known(files: Seq<WorkView>)
    ensures
        walked_count(files) <= files.len(),
    decreases files.len(),
{
    if files.len() > 0 {
        lemma_walked_within_known(files.drop_last());
    }
}

/// One file's place on the frontier.
struct FileWork {
    path: String,
    away: u32,
    asked: Wanted,
    pending: Wanted,
}

impl View for FileWork {
    type V = WorkView;

    closed spec fn view(&self) -> WorkView {
        WorkView { path: self.path@, away: self.away, asked: self.asked@, pending: self.pending@ }
    }
}

/// Which files are still to be walked, what each is wanted for, and how much has been done.
/// A file is queued once however often it turns up, so the count of what's left means
/// something.
pub struct Frontier {
    queue: Vec<String>,
    files: Vec<FileWork>,
}

impl View for Frontier {
    type V = FrontierView;

    open spec fn view(&self) -> FrontierView {
        self.model()
    }
}

impl Default for Frontier {
    fn default() -> (r: Frontier)
        ensures
            r.wf(),
            r@ == (FrontierView { queue: Seq::empty(), files: Seq::empty() }),
    {
        let r = Frontier { queue: Vec::new(), files: Vec::new() };
        assert(r@.queue =~= Seq::<Seq<char>>::empty());
        assert(r@.files =~= Seq::<WorkView>::empty());
        r
    }
}

impl Frontier {
    /// What the frontier holds.
    pub closed spec fn model(&self) -> FrontierView {
        FrontierView { queue: views(self.queue@), files: self.files@.map_values(|w: FileWork| w@) }
    }

    /// The frontier is settled, and every list of names it holds is in order.
    pub closed spec fn wf(&self) -> bool {
        &&& settled(self@)
        &&& forall|i: int| 0 <= i < self.files@.len() ==> (#[trigger] self.files@[i]).asked.wf() && self.files@[i].pending.wf()
    }

    /// Where the file at `path` is kept, if it is known.
    fn find(&self, path: &str) -> (r: Option<usize>)
        ensures
            match r {
                Some(i) => at(self@.files, path@, i as int),
                None => !is_known(self@.files, path@),
            },
    {
        for i in 0..self.files.len()
            invariant
                forall|j: int| 0 <= j < i ==> !at(self@.files, path@, j),
        {
            if str_eq(self.files[i].path.as_str(), path) {
                return Some(i);
            }
        }
        None
    }

    /// Says a file wants asking about, and what for. Anything already asked is dropped;
    /// anything already waiting is folded in rather than queued twice.
    pub fn want(&mut self, path: &str, wanted: Wanted, away: u32)
        requires
            old(self).wf(),
            wanted.wf(),
        ensures
            final(self).wf(),
            final(self)@ == after_want(old(self)@, path@, wanted@, away),
    {
        let ghost f = self@;
        proof {
            lemma_want_keeps(f, path@, wanted@, away);
        }
        let found = self.find(path);
        let known = found.is_some();
        let idx: usize = match found {
            Some(i) => i,
            None => self.files.len(),
        };
        let mut work = match found {
            Some(i) => FileWork {
                path: self.files[i].path.clone(),
                away: self.files[i].away,
                asked: self.files[i].asked.duplicate(),
                pending: self.files[i].pending.duplicate(),
            },
            None => FileWork { path: owned(path), away, asked: Wanted::nothing(), pending: Wanted::nothing() },
        };
        proof {
            if known {
                assert(work@ == f.files[idx as int]);
                assert(idx as int == choose|i: int| at(f.files, path@, i));
            }
        }
        let ghost w0 = work@;
        if away < work.away {
            work.away = away;
        }
        let has_ranges = work.asked.ranges.len() > 0 || work.pending.ranges.len() > 0;
        let fresh_ranges: Vec<Range<usize>> = if has_ranges { Vec::new() } else { copy_ranges(&wanted.ranges) };
        let whole = holds_whole(&work.asked.ranges) || holds_whole(&work.pending.ranges) || holds_whole(&fresh_ranges);
        let mut fresh_names: Vec<Locator> = Vec::new();
        if !whole {
            for k in 0..wanted.names.len()
                invariant
                    ascending(wanted.names@),
                    work@.asked == w0.asked,
                    work.asked.wf(),
                    fresh_names@.len() <= k,
                    ascending(fresh_names@),
                    forall|a: int| 0 <= a < fresh_names@.len() && k < wanted.names@.len() ==> locator_lt(
                        (#[trigger] fresh_names@[a])@,
                        wanted.names@[k as int]@,
                    ),
                    name_set(fresh_names@) == name_set(wanted.names@.subrange(0, k as int)).difference(w0.asked.names),
            {
                proof {
                    lemma_names_grow(wanted.names@, k as int);
                }
                if !holds_name(&work.asked.names, &wanted.names[k]) {
                    let ghost before = fresh_names@;
                    fresh_names.push(wanted.names[k].duplicate());
                    proof {
                        assert forall|a: int, b: int| 0 <= a < b < fresh_names@.len() implies locator_lt(
                            #[trigger] fresh_names@[a]@,
                            #[trigger] fresh_names@[b]@,
                        ) by {
                            if b == fresh_names@.len() - 1 {
                                assert(fresh_names@[a] == before[a]);
                            }
                        }
                        assert forall|v: LocatorView| #[trigger] name_set(fresh_names@).contains(v) == name_set(before).insert(
                            wanted.names@[k as int]@,
                        ).contains(v) by {
                            if name_set(fresh_names@).contains(v) {
                                let a = choose|a: int| 0 <= a < fresh_names@.len() && #[trigger] fresh_names@[a]@ == v;
                                if a < before.len() {
                                    assert(before[a]@ == v);
                                }
                            }
                            if name_set(before).contains(v) {
                                let a = choose|a: int| 0 <= a < before.len() && #[trigger] before[a]@ == v;
                                assert(fresh_names@[a]@ == v);
                            }
                            if v == wanted.names@[k as int]@ {
                                assert(fresh_names@[before.len() as int]@ == v);
                            }
                        }
                        assert(name_set(fresh_names@) =~= name_set(before).insert(wanted.names@[k as int]@));
                    }
                }
                proof {
                    assert(name_set(fresh_names@) =~= name_set(wanted.names@.subrange(0, k + 1)).difference(w0.asked.names));
                    if k + 1 < wanted.names@.len() {
                        assert forall|a: int| 0 <= a < fresh_names@.len() implies locator_lt(
                            (#[trigger] fresh_names@[a])@,
                            wanted.names@[k + 1]@,
                        ) by {
                            if a < fresh_names@.len() - 1 || !name_set(fresh_names@).contains(wanted.names@[k as int]@) {
                                lemma_locator_lt_order(fresh_names@[a]@, wanted.names@[k as int]@, wanted.names@[k + 1]@);
                            }
                        }
                    }
                }
            }
            proof {
                lemma_names_whole(wanted.names@);
            }
        }
        proof {
            lemma_empty_names(fresh_names@);
            if whole {
                assert(name_set(fresh_names@) =~= Set::<LocatorView>::empty());
            }
        }
        if fresh_ranges.len() == 0 && fresh_names.len() == 0 {
            if known {
                self.files.set(idx, work);
            } else {
                self.files.push(work);
            }
            proof {
                assert(self@.files =~= after_want(f, path@, wanted@, away).files);
                assert(self@.queue =~= after_want(f, path@, wanted@, away).queue);
            }
            return;
        }
        let was_idle = work.pending.is_empty();
        for k in 0..fresh_ranges.len()
            invariant
                work.pending.wf(),
                work.asked.wf(),
                work@.asked == w0.asked,
                work@.path == w0.path,
                work.away == (if away < w0.away { away } else { w0.away }),
                work@.pending.ranges == w0.pending.ranges + fresh_ranges@.subrange(0, k as int),
                work@.pending.names == w0.pending.names,
        {
            work.pending.ranges.push(Range { start: fresh_ranges[k].start, end: fresh_ranges[k].end });
            assert(work@.pending.ranges =~= w0.pending.ranges + fresh_ranges@.subrange(0, k + 1));
        }
        assert(fresh_ranges@.subrange(0, fresh_ranges@.len() as int) =~= fresh_ranges@);
        for k in 0..fresh_names.len()
            invariant
                work.pending.wf(),
                work.asked.wf(),
                work@.asked == w0.asked,
                work@.path == w0.path,
                work.away == (if away < w0.away { away } else { w0.away }),
                work@.pending.ranges == w0.pending.ranges + fresh_ranges@,
                work@.pending.names == w0.pending.names.union(name_set(fresh_names@.subrange(0, k as int))),
        {
            insert_name(&mut work.pending.names, &fresh_names[k]);
            proof {
                lemma_names_grow(fresh_names@, k as int);
                assert(work@.pending.names =~= w0.pending.names.union(name_set(fresh_names@.subrange(0, k + 1))));
            }
        }
        proof {
            lemma_names_whole(fresh_names@);
            let (next, queued) = wanting(w0, wanted@, away);
            assert(work@.pending == next.pending);
            assert(work@.asked == next.asked);
            assert(work@ == next);
            assert(queued == was_idle);
        }
        if was_idle {
            self.queue.push(owned(path));
        }
        if known {
            self.files.set(idx, work);
        } else {
            self.files.push(work);
        }
        proof {
            assert(self@.files =~= after_want(f, path@, wanted@, away).files);
            assert(self@.queue =~= after_want(f, path@, wanted@, away).queue);
            assert forall|i: int| 0 <= i < self.files@.len() implies (#[trigger] self.files@[i]).asked.wf()
                && self.files@[i].pending.wf() by {
                if i != idx {
                    assert(self.files@[i] == old(self).files@[i]);
                }
            }
        }
    }
}

impl Frontier {
    /// The files waiting to be walked, in the order they will be.
    pub fn waiting(&self) -> (r: Vec<String>)
        ensures
            views(r@) == self@.queue,
    {
        let mut r: Vec<String> = Vec::new();
        for i in 0..self.queue.len()
            invariant
                r@.len() == i,
                forall|j: int| 0 <= j < i ==> (#[trigger] r@[j])@ == self.queue@[j]@,
        {
            r.push(owned(self.queue[i].as_str()));
        }
        assert(views(r@) =~= views(self.queue@));
        r
    }

    /// The next file to walk, marked as asked so it only comes round again for something
    /// new: its path, what it is wanted for, and how far out it sits.
    pub fn take(&mut self) -> (r: Option<(String, Wanted, u32)>)
        requires
            old(self).wf(),
        ensures
            final(self).wf(),
            final(self)@ == after_take(old(self)@).0,
            match r {
                Some((path, wanted, away)) => wanted.wf() && after_take(old(self)@).1 == Some((path@, wanted@, away)),
                None => after_take(old(self)@).1 is None,
            },
    {
        let ghost f = self@;
        proof {
            lemma_take_keeps(f);
        }
        if self.queue.len() == 0 {
            return None;
        }
        let path = self.queue.remove(0);
        proof {
            assert(views(self.queue@) =~= f.queue.drop_first());
            assert(is_known(f.files, f.queue[0]));
        }
        let i = match self.find(path.as_str()) {
            Some(i) => i,
            None => {
                return None;
            },
        };
        proof {
            assert(i as int == choose|j: int| at(f.files, path@, j));
        }
        let pending = self.files[i].pending.duplicate();
        let mut asked = self.files[i].asked.duplicate();
        let away = self.files[i].away;
        let ghost a0 = asked@;
        for k in 0..pending.ranges.len()
            invariant
                asked.wf(),
                asked@.names == a0.names,
                asked@.ranges == a0.ranges + pending@.ranges.subrange(0, k as int),
        {
            asked.ranges.push(Range { start: pending.ranges[k].start, end: pending.ranges[k].end });
            assert(asked@.ranges =~= a0.ranges + pending@.ranges.subrange(0, k + 1));
        }
        assert(pending@.ranges.subrange(0, pending@.ranges.len() as int) =~= pending@.ranges);
        for k in 0..pending.names.len()
            invariant
                asked.wf(),
                asked@.ranges == a0.ranges + pending@.ranges,
                asked@.names == a0.names.union(name_set(pending.names@.subrange(0, k as int))),
        {
            insert_name(&mut asked.names, &pending.names[k]);
            proof {
                lemma_names_grow(pending.names@, k as int);
                assert(asked@.names =~= a0.names.union(name_set(pending.names@.subrange(0, k + 1))));
            }
        }
        proof {
            lemma_names_whole(pending.names@);
        }
        let next = FileWork { path: self.files[i].path.clone(), away, asked, pending: Wanted::nothing() };
        self.files.set(i, next);
        proof {
            assert(self@.files =~= after_take(f).0.files);
            assert forall|j: int| 0 <= j < self.files@.len() implies (#[trigger] self.files@[j]).asked.wf()
                && self.files@[j].pending.wf() by {
                if j != i {
                    assert(self.files@[j] == old(self).files@[j]);
                }
            }
        }
        Some((path, pending, away))
    }

    /// Files walked, not visits: a file walked again for something new doesn't move the
    /// count.
    pub fn walked(&self) -> (r: usize)
        ensures
            r == walked_count(self@.files),
            r <= self@.files.len(),
    {
        let ghost files = self@.files;
        let mut r: usize = 0;
        for i in 0..self.files.len()
            invariant
                files == self@.files,
                r == walked_count(files.subrange(0, i as int)),
                r <= i,
        {
            assert(files.subrange(0, i + 1).drop_last() =~= files.subrange(0, i as int));
            assert(files[i as int] == self.files@[i as int]@);
            if !self.files[i].asked.is_empty() {
                r = r + 1;
            }
        }
        assert(files.subrange(0, files.len() as int) =~= files);
        r
    }

    /// Files known, walked or not.
    pub fn known(&self) -> (r: usize)
        ensures
            r == self@.files.len(),
    {
        self.files.len()
    }
}

} // verus!
