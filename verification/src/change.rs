//! What happened to one definition between the two snapshots.

use crate::diagnostic::{Diagnostic, DiagnosticView};
use crate::model::{
    Definition, DefinitionView, Identity, Occurrence, OccurrenceView, Part, Sides, SidesView, file_set,
    strings_eq, text_of,
};
use crate::text::{joined, str_eq};
use vstd::prelude::*;

verus! {

/// What happened to one definition between the two snapshots.
#[derive(Debug, Clone, PartialEq, Eq)]
pub enum Change {
    Added,
    Removed,
    Kept(Edits),
}

/// What differs about a definition that stuck around. An empty one means it sat still.
#[derive(Debug, Clone, PartialEq, Eq)]
pub struct Edits {
    /// How it looks to callers, including its name.
    pub contract_changed: bool,
    /// Landed in a different file or scope. Nobody breaks over this, so on its own it
    /// isn't worth reviewing.
    pub moved: bool,
    /// The parts whose text differs, each once, in part order.
    pub parts: Vec<Part>,
}

/// Edits, with the parts seen as a sequence.
pub struct EditsView {
    pub contract_changed: bool,
    pub moved: bool,
    pub parts: Seq<Part>,
}

impl View for Edits {
    type V = EditsView;

    open spec fn view(&self) -> EditsView {
        EditsView { contract_changed: self.contract_changed, moved: self.moved, parts: self.parts@ }
    }
}

/// A change, with any edits seen as a view.
pub enum ChangeView {
    Added,
    Removed,
    Kept(EditsView),
}

impl View for Change {
    type V = ChangeView;

    open spec fn view(&self) -> ChangeView {
        match self {
            Change::Added => ChangeView::Added,
            Change::Removed => ChangeView::Removed,
            Change::Kept(edits) => ChangeView::Kept(edits@),
        }
    }
}

impl EditsView {
    pub open spec fn changed(self, part: Part) -> bool {
        self.parts.contains(part)
    }

    pub open spec fn worth_reading(self) -> bool {
        self.contract_changed || self.parts.len() > 0
    }
}

impl ChangeView {
    pub open spec fn breaks_callers(self) -> bool {
        match self {
            ChangeView::Added => false,
            ChangeView::Removed => true,
            ChangeView::Kept(edits) => edits.contract_changed,
        }
    }

    pub open spec fn worth_reading(self) -> bool {
        match self {
            ChangeView::Added => true,
            ChangeView::Removed => true,
            ChangeView::Kept(edits) => edits.worth_reading(),
        }
    }

    /// The mark for a definition, given whether a change reached it.
    pub open spec fn mark(self, reached: bool) -> Mark {
        match self {
            ChangeView::Added => Mark::Added,
            ChangeView::Removed => Mark::Removed,
            ChangeView::Kept(edits) => {
                if edits.contract_changed {
                    Mark::Contract
                } else if edits.changed(Part::Contract) || edits.changed(Part::Body) {
                    Mark::Body
                } else if edits.changed(Part::Docs) {
                    Mark::Docs
                } else if reached {
                    Mark::Reached
                } else {
                    Mark::Untouched
                }
            },
        }
    }
}

impl Default for Edits {
    fn default() -> (r: Edits)
        ensures
            !r.contract_changed,
            !r.moved,
            r.parts@.len() == 0,
    {
        Edits { contract_changed: false, moved: false, parts: Vec::new() }
    }
}

impl Edits {
    pub fn changed(&self, part: Part) -> (r: bool)
        ensures
            r == self@.changed(part),
    {
        for i in 0..self.parts.len()
            invariant
                forall|k: int| 0 <= k < i ==> self.parts@[k] != part,
        {
            if self.parts[i] == part {
                return true;
            }
        }
        false
    }

    /// Worth putting in front of a reader. A pure move isn't.
    pub fn worth_reading(&self) -> (r: bool)
        ensures
            r == self@.worth_reading(),
    {
        self.contract_changed || self.parts.len() > 0
    }

    /// A copy of these edits.
    pub fn duplicate(&self) -> (r: Edits)
        ensures
            r@ == self@,
    {
        let mut parts: Vec<Part> = Vec::new();
        for i in 0..self.parts.len()
            invariant
                parts@ == self.parts@.subrange(0, i as int),
        {
            parts.push(self.parts[i]);
            assert(self.parts@.subrange(0, i + 1) =~= self.parts@.subrange(0, i as int).push(
                self.parts@[i as int],
            ));
        }
        assert(self.parts@.subrange(0, self.parts@.len() as int) =~= self.parts@);
        Edits { contract_changed: self.contract_changed, moved: self.moved, parts }
    }
}

impl Change {
    /// Whether callers of this definition have to change too.
    pub fn breaks_callers(&self) -> (r: bool)
        ensures
            r == self@.breaks_callers(),
    {
        match self {
            Change::Added => false,
            Change::Removed => true,
            Change::Kept(edits) => edits.contract_changed,
        }
    }

    pub fn worth_reading(&self) -> (r: bool)
        ensures
            r == self@.worth_reading(),
    {
        match self {
            Change::Added => true,
            Change::Removed => true,
            Change::Kept(edits) => edits.worth_reading(),
        }
    }

    /// The mark for a definition, given whether a change reached it.
    pub fn mark(&self, reached: bool) -> (r: Mark)
        ensures
            r == self@.mark(reached),
    {
        match self {
            Change::Added => Mark::Added,
            Change::Removed => Mark::Removed,
            Change::Kept(edits) => {
                if edits.contract_changed {
                    Mark::Contract
                } else if edits.changed(Part::Contract) || edits.changed(Part::Body) {
                    Mark::Body
                } else if edits.changed(Part::Docs) {
                    Mark::Docs
                } else if reached {
                    Mark::Reached
                } else {
                    Mark::Untouched
                }
            },
        }
    }

    /// A copy of this change.
    pub fn duplicate(&self) -> (r: Change)
        ensures
            r@ == self@,
    {
        match self {
            Change::Added => Change::Added,
            Change::Removed => Change::Removed,
            Change::Kept(edits) => Change::Kept(edits.duplicate()),
        }
    }
}

/// A part moving to a different set of files. Gaining or losing the part isn't a move.
pub open spec fn part_moved(before: OccurrenceView, after: OccurrenceView, part: Part) -> bool {
    &&& !file_set(before, part).is_empty()
    &&& !file_set(after, part).is_empty()
    &&& file_set(before, part) != file_set(after, part)
}

/// Landed somewhere else: another file, another scope, or a part that moved on its own.
pub open spec fn moved(before: OccurrenceView, after: OccurrenceView) -> bool {
    ||| before.file != after.file
    ||| before.locator.scope != after.locator.scope
    ||| part_moved(before, after, Part::Contract)
    ||| part_moved(before, after, Part::Body)
    ||| part_moved(before, after, Part::Docs)
}

/// Whether a part reads differently on the two sides, counting its absence as a reading.
pub open spec fn part_changed(before: OccurrenceView, after: OccurrenceView, part: Part) -> bool {
    text_of(before, part) != text_of(after, part)
}

/// The parts whose text differs, in part order.
pub open spec fn changed_parts(before: OccurrenceView, after: OccurrenceView) -> Seq<Part> {
    seq![Part::Contract, Part::Body, Part::Docs].filter(|p: Part| part_changed(before, after, p))
}

/// Whether callers see something different: the name, the written contract, or the
/// compiler's contract where both sides have one.
pub open spec fn contract_changed(before: OccurrenceView, after: OccurrenceView) -> bool {
    let told = match (before.contract_from_compiler, after.contract_from_compiler) {
        (Some(b), Some(a)) => b != a,
        _ => false,
    };
    ||| told
    ||| text_of(before, Part::Contract) != text_of(after, Part::Contract)
    ||| before.locator.name != after.locator.name
}

/// Whether exactly one side has a compiler's contract.
pub open spec fn lopsided(before: OccurrenceView, after: OccurrenceView) -> bool {
    before.contract_from_compiler is Some != after.contract_from_compiler is Some
}

/// What `classify` makes of a definition.
pub open spec fn classified(def: DefinitionView) -> (ChangeView, Option<DiagnosticView>) {
    match def.sides {
        SidesView::Added(_) => (ChangeView::Added, None),
        SidesView::Removed(_) => (ChangeView::Removed, None),
        SidesView::Kept { before, after } => (
            ChangeView::Kept(
                EditsView {
                    contract_changed: contract_changed(before, after),
                    moved: moved(before, after),
                    parts: changed_parts(before, after),
                },
            ),
            if lopsided(before, after) {
                Some(DiagnosticView::LopsidedContract { definition: def.identity })
            } else {
                None
            },
        ),
    }
}

/// A kept definition's changed parts are exactly the parts that read differently on the
/// two sides, docs as much as contract and body, each named once: whatever text differs
/// is worth reading, and an edit to the docs alone is marked as one.
pub proof fn lemma_kept_parts_differ(identity: Identity, before: OccurrenceView, after: OccurrenceView)
    ensures
        classified(DefinitionView { identity, sides: SidesView::Kept { before, after } }).0 matches ChangeView::Kept(e) && {
            &&& forall|p: Part| #[trigger] e.parts.contains(p) <==> text_of(before, p) != text_of(after, p)
            &&& e.parts.no_duplicates()
            &&& (text_of(before, Part::Docs) != text_of(after, Part::Docs) ==> classified(
                DefinitionView { identity, sides: SidesView::Kept { before, after } },
            ).0.worth_reading())
            &&& (text_of(before, Part::Docs) != text_of(after, Part::Docs) && !e.contract_changed
                && text_of(before, Part::Contract) == text_of(after, Part::Contract) && text_of(before, Part::Body)
                == text_of(after, Part::Body) ==> classified(DefinitionView { identity, sides: SidesView::Kept { before, after } }).0.mark(
                false,
            ) == Mark::Docs)
        },
{
    let keep = |p: Part| part_changed(before, after, p);
    let e0: Seq<Part> = Seq::empty();
    let s1 = e0.push(Part::Contract);
    let s2 = s1.push(Part::Body);
    let s3 = s2.push(Part::Docs);
    assert(s3 =~= seq![Part::Contract, Part::Body, Part::Docs]);
    e0.lemma_filter_push(Part::Contract, keep);
    s1.lemma_filter_push(Part::Body, keep);
    s2.lemma_filter_push(Part::Docs, keep);
    assert(e0.filter(keep) =~= Seq::<Part>::empty());
    let parts = changed_parts(before, after);
    assert(parts == s3.filter(keep));
    assert forall|p: Part| #[trigger] parts.contains(p) <==> text_of(before, p) != text_of(after, p) by {
        if text_of(before, p) != text_of(after, p) {
            match p {
                Part::Contract => assert(parts[0] == p),
                Part::Body => {
                    if keep(Part::Contract) { assert(parts[1] == p); } else { assert(parts[0] == p); }
                },
                Part::Docs => { assert(parts.last() == p); },
            }
        }
        if parts.contains(p) {
            let i = choose|i: int| 0 <= i < parts.len() && parts[i] == p;
            s3.lemma_filter_pred(keep, i);
        }
    }
    assert(parts.no_duplicates()) by {
        assert forall|i: int, j: int| 0 <= i < j < parts.len() implies parts[i] != parts[j] by {
            if keep(Part::Contract) {
                if keep(Part::Body) {
                    if keep(Part::Docs) {
                        assert(parts =~= seq![Part::Contract, Part::Body, Part::Docs]);
                    } else {
                        assert(parts =~= seq![Part::Contract, Part::Body]);
                    }
                } else if keep(Part::Docs) {
                    assert(parts =~= seq![Part::Contract, Part::Docs]);
                }
            } else if keep(Part::Body) && keep(Part::Docs) {
                assert(parts =~= seq![Part::Body, Part::Docs]);
            }
        }
    }
    if text_of(before, Part::Docs) != text_of(after, Part::Docs) {
        assert(parts.contains(Part::Docs));
    }
}

fn same_text(a: &Option<String>, b: &Option<String>) -> (r: bool)
    ensures
        r == (crate::model::opt_text(*a) == crate::model::opt_text(*b)),
{
    match (a, b) {
        (Some(a), Some(b)) => str_eq(a.as_str(), b.as_str()),
        (None, None) => true,
        _ => false,
    }
}

fn part_moved_exec(before: &Occurrence, after: &Occurrence, part: Part) -> (r: bool)
    ensures
        r == part_moved(before@, after@, part),
{
    let was = before.files_of(part);
    let is = after.files_of(part);
    proof {
        if was@.len() > 0 {
            assert(crate::text::views(was@).to_set().contains(crate::text::views(was@)[0]));
        }
        if is@.len() > 0 {
            assert(crate::text::views(is@).to_set().contains(crate::text::views(is@)[0]));
        }
        if crate::text::views(was@).to_set() == crate::text::views(is@).to_set() {
            crate::model::lemma_sorted_same_set(crate::text::views(was@), crate::text::views(is@));
        }
    }
    was.len() > 0 && is.len() > 0 && !strings_eq(&was, &is)
}

/// Landed somewhere else. A part moving on its own counts too, the way a C declaration can
/// migrate to a different header.
fn moved_exec(before: &Occurrence, after: &Occurrence) -> (r: bool)
    ensures
        r == moved(before@, after@),
{
    let part_moved = part_moved_exec(before, after, Part::Contract) || part_moved_exec(
        before,
        after,
        Part::Body,
    ) || part_moved_exec(before, after, Part::Docs);
    !str_eq(before.file.as_str(), after.file.as_str()) || !strings_eq(
        &before.locator.scope,
        &after.locator.scope,
    ) || part_moved
}

fn changed_parts_exec(before: &Occurrence, after: &Occurrence) -> (r: Vec<Part>)
    ensures
        r@ == changed_parts(before@, after@),
{
    let all = [Part::Contract, Part::Body, Part::Docs];
    let ghost order = seq![Part::Contract, Part::Body, Part::Docs];
    let ghost keep = |p: Part| part_changed(before@, after@, p);
    let mut out: Vec<Part> = Vec::new();
    for i in 0..3
        invariant
            all@ == order,
            order == seq![Part::Contract, Part::Body, Part::Docs],
            keep == (|p: Part| part_changed(before@, after@, p)),
            out@ == order.subrange(0, i as int).filter(keep),
    {
        let part = all[i];
        let was = before.text_of(part);
        let is = after.text_of(part);
        let differs = !same_text(&was, &is);
        assert(crate::model::opt_text(was) == text_of(before@, part));
        assert(crate::model::opt_text(is) == text_of(after@, part));
        assert(keep(part) == part_changed(before@, after@, part));
        assert(differs == part_changed(before@, after@, part));
        if differs {
            out.push(part);
        }
        proof {
            assert(order.subrange(0, i + 1) =~= order.subrange(0, i as int).push(part));
            order.subrange(0, i as int).lemma_filter_push(part, keep);
        }
    }
    assert(order.subrange(0, 3) =~= order);
    out
}

fn contract_changed_exec(before: &Occurrence, after: &Occurrence) -> (r: bool)
    ensures
        r == contract_changed(before@, after@),
{
    let told = match (&before.contract_from_compiler, &after.contract_from_compiler) {
        (Some(b), Some(a)) => !str_eq(b.as_str(), a.as_str()),
        _ => false,
    };
    let was = before.text_of(Part::Contract);
    let is = after.text_of(Part::Contract);
    assert(crate::model::opt_text(was) == text_of(before@, Part::Contract));
    assert(crate::model::opt_text(is) == text_of(after@, Part::Contract));
    told || !same_text(&was, &is)
        || !str_eq(before.locator.name.as_str(), after.locator.name.as_str())
}

/// What happened to a definition, and whether the compiler described only one side of it.
pub fn classify(def: &Definition) -> (r: (Change, Option<Diagnostic>))
    ensures
        r.0@ == classified(def@).0,
        match r.1 {
            Some(d) => classified(def@).1 == Some(d@),
            None => classified(def@).1 is None,
        },
{
    match &def.sides {
        Sides::Added(_) => (Change::Added, None),
        Sides::Removed(_) => (Change::Removed, None),
        Sides::Kept { before, after } => {
            let lopsided = before.contract_from_compiler.is_some()
                != after.contract_from_compiler.is_some();
            let change = Change::Kept(
                Edits {
                    contract_changed: contract_changed_exec(before, after),
                    moved: moved_exec(before, after),
                    parts: changed_parts_exec(before, after),
                },
            );
            let diagnostic = if lopsided {
                Some(Diagnostic::LopsidedContract { definition: def.identity })
            } else {
                None
            };
            (change, diagnostic)
        },
    }
}

/// The one word a definition gets on the page, in the terminal, and in markdown, with the
/// glyph and wording every rendering uses.
#[derive(Debug, Clone, Copy, PartialEq, Eq, Structural)]
pub enum Mark {
    Added,
    Removed,
    Contract,
    Body,
    Docs,
    /// Unchanged, but a change reached it.
    Reached,
    Untouched,
}

/// Every mark, in the order a legend lists them.
pub open spec fn all_marks() -> Seq<Mark> {
    seq![
        Mark::Added,
        Mark::Removed,
        Mark::Contract,
        Mark::Body,
        Mark::Docs,
        Mark::Reached,
        Mark::Untouched,
    ]
}

impl Mark {
    pub open spec fn glyph_spec(self) -> char {
        match self {
            Mark::Added => '+',
            Mark::Removed => '-',
            Mark::Contract => '!',
            Mark::Body => '~',
            Mark::Docs => '"',
            Mark::Reached => '=',
            Mark::Untouched => '.',
        }
    }

    pub open spec fn label_spec(self) -> Seq<char> {
        match self {
            Mark::Added => seq!['a', 'd', 'd', 'e', 'd'],
            Mark::Removed => seq!['r', 'e', 'm', 'o', 'v', 'e', 'd'],
            Mark::Contract => seq![
                'c', 'o', 'n', 't', 'r', 'a', 'c', 't', ' ', 'c', 'h', 'a', 'n', 'g', 'e', 'd',
            ],
            Mark::Body => seq!['b', 'o', 'd', 'y', ' ', 'c', 'h', 'a', 'n', 'g', 'e', 'd'],
            Mark::Docs => seq!['d', 'o', 'c', 's', ' ', 'c', 'h', 'a', 'n', 'g', 'e', 'd'],
            Mark::Reached => seq![
                'r', 'e', 'a', 'c', 'h', 'e', 'd', ',', ' ', 'u', 'n', 'c', 'h', 'a', 'n', 'g', 'e',
                'd',
            ],
            Mark::Untouched => seq!['u', 'n', 't', 'o', 'u', 'c', 'h', 'e', 'd'],
        }
    }

    /// One entry of the legend: the glyph, a space, the label.
    pub open spec fn entry(self) -> Seq<char> {
        seq![self.glyph_spec(), ' '] + self.label_spec()
    }

    pub fn glyph(self) -> (r: char)
        ensures
            r == self.glyph_spec(),
    {
        match self {
            Mark::Added => '+',
            Mark::Removed => '-',
            Mark::Contract => '!',
            Mark::Body => '~',
            Mark::Docs => '"',
            Mark::Reached => '=',
            Mark::Untouched => '.',
        }
    }

    pub fn label(self) -> (r: &'static str)
        ensures
            r@ == self.label_spec(),
    {
        let r = match self {
            Mark::Added => "added",
            Mark::Removed => "removed",
            Mark::Contract => "contract changed",
            Mark::Body => "body changed",
            Mark::Docs => "docs changed",
            Mark::Reached => "reached, unchanged",
            Mark::Untouched => "untouched",
        };
        proof {
            reveal_strlit("added");
            reveal_strlit("removed");
            reveal_strlit("contract changed");
            reveal_strlit("body changed");
            reveal_strlit("docs changed");
            reveal_strlit("reached, unchanged");
            reveal_strlit("untouched");
            assert(r@ =~= self.label_spec());
        }
        r
    }

    /// The legend as one line, each entry as `glyph label`, joined by `between`.
    pub fn legend(between: &str) -> (r: String)
        ensures
            r@ == joined(all_marks().map_values(|m: Mark| m.entry()), between@),
    {
        let all = [
            Mark::Added,
            Mark::Removed,
            Mark::Contract,
            Mark::Body,
            Mark::Docs,
            Mark::Reached,
            Mark::Untouched,
        ];
        let mut entries: Vec<String> = Vec::new();
        for i in 0..7
            invariant
                all@ == all_marks(),
                entries@.len() == i,
                forall|k: int| 0 <= k < i ==> #[trigger] entries@[k]@ == all_marks()[k].entry(),
        {
            let mark = all[i];
            let mut entry = String::new();
            crate::text::push_char(&mut entry, mark.glyph());
            crate::text::push_char(&mut entry, ' ');
            entry.append(mark.label());
            assert(entry@ =~= mark.entry());
            entries.push(entry);
        }
        assert(crate::text::views(entries@) =~= all_marks().map_values(|m: Mark| m.entry()));
        crate::text::join(&entries, between)
    }
}

} // verus!
