//! Differing lines that no definition covers. Anything an extractor skips (imports,
//! usually) would otherwise silently drop out of the review.

use crate::diagnostic::{diagnostic_views, Diagnostic, DiagnosticView};
use crate::diff::{line_starts, starts_of, Tag};
use crate::frontier::overlaps;
use crate::matching::{is_ws, is_ws_exec};
use crate::model::{all_pieces, pieces_or_none, Definition, DefinitionView, Occurrence, OccurrenceView, Piece};
use crate::text::{chars_of, owned, str_eq, views};
use std::ops::Range;
use vstd::prelude::*;
use vstd::utf8::encode_utf8;

verus! {

/// Enough line numbers to go and look, not enough to drown the rest of the output.
pub const SHOWN: usize = 5;

/// Every line of the line diff of two texts, in order, each with its line break, as the
/// `similar` crate's `TextDiff::from_lines` and `iter_all_changes` work them out.
pub uninterp spec fn every_change(before: Seq<char>, after: Seq<char>) -> Seq<(Tag, Seq<char>)>;

/// The changes of a diff, each line as text.
pub open spec fn change_texts(changes: Seq<(Tag, String)>) -> Seq<(Tag, Seq<char>)> {
    changes.map_values(|c: (Tag, String)| (c.0, c.1@))
}

/// Diffs two texts line by line. Calls `similar::TextDiff::from_lines` and
/// `iter_all_changes`; the contract names the lines that come back without saying what
/// they are.
#[verifier::external_body]
fn all_changes(before: &str, after: &str) -> (r: Vec<(Tag, String)>)
    ensures
        change_texts(r@) == every_change(before@, after@),
{
    similar::TextDiff::from_lines(before, after).iter_all_changes().map(|change| {
        let tag = match change.tag() {
            similar::ChangeTag::Delete => Tag::Delete,
            similar::ChangeTag::Insert => Tag::Insert,
            similar::ChangeTag::Equal => Tag::Equal,
        };
        (tag, change.value().to_string())
    }).collect()
}

/// A line with nothing but whitespace on it: not worth reporting.
pub open spec fn blank_line(l: Seq<char>) -> bool {
    forall|i: int| 0 <= i < l.len() ==> is_ws(#[trigger] l[i])
}

/// The stretch of bytes line `line` occupies; the last line runs on without end.
pub open spec fn line_at(starts: Seq<usize>, line: int) -> Option<Range<usize>> {
    if 0 <= line < starts.len() {
        Some(
            Range {
                start: starts[line],
                end: if line + 1 < starts.len() { starts[line + 1] } else { usize::MAX },
            },
        )
    } else {
        None
    }
}

/// Whether some covered stretch overlaps a line. Overlap rather than containment, since a
/// definition rarely starts at its line's first byte. A line the text doesn't have counts
/// as covered.
pub open spec fn inside(line: Option<Range<usize>>, covered: Seq<Range<usize>>) -> bool {
    match line {
        None => true,
        Some(l) => exists|i: int| 0 <= i < covered.len() && overlaps(#[trigger] covered[i], l),
    }
}

/// Where a reading of the change stream has got to: the next line on each side, and the
/// lines missed so far, numbered from one.
pub struct Tally {
    pub old_line: nat,
    pub new_line: nat,
    pub missed: Seq<u32>,
}

/// The change stream read in order. Deleted lines are checked against the before side,
/// added lines against the after side.
pub open spec fn tally(
    changes: Seq<(Tag, Seq<char>)>,
    was: Seq<usize>,
    is: Seq<usize>,
    was_covered: Seq<Range<usize>>,
    is_covered: Seq<Range<usize>>,
) -> Tally
    decreases changes.len(),
{
    if changes.len() == 0 {
        Tally { old_line: 0, new_line: 0, missed: Seq::empty() }
    } else {
        let t = tally(changes.drop_last(), was, is, was_covered, is_covered);
        let (tag, value) = changes.last();
        match tag {
            Tag::Equal => Tally { old_line: t.old_line + 1, new_line: t.new_line + 1, missed: t.missed },
            Tag::Delete => Tally {
                old_line: t.old_line + 1,
                new_line: t.new_line,
                missed: if !blank_line(value) && !inside(line_at(was, t.old_line as int), was_covered) {
                    t.missed.push((t.old_line + 1) as u32)
                } else {
                    t.missed
                },
            },
            Tag::Insert => Tally {
                old_line: t.old_line,
                new_line: t.new_line + 1,
                missed: if !blank_line(value) && !inside(line_at(is, t.new_line as int), is_covered) {
                    t.missed.push((t.new_line + 1) as u32)
                } else {
                    t.missed
                },
            },
        }
    }
}

/// The differing lines no covered stretch accounts for, numbered from one.
pub open spec fn unaccounted_spec(
    changes: Seq<(Tag, Seq<char>)>,
    before: Seq<char>,
    after: Seq<char>,
    was_covered: Seq<Range<usize>>,
    is_covered: Seq<Range<usize>>,
) -> Seq<u32> {
    tally(changes, starts_of(encode_utf8(before)), starts_of(encode_utf8(after)), was_covered, is_covered).missed
}

proof fn lemma_tally_counts(
    changes: Seq<(Tag, Seq<char>)>,
    was: Seq<usize>,
    is: Seq<usize>,
    wc: Seq<Range<usize>>,
    ic: Seq<Range<usize>>,
)
    ensures
        tally(changes, was, is, wc, ic).old_line <= changes.len(),
        tally(changes, was, is, wc, ic).new_line <= changes.len(),
        tally(changes, was, is, wc, ic).missed.len() <= changes.len(),
    decreases changes.len(),
{
    if changes.len() > 0 {
        lemma_tally_counts(changes.drop_last(), was, is, wc, ic);
    }
}

/// Whether a line is nothing but whitespace.
fn blank_exec(l: &str) -> (r: bool)
    ensures
        r == blank_line(l@),
{
    let cs = chars_of(l);
    for i in 0..cs.len()
        invariant
            cs@ == l@,
            forall|j: int| 0 <= j < i ==> is_ws(#[trigger] cs@[j]),
    {
        if !is_ws_exec(cs[i]) {
            return false;
        }
    }
    true
}

/// Whether some covered stretch overlaps the given line.
fn inside_exec(starts: &Vec<usize>, line: usize, covered: &Vec<Range<usize>>) -> (r: bool)
    ensures
        r == inside(line_at(starts@, line as int), covered@),
{
    if line >= starts.len() {
        return true;
    }
    let start = starts[line];
    let end = if line + 1 < starts.len() { starts[line + 1] } else { usize::MAX };
    let ghost l = Range { start, end };
    assert(line_at(starts@, line as int) == Some(l));
    for i in 0..covered.len()
        invariant
            l == (Range { start, end }),
            line_at(starts@, line as int) == Some(l),
            forall|j: int| 0 <= j < i ==> !overlaps(#[trigger] covered@[j], l),
    {
        if covered[i].start < end && start < covered[i].end {
            assert(overlaps(covered@[i as int], l));
            return true;
        }
    }
    false
}

/// Differing lines no definition covers, numbered from one, read off the change stream of
/// a line diff. Deleted lines are checked against the before side, added lines against
/// the after side; blank lines between definitions aren't worth reporting.
pub fn unaccounted_in(
    changes: &Vec<(Tag, String)>,
    before: &str,
    after: &str,
    was_covered: &Vec<Range<usize>>,
    is_covered: &Vec<Range<usize>>,
) -> (r: Vec<u32>)
    requires
        changes@.len() < u32::MAX,
    ensures
        r@ == unaccounted_spec(change_texts(changes@), before@, after@, was_covered@, is_covered@),
{
    let was = line_starts(before);
    let is = line_starts(after);
    let ghost all = change_texts(changes@);
    let mut missed: Vec<u32> = Vec::new();
    let mut old_line: usize = 0;
    let mut new_line: usize = 0;
    for i in 0..changes.len()
        invariant
            all == change_texts(changes@),
            changes@.len() < u32::MAX,
            was@ == starts_of(encode_utf8(before@)),
            is@ == starts_of(encode_utf8(after@)),
            old_line == tally(all.subrange(0, i as int), was@, is@, was_covered@, is_covered@).old_line,
            new_line == tally(all.subrange(0, i as int), was@, is@, was_covered@, is_covered@).new_line,
            missed@ == tally(all.subrange(0, i as int), was@, is@, was_covered@, is_covered@).missed,
    {
        proof {
            lemma_tally_counts(all.subrange(0, i as int), was@, is@, was_covered@, is_covered@);
        }
        assert(all.subrange(0, i + 1).drop_last() =~= all.subrange(0, i as int));
        assert(all.subrange(0, i + 1).last() == (changes@[i as int].0, changes@[i as int].1@));
        let blank = blank_exec(changes[i].1.as_str());
        match changes[i].0 {
            Tag::Equal => {
                old_line = old_line + 1;
                new_line = new_line + 1;
            },
            Tag::Delete => {
                if !blank && !inside_exec(&was, old_line, was_covered) {
                    missed.push(old_line as u32 + 1);
                }
                old_line = old_line + 1;
            },
            Tag::Insert => {
                if !blank && !inside_exec(&is, new_line, is_covered) {
                    missed.push(new_line as u32 + 1);
                }
                new_line = new_line + 1;
            },
        }
    }
    assert(all.subrange(0, all.len() as int) =~= all);
    missed
}

/// Differing lines between two texts that no covered stretch accounts for. Says nothing
/// (`None`) only for a diff of `u32::MAX` lines or more, whose line numbers could not be
/// written.
pub fn unaccounted(
    before: &str,
    after: &str,
    was_covered: &Vec<Range<usize>>,
    is_covered: &Vec<Range<usize>>,
) -> (r: Option<Vec<u32>>)
    ensures
        match r {
            Some(m) => every_change(before@, after@).len() < u32::MAX && m@ == unaccounted_spec(
                every_change(before@, after@),
                before@,
                after@,
                was_covered@,
                is_covered@,
            ),
            None => every_change(before@, after@).len() >= u32::MAX,
        },
{
    let changes = all_changes(before, after);
    if changes.len() >= 4294967295 {
        return None;
    }
    Some(unaccounted_in(&changes, before, after, was_covered, is_covered))
}

// ---------------------------------------------------------------------------------------
// What the definitions cover.

/// The stretches pieces cover in one file, in the order the pieces are listed.
pub open spec fn piece_ranges(ps: Seq<Piece>, file: Seq<char>) -> Seq<Range<usize>>
    decreases ps.len(),
{
    if ps.len() == 0 {
        Seq::empty()
    } else {
        let rest = piece_ranges(ps.drop_last(), file);
        if ps.last().file@ == file {
            rest.push(Range { start: ps.last().span.start as usize, end: ps.last().span.end as usize })
        } else {
            rest
        }
    }
}

/// One side of a definition: before or after.
pub open spec fn side_of(d: DefinitionView, after: bool) -> Option<OccurrenceView> {
    if after {
        d.sides.after()
    } else {
        d.sides.before()
    }
}

/// The stretches of one file some definition covers on one side. A part in another file (a
/// C declaration in a header) counts against that file.
pub open spec fn coverage(defs: Seq<DefinitionView>, after: bool, file: Seq<char>) -> Seq<Range<usize>>
    decreases defs.len(),
{
    if defs.len() == 0 {
        Seq::empty()
    } else {
        coverage(defs.drop_last(), after, file) + match side_of(defs.last(), after) {
            Some(o) => piece_ranges(all_pieces(o), file),
            None => Seq::empty(),
        }
    }
}

/// The views of a list of definitions.
pub open spec fn definition_views(defs: Seq<Definition>) -> Seq<DefinitionView> {
    defs.map_values(|d: Definition| d@)
}

/// Adds the stretches a list of pieces covers in one file.
fn note_pieces(ranges: &mut Vec<Range<usize>>, ps: &Vec<Piece>, file: &str)
    ensures
        final(ranges)@ == old(ranges)@ + piece_ranges(ps@, file@),
{
    let ghost start = ranges@;
    for i in 0..ps.len()
        invariant
            ranges@ == start + piece_ranges(ps@.subrange(0, i as int), file@),
    {
        assert(ps@.subrange(0, i + 1).drop_last() =~= ps@.subrange(0, i as int));
        if str_eq(ps[i].file.as_str(), file) {
            ranges.push(Range { start: ps[i].span.start as usize, end: ps[i].span.end as usize });
        }
    }
    assert(ps@.subrange(0, ps@.len() as int) =~= ps@);
}

proof fn lemma_piece_ranges_concat(a: Seq<Piece>, b: Seq<Piece>, file: Seq<char>)
    ensures
        piece_ranges(a + b, file) == piece_ranges(a, file) + piece_ranges(b, file),
    decreases b.len(),
{
    if b.len() == 0 {
        assert(a + b =~= a);
    } else {
        assert((a + b).drop_last() =~= a + b.drop_last());
        lemma_piece_ranges_concat(a, b.drop_last(), file);
    }
}

/// Adds the stretches one occurrence covers in one file.
fn note(ranges: &mut Vec<Range<usize>>, o: &Occurrence, file: &str)
    ensures
        final(ranges)@ == old(ranges)@ + piece_ranges(all_pieces(o@), file@),
{
    let ghost start = ranges@;
    let empty: Vec<Piece> = Vec::new();
    let contract = match &o.parts.contract {
        Some(v) => v,
        None => &empty,
    };
    let body = match &o.parts.body {
        Some(v) => v,
        None => &empty,
    };
    let docs = match &o.parts.docs {
        Some(v) => v,
        None => &empty,
    };
    assert(contract@ == pieces_or_none(o@.parts.contract));
    assert(body@ == pieces_or_none(o@.parts.body));
    assert(docs@ == pieces_or_none(o@.parts.docs));
    note_pieces(ranges, contract, file);
    note_pieces(ranges, body, file);
    note_pieces(ranges, docs, file);
    proof {
        lemma_piece_ranges_concat(contract@, body@, file@);
        lemma_piece_ranges_concat(contract@ + body@, docs@, file@);
        assert(ranges@ =~= start + piece_ranges(all_pieces(o@), file@));
    }
}

/// The stretches of one file the definitions cover on one side.
pub fn covered(definitions: &Vec<Definition>, after: bool, file: &str) -> (r: Vec<Range<usize>>)
    ensures
        r@ == coverage(definition_views(definitions@), after, file@),
{
    let ghost defs = definition_views(definitions@);
    let mut r: Vec<Range<usize>> = Vec::new();
    for i in 0..definitions.len()
        invariant
            defs == definition_views(definitions@),
            r@ == coverage(defs.subrange(0, i as int), after, file@),
    {
        assert(defs.subrange(0, i + 1).drop_last() =~= defs.subrange(0, i as int));
        assert(defs.subrange(0, i + 1).last() == definitions@[i as int]@);
        let side = if after { definitions[i].sides.after() } else { definitions[i].sides.before() };
        match side {
            Some(o) => note(&mut r, o, file),
            None => {},
        }
    }
    assert(defs.subrange(0, defs.len() as int) =~= defs);
    r
}

/// What a changed file reports: nothing when every differing line is accounted for, and
/// nothing for a diff too long to number.
pub open spec fn file_report(file: Seq<char>, before: Seq<char>, after: Seq<char>, defs: Seq<DefinitionView>) -> Option<DiagnosticView> {
    let changes = every_change(before, after);
    let missed = unaccounted_spec(changes, before, after, coverage(defs, false, file), coverage(defs, true, file));
    if changes.len() < u32::MAX && missed.len() > 0 {
        Some(
            DiagnosticView::Unattributed {
                file,
                lines: missed.len() as usize,
                at: if missed.len() <= SHOWN { missed } else { missed.take(SHOWN as int) },
            },
        )
    } else {
        None
    }
}

/// What every changed file reports, in order.
pub open spec fn reports(files: Seq<Seq<char>>, befores: Seq<Seq<char>>, afters: Seq<Seq<char>>, defs: Seq<DefinitionView>) -> Seq<DiagnosticView>
    decreases files.len(),
{
    if files.len() == 0 {
        Seq::empty()
    } else {
        let i = files.len() - 1;
        let rest = reports(files.drop_last(), befores, afters, defs);
        match file_report(files[i], befores[i], afters[i], defs) {
            Some(d) => rest.push(d),
            None => rest,
        }
    }
}

/// Reports differing lines that no definition covers, one finding per changed file that
/// has any. Each changed file comes with its text before and after; a file missing on one
/// side has the empty text there.
pub fn check(changed: &Vec<String>, befores: &Vec<String>, afters: &Vec<String>, definitions: &Vec<Definition>) -> (r: Vec<Diagnostic>)
    requires
        befores@.len() == changed@.len(),
        afters@.len() == changed@.len(),
    ensures
        diagnostic_views(r@) == reports(views(changed@), views(befores@), views(afters@), definition_views(definitions@)),
{
    let ghost defs = definition_views(definitions@);
    let ghost files = views(changed@);
    let mut r: Vec<Diagnostic> = Vec::new();
    for i in 0..changed.len()
        invariant
            befores@.len() == changed@.len(),
            afters@.len() == changed@.len(),
            defs == definition_views(definitions@),
            files == views(changed@),
            diagnostic_views(r@) == reports(files.subrange(0, i as int), views(befores@), views(afters@), defs),
    {
        assert(files.subrange(0, i + 1).drop_last() =~= files.subrange(0, i as int));
        let file = changed[i].as_str();
        let was = covered(definitions, false, file);
        let is = covered(definitions, true, file);
        let ghost d0 = diagnostic_views(r@);
        match unaccounted(befores[i].as_str(), afters[i].as_str(), &was, &is) {
            Some(missed) => {
                if missed.len() > 0 {
                    let mut at: Vec<u32> = Vec::new();
                    let mut k: usize = 0;
                    while k < missed.len() && k < SHOWN
                        invariant
                            k <= missed@.len(),
                            k <= SHOWN,
                            at@ == missed@.take(k as int),
                        decreases missed@.len() - k,
                    {
                        at.push(missed[k]);
                        assert(at@ =~= missed@.take(k + 1));
                        k = k + 1;
                    }
                    assert(missed@.len() <= SHOWN ==> missed@.take(k as int) =~= missed@);
                    r.push(Diagnostic::Unattributed { file: owned(file), lines: missed.len(), at });
                    assert(diagnostic_views(r@) =~= d0.push(r@.last()@));
                }
            },
            None => {},
        }
    }
    assert(files.subrange(0, files.len() as int) =~= files);
    r
}

} // verus!
