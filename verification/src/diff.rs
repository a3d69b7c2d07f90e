//! Renders a before and after as diff lines. The model never diffs anything, so this is
//! the one place that decides what a change looks like.

use crate::matching::segments;
use crate::model::Span;
use vstd::string::StringSliceAdditionalSpecFns;
use crate::text::{chars_of, owned, push_char, string_of};
use vstd::prelude::*;

verus! {

pub const RED: &'static str = "\x1b[31m";

pub const GREEN: &'static str = "\x1b[32m";

pub const DIM: &'static str = "\x1b[2m";

pub const BOLD: &'static str = "\x1b[1m";

pub const RESET: &'static str = "\x1b[0m";

/// Whether text gets coloured.
pub struct Paint {
    on: bool,
}

/// `text` in `colour` where painting is on, as it is otherwise.
pub open spec fn painted(on: bool, colour: Seq<char>, text: Seq<char>) -> Seq<char> {
    if on { colour + text + RESET@ } else { text }
}

impl Paint {
    /// Whether this paints.
    pub closed spec fn is_on(&self) -> bool {
        self.on
    }

    /// Paints only on a terminal, and not where `NO_COLOR` is set.
    pub fn new(terminal: bool, no_color: bool) -> (r: Paint)
        ensures
            r.is_on() == (terminal && !no_color),
    {
        Paint { on: terminal && !no_color }
    }

    /// `text` in `colour`, if this paints.
    pub fn wrap(&self, colour: &str, text: &str) -> (r: String)
        ensures
            r@ == painted(self.is_on(), colour@, text@),
    {
        if self.on {
            let mut r = owned(colour);
            r.append(text);
            r.append(RESET);
            r
        } else {
            owned(text)
        }
    }
}

/// A line with the carriage return that ended it taken off.
pub open spec fn strip_cr(l: Seq<char>) -> Seq<char> {
    if l.len() > 0 && l.last() == '\r' { l.drop_last() } else { l }
}

/// A text's lines as `str::lines` gives them: split at each line break, a carriage
/// return before the break dropped, and no empty line after a final break.
pub open spec fn text_lines(s: Seq<char>) -> Seq<Seq<char>> {
    let segs = segments(s);
    let ended = segs.drop_last().map_values(|l: Seq<char>| strip_cr(l));
    if segs.last().len() == 0 { ended } else { ended.push(segs.last()) }
}

/// A text's lines, as `str::lines` gives them.
pub fn lines(text: &str) -> (r: Vec<String>)
    ensures
        crate::text::views(r@) == text_lines(text@),
{
    let chars = chars_of(text);
    let mut done: Vec<String> = Vec::new();
    let mut current: Vec<char> = Vec::new();
    let ghost mut segs: Seq<Seq<char>> = seq![Seq::empty()];
    for i in 0..chars.len()
        invariant
            chars@ == text@,
            segs == segments(chars@.subrange(0, i as int)),
            segs.len() >= 1,
            current@ == segs.last(),
            crate::text::views(done@) == segs.drop_last().map_values(|l: Seq<char>| strip_cr(l)),
    {
        let ghost prefix = chars@.subrange(0, i as int);
        let ghost next = chars@.subrange(0, i + 1);
        assert(next.drop_last() =~= prefix);
        let c = chars[i];
        if c == '\n' {
            let n = current.len();
            let line = if n > 0 && current[n - 1] == '\r' {
                let mut trimmed: Vec<char> = Vec::new();
                for k in 0..n - 1
                    invariant
                        n == current@.len(),
                        n > 0,
                        trimmed@ == current@.subrange(0, k as int),
                {
                    trimmed.push(current[k]);
                    assert(current@.subrange(0, k + 1) =~= current@.subrange(0, k as int).push(current@[k as int]));
                }
                assert(trimmed@ =~= current@.drop_last());
                string_of(&trimmed)
            } else {
                string_of(&current)
            };
            let ghost was = done@;
            done.push(line);
            current = Vec::new();
            proof {
                let s2 = segs.push(Seq::empty());
                assert(s2.drop_last() =~= segs);
                assert(crate::text::views(done@) =~= crate::text::views(was).push(strip_cr(segs.last())));
                assert(segs.drop_last().push(segs.last()) =~= segs);
                assert(segs.map_values(|l: Seq<char>| strip_cr(l)) =~= segs.drop_last().map_values(|l: Seq<char>| strip_cr(l)).push(
                    strip_cr(segs.last()),
                ));
                segs = s2;
            }
        } else {
            current.push(c);
            proof {
                let s2 = segs.update(segs.len() - 1, segs.last().push(c));
                assert(s2.drop_last() =~= segs.drop_last());
                segs = s2;
            }
        }
    }
    assert(chars@.subrange(0, chars@.len() as int) =~= chars@);
    if current.len() > 0 {
        let ghost was = done@;
        done.push(string_of(&current));
        assert(crate::text::views(done@) =~= crate::text::views(was).push(current@));
    }
    done
}

/// Each line, written out and followed by a line break, one after another.
pub open spec fn each_line(ls: Seq<Seq<char>>, f: spec_fn(Seq<char>) -> Seq<char>) -> Seq<char>
    decreases ls.len(),
{
    if ls.len() == 0 {
        Seq::empty()
    } else {
        each_line(ls.drop_last(), f) + f(ls.last())
    }
}

/// How an untouched line is written.
pub open spec fn unchanged_line(on: bool, line: Seq<char>) -> Seq<char> {
    "  "@ + painted(on, DIM@, "  "@ + line) + "\n"@
}

/// For a definition that didn't change but has to be read anyway.
pub fn render_unchanged(text: &str, paint: &Paint) -> (r: String)
    ensures
        r@ == each_line(text_lines(text@), |l: Seq<char>| unchanged_line(paint.is_on(), l)),
{
    let ls = lines(text);
    let ghost f = |l: Seq<char>| unchanged_line(paint.is_on(), l);
    let mut out = String::new();
    for i in 0..ls.len()
        invariant
            forall|l: Seq<char>| #[trigger] f(l) == unchanged_line(paint.is_on(), l),
            out@ == each_line(crate::text::views(ls@).subrange(0, i as int), f),
    {
        let ghost before = crate::text::views(ls@).subrange(0, i as int);
        let ghost next = crate::text::views(ls@).subrange(0, i + 1);
        let ghost start = out@;
        assert(next.drop_last() =~= before);
        assert(next.last() == ls@[i as int]@);
        let mut inner = owned("  ");
        inner.append(ls[i].as_str());
        out.append("  ");
        out.append(paint.wrap(DIM, inner.as_str()).as_str());
        out.append("\n");
        assert(out@ =~= start + f(ls@[i as int]@));
    }
    assert(crate::text::views(ls@).subrange(0, ls@.len() as int) =~= crate::text::views(ls@));
    out
}

/// How a line of a text that arrived or left whole is written.
pub open spec fn whole_line(on: bool, mark: char, line: Seq<char>) -> Seq<char> {
    "  "@ + painted(on, if mark == '+' { GREEN@ } else { RED@ }, seq![mark] + " "@ + line) + "\n"@
}

/// A whole text arriving or leaving, where every line is the change.
pub fn render_whole(text: &str, mark: char, paint: &Paint) -> (r: String)
    ensures
        r@ == each_line(text_lines(text@), |l: Seq<char>| whole_line(paint.is_on(), mark, l)),
{
    let colour = if mark == '+' { GREEN } else { RED };
    let ls = lines(text);
    let ghost f = |l: Seq<char>| whole_line(paint.is_on(), mark, l);
    let mut out = String::new();
    for i in 0..ls.len()
        invariant
            colour@ == (if mark == '+' { GREEN@ } else { RED@ }),
            forall|l: Seq<char>| #[trigger] f(l) == whole_line(paint.is_on(), mark, l),
            out@ == each_line(crate::text::views(ls@).subrange(0, i as int), f),
    {
        let ghost before = crate::text::views(ls@).subrange(0, i as int);
        let ghost next = crate::text::views(ls@).subrange(0, i + 1);
        let ghost start = out@;
        assert(next.drop_last() =~= before);
        assert(next.last() == ls@[i as int]@);
        let mut inner = String::new();
        push_char(&mut inner, mark);
        inner.append(" ");
        inner.append(ls[i].as_str());
        out.append("  ");
        out.append(paint.wrap(colour, inner.as_str()).as_str());
        out.append("\n");
        assert(out@ =~= start + f(ls@[i as int]@));
    }
    assert(crate::text::views(ls@).subrange(0, ls@.len() as int) =~= crate::text::views(ls@));
    out
}

/// What became of a line between the two texts.
#[derive(Debug, Clone, Copy, PartialEq, Eq, Structural)]
pub enum Tag {
    Delete,
    Insert,
    Equal,
}

/// A diff's changes, each with its line as text.
pub open spec fn change_views(groups: Seq<Vec<(Tag, String)>>) -> Seq<Seq<(Tag, Seq<char>)>> {
    groups.map_values(|g: Vec<(Tag, String)>| g@.map_values(|c: (Tag, String)| (c.0, c.1@)))
}

/// The line diff of two texts, grouped into hunks with `context` unchanged lines around
/// each edit, as the `similar` crate's `TextDiff::from_lines` and `grouped_ops` work it
/// out: each hunk's changes in order, each line with its line break.
pub uninterp spec fn line_changes(before: Seq<char>, after: Seq<char>, context: usize) -> Seq<Seq<(Tag, Seq<char>)>>;

/// Diffs two texts line by line. Calls `similar::TextDiff::from_lines`, `grouped_ops`
/// and `iter_changes`; the contract names the hunks that come back without saying what
/// they are. `similar` doubles the context, so a context past half of `usize` is refused.
#[verifier::external_body]
fn grouped_changes(before: &str, after: &str, context: usize) -> (r: Vec<Vec<(Tag, String)>>)
    requires
        context <= usize::MAX / 2,
    ensures
        change_views(r@) == line_changes(before@, after@, context),
{
    let diff = similar::TextDiff::from_lines(before, after);
    let mut groups: Vec<Vec<(Tag, String)>> = Vec::new();
    for ops in diff.grouped_ops(context) {
        let mut group: Vec<(Tag, String)> = Vec::new();
        for change in ops.iter().flat_map(|op| diff.iter_changes(op)) {
            let tag = match change.tag() {
                similar::ChangeTag::Delete => Tag::Delete,
                similar::ChangeTag::Insert => Tag::Insert,
                similar::ChangeTag::Equal => Tag::Equal,
            };
            group.push((tag, change.value().to_string()));
        }
        groups.push(group);
    }
    groups
}

/// A line with every line break at its end taken off.
pub open spec fn trim_breaks(s: Seq<char>) -> Seq<char>
    decreases s.len(),
{
    if s.len() > 0 && s.last() == '\n' { trim_breaks(s.drop_last()) } else { s }
}

/// How a changed line is written: its mark and colour come from what became of it.
pub open spec fn change_line(on: bool, c: (Tag, Seq<char>)) -> Seq<char> {
    let (mark, colour) = match c.0 {
        Tag::Delete => ('-', RED@),
        Tag::Insert => ('+', GREEN@),
        Tag::Equal => (' ', DIM@),
    };
    "  "@ + painted(on, colour, seq![mark] + " "@ + trim_breaks(c.1)) + "\n"@
}

/// A hunk's lines.
pub open spec fn hunk_text(on: bool, changes: Seq<(Tag, Seq<char>)>) -> Seq<char>
    decreases changes.len(),
{
    if changes.len() == 0 {
        Seq::empty()
    } else {
        hunk_text(on, changes.drop_last()) + change_line(on, changes.last())
    }
}

/// Hunks one after another, a dimmed `...` between each two.
pub open spec fn hunks_text(on: bool, groups: Seq<Seq<(Tag, Seq<char>)>>) -> Seq<char>
    decreases groups.len(),
{
    if groups.len() == 0 {
        Seq::empty()
    } else {
        hunks_text(on, groups.drop_last()) + (if groups.len() > 1 {
            painted(on, DIM@, "    ..."@) + "\n"@
        } else {
            Seq::empty()
        }) + hunk_text(on, groups.last())
    }
}

/// Unchanged lines around an edit, so a body can be read without its whole context.
pub const CONTEXT: usize = 2;

/// A line with the line breaks at its end taken off.
fn without_breaks(s: &str) -> (r: String)
    ensures
        r@ == trim_breaks(s@),
{
    let chars = chars_of(s);
    let mut n = chars.len();
    assert(chars@.subrange(0, n as int) =~= chars@);
    while n > 0 && chars[n - 1] == '\n'
        invariant
            n <= chars@.len(),
            trim_breaks(chars@) == trim_breaks(chars@.subrange(0, n as int)),
        decreases n,
    {
        assert(chars@.subrange(0, n as int).drop_last() =~= chars@.subrange(0, n - 1));
        n = n - 1;
    }
    let mut kept: Vec<char> = Vec::new();
    for k in 0..n
        invariant
            n <= chars@.len(),
            kept@ == chars@.subrange(0, k as int),
    {
        kept.push(chars[k]);
        assert(chars@.subrange(0, k + 1) =~= chars@.subrange(0, k as int).push(chars@[k as int]));
    }
    string_of(&kept)
}

/// Hunks written out, the way `render` writes the diff of two texts.
pub fn render_hunks(groups: &Vec<Vec<(Tag, String)>>, paint: &Paint) -> (r: String)
    ensures
        r@ == hunks_text(paint.is_on(), change_views(groups@)),
{
    let ghost all = change_views(groups@);
    let mut out = String::new();
    for g in 0..groups.len()
        invariant
            all == change_views(groups@),
            out@ == hunks_text(paint.is_on(), all.subrange(0, g as int)),
    {
        let ghost before = all.subrange(0, g as int);
        let ghost next = all.subrange(0, g + 1);
        assert(next.drop_last() =~= before);
        if g > 0 {
            out.append(paint.wrap(DIM, "    ...").as_str());
            out.append("\n");
        }
        let ghost start = out@;
        let group = &groups[g];
        let ghost changes = all[g as int];
        assert(changes == group@.map_values(|c: (Tag, String)| (c.0, c.1@)));
        for k in 0..group.len()
            invariant
                changes == group@.map_values(|c: (Tag, String)| (c.0, c.1@)),
                out@ == start + hunk_text(paint.is_on(), changes.subrange(0, k as int)),
        {
            assert(changes.subrange(0, k + 1).drop_last() =~= changes.subrange(0, k as int));
            let (tag, value) = (&group[k].0, &group[k].1);
            let text = without_breaks(value.as_str());
            let mut inner = String::new();
            let colour = match tag {
                Tag::Delete => {
                    push_char(&mut inner, '-');
                    RED
                },
                Tag::Insert => {
                    push_char(&mut inner, '+');
                    GREEN
                },
                Tag::Equal => {
                    push_char(&mut inner, ' ');
                    DIM
                },
            };
            inner.append(" ");
            inner.append(text.as_str());
            out.append("  ");
            out.append(paint.wrap(colour, inner.as_str()).as_str());
            out.append("\n");
        }
        assert(changes.subrange(0, changes.len() as int) =~= changes);
    }
    assert(all.subrange(0, all.len() as int) =~= all);
    out
}

/// The changed lines of a before and after, in hunks with a little context around each.
pub fn render(before: &str, after: &str, paint: &Paint) -> (r: String)
    ensures
        r@ == hunks_text(paint.is_on(), line_changes(before@, after@, CONTEXT)),
{
    let groups = grouped_changes(before, after, CONTEXT);
    render_hunks(&groups, paint)
}

// ---------------------------------------------------------------------------------------
// Where two texts differ, as byte spans, so an adapter can skip what an edit didn't touch.

/// One step of a line diff: a run of lines kept, dropped, added or swapped, with where it
/// starts on each side and how many lines it covers there.
#[derive(Debug, Clone, Copy, PartialEq, Eq, Structural)]
pub enum Op {
    Equal { old_index: usize, new_index: usize, len: usize },
    Delete { old_index: usize, old_len: usize, new_index: usize },
    Insert { old_index: usize, new_index: usize, new_len: usize },
    Replace { old_index: usize, old_len: usize, new_index: usize, new_len: usize },
}

/// The steps of the line diff of two texts, as the `similar` crate's
/// `TextDiff::from_lines` and `ops` work them out.
pub uninterp spec fn line_ops(before: Seq<char>, after: Seq<char>) -> Seq<Op>;

/// Diffs two texts line by line. Calls `similar::TextDiff::from_lines` and `ops`; the
/// contract names the steps without saying what they are.
#[verifier::external_body]
fn diff_ops(before: &str, after: &str) -> (r: Vec<Op>)
    ensures
        r@ == line_ops(before@, after@),
{
    similar::TextDiff::from_lines(before, after).ops().iter().map(|op| match *op {
        similar::DiffOp::Equal { old_index, new_index, len } => Op::Equal { old_index, new_index, len },
        similar::DiffOp::Delete { old_index, old_len, new_index } => Op::Delete { old_index, old_len, new_index },
        similar::DiffOp::Insert { old_index, new_index, new_len } => Op::Insert { old_index, new_index, new_len },
        similar::DiffOp::Replace { old_index, old_len, new_index, new_len } => Op::Replace { old_index, old_len, new_index, new_len },
    }).collect()
}

/// Where each line of a text starts, in bytes: at zero, and just after each line break.
pub open spec fn starts_of(b: Seq<u8>) -> Seq<usize>
    decreases b.len(),
{
    if b.len() == 0 {
        seq![0usize]
    } else {
        starts_of(b.drop_last()) + if b.last() == 10u8 { seq![b.len() as usize] } else { Seq::empty() }
    }
}

/// Where each line of a text starts, in bytes.
pub fn line_starts(text: &str) -> (r: Vec<usize>)
    ensures
        r@ == starts_of(text.spec_bytes()),
{
    let b = text.as_bytes();
    let mut r: Vec<usize> = Vec::new();
    r.push(0);
    for i in 0..b.len()
        invariant
            b@ == text.spec_bytes(),
            r@ == starts_of(b@.subrange(0, i as int)),
    {
        assert(b@.subrange(0, i + 1).drop_last() =~= b@.subrange(0, i as int));
        if b[i] == 10u8 {
            r.push(i + 1);
        }
    }
    assert(b@.subrange(0, b@.len() as int) =~= b@);
    r
}

/// Where line `k` starts, or the end of the text past the last line.
pub open spec fn start_or_end(starts: Seq<usize>, len: usize, k: int) -> usize {
    if 0 <= k < starts.len() { starts[k] } else { len }
}

/// The bytes from line `from` up to line `to`.
pub open spec fn lines_span(starts: Seq<usize>, len: usize, from: int, to: int) -> Span {
    Span { start: start_or_end(starts, len, from) as u32, end: start_or_end(starts, len, to) as u32 }
}

/// A zero-width span where line `at` starts, on the side that has no lines for an
/// insertion or deletion: the definition around it still has to count as changed on both
/// sides, or the two readings disagree.
pub open spec fn seam(starts: Seq<usize>, len: usize, at: int) -> Span {
    let point = start_or_end(starts, len, at) as u32;
    Span { start: point, end: point }
}

/// The spans one step of a diff marks on each side; an equal stretch marks nothing.
pub open spec fn mark_of(op: Op, was: Seq<usize>, wlen: usize, is: Seq<usize>, ilen: usize) -> Option<(Span, Span)> {
    match op {
        Op::Equal { .. } => None,
        Op::Delete { old_index, old_len, new_index } => Some(
            (lines_span(was, wlen, old_index as int, old_index + old_len), seam(is, ilen, new_index as int)),
        ),
        Op::Insert { old_index, new_index, new_len } => Some(
            (seam(was, wlen, old_index as int), lines_span(is, ilen, new_index as int, new_index + new_len)),
        ),
        Op::Replace { old_index, old_len, new_index, new_len } => Some(
            (
                lines_span(was, wlen, old_index as int, old_index + old_len),
                lines_span(is, ilen, new_index as int, new_index + new_len),
            ),
        ),
    }
}

/// The spans each step of a diff marks on each side, step by step.
pub open spec fn marked(ops: Seq<Op>, was: Seq<usize>, wlen: usize, is: Seq<usize>, ilen: usize) -> (Seq<Span>, Seq<Span>)
    decreases ops.len(),
{
    if ops.len() == 0 {
        (Seq::empty(), Seq::empty())
    } else {
        let (a, b) = marked(ops.drop_last(), was, wlen, is, ilen);
        match mark_of(ops.last(), was, wlen, is, ilen) {
            Some((x, y)) => (a.push(x), b.push(y)),
            None => (a, b),
        }
    }
}

/// The bytes of `count` lines from line `from`.
fn span_exec(starts: &Vec<usize>, len: usize, from: usize, count: usize) -> (r: Span)
    ensures
        r == lines_span(starts@, len, from as int, from + count),
{
    let start = start_or_end_exec(starts, len, from) as u32;
    let n = starts.len();
    let end = match from.checked_add(count) {
        Some(to) => start_or_end_exec(starts, len, to) as u32,
        None => {
            assert(from + count > n);
            len as u32
        },
    };
    Span { start, end }
}

/// A zero-width span where line `at` starts.
fn seam_exec(starts: &Vec<usize>, len: usize, at: usize) -> (r: Span)
    ensures
        r == seam(starts@, len, at as int),
{
    let point = start_or_end_exec(starts, len, at) as u32;
    Span { start: point, end: point }
}

/// The spans one step marks on each side.
fn mark_exec(op: &Op, was: &Vec<usize>, wlen: usize, is: &Vec<usize>, ilen: usize) -> (r: Option<(Span, Span)>)
    ensures
        r == mark_of(*op, was@, wlen, is@, ilen),
{
    match *op {
        Op::Equal { .. } => None,
        Op::Delete { old_index, old_len, new_index } => Some(
            (span_exec(was, wlen, old_index, old_len), seam_exec(is, ilen, new_index)),
        ),
        Op::Insert { old_index, new_index, new_len } => Some(
            (seam_exec(was, wlen, old_index), span_exec(is, ilen, new_index, new_len)),
        ),
        Op::Replace { old_index, old_len, new_index, new_len } => Some(
            (span_exec(was, wlen, old_index, old_len), span_exec(is, ilen, new_index, new_len)),
        ),
    }
}

/// Where line `k` starts, or the end of the text past the last line.
fn start_or_end_exec(starts: &Vec<usize>, len: usize, k: usize) -> (r: usize)
    ensures
        r == start_or_end(starts@, len, k as int),
{
    if k < starts.len() { starts[k] } else { len }
}

/// The spans a run of steps marks on each side. A step never reaches past the last line;
/// one that did would be read as reaching the end of the text.
pub fn spans_of(ops: &Vec<Op>, before: &str, after: &str) -> (r: (Vec<Span>, Vec<Span>))
    ensures
        (r.0@, r.1@) == marked(ops@, starts_of(before.spec_bytes()), before.spec_bytes().len() as usize, starts_of(after.spec_bytes()),
            after.spec_bytes().len() as usize),
{
    let was = line_starts(before);
    let is = line_starts(after);
    let wlen = before.len();
    let ilen = after.len();
    let mut at_before: Vec<Span> = Vec::new();
    let mut at_after: Vec<Span> = Vec::new();
    for k in 0..ops.len()
        invariant
            was@ == starts_of(before.spec_bytes()),
            is@ == starts_of(after.spec_bytes()),
            wlen == before.spec_bytes().len() as usize,
            ilen == after.spec_bytes().len() as usize,
            (at_before@, at_after@) == marked(ops@.subrange(0, k as int), was@, wlen, is@, ilen),
    {
        assert(ops@.subrange(0, k + 1).drop_last() =~= ops@.subrange(0, k as int));
        assert(ops@.subrange(0, k + 1).last() == ops@[k as int]);
        match mark_exec(&ops[k], &was, wlen, &is, ilen) {
            Some((x, y)) => {
                at_before.push(x);
                at_after.push(y);
            },
            None => {},
        }
    }
    assert(ops@.subrange(0, ops@.len() as int) =~= ops@);
    (at_before, at_after)
}

/// The unequal stretches of each side, as byte spans since that's what definition spans
/// use.
pub fn ranges(before: &str, after: &str) -> (r: (Vec<Span>, Vec<Span>))
    ensures
        (r.0@, r.1@) == marked(
            line_ops(before@, after@),
            starts_of(before.spec_bytes()),
            before.spec_bytes().len() as usize,
            starts_of(after.spec_bytes()),
            after.spec_bytes().len() as usize,
        ),
{
    let ops = diff_ops(before, after);
    spans_of(&ops, before, after)
}

} // verus!
