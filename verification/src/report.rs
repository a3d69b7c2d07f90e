//! The review as the terminal shows it: a count, the reading order a line per step, then
//! the warnings, those that might hide a change first.

use crate::change::{Change, ChangeView};
use crate::model::Part;
use crate::order::Step;
use crate::review::{Definition, Impact, Review, Warning};
use crate::text::{decimal, joined, number, owned, push_char};
use crate::walk::{entry, entry_for};
use vstd::prelude::*;

verus! {

/// One character for a change. A contract change is louder than a body change.
pub open spec fn glyph_spec(c: ChangeView) -> char {
    match c {
        ChangeView::Added => '+',
        ChangeView::Removed => '-',
        ChangeView::Kept(edits) => if edits.contract_changed {
            '!'
        } else if edits.parts.contains(Part::Contract) || edits.parts.contains(Part::Body) {
            '~'
        } else if edits.parts.contains(Part::Docs) {
            '"'
        } else {
            '.'
        },
    }
}

/// The terminal's one character for a change is the glyph of the mark every rendering
/// shows for it, when no change reached it from elsewhere: the two legends can't drift
/// apart.
pub proof fn lemma_glyphs_agree(c: ChangeView)
    ensures
        glyph_spec(c) == c.mark(false).glyph_spec(),
{
}

/// One-character summary of a change. A contract rewritten without changing meaning
/// (reformatted, or a type spelled differently) reads like a body change.
pub fn glyph(change: &Change) -> (r: char)
    ensures
        r == glyph_spec(change@),
{
    match change {
        Change::Added => '+',
        Change::Removed => '-',
        Change::Kept(edits) => {
            if edits.contract_changed {
                '!'
            } else if edits.changed(Part::Contract) || edits.changed(Part::Body) {
                '~'
            } else if edits.changed(Part::Docs) {
                '"'
            } else {
                '.'
            }
        },
    }
}

/// A definition's name: its locator written out, as it is now.
pub open spec fn name_spec(d: Definition) -> Seq<char> {
    let l = d.sides@.latest().locator;
    joined(l.scope.push(l.name), seq![':', ':'])
}

/// A definition's name: its locator written out, as it is now.
pub fn name(definition: &Definition) -> (r: String)
    ensures
        r@ == name_spec(*definition),
{
    definition.sides.latest().locator.written()
}

/// `n` spaces.
pub open spec fn spaces(n: int) -> Seq<char>
    decreases n,
{
    if n <= 0 { Seq::empty() } else { spaces(n - 1).push(' ') }
}

/// A text right-aligned in `w` characters.
pub open spec fn pad_left(s: Seq<char>, w: int) -> Seq<char> {
    spaces(w - s.len()) + s
}

/// A text left-aligned in `w` characters.
pub open spec fn pad_right(s: Seq<char>, w: int) -> Seq<char> {
    s + spaces(w - s.len())
}

/// `n` spaces onto the end of a text.
fn add_spaces(out: &mut String, n: usize)
    ensures
        final(out)@ == old(out)@ + spaces(n as int),
{
    for i in 0..n
        invariant
            out@ == old(out)@ + spaces(i as int),
    {
        push_char(out, ' ');
        assert(spaces(i + 1) == spaces(i as int).push(' '));
        assert(out@ =~= old(out)@ + spaces(i + 1));
    }
}

/// How many of the steps name a definition whose change is worth reading.
pub open spec fn changed_count(defs: Seq<(crate::model::Identity, Definition)>, steps: Seq<Step>) -> nat
    decreases steps.len(),
{
    if steps.len() == 0 {
        0
    } else {
        changed_count(defs, steps.drop_last()) + if entry_for(defs, steps.last().definition) matches Some(d)
            && d.change@.worth_reading() {
            1nat
        } else {
            0nat
        }
    }
}

/// How many definitions a change reached.
pub open spec fn reached_count(defs: Seq<(crate::model::Identity, Definition)>) -> nat
    decreases defs.len(),
{
    if defs.len() == 0 {
        0
    } else {
        reached_count(defs.drop_last()) + if defs.last().1.reached is Some { 1nat } else { 0nat }
    }
}

/// The line for the step in `place`: where it comes, its mark, its name and file, and
/// whether a change reached it or it is read before something it depends on.
pub open spec fn step_line(defs: Seq<(crate::model::Identity, Definition)>, step: Step, place: int) -> Seq<char> {
    match entry_for(defs, step.definition) {
        None => Seq::empty(),
        Some(d) => {
            let mark = if d.change@.worth_reading() { glyph_spec(d.change@) } else { '=' };
            let reached = if d.reached is Some { " (reached)"@ } else { Seq::empty() };
            let faith = if step.on_faith@.len() == 0 {
                Seq::empty()
            } else {
                " ("@ + decimal(step.on_faith@.len()) + " not read yet)"@
            };
            pad_left(decimal(place as nat), 3) + ". "@ + seq![mark, ' '] + pad_right(name_spec(d), 44) + " "@
                + d.sides@.latest().file + reached + faith + "\n"@
        },
    }
}

/// The reading order, a line per step.
pub open spec fn steps_text(defs: Seq<(crate::model::Identity, Definition)>, steps: Seq<Step>) -> Seq<char>
    decreases steps.len(),
{
    if steps.len() == 0 {
        Seq::empty()
    } else {
        steps_text(defs, steps.drop_last()) + step_line(defs, steps.last(), steps.len() as int)
    }
}

/// Warnings of one impact, or of any other, in order.
pub open spec fn of_impact(ws: Seq<Warning>, hiding: bool) -> Seq<Warning>
    decreases ws.len(),
{
    if ws.len() == 0 {
        Seq::empty()
    } else {
        of_impact(ws.drop_last(), hiding) + if (ws.last().impact == Impact::Incomplete) == hiding {
            seq![ws.last()]
        } else {
            Seq::empty()
        }
    }
}

/// Warnings a line each, indented.
pub open spec fn warning_lines(ws: Seq<Warning>) -> Seq<char>
    decreases ws.len(),
{
    if ws.len() == 0 {
        Seq::empty()
    } else {
        warning_lines(ws.drop_last()) + "  "@ + ws.last().message@ + "\n"@
    }
}

/// Warnings under a heading, or nothing where there are none.
pub open spec fn warning_block(ws: Seq<Warning>, heading: Seq<char>) -> Seq<char> {
    if ws.len() == 0 { Seq::empty() } else { "\n"@ + decimal(ws.len()) + heading + "\n"@ + warning_lines(ws) }
}

/// What the terminal shows of a review.
pub open spec fn summary_spec(review: Review) -> Seq<char> {
    let defs = review.definitions@;
    let steps = review.reading@;
    decimal(defs.len()) + " definitions, "@ + decimal(steps.len()) + " to read ("@ + decimal(changed_count(defs, steps))
        + " changed, "@ + decimal(reached_count(defs)) + " reached)\n"@
        + "+ new   - gone   ! type changed   ~ body   \" docs   . untouched\n"@ + "at most "@ + decimal(review.cost.peak_open as nat)
        + " held in mind at once, "@ + decimal(review.cost.taken_on_faith as nat) + " read early, "@ + decimal(
        review.cost.jumps as nat,
    ) + " jumps between files\n\n"@ + steps_text(defs, steps) + warning_block(
        of_impact(review.warnings@, true),
        " things this review might not be showing:"@,
    ) + warning_block(of_impact(review.warnings@, false), " worked out a weaker way:"@)
}

/// Adds warnings under a heading, if there are any.
fn add_warnings(out: &mut String, ws: &Vec<&Warning>, heading: &str)
    ensures
        final(out)@ == old(out)@ + warning_block(ws@.map_values(|w: &Warning| *w), heading@),
{
    let ghost all = ws@.map_values(|w: &Warning| *w);
    if ws.len() == 0 {
        return;
    }
    out.append("\n");
    out.append(number(ws.len()).as_str());
    out.append(heading);
    out.append("\n");
    let ghost start = out@;
    for i in 0..ws.len()
        invariant
            all == ws@.map_values(|w: &Warning| *w),
            out@ == start + warning_lines(all.subrange(0, i as int)),
    {
        assert(all.subrange(0, i + 1).drop_last() =~= all.subrange(0, i as int));
        out.append("  ");
        out.append(ws[i].message.as_str());
        out.append("\n");
    }
    assert(all.subrange(0, all.len() as int) =~= all);
}

/// A number right-aligned in three characters.
fn padded_place(n: usize) -> (r: String)
    ensures
        r@ == pad_left(decimal(n as nat), 3),
{
    let place = number(n);
    let pl = crate::text::chars_of(place.as_str()).len();
    let mut line = String::new();
    if pl < 3 {
        add_spaces(&mut line, 3 - pl);
    }
    line.append(place.as_str());
    assert(spaces(3 - decimal(n as nat).len()) == if pl < 3 { spaces((3 - pl) as int) } else { Seq::<char>::empty() });
    line
}

/// A definition's name left-aligned in forty-four characters.
fn padded_name(d: &Definition) -> (r: String)
    ensures
        r@ == pad_right(name_spec(*d), 44),
{
    let mut line = name(d);
    let nl = crate::text::chars_of(line.as_str()).len();
    if nl < 44 {
        add_spaces(&mut line, 44 - nl);
    }
    assert(spaces(44 - name_spec(*d).len()) == if nl < 44 { spaces((44 - nl) as int) } else { Seq::<char>::empty() });
    line
}

/// The end of a step's line: the file, whether a change reached it, and what it is read
/// before.
fn line_end_of_step(d: &Definition, step: &Step) -> (r: String)
    ensures
        r@ == d.sides@.latest().file + (if d.reached is Some { " (reached)"@ } else { Seq::empty() }) + (if step.on_faith@.len() == 0 {
            Seq::empty()
        } else {
            " ("@ + decimal(step.on_faith@.len()) + " not read yet)"@
        }) + "\n"@,
{
    let mut line = owned(d.sides.latest().file.as_str());
    if d.reached.is_some() {
        line.append(" (reached)");
    }
    if step.on_faith.len() > 0 {
        line.append(" (");
        line.append(number(step.on_faith.len()).as_str());
        line.append(" not read yet)");
    }
    line.append("\n");
    line
}

/// The line for one step of the reading.
#[verifier::spinoff_prover]
#[verifier::rlimit(40)]
fn step_text(review: &Review, i: usize) -> (r: String)
    requires
        i < review.reading@.len(),
    ensures
        r@ == step_line(review.definitions@, review.reading@[i as int], i + 1),
{
    let step = &review.reading[i];
    match entry(review, step.definition) {
        Some(d) => {
            let mark = if d.change.worth_reading() { glyph(&d.change) } else { '=' };
            assert(i < review.reading.len());
            let mut line = padded_place(i + 1);
            line.append(". ");
            push_char(&mut line, mark);
            push_char(&mut line, ' ');
            line.append(padded_name(d).as_str());
            line.append(" ");
            line.append(line_end_of_step(d, step).as_str());
            line
        },
        None => String::new(),
    }
}

/// Changed and reached overlap, so they don't add up to the total on purpose.
pub fn summary(review: &Review) -> (r: String)
    ensures
        r@ == summary_spec(*review),
{
    let ghost defs = review.definitions@;
    let ghost steps = review.reading@;
    let mut changed: usize = 0;
    for i in 0..review.reading.len()
        invariant
            defs == review.definitions@,
            steps == review.reading@,
            changed == changed_count(defs, steps.subrange(0, i as int)),
            changed <= i,
    {
        assert(steps.subrange(0, i + 1).drop_last() =~= steps.subrange(0, i as int));
        match entry(review, review.reading[i].definition) {
            Some(d) => {
                if d.change.worth_reading() {
                    changed = changed + 1;
                }
            },
            None => {},
        }
    }
    assert(steps.subrange(0, steps.len() as int) =~= steps);
    let mut reached: usize = 0;
    for i in 0..review.definitions.len()
        invariant
            defs == review.definitions@,
            reached == reached_count(defs.subrange(0, i as int)),
            reached <= i,
    {
        assert(defs.subrange(0, i + 1).drop_last() =~= defs.subrange(0, i as int));
        if review.definitions[i].1.reached.is_some() {
            reached = reached + 1;
        }
    }
    assert(defs.subrange(0, defs.len() as int) =~= defs);
    let mut out = number(review.definitions.len());
    out.append(" definitions, ");
    out.append(number(review.reading.len()).as_str());
    out.append(" to read (");
    out.append(number(changed).as_str());
    out.append(" changed, ");
    out.append(number(reached).as_str());
    out.append(" reached)\n");
    out.append("+ new   - gone   ! type changed   ~ body   \" docs   . untouched\n");
    out.append("at most ");
    out.append(number(review.cost.peak_open).as_str());
    out.append(" held in mind at once, ");
    out.append(number(review.cost.taken_on_faith).as_str());
    out.append(" read early, ");
    out.append(number(review.cost.jumps).as_str());
    out.append(" jumps between files\n\n");
    let ghost head = out@;
    for i in 0..review.reading.len()
        invariant
            defs == review.definitions@,
            steps == review.reading@,
            out@ == head + steps_text(defs, steps.subrange(0, i as int)),
    {
        assert(steps.subrange(0, i + 1).drop_last() =~= steps.subrange(0, i as int));
        out.append(step_text(review, i).as_str());
    }
    assert(steps.subrange(0, steps.len() as int) =~= steps);
    let mut hiding: Vec<&Warning> = Vec::new();
    let mut weaker: Vec<&Warning> = Vec::new();
    for i in 0..review.warnings.len()
        invariant
            hiding@.map_values(|w: &Warning| *w) == of_impact(review.warnings@.subrange(0, i as int), true),
            weaker@.map_values(|w: &Warning| *w) == of_impact(review.warnings@.subrange(0, i as int), false),
    {
        let ghost ws = review.warnings@.subrange(0, i + 1);
        assert(ws.drop_last() =~= review.warnings@.subrange(0, i as int));
        let w = &review.warnings[i];
        let ghost h0 = hiding@;
        let ghost k0 = weaker@;
        if w.impact == Impact::Incomplete {
            hiding.push(w);
            assert(hiding@.map_values(|w: &Warning| *w) =~= h0.map_values(|w: &Warning| *w).push(*w));
        } else {
            weaker.push(w);
            assert(weaker@.map_values(|w: &Warning| *w) =~= k0.map_values(|w: &Warning| *w).push(*w));
        }
    }
    assert(review.warnings@.subrange(0, review.warnings@.len() as int) =~= review.warnings@);
    add_warnings(&mut out, &hiding, " things this review might not be showing:");
    add_warnings(&mut out, &weaker, " worked out a weaker way:");
    out
}

} // verus!
