//! The review as markdown, for an agent or a pull request description. The reading order
//! with what each step depends on and its diff, so a reader with no page still gets the
//! story in the order it should be read.

use crate::change::{all_marks, Mark};
use crate::diff::{each_line, text_lines, Paint};
use crate::model::{Identity, Occurrence};
use crate::order::Step;
use crate::report::{name, name_spec};
use crate::review::{Definition, Review, Warning};
use crate::text::{decimal, joined, number, owned, push_char, views};
use crate::walk::{breaking, broken_by, depends_on, depends_spec, entry, entry_for, short, short_spec, stitched, stitched_spec};
use vstd::prelude::*;

verus! {

/// What a dependency is called in a list: the end of its name, or `?` where the review
/// has no entry for it.
pub open spec fn called(defs: Seq<(Identity, Definition)>, id: Identity) -> Seq<char> {
    match entry_for(defs, id) {
        Some(d) => short_spec(name_spec(d)),
        None => "?"@,
    }
}

/// What some dependencies are called.
pub open spec fn called_all(defs: Seq<(Identity, Definition)>, ids: Seq<Identity>) -> Seq<Seq<char>> {
    ids.map_values(|id: Identity| called(defs, id))
}

/// Those of some identities that aren't in a list, in order.
pub open spec fn not_in(ids: Seq<Identity>, out: Seq<Identity>) -> Seq<Identity>
    decreases ids.len(),
{
    if ids.len() == 0 {
        Seq::empty()
    } else {
        not_in(ids.drop_last(), out) + if out.contains(ids.last()) { Seq::empty() } else { seq![ids.last()] }
    }
}

/// A list under a heading, or nothing where it is empty.
pub open spec fn list_line(heading: Seq<char>, items: Seq<Seq<char>>) -> Seq<char> {
    if items.len() == 0 { Seq::empty() } else { heading + joined(items, ", "@) + ".\n\n"@ }
}

/// A line without the two spaces the terminal indents with.
pub open spec fn unindented(l: Seq<char>) -> Seq<char> {
    if l.len() >= 2 && l[0] == ' ' && l[1] == ' ' { l.subrange(2, l.len() as int) } else { l }
}

/// A definition's text in a `diff` fence, or nothing where it has none to show.
pub open spec fn fence_spec(body: Seq<char>) -> Seq<char> {
    if body.len() == 0 {
        Seq::empty()
    } else {
        "```diff\n"@ + each_line(text_lines(body), |l: Seq<char>| unindented(l) + "\n"@) + "```\n\n"@
    }
}

/// The section for the step in `place`.
pub open spec fn section(review: Review, step: Step, place: int) -> Seq<char> {
    let defs = review.definitions@;
    match entry_for(defs, step.definition) {
        None => Seq::empty(),
        Some(d) => {
            let deps = depends_spec(review.edges@, step.definition);
            let broken = breaking(defs, deps);
            "## "@ + decimal(place as nat) + ". "@ + seq![d.mark.glyph_spec(), ' '] + name_spec(d) + " `"@
                + d.sides@.latest().file + "`\n\n"@ + list_line(
                "Depends on contracts that changed: "@,
                called_all(defs, broken),
            ) + list_line("Depends on: "@, called_all(defs, not_in(deps, broken))) + list_line(
                "Taken on faith (a cycle): "@,
                called_all(defs, step.on_faith@),
            ) + fence_spec(crate::walk::parts_spec(d, false))
        },
    }
}

/// The sections of the reading, in order.
pub open spec fn sections(review: Review, steps: Seq<Step>) -> Seq<char>
    decreases steps.len(),
{
    if steps.len() == 0 {
        Seq::empty()
    } else {
        sections(review, steps.drop_last()) + section(review, steps.last(), steps.len() as int)
    }
}

/// Warnings a line each, as a markdown list.
pub open spec fn warning_items(ws: Seq<Warning>) -> Seq<char>
    decreases ws.len(),
{
    if ws.len() == 0 {
        Seq::empty()
    } else {
        warning_items(ws.drop_last()) + "- "@ + ws.last().message@ + "\n"@
    }
}

/// The review as markdown.
pub open spec fn markdown(review: Review) -> Seq<char> {
    let title = match review.title {
        Some(t) => t@,
        None => "Review"@,
    };
    "# "@ + title + "\n\n"@ + decimal(review.reading@.len()) + " definitions to read, in the order below. Marks: "@ + joined(
        all_marks().map_values(|m: Mark| m.entry()),
        ", "@,
    ) + ".\n\n"@ + sections(review, review.reading@) + if review.warnings@.len() == 0 {
        Seq::empty()
    } else {
        "## Warnings\n\n"@ + warning_items(review.warnings@)
    }
}

/// What a dependency is called in a list.
fn called_exec(review: &Review, id: Identity) -> (r: String)
    ensures
        r@ == called(review.definitions@, id),
{
    match entry(review, id) {
        Some(d) => short(name(d).as_str()),
        None => owned("?"),
    }
}

/// A list under a heading, or nothing where it is empty.
fn list_exec(review: &Review, heading: &str, ids: &Vec<Identity>) -> (r: String)
    ensures
        r@ == list_line(heading@, called_all(review.definitions@, ids@)),
{
    if ids.len() == 0 {
        return String::new();
    }
    let mut names: Vec<String> = Vec::new();
    for i in 0..ids.len()
        invariant
            views(names@) == called_all(review.definitions@, ids@.subrange(0, i as int)),
    {
        let ghost was = names@;
        names.push(called_exec(review, ids[i]));
        assert(views(names@) =~= views(was).push(called(review.definitions@, ids@[i as int])));
        assert(called_all(review.definitions@, ids@.subrange(0, i + 1)) =~= called_all(review.definitions@, ids@.subrange(0, i as int)).push(
            called(review.definitions@, ids@[i as int]),
        ));
    }
    assert(ids@.subrange(0, ids@.len() as int) =~= ids@);
    let mut r = owned(heading);
    r.append(crate::text::join(&names, ", ").as_str());
    r.append(".\n\n");
    r
}

/// Those of some identities that aren't in a list.
fn not_in_exec(ids: &Vec<Identity>, out: &Vec<Identity>) -> (r: Vec<Identity>)
    ensures
        r@ == not_in(ids@, out@),
{
    let mut r: Vec<Identity> = Vec::new();
    for i in 0..ids.len()
        invariant
            r@ == not_in(ids@.subrange(0, i as int), out@),
    {
        assert(ids@.subrange(0, i + 1).drop_last() =~= ids@.subrange(0, i as int));
        let mut found = false;
        for k in 0..out.len()
            invariant
                i < ids@.len(),
                found == exists|j: int| 0 <= j < k && out@[j] == ids@[i as int],
        {
            if out[k] == ids[i] {
                found = true;
            }
        }
        if !found {
            r.push(ids[i]);
        } else {
            proof {
                let j = choose|j: int| 0 <= j < out@.len() && out@[j] == ids@[i as int];
                assert(out@.contains(ids@[i as int]));
            }
        }
    }
    assert(ids@.subrange(0, ids@.len() as int) =~= ids@);
    r
}

/// A line without the two spaces the terminal indents with.
fn unindent(l: &str) -> (r: String)
    ensures
        r@ == unindented(l@),
{
    let chars = crate::text::chars_of(l);
    if chars.len() >= 2 && chars[0] == ' ' && chars[1] == ' ' {
        let mut kept: Vec<char> = Vec::new();
        for k in 2..chars.len()
            invariant
                2 <= chars@.len(),
                kept@ == chars@.subrange(2, k as int),
        {
            kept.push(chars[k]);
            assert(chars@.subrange(2, k + 1) =~= chars@.subrange(2, k as int).push(chars@[k as int]));
        }
        crate::text::string_of(&kept)
    } else {
        owned(l)
    }
}

/// A definition's text in a `diff` fence, or nothing where it has none to show.
fn fence(body: &str) -> (r: String)
    ensures
        r@ == fence_spec(body@),
{
    if body.is_empty() {
        return String::new();
    }
    let ls = crate::diff::lines(body);
    let ghost f = |l: Seq<char>| unindented(l) + "\n"@;
    let mut out = owned("```diff\n");
    let ghost head = out@;
    for i in 0..ls.len()
        invariant
            forall|l: Seq<char>| #[trigger] f(l) == unindented(l) + "\n"@,
            out@ == head + each_line(views(ls@).subrange(0, i as int), f),
    {
        let ghost start = out@;
        assert(views(ls@).subrange(0, i + 1).drop_last() =~= views(ls@).subrange(0, i as int));
        assert(views(ls@).subrange(0, i + 1).last() == ls@[i as int]@);
        out.append(unindent(ls[i].as_str()).as_str());
        out.append("\n");
        assert(out@ =~= start + f(ls@[i as int]@));
    }
    assert(views(ls@).subrange(0, ls@.len() as int) =~= views(ls@));
    out.append("```\n\n");
    out
}

/// The section for one step.
fn section_exec(review: &Review, i: usize) -> (r: String)
    requires
        i < review.reading@.len(),
    ensures
        r@ == section(*review, review.reading@[i as int], i + 1),
{
    let step = &review.reading[i];
    match entry(review, step.definition) {
        None => String::new(),
        Some(d) => {
            assert(i < review.reading.len());
            let mut out = owned("## ");
            out.append(number(i + 1).as_str());
            out.append(". ");
            push_char(&mut out, d.mark.glyph());
            push_char(&mut out, ' ');
            out.append(name(d).as_str());
            out.append(" `");
            out.append(d.sides.latest().file.as_str());
            out.append("`\n\n");
            let deps = depends_on(review, step.definition);
            let broken = broken_by(review, step.definition);
            out.append(list_exec(review, "Depends on contracts that changed: ", &broken).as_str());
            let rest = not_in_exec(&deps, &broken);
            out.append(list_exec(review, "Depends on: ", &rest).as_str());
            out.append(list_exec(review, "Taken on faith (a cycle): ", &step.on_faith).as_str());
            let plain = Paint::new(false, false);
            let body = crate::walk::parts_text(d, &plain);
            out.append(fence(body.as_str()).as_str());
            out
        },
    }
}

/// The review as markdown: the reading order with what each step depends on and its
/// diff, then the warnings.
pub fn render(review: &Review) -> (r: String)
    ensures
        r@ == markdown(*review),
{
    let mut out = owned("# ");
    match &review.title {
        Some(t) => out.append(t.as_str()),
        None => out.append("Review"),
    }
    out.append("\n\n");
    out.append(number(review.reading.len()).as_str());
    out.append(" definitions to read, in the order below. Marks: ");
    out.append(Mark::legend(", ").as_str());
    out.append(".\n\n");
    let ghost head = out@;
    for i in 0..review.reading.len()
        invariant
            out@ == head + sections(*review, review.reading@.subrange(0, i as int)),
    {
        assert(review.reading@.subrange(0, i + 1).drop_last() =~= review.reading@.subrange(0, i as int));
        out.append(section_exec(review, i).as_str());
    }
    assert(review.reading@.subrange(0, review.reading@.len() as int) =~= review.reading@);
    if review.warnings.len() > 0 {
        out.append("## Warnings\n\n");
        let ghost top = out@;
        for i in 0..review.warnings.len()
            invariant
                out@ == top + warning_items(review.warnings@.subrange(0, i as int)),
        {
            assert(review.warnings@.subrange(0, i + 1).drop_last() =~= review.warnings@.subrange(0, i as int));
            out.append("- ");
            out.append(review.warnings[i].message.as_str());
            out.append("\n");
        }
        assert(review.warnings@.subrange(0, review.warnings@.len() as int) =~= review.warnings@);
    }
    out
}

} // verus!
