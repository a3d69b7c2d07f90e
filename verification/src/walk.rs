//! What stepping through a review shows of one definition: its name, what it depends on
//! and which of those broke underneath it, and its text stitched back together.

use crate::model::{by_file, all_pieces, Identity, Occurrence, Piece};
use crate::review::{Definition, Review};
use crate::diff::{each_line, hunks_text, line_changes, painted, text_lines, unchanged_line, whole_line, Paint, BOLD, CONTEXT, DIM};
use crate::text::{chars_of, decimal, joined, number, owned, push_char, string_of, views};
use vstd::prelude::*;

verus! {

/// The part of a name after its last `::`, or all of it where there is none.
pub open spec fn short_spec(name: Seq<char>) -> Seq<char>
    decreases name.len(),
{
    if name.len() < 2 {
        name
    } else if name[name.len() - 2] == ':' && name[name.len() - 1] == ':' {
        Seq::empty()
    } else {
        short_spec(name.drop_last()).push(name.last())
    }
}

/// Just the name, since the module path is already on the line above.
pub fn short(name: &str) -> (r: String)
    ensures
        r@ == short_spec(name@),
{
    let chars = chars_of(name);
    let n = chars.len();
    let mut i = n;
    assert(chars@.subrange(0, n as int) =~= chars@);
    assert(chars@.subrange(n as int, n as int) =~= Seq::<char>::empty());
    while i >= 2 && !(chars[i - 2] == ':' && chars[i - 1] == ':')
        invariant
            i <= n == chars@.len(),
            chars@ == name@,
            short_spec(chars@) == short_spec(chars@.subrange(0, i as int)) + chars@.subrange(i as int, n as int),
        decreases i,
    {
        let ghost p = chars@.subrange(0, i as int);
        assert(p.drop_last() =~= chars@.subrange(0, i - 1));
        assert(chars@.subrange(i - 1, n as int) =~= seq![p.last()] + chars@.subrange(i as int, n as int));
        assert(short_spec(p) =~= short_spec(p.drop_last()).push(p.last()));
        i = i - 1;
    }
    proof {
        let p = chars@.subrange(0, i as int);
        if i >= 2 {
            assert(short_spec(p) == Seq::<char>::empty());
        } else {
            assert(short_spec(p) == p);
        }
    }
    let start = if i >= 2 { i } else { 0 };
    let mut kept: Vec<char> = Vec::new();
    let mut k = start;
    while k < n
        invariant
            start <= k <= n == chars@.len(),
            kept@ == chars@.subrange(start as int, k as int),
        decreases n - k,
    {
        kept.push(chars[k]);
        assert(chars@.subrange(start as int, k + 1) =~= chars@.subrange(start as int, k as int).push(chars@[k as int]));
        k = k + 1;
    }
    proof {
        if i < 2 {
            assert(chars@.subrange(0, i as int) + chars@.subrange(i as int, n as int) =~= chars@.subrange(0, n as int));
        }
    }
    string_of(&kept)
}

/// What a definition depends on, by the review's edges, in their order.
pub open spec fn depends_spec(edges: Seq<crate::review::Edge>, identity: Identity) -> Seq<Identity>
    decreases edges.len(),
{
    if edges.len() == 0 {
        Seq::empty()
    } else {
        depends_spec(edges.drop_last(), identity) + if edges.last().from == identity {
            seq![edges.last().to]
        } else {
            Seq::empty()
        }
    }
}

/// The entry of the review for an identity, if it has one: the first.
pub open spec fn entry_for(defs: Seq<(Identity, Definition)>, identity: Identity) -> Option<Definition>
    decreases defs.len(),
{
    if defs.len() == 0 {
        None
    } else if defs[0].0 == identity {
        Some(defs[0].1)
    } else {
        entry_for(defs.drop_first(), identity)
    }
}

/// The review's entry for an identity, if it has one.
pub fn entry<'a>(review: &'a Review, identity: Identity) -> (r: Option<&'a Definition>)
    ensures
        match r {
            Some(d) => entry_for(review.definitions@, identity) == Some(*d),
            None => entry_for(review.definitions@, identity) is None,
        },
{
    let defs = &review.definitions;
    let mut i: usize = 0;
    assert(defs@.subrange(0, defs@.len() as int) =~= defs@);
    while i < defs.len()
        invariant
            defs@ == review.definitions@,
            i <= defs@.len(),
            entry_for(defs@, identity) == entry_for(defs@.subrange(i as int, defs@.len() as int), identity),
        decreases defs@.len() - i,
    {
        let ghost rest = defs@.subrange(i as int, defs@.len() as int);
        assert(rest.drop_first() =~= defs@.subrange(i + 1, defs@.len() as int));
        assert(rest[0] == defs@[i as int]);
        if defs[i].0 == identity {
            return Some(&defs[i].1);
        }
        i = i + 1;
    }
    None
}

/// Uses the review's edges so a chain through something the reader never sees still counts.
pub fn depends_on(review: &Review, identity: Identity) -> (r: Vec<Identity>)
    ensures
        r@ == depends_spec(review.edges@, identity),
{
    let mut r: Vec<Identity> = Vec::new();
    for i in 0..review.edges.len()
        invariant
            r@ == depends_spec(review.edges@.subrange(0, i as int), identity),
    {
        assert(review.edges@.subrange(0, i + 1).drop_last() =~= review.edges@.subrange(0, i as int));
        if review.edges[i].from == identity {
            r.push(review.edges[i].to);
        }
    }
    assert(review.edges@.subrange(0, review.edges@.len() as int) =~= review.edges@);
    r
}

/// Those of some identities whose entry's change breaks callers, in order.
pub open spec fn breaking(defs: Seq<(Identity, Definition)>, ids: Seq<Identity>) -> Seq<Identity>
    decreases ids.len(),
{
    if ids.len() == 0 {
        Seq::empty()
    } else {
        breaking(defs, ids.drop_last()) + if entry_for(defs, ids.last()) matches Some(d) && d.change@.breaks_callers() {
            seq![ids.last()]
        } else {
            Seq::empty()
        }
    }
}

/// What broke underneath a definition is among what it depends on, in the same order:
/// the list of breaks is the list of dependencies with the rest left out.
pub proof fn lemma_broken_within(defs: Seq<(Identity, Definition)>, ids: Seq<Identity>)
    ensures
        forall|k: int| 0 <= k < breaking(defs, ids).len() ==> ids.contains(#[trigger] breaking(defs, ids)[k]),
        breaking(defs, ids).len() <= ids.len(),
        forall|k: int| 0 <= k < breaking(defs, ids).len() ==> (entry_for(defs, #[trigger] breaking(defs, ids)[k]) matches Some(d)
            && d.change@.breaks_callers()),
    decreases ids.len(),
{
    if ids.len() > 0 {
        lemma_broken_within(defs, ids.drop_last());
        let b = breaking(defs, ids);
        let b0 = breaking(defs, ids.drop_last());
        assert forall|k: int| 0 <= k < b.len() implies ids.contains(#[trigger] b[k]) by {
            if k < b0.len() {
                assert(b[k] == b0[k]);
                let x = choose|x: int| 0 <= x < ids.drop_last().len() && ids.drop_last()[x] == b0[k];
                assert(ids[x] == b0[k]);
            } else {
                assert(b[k] == ids.last());
                assert(ids[ids.len() - 1] == ids.last());
            }
        }
        assert forall|k: int| 0 <= k < b.len() implies (entry_for(defs, #[trigger] b[k]) matches Some(d) && d.change@.breaks_callers()) by {
            if k < b0.len() {
                assert(b[k] == b0[k]);
            }
        }
    }
}

/// Dependencies that changed shape underneath this one, which is the reason an unchanged
/// definition is worth reading at all.
pub fn broken_by(review: &Review, identity: Identity) -> (r: Vec<Identity>)
    ensures
        r@ == breaking(review.definitions@, depends_spec(review.edges@, identity)),
{
    let deps = depends_on(review, identity);
    let mut r: Vec<Identity> = Vec::new();
    for i in 0..deps.len()
        invariant
            r@ == breaking(review.definitions@, deps@.subrange(0, i as int)),
    {
        assert(deps@.subrange(0, i + 1).drop_last() =~= deps@.subrange(0, i as int));
        match entry(review, deps[i]) {
            Some(d) => {
                if d.change.breaks_callers() {
                    r.push(deps[i]);
                }
            },
            None => {},
        }
    }
    assert(deps@.subrange(0, deps@.len() as int) =~= deps@);
    r
}

/// A text with the line breaks at both ends taken off.
pub open spec fn trim_newlines(s: Seq<char>) -> Seq<char>
    decreases s.len(),
{
    if s.len() > 0 && s[0] == '\n' {
        trim_newlines(s.drop_first())
    } else if s.len() > 0 && s.last() == '\n' {
        trim_newlines(s.drop_last())
    } else {
        s
    }
}

/// The texts of some pieces, trimmed of line breaks at both ends, the empty ones left out.
pub open spec fn piece_texts(ps: Seq<Piece>) -> Seq<Seq<char>>
    decreases ps.len(),
{
    if ps.len() == 0 {
        Seq::empty()
    } else {
        let t = trim_newlines(ps.last().text@);
        piece_texts(ps.drop_last()) + if t.len() > 0 { seq![t] } else { Seq::empty() }
    }
}

/// An occurrence's text as a reader sees it: its pieces in file order, each trimmed of the
/// line breaks at its ends, the empty ones left out, a line break between each.
pub open spec fn stitched_spec(o: Occurrence) -> Seq<char> {
    let order = choose|order: Seq<usize>| #[trigger] by_file(all_pieces(o@), order);
    joined(piece_texts(order.map_values(|k: usize| all_pieces(o@)[k as int])), seq!['\n'])
}

/// A text with the line breaks at both ends taken off.
fn trim_newlines_exec(s: &str) -> (r: String)
    ensures
        r@ == trim_newlines(s@),
{
    let chars = chars_of(s);
    let mut a: usize = 0;
    let mut b: usize = chars.len();
    assert(chars@.subrange(0, b as int) =~= chars@);
    while a < b && (chars[a] == '\n' || chars[b - 1] == '\n')
        invariant
            a <= b <= chars@.len(),
            trim_newlines(s@) == trim_newlines(chars@.subrange(a as int, b as int)),
            chars@ == s@,
        decreases b - a,
    {
        let ghost cur = chars@.subrange(a as int, b as int);
        if chars[a] == '\n' {
            assert(cur.drop_first() =~= chars@.subrange(a + 1, b as int));
            a = a + 1;
        } else {
            assert(cur.drop_last() =~= chars@.subrange(a as int, b - 1));
            b = b - 1;
        }
    }
    let mut kept: Vec<char> = Vec::new();
    let mut k = a;
    while k < b
        invariant
            a <= k <= b <= chars@.len(),
            kept@ == chars@.subrange(a as int, k as int),
        decreases b - k,
    {
        kept.push(chars[k]);
        assert(chars@.subrange(a as int, k + 1) =~= chars@.subrange(a as int, k as int).push(chars@[k as int]));
        k = k + 1;
    }
    string_of(&kept)
}

/// Pieces in file order. The split into parts is for deciding what breaks callers, not
/// for showing people.
pub fn stitched(occurrence: Option<&Occurrence>) -> (r: Option<String>)
    ensures
        match occurrence {
            Some(o) => r matches Some(s) && s@ == stitched_spec(*o),
            None => r is None,
        },
{
    let occurrence = match occurrence {
        Some(o) => o,
        None => return None,
    };
    let ps = occurrence.pieces();
    let ghost order = choose|order: Seq<usize>| #[trigger] by_file(all_pieces(occurrence@), order) && ps@ == order.map_values(
        |k: usize| all_pieces(occurrence@)[k as int],
    );
    proof {
        crate::model::lemma_by_file_unique(all_pieces(occurrence@), order, choose|o2: Seq<usize>| #[trigger] by_file(all_pieces(occurrence@), o2));
    }
    let mut texts: Vec<String> = Vec::new();
    for i in 0..ps.len()
        invariant
            views(texts@) == piece_texts(ps@.subrange(0, i as int)),
    {
        assert(ps@.subrange(0, i + 1).drop_last() =~= ps@.subrange(0, i as int));
        let t = trim_newlines_exec(ps[i].text.as_str());
        if t.as_str().is_empty() == false {
            let ghost was = texts@;
            texts.push(t);
            assert(views(texts@) =~= views(was).push(t@));
        } else {
            assert(t@.len() == 0);
        }
    }
    assert(ps@.subrange(0, ps@.len() as int) =~= ps@);
    let r = crate::text::join(&texts, "\n");
    proof {
        reveal_strlit("\n");
        assert("\n"@ =~= seq!['\n']);
    }
    Some(r)
}

/// An entry of a list, marked when it hasn't been read yet.
pub open spec fn listed_name(n: (Seq<char>, bool)) -> Seq<char> {
    if n.1 { n.0 + " (not yet read)"@ } else { n.0 }
}

/// Long lists stop being read, so only the first six are written, then how many more
/// there are.
pub open spec fn listed_spec(names: Seq<(Seq<char>, bool)>) -> Seq<char> {
    let shown = if names.len() <= 6 { names } else { names.subrange(0, 6) };
    let written = joined(shown.map_values(|n: (Seq<char>, bool)| listed_name(n)), ", "@);
    if names.len() <= 6 { written } else { written + ", and "@ + crate::text::decimal((names.len() - 6) as nat) + " more"@ }
}

/// Long lists stop being read, so they're capped. Unread entries are marked since those
/// are the ones the reader can't check.
pub fn listed(names: &Vec<(String, bool)>) -> (r: String)
    ensures
        r@ == listed_spec(names@.map_values(|n: (String, bool)| (n.0@, n.1))),
{
    let ghost all = names@.map_values(|n: (String, bool)| (n.0@, n.1));
    let count = if names.len() <= 6 { names.len() } else { 6 };
    let mut written: Vec<String> = Vec::new();
    for i in 0..count
        invariant
            count <= names@.len(),
            all == names@.map_values(|n: (String, bool)| (n.0@, n.1)),
            views(written@) == all.subrange(0, i as int).map_values(|n: (Seq<char>, bool)| listed_name(n)),
    {
        let mut one = names[i].0.clone();
        if names[i].1 {
            one.append(" (not yet read)");
        }
        let ghost was = written@;
        assert(all[i as int] == (names@[i as int].0@, names@[i as int].1));
        assert(one@ == listed_name(all[i as int]));
        written.push(one);
        assert(views(written@) =~= views(was).push(one@));
        assert(all.subrange(0, i + 1) =~= all.subrange(0, i as int).push(all[i as int]));
        assert(views(written@) =~= all.subrange(0, i + 1).map_values(|n: (Seq<char>, bool)| listed_name(n)));
    }
    let mut r = crate::text::join(&written, ", ");
    if names.len() > 6 {
        assert(all.subrange(0, 6) =~= all.subrange(0, count as int));
        r.append(", and ");
        r.append(crate::text::number(names.len() - 6).as_str());
        r.append(" more");
    } else {
        assert(all.subrange(0, count as int) =~= all);
    }
    r
}

// ---------------------------------------------------------------------------------------
// One step, as the walk shows it.

/// What a definition shows of its text: nothing where it has none on either side, the
/// text as it stands where it didn't change, and otherwise the change.
pub open spec fn parts_spec(d: Definition, on: bool) -> Seq<char> {
    let before = match d.sides.before_spec() {
        Some(o) => Some(stitched_spec(o)),
        None => None,
    };
    let after = match d.sides.after_spec() {
        Some(o) => Some(stitched_spec(o)),
        None => None,
    };
    match (before, after) {
        (None, None) => Seq::empty(),
        (Some(b), Some(a)) => if b == a {
            each_line(text_lines(a), |l: Seq<char>| unchanged_line(on, l))
        } else {
            hunks_text(on, line_changes(b, a, CONTEXT))
        },
        (None, Some(a)) => each_line(text_lines(a), |l: Seq<char>| whole_line(on, '+', l)),
        (Some(b), None) => each_line(text_lines(b), |l: Seq<char>| whole_line(on, '-', l)),
    }
}

/// What a definition shows of its text.
pub fn parts_text(d: &Definition, paint: &Paint) -> (r: String)
    ensures
        r@ == parts_spec(*d, paint.is_on()),
{
    let before = stitched(d.sides.before());
    let after = stitched(d.sides.after());
    match (before, after) {
        (None, None) => String::new(),
        (Some(b), Some(a)) => {
            if crate::text::str_eq(b.as_str(), a.as_str()) {
                crate::diff::render_unchanged(a.as_str(), paint)
            } else {
                crate::diff::render(b.as_str(), a.as_str(), paint)
            }
        },
        (None, Some(a)) => crate::diff::render_whole(a.as_str(), '+', paint),
        (Some(b), None) => crate::diff::render_whole(b.as_str(), '-', paint),
    }
}

/// Some dependencies as the walk lists them: those the review has an entry for, by the
/// end of their name, each marked where the step reads it before it.
pub open spec fn walk_names(defs: Seq<(Identity, Definition)>, ids: Seq<Identity>, unread: Seq<Identity>) -> Seq<(Seq<char>, bool)>
    decreases ids.len(),
{
    if ids.len() == 0 {
        Seq::empty()
    } else {
        walk_names(defs, ids.drop_last(), unread) + match entry_for(defs, ids.last()) {
            Some(d) => seq![(short_spec(crate::report::name_spec(d)), unread.contains(ids.last()))],
            None => Seq::empty(),
        }
    }
}

/// A labelled list line, or nothing where the list is empty.
pub open spec fn walk_line(on: bool, label: Seq<char>, names: Seq<(Seq<char>, bool)>) -> Seq<char> {
    if names.len() == 0 {
        Seq::empty()
    } else {
        "  "@ + painted(on, DIM@, label) + " "@ + painted(on, BOLD@, listed_spec(names)) + "\n"@
    }
}

/// Those of some identities that aren't in a list, in order.
pub open spec fn left_out(ids: Seq<Identity>, out: Seq<Identity>) -> Seq<Identity>
    decreases ids.len(),
{
    if ids.len() == 0 {
        Seq::empty()
    } else {
        left_out(ids.drop_last(), out) + if out.contains(ids.last()) { Seq::empty() } else { seq![ids.last()] }
    }
}

/// The first line the walk shows of a step: where it is in the reading, its mark, its
/// name and its file.
pub open spec fn header_spec(d: Definition, place: int, count: nat, on: bool) -> Seq<char> {
    "\n"@ + painted(on, DIM@, decimal((place + 1) as nat) + "/"@ + decimal(count)) + " "@ + seq![d.mark.glyph_spec(), ' ']
        + painted(on, BOLD@, crate::report::name_spec(d)) + "  "@ + painted(on, DIM@, d.sides@.latest().file) + "\n"@
}

fn header(d: &Definition, place: usize, count: usize, paint: &Paint) -> (r: String)
    requires
        place < count,
    ensures
        r@ == header_spec(*d, place as int, count as nat, paint.is_on()),
{
    let mut counter = number(place + 1);
    counter.append("/");
    counter.append(number(count).as_str());
    let mut out = owned("\n");
    out.append(paint.wrap(DIM, counter.as_str()).as_str());
    out.append(" ");
    push_char(&mut out, d.mark.glyph());
    push_char(&mut out, ' ');
    out.append(paint.wrap(BOLD, crate::report::name(d).as_str()).as_str());
    out.append("  ");
    out.append(paint.wrap(DIM, d.sides.latest().file.as_str()).as_str());
    out.append("\n");
    out
}

/// How the walk shows the step at `place`: where it is in the reading, its mark, name and
/// file, what broke underneath it and what else it depends on, then its text.
pub open spec fn shown_spec(review: Review, place: int, on: bool) -> Seq<char> {
    let defs = review.definitions@;
    let step = review.reading@[place];
    match entry_for(defs, step.definition) {
        None => Seq::empty(),
        Some(d) => {
            let deps = depends_spec(review.edges@, step.definition);
            let blamed = breaking(defs, deps);
            let unread = step.on_faith@;
            let text = parts_spec(d, on);
            header_spec(d, place, review.reading@.len(), on) + walk_line(on, "broken by:"@, walk_names(defs, blamed, unread)) + walk_line(
                on,
                "depends on:"@,
                walk_names(defs, left_out(deps, blamed), unread),
            ) + if text.len() == 0 { Seq::empty() } else { "\n"@ + text }
        },
    }
}

/// Some dependencies as the walk lists them.
fn walk_names_exec(review: &Review, ids: &Vec<Identity>, unread: &Vec<Identity>) -> (r: Vec<(String, bool)>)
    ensures
        r@.map_values(|n: (String, bool)| (n.0@, n.1)) == walk_names(review.definitions@, ids@, unread@),
{
    let mut r: Vec<(String, bool)> = Vec::new();
    for i in 0..ids.len()
        invariant
            r@.map_values(|n: (String, bool)| (n.0@, n.1)) == walk_names(review.definitions@, ids@.subrange(0, i as int), unread@),
    {
        assert(ids@.subrange(0, i + 1).drop_last() =~= ids@.subrange(0, i as int));
        assert(ids@.subrange(0, i + 1).last() == ids@[i as int]);
        let ghost was = r@;
        match entry(review, ids[i]) {
            Some(d) => {
                let mut seen = false;
                for k in 0..unread.len()
                    invariant
                        i < ids@.len(),
                        seen == exists|j: int| 0 <= j < k && unread@[j] == ids@[i as int],
                {
                    if unread[k] == ids[i] {
                        seen = true;
                    }
                }
                proof {
                    if unread@.contains(ids@[i as int]) {
                        let j = choose|j: int| 0 <= j < unread@.len() && unread@[j] == ids@[i as int];
                    }
                }
                let one = short(crate::report::name(d).as_str());
                r.push((one, seen));
                assert(r@.map_values(|n: (String, bool)| (n.0@, n.1)) =~= was.map_values(|n: (String, bool)| (n.0@, n.1)).push(
                    (r@[was.len() as int].0@, seen),
                ));
            },
            None => {},
        }
    }
    assert(ids@.subrange(0, ids@.len() as int) =~= ids@);
    r
}

/// Those of some identities that aren't in a list.
fn left_out_exec(ids: &Vec<Identity>, out: &Vec<Identity>) -> (r: Vec<Identity>)
    ensures
        r@ == left_out(ids@, out@),
{
    let mut r: Vec<Identity> = Vec::new();
    for i in 0..ids.len()
        invariant
            r@ == left_out(ids@.subrange(0, i as int), out@),
    {
        assert(ids@.subrange(0, i + 1).drop_last() =~= ids@.subrange(0, i as int));
        let mut found = false;
        for k in 0..out.len()
            invariant
                i < ids@.len(),
                found == exists|j: int| 0 <= j < k && out@[j] == ids@[i as int],
        {
            if out[k] == ids[i] {
                found = true;
            }
        }
        proof {
            if out@.contains(ids@[i as int]) {
                let j = choose|j: int| 0 <= j < out@.len() && out@[j] == ids@[i as int];
            }
        }
        if !found {
            r.push(ids[i]);
        }
    }
    assert(ids@.subrange(0, ids@.len() as int) =~= ids@);
    r
}

/// A labelled list line, or nothing where the list is empty.
fn walk_line_exec(paint: &Paint, label: &str, names: &Vec<(String, bool)>) -> (r: String)
    ensures
        r@ == walk_line(paint.is_on(), label@, names@.map_values(|n: (String, bool)| (n.0@, n.1))),
{
    if names.len() == 0 {
        return String::new();
    }
    let mut r = owned("  ");
    r.append(paint.wrap(DIM, label).as_str());
    r.append(" ");
    r.append(paint.wrap(BOLD, listed(names).as_str()).as_str());
    r.append("\n");
    r
}

/// How the walk shows one step of the reading, or nothing for a step the review has no
/// entry for.
pub fn shown(review: &Review, place: usize, paint: &Paint) -> (r: String)
    requires
        place < review.reading@.len(),
    ensures
        r@ == shown_spec(*review, place as int, paint.is_on()),
{
    let step = &review.reading[place];
    match entry(review, step.definition) {
        None => String::new(),
        Some(d) => {
            let mut out = header(d, place, review.reading.len(), paint);
            let deps = depends_on(review, step.definition);
            let blamed = broken_by(review, step.definition);
            let broken = walk_names_exec(review, &blamed, &step.on_faith);
            out.append(walk_line_exec(paint, "broken by:", &broken).as_str());
            let rest_ids = left_out_exec(&deps, &blamed);
            let rest = walk_names_exec(review, &rest_ids, &step.on_faith);
            out.append(walk_line_exec(paint, "depends on:", &rest).as_str());
            let text = parts_text(d, paint);
            if !text.as_str().is_empty() {
                out.append("\n");
                out.append(text.as_str());
            }
            out
        },
    }
}

} // verus!
