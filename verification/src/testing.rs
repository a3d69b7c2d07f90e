//! Small values to build examples from: a definition in `money.ts`, a piece, a reference.

use crate::model::{Identity, Locator, Occurrence, Part, Parts, PartsView, Piece, Role, Span};
use crate::reference::{ExtractorId, Reference, Site, Target};
use crate::text::owned;
use vstd::prelude::*;

verus! {

/// The text given last for a part, if any was.
pub open spec fn text_for(parts: Seq<(Part, &str)>, part: Part) -> Option<Seq<char>>
    decreases parts.len(),
{
    if parts.len() == 0 {
        None
    } else if parts.last().0 == part {
        Some(parts.last().1@)
    } else {
        text_for(parts.drop_last(), part)
    }
}

/// `p` is a piece of `money.ts` holding `text`, on its first line, with no span to speak of.
pub open spec fn piece_of(p: Piece, text: Seq<char>) -> bool {
    &&& p.text@ == text
    &&& p.span == Span { start: 0, end: 0 }
    &&& p.line == 1
    &&& p.file@ == "money.ts"@
}

/// Each part given holds one piece with the text given last for it; the rest don't apply.
pub open spec fn parts_from(all: PartsView, parts: Seq<(Part, &str)>) -> bool {
    forall|p: Part| match text_for(parts, p) {
        Some(t) => #[trigger] all.slot(p) matches Some(ps) && ps.len() == 1 && piece_of(ps[0], t),
        None => all.slot(p) is None,
    }
}

proof fn lemma_slot_view(all: Parts, p: Part)
    ensures
        all@.slot(p) == crate::model::opt_pieces(all.slot(p)),
{
    match p {
        Part::Contract => {},
        Part::Body => {},
        Part::Docs => {},
    }
}

/// A piece of `money.ts` holding this text.
pub fn piece(text: &str) -> (r: Piece)
    ensures
        piece_of(r, text@),
{
    Piece { text: owned(text), span: Span { start: 0, end: 0 }, line: 1, file: owned("money.ts") }
}

/// A function named `name` in `money.ts`, at the root, with one piece for each part given.
/// A part given twice keeps the text given last.
pub fn occurrence(name: &str, parts: &[(Part, &str)]) -> (r: Occurrence)
    ensures
        r@.locator.scope == Seq::<Seq<char>>::empty(),
        r@.locator.name == name@,
        r.role == Role::Item,
        r.parent is None,
        r.kind@ == "function"@,
        r.file@ == "money.ts"@,
        r.contract_from_compiler is None,
        parts_from(r@.parts, parts@),
{
    let mut all = Parts::new();
    assert(parts@.subrange(0, 0) =~= Seq::<(Part, &str)>::empty());
    assert forall|p: Part| match text_for(parts@.subrange(0, 0), p) {
        Some(t) => #[trigger] all@.slot(p) matches Some(ps) && ps.len() == 1 && piece_of(ps[0], t),
        None => all@.slot(p) is None,
    } by {
        lemma_slot_view(all, p);
    }
    for i in 0..parts.len()
        invariant
            parts_from(all@, parts@.subrange(0, i as int)),
    {
        let ghost before = parts@.subrange(0, i as int);
        let ghost next = parts@.subrange(0, i + 1);
        assert(next.drop_last() =~= before);
        let (part, text) = parts[i];
        let ghost was = all;
        let one = piece(text);
        let ghost made = one;
        all.insert(part, vec![one]);
        assert forall|p: Part| match text_for(next, p) {
            Some(t) => #[trigger] all@.slot(p) matches Some(ps) && ps.len() == 1 && piece_of(ps[0], t),
            None => all@.slot(p) is None,
        } by {
            lemma_slot_view(all, p);
            lemma_slot_view(was, p);
            if p != part {
                assert(text_for(next, p) == text_for(before, p));
            } else {
                assert(all.slot(p) matches Some(v) && v@ =~= seq![made]);
            }
        }
    }
    assert(parts@.subrange(0, parts@.len() as int) =~= parts@);
    let scope: Vec<String> = Vec::new();
    let r = Occurrence {
        locator: Locator { scope, name: owned(name) },
        role: Role::Item,
        parent: None,
        kind: owned("function"),
        file: owned("money.ts"),
        parts: all,
        contract_from_compiler: None,
    };
    assert(r@.locator.scope =~= Seq::<Seq<char>>::empty());
    r
}

/// Where a mention was found in a part, by the TypeScript compiler.
fn site(part: Part) -> (r: Site)
    ensures
        r.part == part,
        r.span == (Span { start: 0, end: 0 }),
        r.extractor.0@ == "tsc"@,
{
    Site { part, span: Span { start: 0, end: 0 }, extractor: ExtractorId(owned("tsc")) }
}

/// A mention that is there in both snapshots, found in the given part.
pub fn reference(from: u32, to: u32, part: Part) -> (r: Reference)
    ensures
        r.from == Identity(from),
        r.to == Target::<Identity>::Known(Identity(to)),
        r.before@.len() == 1,
        r.after@.len() == 1,
        r.before@[0].part == part && r.after@[0].part == part,
        r.before@[0].span == (Span { start: 0, end: 0 }) && r.after@[0].span == (Span { start: 0, end: 0 }),
        r.before@[0].extractor.0@ == "tsc"@ && r.after@[0].extractor.0@ == "tsc"@,
{
    Reference { from: Identity(from), to: Target::Known(Identity(to)), before: vec![site(part)], after: vec![site(part)] }
}

} // verus!
