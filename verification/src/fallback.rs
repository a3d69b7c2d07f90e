//! Reads files no extractor claimed, one definition per file. Coarse on purpose, so nothing
//! in a review can go unmentioned.

use crate::matching::Extraction;
use crate::model::{Locator, Occurrence, OccurrenceView, Part, Parts, Piece, Role, Span};
use crate::text::{chars_of, owned, string_of, views};
use vstd::string::StringSliceAdditionalSpecFns;
use vstd::utf8::encode_utf8;
use vstd::prelude::*;

verus! {

/// A path cut at each `/`, every piece kept, empty ones too.
pub open spec fn slash_pieces(p: Seq<char>) -> Seq<Seq<char>>
    decreases p.len(),
{
    if p.len() == 0 {
        seq![Seq::empty()]
    } else {
        let before = slash_pieces(p.drop_last());
        if p.last() == '/' {
            before.push(Seq::empty())
        } else {
            before.update(before.len() - 1, before.last().push(p.last()))
        }
    }
}

/// Whether a piece of a path names something: it isn't empty and isn't `.`.
pub open spec fn names_something(piece: Seq<char>) -> bool {
    piece.len() > 0 && piece != seq!['.']
}

/// The pieces of a path that name something, in order.
pub open spec fn named_pieces(pieces: Seq<Seq<char>>) -> Seq<Seq<char>>
    decreases pieces.len(),
{
    if pieces.len() == 0 {
        Seq::empty()
    } else {
        let rest = named_pieces(pieces.drop_last());
        if names_something(pieces.last()) {
            rest.push(pieces.last())
        } else {
            rest
        }
    }
}

/// A relative path as the names it is made of: cut at each `/`, with empty pieces and `.`
/// left out.
pub open spec fn path_segments(p: Seq<char>) -> Seq<Seq<char>> {
    named_pieces(slash_pieces(p))
}

proof fn lemma_slash_pieces_len(p: Seq<char>)
    ensures
        slash_pieces(p).len() >= 1,
    decreases p.len(),
{
    if p.len() > 0 {
        lemma_slash_pieces_len(p.drop_last());
    }
}

/// A relative path as the names it is made of.
pub fn segments(path: &str) -> (r: Vec<String>)
    ensures
        views(r@) == path_segments(path@),
{
    let cs = chars_of(path);
    let mut done: Vec<String> = Vec::new();
    let mut current: Vec<char> = Vec::new();
    let ghost mut pieces: Seq<Seq<char>> = seq![Seq::empty()];
    for i in 0..cs.len()
        invariant
            cs@ == path@,
            pieces == slash_pieces(cs@.subrange(0, i as int)),
            pieces.len() >= 1,
            current@ == pieces.last(),
            views(done@) == named_pieces(pieces.drop_last()),
    {
        let ghost before = pieces;
        assert(cs@.subrange(0, i + 1).drop_last() =~= cs@.subrange(0, i as int));
        if cs[i] == '/' {
            let named = current.len() > 0 && !(current.len() == 1 && current[0] == '.');
            assert(named == names_something(current@)) by {
                if current@.len() == 1 && current@ == seq!['.'] {
                    assert(current@[0] == '.');
                }
                if current@.len() == 1 && current@[0] == '.' {
                    assert(current@ =~= seq!['.']);
                }
            }
            if named {
                let ghost d0 = views(done@);
                done.push(string_of(&current));
                assert(views(done@) =~= d0.push(current@));
            }
            current = Vec::new();
            proof {
                pieces = before.push(Seq::empty());
                assert(pieces.drop_last() =~= before);
            }
        } else {
            current.push(cs[i]);
            proof {
                pieces = before.update(before.len() - 1, before.last().push(cs@[i as int]));
                assert(pieces.drop_last() =~= before.drop_last());
            }
        }
    }
    assert(cs@.subrange(0, cs@.len() as int) =~= cs@);
    let named = current.len() > 0 && !(current.len() == 1 && current[0] == '.');
    assert(named == names_something(current@)) by {
        if current@.len() == 1 && current@[0] == '.' {
            assert(current@ =~= seq!['.']);
        }
    }
    if named {
        let ghost d0 = views(done@);
        done.push(string_of(&current));
        assert(views(done@) =~= d0.push(current@));
    }
    assert(pieces =~= pieces.drop_last().push(pieces.last()));
    done
}

/// Whether a path names a file: it has a last name, and that name isn't `..`.
pub open spec fn names_file(file: Seq<char>) -> bool {
    path_segments(file).len() > 0 && path_segments(file).last() != seq!['.', '.']
}

/// Whether an occurrence is the one a file reads as when no extractor claimed it: named
/// after the file, scoped by its directories, an item of kind "file", all of it body, in one
/// piece that starts on line one.
pub open spec fn whole_file_occurrence(o: Occurrence, file: Seq<char>, text: Seq<char>) -> bool {
    let segs = path_segments(file);
    &&& o.locator@.scope == segs.drop_last()
    &&& o.locator@.name == segs.last()
    &&& o.role == Role::Item
    &&& o.parent is None
    &&& o.kind@ == seq!['f', 'i', 'l', 'e']
    &&& o.file@ == file
    &&& o.parts.contract is None
    &&& o.parts.docs is None
    &&& o.contract_from_compiler is None
    &&& match o.parts.body {
        Some(ps) => ps@.len() == 1 && ps@[0].text@ == text && ps@[0].span == (Span { start: 0, end: encode_utf8(text).len() as u32 })
            && ps@[0].line == 1 && ps@[0].file@ == file,
        None => false,
    }
}

/// The one definition a file no extractor claimed reads as. A path naming no file gives
/// none.
pub fn occurrence(file: &str, text: &str) -> (r: Option<Occurrence>)
    ensures
        r is Some <==> names_file(file@),
        match r {
            Some(o) => whole_file_occurrence(o, file@, text@),
            None => true,
        },
{
    let segs = segments(file);
    let dots = "..";
    let kind = "file";
    proof {
        reveal_strlit("..");
        reveal_strlit("file");
        assert(dots@ =~= seq!['.', '.']);
        assert(kind@ =~= seq!['f', 'i', 'l', 'e']);
    }
    if segs.len() == 0 || crate::text::str_eq(segs[segs.len() - 1].as_str(), dots) {
        proof {
            if segs@.len() > 0 {
                assert(views(segs@).last() == segs@[segs@.len() - 1]@);
            }
        }
        return None;
    }
    assert(views(segs@).last() == segs@[segs@.len() - 1]@);
    let mut scope: Vec<String> = Vec::new();
    for k in 0..segs.len() - 1
        invariant
            segs@.len() > 0,
            scope@.len() == k,
            forall|j: int| 0 <= j < k ==> (#[trigger] scope@[j])@ == segs@[j]@,
    {
        scope.push(owned(segs[k].as_str()));
    }
    assert(views(scope@) =~= views(segs@).drop_last());
    let name = owned(segs[segs.len() - 1].as_str());
    let piece = Piece {
        text: owned(text),
        span: Span { start: 0, end: text.as_bytes().len() as u32 },
        line: 1,
        file: owned(file),
    };
    Some(
        Occurrence {
            locator: Locator { scope, name },
            role: Role::Item,
            parent: None,
            kind: owned(kind),
            file: owned(file),
            parts: Parts { contract: None, body: Some(vec![piece]), docs: None },
            contract_from_compiler: None,
        },
    )
}

/// The files that name a file, in order: those the fallback reads.
pub open spec fn named_files(files: Seq<(String, String)>) -> Seq<(String, String)>
    decreases files.len(),
{
    if files.len() == 0 {
        Seq::empty()
    } else {
        let rest = named_files(files.drop_last());
        if names_file(files.last().0@) {
            rest.push(files.last())
        } else {
            rest
        }
    }
}

/// The occurrences files no extractor claimed read as, each file with its text, in order:
/// one for each file that names a file, the others skipped. Files the caller couldn't
/// read as text are left out by the caller.
pub fn extract(files: &Vec<(String, String)>) -> (r: Extraction)
    ensures
        r.mentions@.len() == 0,
        r.occurrences@.len() == named_files(files@).len(),
        forall|i: int| 0 <= i < r.occurrences@.len() ==> whole_file_occurrence(
            #[trigger] r.occurrences@[i],
            named_files(files@)[i].0@,
            named_files(files@)[i].1@,
        ),
{
    let mut occurrences: Vec<Occurrence> = Vec::new();
    for i in 0..files.len()
        invariant
            occurrences@.len() == named_files(files@.take(i as int)).len(),
            forall|k: int| 0 <= k < occurrences@.len() ==> whole_file_occurrence(
                #[trigger] occurrences@[k],
                named_files(files@.take(i as int))[k].0@,
                named_files(files@.take(i as int))[k].1@,
            ),
    {
        let ghost upto = files@.take(i + 1);
        assert(upto.drop_last() =~= files@.take(i as int));
        assert(upto.last() == files@[i as int]);
        match occurrence(files[i].0.as_str(), files[i].1.as_str()) {
            Some(o) => {
                let ghost before = occurrences@;
                occurrences.push(o);
                assert forall|k: int| 0 <= k < occurrences@.len() implies whole_file_occurrence(
                    #[trigger] occurrences@[k],
                    named_files(upto)[k].0@,
                    named_files(upto)[k].1@,
                ) by {
                    if k == before.len() {
                        assert(occurrences@[k] == o);
                    } else {
                        assert(occurrences@[k] == before[k]);
                    }
                }
            },
            None => {},
        }
    }
    assert(files@.take(files@.len() as int) =~= files@);
    let r = Extraction { occurrences, mentions: Vec::new() };
    assert(r.occurrences@ == occurrences@);
    r
}

} // verus!
