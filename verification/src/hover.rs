//! The declaration out of a language server's hover: the last fenced block before the
//! `---` rule. Past the rule is documentation, whose code examples are fenced too, and
//! editing an example must not read as breaking every caller.

use crate::diff::{lines, text_lines};
use crate::text::{chars_of, join, joined, string_of, views};
use vstd::prelude::*;

verus! {

/// The rule that ends a hover's declaration and starts its documentation.
pub open spec fn rule() -> Seq<char> {
    seq!['\n', '-', '-', '-']
}

/// What opens or closes a fenced block.
pub open spec fn fence() -> Seq<char> {
    seq!['`', '`', '`']
}

/// Whether `p` sits in `s` at `i`.
pub open spec fn has_at(s: Seq<char>, i: int, p: Seq<char>) -> bool {
    0 <= i && i + p.len() <= s.len() && s.subrange(i, i + p.len()) == p
}

/// Whether `i` is where the rule first appears.
pub open spec fn first_rule(m: Seq<char>, i: int) -> bool {
    has_at(m, i, rule()) && forall|j: int| 0 <= j < i ==> !has_at(m, j, rule())
}

/// Everything before the first rule, or everything when there is none.
pub open spec fn declaration(m: Seq<char>) -> Seq<char> {
    if exists|i: int| first_rule(m, i) {
        m.subrange(0, choose|i: int| first_rule(m, i))
    } else {
        m
    }
}

/// The blocks closed so far, and the lines of the one open, if one is.
pub struct Scan {
    pub blocks: Seq<Seq<char>>,
    pub open: Option<Seq<Seq<char>>>,
}

/// Whether a fence opens a block: any does when no language is asked for, else only one
/// marked with that language.
pub open spec fn opens(marked: Seq<char>, language: Option<Seq<char>>) -> bool {
    match language {
        None => true,
        Some(w) => has_at(marked, 0, w),
    }
}

/// One line read: a fence opens a block or closes the open one, and any other line inside
/// a block belongs to it.
pub open spec fn step(s: Scan, line: Seq<char>, language: Option<Seq<char>>) -> Scan {
    let fenced = has_at(line, 0, fence());
    match s.open {
        None => if fenced && opens(line.skip(3), language) {
            Scan { blocks: s.blocks, open: Some(Seq::empty()) }
        } else {
            s
        },
        Some(code) => if fenced {
            Scan { blocks: s.blocks.push(joined(code, seq!['\n'])), open: None }
        } else {
            Scan { blocks: s.blocks, open: Some(code.push(line)) }
        },
    }
}

/// The lines read in order.
pub open spec fn scan(ls: Seq<Seq<char>>, language: Option<Seq<char>>) -> Scan
    decreases ls.len(),
{
    if ls.len() == 0 {
        Scan { blocks: Seq::empty(), open: None }
    } else {
        step(scan(ls.drop_last(), language), ls.last(), language)
    }
}

/// The last block with anything in it.
pub open spec fn last_filled(blocks: Seq<Seq<char>>) -> Option<Seq<char>>
    decreases blocks.len(),
{
    if blocks.len() == 0 {
        None
    } else if blocks.last().len() > 0 {
        Some(blocks.last())
    } else {
        last_filled(blocks.drop_last())
    }
}

/// The declaration a hover's markdown gives, if it fences one.
pub open spec fn fenced_spec(markdown: Option<Seq<char>>, language: Option<Seq<char>>) -> Option<Seq<char>> {
    match markdown {
        None => None,
        Some(m) => last_filled(scan(text_lines(declaration(m)), language).blocks),
    }
}

/// The characters of a text that may be missing.
pub open spec fn opt_text(t: Option<&str>) -> Option<Seq<char>> {
    match t {
        Some(t) => Some(t@),
        None => None,
    }
}

/// Whether `p` sits in `s` at `i`.
fn has_at_exec(s: &Vec<char>, i: usize, p: &Vec<char>) -> (r: bool)
    ensures
        r == has_at(s@, i as int, p@),
{
    if i > s.len() || p.len() > s.len() - i {
        return false;
    }
    let end = i + p.len();
    for k in 0..p.len()
        invariant
            i + p@.len() <= s@.len(),
            end == i + p@.len(),
            forall|j: int| 0 <= j < k ==> s@[i + j] == p@[j],
    {
        let at = i + k;
        if s[at] != p[k] {
            assert(s@.subrange(i as int, i + p@.len())[k as int] != p@[k as int]);
            return false;
        }
    }
    assert(s@.subrange(i as int, i + p@.len()) =~= p@);
    true
}

/// Everything before the first rule.
fn declaration_of(m: &str) -> (r: String)
    ensures
        r@ == declaration(m@),
{
    let cs = chars_of(m);
    let rule_chars = vec!['\n', '-', '-', '-'];
    assert(rule_chars@ =~= rule());
    let mut i: usize = 0;
    while i < cs.len()
        invariant
            cs@ == m@,
            rule_chars@ == rule(),
            i <= cs@.len(),
            forall|j: int| 0 <= j < i ==> !has_at(m@, j, rule()),
        decreases cs@.len() - i,
    {
        if has_at_exec(&cs, i, &rule_chars) {
            assert(first_rule(m@, i as int));
            let mut head: Vec<char> = Vec::new();
            for k in 0..i
                invariant
                    cs@ == m@,
                    i <= cs@.len(),
                    head@ == cs@.subrange(0, k as int),
            {
                head.push(cs[k]);
                assert(head@ =~= cs@.subrange(0, k + 1));
            }
            return string_of(&head);
        }
        i = i + 1;
    }
    assert(!exists|i: int| first_rule(m@, i)) by {
        if exists|i: int| first_rule(m@, i) {
            let j = choose|i: int| first_rule(m@, i);
            assert(!has_at(m@, j, rule()));
        }
    }
    string_of(&cs)
}

/// The declaration out of a hover's markdown: the last fenced block before the `---` rule.
/// `language` opens only fences marked with it, for servers that fence the module's name
/// too. Nothing fenced, or no markdown at all, says nothing.
pub fn fenced(markdown: Option<&str>, language: Option<&str>) -> (r: Option<String>)
    ensures
        match r {
            Some(s) => fenced_spec(opt_text(markdown), opt_text(language)) == Some(s@),
            None => fenced_spec(opt_text(markdown), opt_text(language)) is None,
        },
{
    let m = match markdown {
        Some(m) => m,
        None => {
            return None;
        },
    };
    let ghost lang = opt_text(language);
    let wanted: Option<Vec<char>> = match language {
        Some(w) => Some(chars_of(w)),
        None => None,
    };
    let fence_chars = vec!['`', '`', '`'];
    assert(fence_chars@ =~= fence());
    let decl = declaration_of(m);
    let ls = lines(decl.as_str());
    let ghost all = views(ls@);
    let mut blocks: Vec<String> = Vec::new();
    let mut open: Option<Vec<String>> = None;
    for i in 0..ls.len()
        invariant
            all == views(ls@),
            all == text_lines(declaration(m@)),
            fence_chars@ == fence(),
            lang == opt_text(language),
            match wanted {
                Some(w) => lang == Some(w@),
                None => lang is None,
            },
            views(blocks@) == scan(all.subrange(0, i as int), lang).blocks,
            match open {
                Some(code) => scan(all.subrange(0, i as int), lang).open == Some(views(code@)),
                None => scan(all.subrange(0, i as int), lang).open is None,
            },
    {
        let ghost before = scan(all.subrange(0, i as int), lang);
        assert(all.subrange(0, i + 1).drop_last() =~= all.subrange(0, i as int));
        assert(all.subrange(0, i + 1).last() == ls@[i as int]@);
        let line = chars_of(ls[i].as_str());
        let fenced = has_at_exec(&line, 0, &fence_chars);
        let ghost after = step(before, ls@[i as int]@, lang);
        match open {
            None => {
                if fenced {
                    let opening = match &wanted {
                        None => true,
                        Some(w) => {
                            let mut rest: Vec<char> = Vec::new();
                            for k in 3..line.len()
                                invariant
                                    3 <= line@.len(),
                                    rest@ == line@.subrange(3, k as int),
                            {
                                rest.push(line[k]);
                                assert(rest@ =~= line@.subrange(3, k + 1));
                            }
                            assert(rest@ =~= line@.skip(3));
                            has_at_exec(&rest, 0, w)
                        },
                    };
                    if opening {
                        let fresh: Vec<String> = Vec::new();
                        assert(views(fresh@) =~= Seq::<Seq<char>>::empty());
                        open = Some(fresh);
                    }
                }
            },
            Some(code) => {
                if fenced {
                    let sep = "\n";
                    proof {
                        reveal_strlit("\n");
                        assert(sep@ =~= seq!['\n']);
                    }
                    let block = join(&code, sep);
                    let ghost b0 = views(blocks@);
                    blocks.push(block);
                    assert(views(blocks@) =~= b0.push(block@));
                    assert(views(blocks@) =~= after.blocks);
                    open = None;
                } else {
                    let mut code = code;
                    let ghost c0 = views(code@);
                    code.push(crate::text::owned(ls[i].as_str()));
                    assert(views(code@) =~= c0.push(ls@[i as int]@));
                    open = Some(code);
                }
            },
        }
    }
    assert(all.subrange(0, all.len() as int) =~= all);
    let ghost found = scan(all, lang).blocks;
    assert(found.subrange(0, found.len() as int) =~= found);
    assert(last_filled(found) == fenced_spec(opt_text(markdown), opt_text(language)));
    let mut k = blocks.len();
    while k > 0
        invariant
            last_filled(found) == fenced_spec(opt_text(markdown), opt_text(language)),
            views(blocks@) == found,
            k <= found.len(),
            last_filled(found) == last_filled(found.subrange(0, k as int)),
        decreases k,
    {
        assert(found.subrange(0, k as int).drop_last() =~= found.subrange(0, k - 1));
        assert(found.subrange(0, k as int).last() == blocks@[k - 1]@);
        if !blocks[k - 1].as_str().is_empty() {
            return Some(crate::text::owned(blocks[k - 1].as_str()));
        }
        k = k - 1;
    }
    None
}

} // verus!
