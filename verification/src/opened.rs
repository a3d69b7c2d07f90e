//! One file as a language server reported it, and what a review makes of it: the lines each
//! definition claims, the stretches nobody does, and the file's own module that holds them.

use crate::fallback::{path_segments, segments};
use crate::lines::{lands, Lines};
use crate::model::{Locator, LocatorView, Occurrence, Part, Parts, Piece, Role, Span};
use crate::prose::{line_end, line_end_of, line_start, line_start_of};
use crate::symbols::{all_placed, placed_in, symbol_views, Symbol, SymbolView};
use crate::text::{chars_of, owned, views};
use std::ops::Range;
use vstd::prelude::*;
use vstd::string::StringSliceAdditionalSpecFns;
use vstd::utf8::encode_utf8;

verus! {

/// A file's name without its extension: up to its last dot, unless the only dot starts the
/// name, as `Path::file_stem` reads it. `..` is left alone.
pub open spec fn stem(name: Seq<char>) -> Seq<char> {
    if name == seq!['.', '.'] {
        name
    } else if exists|p: int| 0 < p < name.len() && name[p] == '.' && forall|q: int| p < q < name.len() ==> name[q] != '.' {
        name.take(choose|p: int| 0 < p < name.len() && name[p] == '.' && forall|q: int| p < q < name.len() ==> name[q] != '.')
    } else {
        name
    }
}

/// A file's own scope: its path without the extension, as the names it is made of.
pub open spec fn path_scope_spec(path: Seq<char>) -> Seq<Seq<char>> {
    let segs = path_segments(path);
    if segs.len() == 0 {
        segs
    } else {
        segs.drop_last().push(stem(segs.last()))
    }
}

/// A file's name without its extension.
fn stem_of(name: &str) -> (r: String)
    ensures
        r@ == stem(name@),
{
    let cs = chars_of(name);
    if cs.len() == 2 && cs[0] == '.' && cs[1] == '.' {
        assert(name@ =~= seq!['.', '.']);
        return owned(name);
    }
    assert(name@ != seq!['.', '.']) by {
        if name@ == seq!['.', '.'] {
            assert(cs@.len() == 2 && cs@[0] == '.' && cs@[1] == '.');
        }
    }
    let mut p = cs.len();
    while p > 0 && cs[p - 1] != '.'
        invariant
            cs@ == name@,
            p <= cs@.len(),
            forall|q: int| p <= q < cs@.len() ==> cs@[q] != '.',
        decreases p,
    {
        p = p - 1;
    }
    if p > 1 {
        let at = p - 1;
        let ghost w = at as int;
        assert(0 < w < name@.len() && name@[w] == '.' && forall|q: int| w < q < name@.len() ==> name@[q] != '.');
        let ghost c = choose|p: int| 0 < p < name@.len() && name@[p] == '.' && forall|q: int| p < q < name@.len() ==> name@[q] != '.';
        assert(c == w) by {
            if c < w {
                assert(name@[w] != '.');
            }
            if c > w {
                assert(name@[c] != '.');
            }
        }
        let mut head: Vec<char> = Vec::new();
        for k in 0..at
            invariant
                at < cs@.len(),
                head@ == cs@.take(k as int),
        {
            head.push(cs[k]);
            assert(head@ =~= cs@.take(k + 1));
        }
        return crate::text::string_of(&head);
    }
    assert(!exists|p: int| 0 < p < name@.len() && name@[p] == '.' && forall|q: int| p < q < name@.len() ==> name@[q] != '.') by {
        if exists|p: int| 0 < p < name@.len() && name@[p] == '.' && forall|q: int| p < q < name@.len() ==> name@[q] != '.' {
            let c = choose|p: int| 0 < p < name@.len() && name@[p] == '.' && forall|q: int| p < q < name@.len() ==> name@[q] != '.';
            assert(cs@[c] == '.');
        }
    }
    owned(name)
}

/// The file's own scope: its path without the extension, split into the names it is made of.
pub fn path_scope(path: &str) -> (r: Vec<String>)
    ensures
        views(r@) == path_scope_spec(path@),
{
    let mut segs = segments(path);
    if segs.len() == 0 {
        return segs;
    }
    let ghost before = views(segs@);
    let last = segs.pop().unwrap();
    let trimmed = stem_of(last.as_str());
    segs.push(trimmed);
    assert(views(segs@) =~= before.drop_last().push(stem(before.last())));
    segs
}

/// What a file's own module is called: its path without the extension. A path naming
/// nothing names no module.
pub open spec fn module_of_spec(path: Seq<char>) -> Option<LocatorView> {
    let scope = path_scope_spec(path);
    if scope.len() == 0 {
        None
    } else {
        Some(LocatorView { scope: scope.drop_last(), name: scope.last() })
    }
}

/// What a file's own module is called.
pub fn module_of(path: &str) -> (r: Option<Locator>)
    ensures
        crate::model::opt_locator(r) == module_of_spec(path@),
{
    let mut scope = path_scope(path);
    let ghost all = views(scope@);
    match scope.pop() {
        None => None,
        Some(name) => {
            assert(views(scope@) =~= all.drop_last());
            Some(Locator { scope, name })
        },
    }
}

/// The whole lines a symbol sits on. A server's span starts at the name, which would leave
/// `const` and `;` to the module and let the line above read as the symbol's documentation.
pub open spec fn line_span(b: Seq<u8>, s: SymbolView) -> Range<usize> {
    Range { start: line_start_of(b, s.whole.start as int) as usize, end: line_end_of(b, s.whole.end as int) as usize }
}

/// The whole lines each symbol sits on, in order.
pub open spec fn claimed_spec(b: Seq<u8>, s: Seq<SymbolView>) -> Seq<Range<usize>> {
    s.map_values(|one: SymbolView| line_span(b, one))
}

/// The whole lines each definition of a file sits on.
pub fn claimed(lines: &Lines, items: &Vec<Symbol>) -> (r: Vec<Range<usize>>)
    requires
        lines.wf(),
        all_placed(lines@, symbol_views(items@)),
    ensures
        r@ == claimed_spec(encode_utf8(lines@), symbol_views(items@)),
{
    let text = lines.text();
    let ghost b = encode_utf8(lines@);
    assert(text.spec_bytes() == b);
    let mut r: Vec<Range<usize>> = Vec::new();
    for i in 0..items.len()
        invariant
            text.spec_bytes() == b,
            b == encode_utf8(lines@),
            all_placed(lines@, symbol_views(items@)),
            r@ == claimed_spec(b, symbol_views(items@)).take(i as int),
    {
        assert(placed_in(lines@, symbol_views(items@)[i as int]));
        let start = line_start(text, items[i].whole.start);
        let end = line_end(text, items[i].whole.end);
        r.push(Range { start, end });
        assert(r@ =~= claimed_spec(b, symbol_views(items@)).take(i + 1));
    }
    assert(claimed_spec(b, symbol_views(items@)).take(items@.len() as int) =~= claimed_spec(b, symbol_views(items@)));
    r
}

// ---------------------------------------------------------------------------------------
// What nobody claims.

/// Whether a byte begins a line, or is the end of the text.
pub open spec fn line_mark(b: Seq<u8>, x: int) -> bool {
    0 <= x <= b.len() && (x == 0 || x == b.len() || b[x - 1] == 10u8)
}

/// Whether both ends of a stretch are line marks.
pub open spec fn marked_range(b: Seq<u8>, r: Range<usize>) -> bool {
    line_mark(b, r.start as int) && line_mark(b, r.end as int)
}

proof fn lemma_climb(b: Seq<u8>, floor: int, own: Range<usize>, claimed: Seq<Range<usize>>, start: int)
    requires
        0 <= start <= b.len(),
        start == 0 || b[start - 1] == 10u8,
    ensures
        0 <= crate::prose::climb(b, floor, own, claimed, start) <= start,
        crate::prose::climb(b, floor, own, claimed, start) == 0 || b[crate::prose::climb(b, floor, own, claimed, start) - 1] == 10u8,
    decreases start,
{
    if !(start <= floor || start <= 0 || start > b.len()) {
        let above = line_start_of(b, start - 1);
        crate::prose::lemma_line_start(b, start - 1);
        if !(crate::prose::blank(b, above, start) || crate::prose::barred(claimed, own, above, start)) {
            lemma_climb(b, floor, own, claimed, above);
        }
    }
}

/// A preamble runs between line starts.
proof fn lemma_preamble_marks(b: Seq<u8>, own: Range<usize>, claimed: Seq<Range<usize>>)
    requires
        own.start <= b.len(),
        b.len() <= usize::MAX,
    ensures
        crate::prose::preamble_spec(b, own, claimed) matches Some(p) ==> p.start < p.end && marked_range(b, p),
{
    let owned = line_start_of(b, own.start as int);
    crate::prose::lemma_line_start(b, own.start as int);
    lemma_climb(b, crate::prose::floor_of(b, own, claimed), own, claimed, owned);
}

/// The stretches sorted by where they start, ties kept in the order given: `order[k]` is
/// the stretch that comes `k`th.
pub open spec fn sorted_by_start(rs: Seq<Range<usize>>, order: Seq<int>) -> bool {
    &&& order.len() == rs.len()
    &&& forall|k: int| 0 <= k < order.len() ==> 0 <= #[trigger] order[k] < rs.len()
    &&& forall|k: int, l: int| 0 <= k < l < order.len() ==> start_before(rs, #[trigger] order[k], #[trigger] order[l])
}

/// Whether stretch `j` sorts before stretch `i`: it starts sooner, or at the same place and
/// was given first.
pub open spec fn start_before(rs: Seq<Range<usize>>, j: int, i: int) -> bool {
    rs[j].start < rs[i].start || (rs[j].start == rs[i].start && j < i)
}

/// The gaps found so far reading stretches in order, and how far the stretches reach.
pub struct Gaps {
    pub left: Seq<Range<usize>>,
    pub at: int,
}

/// Reads the stretches in order: wherever one starts past everything read so far, the
/// stretch between is a gap.
pub open spec fn gaps(rs: Seq<Range<usize>>, order: Seq<int>) -> Gaps
    decreases order.len(),
{
    if order.len() == 0 {
        Gaps { left: Seq::empty(), at: 0 }
    } else {
        let g = gaps(rs, order.drop_last());
        let r = rs[order.last()];
        Gaps {
            left: if r.start > g.at { g.left.push(Range { start: g.at as usize, end: r.start }) } else { g.left },
            at: if r.end > g.at { r.end as int } else { g.at },
        }
    }
}

/// Every gap, the one after the last stretch to the end of the text included.
pub open spec fn all_gaps(rs: Seq<Range<usize>>, order: Seq<int>, len: int) -> Seq<Range<usize>> {
    let g = gaps(rs, order);
    if g.at < len {
        g.left.push(Range { start: g.at as usize, end: len as usize })
    } else {
        g.left
    }
}

/// The gaps with more than white space in them.
pub open spec fn nonblank(b: Seq<u8>, gs: Seq<Range<usize>>) -> Seq<Range<usize>>
    decreases gs.len(),
{
    if gs.len() == 0 {
        Seq::empty()
    } else {
        let rest = nonblank(b, gs.drop_last());
        if crate::prose::blank(b, gs.last().start as int, gs.last().end as int) {
            rest
        } else {
            rest.push(gs.last())
        }
    }
}

/// What a file's definitions claim: each one's preamble, in order, then the whole lines
/// each sits on.
pub open spec fn claims_of(b: Seq<u8>, s: Seq<SymbolView>) -> Seq<Range<usize>> {
    preambles(b, s, claimed_spec(b, s)) + claimed_spec(b, s)
}

/// The preambles of a file's definitions, in order, each worked out against the lines the
/// definitions claim.
pub open spec fn preambles(b: Seq<u8>, s: Seq<SymbolView>, lines: Seq<Range<usize>>) -> Seq<Range<usize>>
    decreases s.len(),
{
    if s.len() == 0 {
        Seq::empty()
    } else {
        let rest = preambles(b, s.drop_last(), lines);
        match crate::prose::preamble_spec(b, s.last().whole, lines) {
            Some(p) => rest.push(p),
            None => rest,
        }
    }
}

/// The non-blank stretches of a file no definition claims, in order: the gaps left reading
/// the claims sorted by where they start.
pub open spec fn leftovers_spec(b: Seq<u8>, s: Seq<SymbolView>, order: Seq<int>) -> Seq<Range<usize>> {
    nonblank(b, all_gaps(claims_of(b, s), order, b.len() as int))
}

/// A line mark is where a character begins, or the end of the text.
proof fn lemma_mark_boundary(b: Seq<u8>, x: int)
    requires
        vstd::utf8::valid_utf8(b),
        line_mark(b, x),
    ensures
        vstd::utf8::is_char_boundary(b, x),
{
    if x == b.len() {
        vstd::utf8::is_char_boundary_start_end_of_seq(b);
    } else {
        crate::prose::lemma_line_start_boundary(b, x);
    }
}

/// The lines a definition sits on run between line marks.
proof fn lemma_line_span_marked(b: Seq<u8>, s: SymbolView)
    requires
        s.whole.start <= b.len(),
        s.whole.end <= b.len(),
        b.len() <= usize::MAX,
    ensures
        marked_range(b, line_span(b, s)),
        line_span(b, s).start <= s.whole.start,
{
    crate::prose::lemma_line_start(b, s.whole.start as int);
    crate::prose::lemma_line_end(b, s.whole.end as int);
}

/// Sorts stretches by where they start, ties kept in the order given: the places of the
/// stretches, in the order they come.
fn order_by_start(rs: &Vec<Range<usize>>) -> (order: Vec<usize>)
    ensures
        sorted_by_start(rs@, order@.map_values(|k: usize| k as int)),
{
    let mut order: Vec<usize> = Vec::new();
    for i in 0..rs.len()
        invariant
            order@.len() == i,
            forall|k: int| 0 <= k < order@.len() ==> #[trigger] order@[k] < i,
            forall|k: int, l: int| 0 <= k < l < order@.len() ==> start_before(rs@, #[trigger] order@[k] as int, #[trigger] order@[l] as int),
    {
        let mut p: usize = 0;
        while p < order.len() && rs[order[p]].start <= rs[i].start
            invariant
                p <= order@.len(),
                order@.len() == i,
                i < rs@.len(),
                forall|k: int| 0 <= k < order@.len() ==> #[trigger] order@[k] < i,
                forall|k: int| 0 <= k < p ==> rs@[#[trigger] order@[k] as int].start <= rs@[i as int].start,
            decreases order@.len() - p,
        {
            p = p + 1;
        }
        let ghost before = order@;
        proof {
            assert forall|k: int| p <= k < before.len() implies rs@[#[trigger] before[k] as int].start > rs@[i as int].start by {
                if k > p {
                    assert(start_before(rs@, before[p as int] as int, before[k] as int));
                }
            }
        }
        order.insert(p, i);
        assert forall|k: int, l: int| 0 <= k < l < order@.len() implies start_before(rs@, #[trigger] order@[k] as int, #[trigger] order@[l] as int) by {
            if l < p {
                assert(order@[k] == before[k] && order@[l] == before[l]);
            } else if l == p {
                assert(order@[k] == before[k]);
            } else if k < p {
                assert(order@[k] == before[k] && order@[l] == before[l - 1]);
            } else if k == p {
                assert(order@[l] == before[l - 1]);
            } else {
                assert(order@[k] == before[k - 1] && order@[l] == before[l - 1]);
            }
        }
        assert forall|k: int| 0 <= k < order@.len() implies #[trigger] order@[k] < i + 1 by {
            if k < p {
                assert(order@[k] == before[k]);
            } else if k > p {
                assert(order@[k] == before[k - 1]);
            }
        }
    }
    order
}

/// Whether the text between two places holds nothing but white space.
fn blank_stretch(lines: &Lines, from: usize, to: usize) -> (r: bool)
    requires
        from <= to <= encode_utf8(lines@).len(),
        vstd::utf8::is_char_boundary(encode_utf8(lines@), from as int),
        vstd::utf8::is_char_boundary(encode_utf8(lines@), to as int),
    ensures
        r == crate::prose::blank(encode_utf8(lines@), from as int, to as int),
{
    let piece = lines.slice(&Range { start: from, end: to });
    let cs = chars_of(piece);
    proof {
        vstd::utf8::encode_utf8_decode_utf8(piece@);
    }
    assert(cs@ == vstd::utf8::decode_utf8(encode_utf8(lines@).subrange(from as int, to as int)));
    for i in 0..cs.len()
        invariant
            cs@ == vstd::utf8::decode_utf8(encode_utf8(lines@).subrange(from as int, to as int)),
            forall|k: int| 0 <= k < i ==> crate::matching::is_ws(#[trigger] cs@[k]),
    {
        if !crate::matching::is_ws_exec(cs[i]) {
            return false;
        }
    }
    true
}

/// Whether every stretch of a list runs forward between line marks.
pub open spec fn all_marked(b: Seq<u8>, rs: Seq<Range<usize>>) -> bool {
    forall|j: int| 0 <= j < rs.len() ==> #[trigger] marked_range(b, rs[j]) && rs[j].start <= rs[j].end
}

/// The stretches with more than white space in them.
fn keep_nonblank(lines: &Lines, left: &Vec<Range<usize>>) -> (kept: Vec<Range<usize>>)
    requires
        all_marked(encode_utf8(lines@), left@),
    ensures
        kept@ == nonblank(encode_utf8(lines@), left@),
        all_marked(encode_utf8(lines@), kept@),
{
    let ghost gs = left@;
    let mut kept: Vec<Range<usize>> = Vec::new();
    for k in 0..left.len()
        invariant
            gs == left@,
            all_marked(encode_utf8(lines@), left@),
            kept@ == nonblank(encode_utf8(lines@), gs.take(k as int)),
            all_marked(encode_utf8(lines@), kept@),
    {
        assert(gs.take(k + 1).drop_last() =~= gs.take(k as int));
        assert(gs.take(k + 1).last() == gs[k as int]);
        let g = &left[k];
        proof {
            vstd::utf8::encode_utf8_valid_utf8(lines@);
            assert(marked_range(encode_utf8(lines@), left@[k as int]));
            lemma_mark_boundary(encode_utf8(lines@), g.start as int);
            lemma_mark_boundary(encode_utf8(lines@), g.end as int);
        }
        if !blank_stretch(lines, g.start, g.end) {
            let ghost k0 = kept@;
            kept.push(Range { start: g.start, end: g.end });
            assert forall|j: int| 0 <= j < kept@.len() implies #[trigger] marked_range(encode_utf8(lines@), kept@[j]) && kept@[j].start <= kept@[j].end by {
                if j < k0.len() {
                    assert(kept@[j] == k0[j]);
                } else {
                    assert(kept@[j] == left@[k as int]);
                }
            }
        }
    }
    assert(gs.take(gs.len() as int) =~= gs);
    kept
}

/// The non-blank stretches of a file no definition claims: not its definitions' lines, nor
/// what is written above them.
pub fn leftovers(lines: &Lines, items: &Vec<Symbol>) -> (r: Vec<Range<usize>>)
    requires
        lines.wf(),
        all_placed(lines@, symbol_views(items@)),
    ensures
        exists|order: Seq<int>| #[trigger] sorted_by_start(claims_of(encode_utf8(lines@), symbol_views(items@)), order) && r@
            == leftovers_spec(encode_utf8(lines@), symbol_views(items@), order),
        all_marked(encode_utf8(lines@), r@),
{
    let ghost b = encode_utf8(lines@);
    let ghost sv = symbol_views(items@);
    let text = lines.text();
    assert(text.spec_bytes() == b);
    let len = text.as_bytes().len();
    let spans = claimed(lines, items);
    proof {
        assert forall|k: int| 0 <= k < spans@.len() implies #[trigger] marked_range(b, spans@[k]) by {
            assert(placed_in(lines@, sv[k]));
            lemma_line_span_marked(b, sv[k]);
        }
    }
    let mut claims: Vec<Range<usize>> = Vec::new();
    for i in 0..items.len()
        invariant
            b == encode_utf8(lines@),
            sv == symbol_views(items@),
            text.spec_bytes() == b,
            len == b.len(),
            all_placed(lines@, sv),
            spans@ == claimed_spec(b, sv),
            forall|k: int| 0 <= k < spans@.len() ==> #[trigger] marked_range(b, spans@[k]),
            claims@ == preambles(b, sv.take(i as int), spans@),
            forall|k: int| 0 <= k < claims@.len() ==> #[trigger] marked_range(b, claims@[k]),
    {
        assert(sv.take(i + 1).drop_last() =~= sv.take(i as int));
        assert(sv.take(i + 1).last() == sv[i as int]);
        assert(placed_in(lines@, sv[i as int]));
        proof {
            vstd::utf8::encode_utf8_valid_utf8(lines@);
            assert forall|k: int| 0 <= k < spans@.len() implies vstd::utf8::is_char_boundary(b, #[trigger] spans@[k].start as int) by {
                assert(marked_range(b, spans@[k]));
                lemma_mark_boundary(b, spans@[k].start as int);
            }
            lemma_preamble_marks(b, items@[i as int].whole, spans@);
        }
        match crate::prose::preamble(text, &items[i].whole, spans.as_slice()) {
            Some(p) => {
                claims.push(p);
            },
            None => {},
        }
    }
    assert(sv.take(items@.len() as int) =~= sv);
    let mut all = claims;
    let mut more = crate::frontier::copy_ranges(&spans);
    all.append(&mut more);
    assert(all@ =~= claims_of(b, sv));
    let order = order_by_start(&all);
    let ghost ord = order@.map_values(|k: usize| k as int);
    let mut left: Vec<Range<usize>> = Vec::new();
    let mut at: usize = 0;
    for k in 0..order.len()
        invariant
            b == encode_utf8(lines@),
            len == b.len(),
            all@ == claims_of(b, sv),
            ord == order@.map_values(|k: usize| k as int),
            sorted_by_start(all@, ord),
            forall|j: int| 0 <= j < all@.len() ==> #[trigger] marked_range(b, all@[j]),
            left@ == gaps(all@, ord.take(k as int)).left,
            at as int == gaps(all@, ord.take(k as int)).at,
            line_mark(b, at as int),
            forall|j: int| 0 <= j < left@.len() ==> #[trigger] marked_range(b, left@[j]) && left@[j].start < left@[j].end,
    {
        assert(ord.take(k + 1).drop_last() =~= ord.take(k as int));
        assert(ord.take(k + 1).last() == ord[k as int]);
        let r = &all[order[k]];
        assert(marked_range(b, all@[order@[k as int] as int]));
        if r.start > at {
            left.push(Range { start: at, end: r.start });
        }
        if r.end > at {
            at = r.end;
        }
    }
    assert(ord.take(ord.len() as int) =~= ord);
    if at < len {
        let ghost l0 = left@;
        left.push(Range { start: at, end: len });
        assert forall|j: int| 0 <= j < left@.len() implies #[trigger] marked_range(b, left@[j]) && left@[j].start < left@[j].end by {
            if j < l0.len() {
                assert(left@[j] == l0[j]);
            }
        }
    }
    assert(left@ == all_gaps(all@, ord, b.len() as int));
    let kept = keep_nonblank(lines, &left);
    assert(kept@ == leftovers_spec(b, sv, ord));
    kept
}

// ---------------------------------------------------------------------------------------
// Definitions.

/// Whether a piece is the stretch `r` of a file's text: its text, where it sits, the line it
/// starts on counting from one, and the file.
pub open spec fn piece_of(p: Piece, t: Seq<char>, path: Seq<char>, r: Range<usize>) -> bool {
    &&& p.text@ == vstd::utf8::decode_utf8(encode_utf8(t).subrange(r.start as int, r.end as int))
    &&& p.span == (Span { start: r.start as u32, end: r.end as u32 })
    &&& p.line == crate::lines::position_spec(t, r.start as int).0 + 1
    &&& p.file@ == path
}

/// Whether pieces are the stretches `rs` of a file, one for one.
pub open spec fn pieces_of(ps: Seq<Piece>, t: Seq<char>, path: Seq<char>, rs: Seq<Range<usize>>) -> bool {
    ps.len() == rs.len() && forall|k: int| 0 <= k < ps.len() ==> piece_of(#[trigger] ps[k], t, path, rs[k])
}

/// Whether a stretch can be cut out of a text.
pub open spec fn cuttable(t: Seq<char>, r: Range<usize>) -> bool {
    r.start <= r.end && lands(t, r.start as int) && lands(t, r.end as int)
}

/// Stretches of a file as pieces.
pub(crate) fn pieces(lines: &Lines, path: &str, ranges: &Vec<Range<usize>>) -> (r: Vec<Piece>)
    requires
        lines.wf(),
        encode_utf8(lines@).len() < u32::MAX,
        forall|k: int| 0 <= k < ranges@.len() ==> cuttable(lines@, #[trigger] ranges@[k]),
    ensures
        pieces_of(r@, lines@, path@, ranges@),
{
    let mut r: Vec<Piece> = Vec::new();
    for k in 0..ranges.len()
        invariant
            lines.wf(),
            encode_utf8(lines@).len() < u32::MAX,
            forall|j: int| 0 <= j < ranges@.len() ==> cuttable(lines@, #[trigger] ranges@[j]),
            r@.len() == k,
            forall|j: int| 0 <= j < k ==> piece_of(#[trigger] r@[j], lines@, path@, ranges@[j]),
    {
        assert(cuttable(lines@, ranges@[k as int]));
        proof {
            crate::lines::lemma_line_fits(lines@, ranges@[k as int].start as int);
        }
        r.push(lines.piece(path, &ranges[k]));
    }
    r
}

/// Marked stretches can be cut out of the text.
proof fn lemma_marked_cuttable(t: Seq<char>, r: Range<usize>)
    requires
        marked_range(encode_utf8(t), r),
        r.start <= r.end,
    ensures
        cuttable(t, r),
{
    vstd::utf8::encode_utf8_valid_utf8(t);
    lemma_mark_boundary(encode_utf8(t), r.start as int);
    lemma_mark_boundary(encode_utf8(t), r.end as int);
}

/// Whether an occurrence is a file's own module holding the stretches `left`: named after
/// the file, a container nothing holds, all of it body.
pub open spec fn module_ok(o: Occurrence, t: Seq<char>, path: Seq<char>, left: Seq<Range<usize>>) -> bool {
    &&& module_of_spec(path) == Some(o.locator@)
    &&& o.role == Role::Container
    &&& o.parent is None
    &&& o.kind@ == "module"@
    &&& o.file@ == path
    &&& o.parts.contract is None
    &&& o.parts.docs is None
    &&& o.contract_from_compiler is None
    &&& match o.parts.body {
        Some(ps) => pieces_of(ps@, t, path, left),
        None => false,
    }
}

/// The file itself, holding whatever none of its definitions do: imports, stray comments,
/// load-time statements. Without it a change that only touches those has nothing to show.
/// It's all body, since nothing refers to a file by name. A file with nothing left over, or
/// a path naming no file, has none.
pub fn module(lines: &Lines, path: &str, items: &Vec<Symbol>) -> (r: Option<Occurrence>)
    requires
        lines.wf(),
        all_placed(lines@, symbol_views(items@)),
        encode_utf8(lines@).len() < u32::MAX,
    ensures
        exists|order: Seq<int>| #[trigger] sorted_by_start(claims_of(encode_utf8(lines@), symbol_views(items@)), order) && {
            let left = leftovers_spec(encode_utf8(lines@), symbol_views(items@), order);
            &&& (r is None <==> left.len() == 0 || module_of_spec(path@) is None)
            &&& (r matches Some(o) ==> module_ok(o, lines@, path@, left))
        },
{
    let left = leftovers(lines, items);
    if left.len() == 0 {
        return None;
    }
    let locator = match module_of(path) {
        Some(l) => l,
        None => {
            return None;
        },
    };
    proof {
        assert forall|k: int| 0 <= k < left@.len() implies cuttable(lines@, #[trigger] left@[k]) by {
            assert(marked_range(encode_utf8(lines@), left@[k]));
            lemma_marked_cuttable(lines@, left@[k]);
        }
    }
    let body = pieces(lines, path, &left);
    let kind = "module";
    Some(
        Occurrence {
            locator,
            role: Role::Container,
            parent: None,
            kind: owned(kind),
            file: owned(path),
            parts: Parts { contract: None, body: Some(body), docs: None },
            contract_from_compiler: None,
        },
    )
}

/// The compiler's view of a definition, where one was found for its locator: the first
/// entry for it.
pub open spec fn contract_for(contracts: Seq<(Locator, String)>, l: LocatorView) -> Option<Seq<char>>
    decreases contracts.len(),
{
    if contracts.len() == 0 {
        None
    } else if contracts[0].0@ == l {
        Some(contracts[0].1@)
    } else {
        contract_for(contracts.drop_first(), l)
    }
}

/// Whether a symbol can be cut into parts: it is placed in the text, runs forward, and
/// any signature it has ends inside it where a character begins.
pub open spec fn sound(t: Seq<char>, s: SymbolView) -> bool {
    &&& placed_in(t, s)
    &&& s.whole.start <= s.whole.end
    &&& match s.signature {
        Some(sig) => s.whole.start <= sig.end <= s.whole.end && lands(t, sig.end as int),
        None => true,
    }
}

/// Where a symbol's declaration runs: from the start of its first line, so a leading
/// `export` the server leaves out is included, to its body, or the end of its last line
/// when it has none.
pub open spec fn declared_span(b: Seq<u8>, s: SymbolView) -> Range<usize> {
    Range {
        start: line_start_of(b, s.whole.start as int) as usize,
        end: match crate::symbols::body_spec(s) {
            Some(bd) => bd.start,
            None => line_end_of(b, s.whole.end as int) as usize,
        },
    }
}

/// Whether an optional list of pieces is the optional stretch `r` of a file, one piece.
pub open spec fn part_ok(ps: Option<Vec<Piece>>, t: Seq<char>, path: Seq<char>, r: Option<Range<usize>>) -> bool {
    match (ps, r) {
        (Some(ps), Some(r)) => pieces_of(ps@, t, path, seq![r]),
        (None, None) => true,
        _ => false,
    }
}

/// Whether an occurrence is what a symbol of the file at `path` reads as: its declaration as
/// contract, what follows as body, what is written above it as docs.
pub open spec fn occurrence_ok(
    o: Occurrence,
    t: Seq<char>,
    path: Seq<char>,
    s: SymbolView,
    claimed_lines: Seq<Range<usize>>,
    contracts: Seq<(Locator, String)>,
) -> bool {
    let b = encode_utf8(t);
    &&& o.locator@ == s.locator
    &&& o.role == (if crate::lsp::holds_spec(s.kind) { Role::Container } else { Role::Item })
    &&& crate::model::opt_locator(o.parent) == (match s.parent {
        Some(p) => Some(p),
        None => module_of_spec(path),
    })
    &&& o.kind@ == s.kind
    &&& o.file@ == path
    &&& crate::model::opt_text(o.contract_from_compiler) == contract_for(contracts, s.locator)
    &&& part_ok(o.parts.contract, t, path, Some(declared_span(b, s)))
    &&& part_ok(o.parts.body, t, path, crate::symbols::body_spec(s))
    &&& part_ok(o.parts.docs, t, path, crate::prose::preamble_spec(b, s.whole, claimed_lines))
}

/// The compiler's view of a definition, where one was found for its locator.
pub(crate) fn find_contract(contracts: &Vec<(Locator, String)>, l: &Locator) -> (r: Option<String>)
    ensures
        crate::model::opt_text(r) == contract_for(contracts@, l@),
{
    let mut i: usize = 0;
    assert(contracts@.skip(0) =~= contracts@);
    while i < contracts.len()
        invariant
            i <= contracts@.len(),
            contract_for(contracts@, l@) == contract_for(contracts@.skip(i as int), l@),
        decreases contracts@.len() - i,
    {
        assert(contracts@.skip(i as int).drop_first() =~= contracts@.skip(i + 1));
        assert(contracts@.skip(i as int)[0] == contracts@[i as int]);
        if contracts[i].0.same_as(l) {
            return Some(owned(contracts[i].1.as_str()));
        }
        i = i + 1;
    }
    None
}

/// One stretch as a single piece.
fn one_piece(lines: &Lines, path: &str, r: Range<usize>) -> (ps: Vec<Piece>)
    requires
        lines.wf(),
        encode_utf8(lines@).len() < u32::MAX,
        cuttable(lines@, r),
    ensures
        pieces_of(ps@, lines@, path@, seq![r]),
{
    let rs = vec![r];
    let ps = pieces(lines, path, &rs);
    assert(rs@ =~= seq![r]);
    ps
}

/// What one symbol of a file reads as.
fn occurrence(
    lines: &Lines,
    path: &str,
    symbol: &Symbol,
    spans: &Vec<Range<usize>>,
    contracts: &Vec<(Locator, String)>,
) -> (o: Occurrence)
    requires
        lines.wf(),
        encode_utf8(lines@).len() < u32::MAX,
        sound(lines@, symbol@),
        forall|k: int| 0 <= k < spans@.len() ==> #[trigger] marked_range(encode_utf8(lines@), spans@[k]),
    ensures
        occurrence_ok(o, lines@, path@, symbol@, spans@, contracts@),
{
    let ghost b = encode_utf8(lines@);
    let text = lines.text();
    assert(text.spec_bytes() == b);
    proof {
        vstd::utf8::encode_utf8_valid_utf8(lines@);
        crate::prose::lemma_line_start(b, symbol.whole.start as int);
        crate::prose::lemma_line_end(b, symbol.whole.end as int);
    }
    let from = line_start(text, symbol.whole.start);
    let body = symbol.body();
    let until = match &body {
        Some(bd) => bd.start,
        None => line_end(text, symbol.whole.end),
    };
    let declared = Range { start: from, end: until };
    proof {
        lemma_mark_boundary(b, from as int);
        if body is None {
            lemma_mark_boundary(b, until as int);
        }
    }
    let contract = one_piece(lines, path, declared);
    let body_pieces = match body {
        Some(bd) => Some(one_piece(lines, path, bd)),
        None => None,
    };
    proof {
        assert forall|k: int| 0 <= k < spans@.len() implies vstd::utf8::is_char_boundary(b, #[trigger] spans@[k].start as int) by {
            assert(marked_range(b, spans@[k]));
            lemma_mark_boundary(b, spans@[k].start as int);
        }
        lemma_preamble_marks(b, symbol.whole, spans@);
    }
    let docs = match crate::prose::preamble(text, &symbol.whole, spans.as_slice()) {
        Some(told) => {
            proof {
                lemma_marked_cuttable(lines@, told);
            }
            Some(one_piece(lines, path, told))
        },
        None => None,
    };
    let parent = match &symbol.parent {
        Some(p) => Some(p.duplicate()),
        None => module_of(path),
    };
    Occurrence {
        contract_from_compiler: find_contract(contracts, &symbol.locator),
        locator: symbol.locator.duplicate(),
        role: if crate::lsp::holds(symbol.kind) { Role::Container } else { Role::Item },
        parent,
        kind: owned(symbol.kind),
        file: owned(path),
        parts: Parts { contract: Some(contract), body: body_pieces, docs },
    }
}

/// What one file a language server reported reads as: an occurrence for each of its
/// symbols, in order, then the file's own module when something is left over for it.
/// `contracts` holds what the compiler says each definition looks like from outside.
pub fn definitions(lines: &Lines, path: &str, items: &Vec<Symbol>, contracts: &Vec<(Locator, String)>) -> (r: Vec<Occurrence>)
    requires
        lines.wf(),
        encode_utf8(lines@).len() < u32::MAX,
        forall|k: int| 0 <= k < items@.len() ==> sound(lines@, #[trigger] items@[k]@),
    ensures
        r@.len() >= items@.len(),
        forall|k: int|
            0 <= k < items@.len() ==> occurrence_ok(
                #[trigger] r@[k],
                lines@,
                path@,
                items@[k]@,
                claimed_spec(encode_utf8(lines@), symbol_views(items@)),
                contracts@,
            ),
        exists|order: Seq<int>| #[trigger] sorted_by_start(claims_of(encode_utf8(lines@), symbol_views(items@)), order) && {
            let left = leftovers_spec(encode_utf8(lines@), symbol_views(items@), order);
            &&& (r@.len() == items@.len() <==> left.len() == 0 || module_of_spec(path@) is None)
            &&& (r@.len() > items@.len() ==> r@.len() == items@.len() + 1 && module_ok(r@.last(), lines@, path@, left))
        },
{
    let ghost b = encode_utf8(lines@);
    let ghost sv = symbol_views(items@);
    assert(all_placed(lines@, sv)) by {
        assert forall|k: int| 0 <= k < sv.len() implies placed_in(lines@, #[trigger] sv[k]) by {
            assert(sound(lines@, items@[k]@));
        }
    }
    let spans = claimed(lines, items);
    proof {
        assert forall|k: int| 0 <= k < spans@.len() implies #[trigger] marked_range(b, spans@[k]) by {
            assert(placed_in(lines@, sv[k]));
            lemma_line_span_marked(b, sv[k]);
        }
    }
    let mut r: Vec<Occurrence> = Vec::new();
    for i in 0..items.len()
        invariant
            lines.wf(),
            b == encode_utf8(lines@),
            sv == symbol_views(items@),
            encode_utf8(lines@).len() < u32::MAX,
            forall|k: int| 0 <= k < items@.len() ==> sound(lines@, #[trigger] items@[k]@),
            spans@ == claimed_spec(b, sv),
            forall|k: int| 0 <= k < spans@.len() ==> #[trigger] marked_range(encode_utf8(lines@), spans@[k]),
            r@.len() == i,
            forall|k: int| 0 <= k < i ==> occurrence_ok(#[trigger] r@[k], lines@, path@, items@[k]@, spans@, contracts@),
    {
        assert(sound(lines@, items@[i as int]@));
        r.push(occurrence(lines, path, &items[i], &spans, contracts));
    }
    let ghost occurrences = r@;
    match module(lines, path, items) {
        Some(m) => {
            r.push(m);
            assert(r@.take(items@.len() as int) =~= occurrences);
        },
        None => {},
    }
    r
}

// ---------------------------------------------------------------------------------------
// Names defined elsewhere.

/// One place a server says a name is defined: the file, as a URI, and the line it starts
/// on, each when the answer gave it.
pub struct Place {
    pub uri: Option<String>,
    pub line: Option<u64>,
}

/// Whether `s` ends with `tail`.
pub open spec fn ends_with(s: Seq<char>, tail: Seq<char>) -> bool {
    tail.len() <= s.len() && s.skip(s.len() - tail.len()) == tail
}

/// Whether a place is somewhere other than the symbol itself: in another file, or on
/// another line.
pub open spec fn elsewhere(p: Place, t: Seq<char>, path: Seq<char>, s: SymbolView) -> bool {
    (match p.uri {
        Some(u) => !ends_with(u@, path),
        None => false,
    }) || (match p.line {
        Some(l) => (l as u32) != crate::lines::position_spec(t, s.name_at.start as int).0,
        None => false,
    })
}

/// Whether any of some places is somewhere other than the symbol itself.
pub open spec fn any_elsewhere(ps: Seq<Place>, t: Seq<char>, path: Seq<char>, s: SymbolView) -> bool {
    exists|i: int| 0 <= i < ps.len() && elsewhere(#[trigger] ps[i], t, path, s)
}

/// Whether a symbol's name is defined elsewhere, so it is an import rather than a
/// definition. A symbol that is only its name is an import binding whatever the server
/// says; otherwise, with no usable answer from the server (`None`), nothing can be said.
pub open spec fn borrowed_spec(t: Seq<char>, path: Seq<char>, s: SymbolView, places: Option<Seq<Place>>) -> Option<bool> {
    if s.whole == s.name_at {
        Some(true)
    } else {
        match places {
            None => None,
            Some(ps) => Some(any_elsewhere(ps, t, path, s)),
        }
    }
}

/// Whether `s` ends with `tail`.
fn ends_with_exec(s: &str, tail: &str) -> (r: bool)
    ensures
        r == ends_with(s@, tail@),
{
    let a = chars_of(s);
    let b = chars_of(tail);
    if b.len() > a.len() {
        return false;
    }
    let n = a.len();
    let off = n - b.len();
    for k in 0..b.len()
        invariant
            n == a@.len(),
            a@ == s@,
            b@ == tail@,
            off + b@.len() == a@.len(),
            forall|j: int| 0 <= j < k ==> a@[off + j] == b@[j],
    {
        if a[off + k] != b[k] {
            assert(s@.skip(off as int)[k as int] != tail@[k as int]);
            return false;
        }
    }
    assert(s@.skip(off as int) =~= tail@);
    true
}

/// Whether a symbol's name is defined elsewhere, from where the server says it is defined.
pub fn borrowed(lines: &Lines, path: &str, symbol: &Symbol, places: &Option<Vec<Place>>) -> (r: Option<bool>)
    requires
        lines.wf(),
        placed_in(lines@, symbol@),
    ensures
        r == borrowed_spec(lines@, path@, symbol@, match places {
            Some(ps) => Some(ps@),
            None => None,
        }),
{
    if symbol.whole.start == symbol.name_at.start && symbol.whole.end == symbol.name_at.end {
        return Some(true);
    }
    let ps = match places {
        Some(ps) => ps,
        None => {
            return None;
        },
    };
    let here = lines.position(symbol.name_at.start).0;
    for i in 0..ps.len()
        invariant
            symbol@.whole != symbol@.name_at,
            match places {
                Some(v) => v@ == ps@,
                None => false,
            },
            here == crate::lines::position_spec(lines@, symbol@.name_at.start as int).0,
            forall|j: int| 0 <= j < i ==> !elsewhere(#[trigger] ps@[j], lines@, path@, symbol@),
    {
        let away = match ps[i].line {
            Some(l) => l as u32 != here,
            None => false,
        };
        let other_file = match &ps[i].uri {
            Some(u) => !ends_with_exec(u.as_str(), path),
            None => false,
        };
        if away || other_file {
            assert(elsewhere(ps@[i as int], lines@, path@, symbol@));
            let ghost given = match places {
                Some(v) => Some(v@),
                None => None,
            };
            assert(given == Some(ps@));
            assert(0 <= i < ps@.len() && elsewhere(ps@[i as int], lines@, path@, symbol@));
            assert(any_elsewhere(ps@, lines@, path@, symbol@));
            return Some(true);
        }
    }
    Some(false)
}


// ---------------------------------------------------------------------------------------
// Which symbols a file keeps.

/// Some symbol already kept has this one's scope and name.
pub open spec fn taken(out: Seq<SymbolView>, s: SymbolView) -> bool {
    exists|k: int| 0 <= k < out.len() && (#[trigger] out[k]).scope == s.scope && out[k].name == s.name
}

/// The symbols kept of the first `n`: those the server traced to a definition of their own
/// (answered `Some(false)`), and of those only the first with each scope and name, since
/// two definitions with one name can't be told apart between snapshots.
pub open spec fn kept_spec(items: Seq<SymbolView>, answers: Seq<Option<bool>>, n: int) -> Seq<SymbolView>
    decreases n,
{
    if n <= 0 {
        Seq::empty()
    } else {
        let before = kept_spec(items, answers, n - 1);
        if answers[n - 1] == Some(false) && !taken(before, items[n - 1]) {
            before.push(items[n - 1])
        } else {
            before
        }
    }
}

/// The names of the first `n` symbols that could not be traced at all.
pub open spec fn untraced(items: Seq<SymbolView>, answers: Seq<Option<bool>>, n: int) -> Seq<Seq<char>>
    decreases n,
{
    if n <= 0 {
        Seq::empty()
    } else {
        untraced(items, answers, n - 1) + if answers[n - 1] is None { seq![items[n - 1].locator.name] } else { Seq::empty() }
    }
}

/// The note a file gets for the names that could not be traced, none where there are none.
pub open spec fn untraced_note(path: Seq<char>, names: Seq<Seq<char>>) -> Option<crate::protocol::NoteView> {
    if names.len() == 0 {
        None
    } else {
        Some(crate::protocol::NoteView {
            message: path + ": "@ + (if names.len() == 1 { "a name"@ } else { "names"@ })
                + " could not be traced to a definition, so left out: "@ + crate::text::joined(names, ", "@),
            file: Some(path),
        })
    }
}

/// Which of a file's symbols stand as definitions, given what the server answered about
/// each: `Some(false)` where it is a definition of its own, `Some(true)` where it is only
/// borrowed from elsewhere, `None` where it could not be traced. Of the definitions only
/// the first with each scope and name is kept; the untraced are named in a note.
pub fn kept(items: Vec<Symbol>, answers: &Vec<Option<bool>>, path: &str) -> (r: (Vec<Symbol>, Option<crate::protocol::Note>))
    requires
        answers@.len() == items@.len(),
    ensures
        symbol_views(r.0@) == kept_spec(symbol_views(items@), answers@, items@.len() as int),
        crate::protocol::opt_note_view(r.1) == untraced_note(path@, untraced(symbol_views(items@), answers@, items@.len() as int)),
{
    let ghost all = symbol_views(items@);
    let n = items.len();
    let mut rest = items;
    let mut out: Vec<Symbol> = Vec::new();
    let mut unplaced: Vec<String> = Vec::new();
    let mut k: usize = 0;
    while k < n
        invariant
            n == answers@.len(),
            all.len() == n,
            k <= n,
            rest@.len() == n - k,
            symbol_views(rest@) == all.skip(k as int),
            symbol_views(out@) == kept_spec(all, answers@, k as int),
            views(unplaced@) == untraced(all, answers@, k as int),
        decreases n - k,
    {
        let ghost was = symbol_views(rest@);
        let ghost first = rest@[0];
        assert(was[0] == first@);
        let one = rest.remove(0);
        assert(one == first);
        assert(symbol_views(rest@) =~= all.skip(k + 1)) by {
            assert(was.drop_first() =~= all.skip(k + 1));
        }
        assert(one@ == all[k as int]);
        match answers[k] {
            Some(false) => {
                let mut seen = false;
                let mut j: usize = 0;
                while j < out.len()
                    invariant
                        j <= out@.len(),
                        seen == exists|q: int| 0 <= q < j && (#[trigger] symbol_views(out@)[q]).scope == one@.scope && symbol_views(out@)[q].name == one@.name,
                    decreases out@.len() - j,
                {
                    assert(symbol_views(out@)[j as int] == out@[j as int]@);
                    if crate::model::strings_eq(&out[j].scope, &one.scope) && crate::text::str_eq(out[j].name.as_str(), one.name.as_str()) {
                        seen = true;
                    }
                    j = j + 1;
                }
                if !seen {
                    let ghost o = symbol_views(out@);
                    out.push(one);
                    assert(symbol_views(out@) =~= o.push(all[k as int]));
                }
            },
            Some(true) => {},
            None => {
                let ghost u = views(unplaced@);
                unplaced.push(owned(one.locator.name.as_str()));
                assert(views(unplaced@) =~= u.push(all[k as int].locator.name));
            },
        }
        assert(untraced(all, answers@, k + 1) =~= untraced(all, answers@, k as int) + if answers@[k as int] is None { seq![all[k as int].locator.name] } else { Seq::<Seq<char>>::empty() });
        k = k + 1;
    }
    if unplaced.len() == 0 {
        return (out, None);
    }
    let mut message = String::new();
    let sep = ": ";
    let one_name = "a name";
    let many = "names";
    let rest_of = " could not be traced to a definition, so left out: ";
    let comma = ", ";
    proof {
        reveal_strlit(": ");
        reveal_strlit("a name");
        reveal_strlit("names");
        reveal_strlit(" could not be traced to a definition, so left out: ");
        reveal_strlit(", ");
    }
    message.append(path);
    message.append(sep);
    if unplaced.len() == 1 {
        message.append(one_name);
    } else {
        message.append(many);
    }
    message.append(rest_of);
    let listed = crate::text::join(&unplaced, comma);
    message.append(listed.as_str());
    (out, Some(crate::protocol::Note { message, file: Some(owned(path)) }))
}

} // verus!
