//! Attaches the comment written directly above a definition to that definition.
//!
//! Extractors don't report comments (language servers start at the declaration, parsers
//! drop them), so it's done once here, without knowing any language's comment syntax.
//! Places are byte offsets into the text.

use crate::matching::is_ws;
use std::ops::Range;
use vstd::prelude::*;
use vstd::string::StringSliceAdditionalSpecFns;
use vstd::utf8::{decode_utf8, is_char_boundary, valid_utf8};

verus! {

broadcast use vstd::utf8::encode_utf8_valid_utf8, vstd::utf8::encode_utf8_decode_utf8;

/// Where the line holding byte `at` begins: just after the last line break before it.
pub open spec fn line_start_of(b: Seq<u8>, at: int) -> int
    decreases at,
{
    if at <= 0 {
        0
    } else if b[at - 1] == 10u8 {
        at
    } else {
        line_start_of(b, at - 1)
    }
}

/// Where the line holding byte `at` ends: just after the first line break from it on, or
/// at the end of the text.
pub open spec fn line_end_of(b: Seq<u8>, at: int) -> int
    decreases b.len() - at,
{
    if at >= b.len() {
        b.len() as int
    } else if b[at] == 10u8 {
        at + 1
    } else {
        line_end_of(b, at + 1)
    }
}

pub proof fn lemma_line_start(b: Seq<u8>, at: int)
    requires
        0 <= at <= b.len(),
    ensures
        0 <= line_start_of(b, at) <= at,
        line_start_of(b, at) == 0 || b[line_start_of(b, at) - 1] == 10u8,
    decreases at,
{
    if at > 0 && b[at - 1] != 10u8 {
        lemma_line_start(b, at - 1);
    }
}

pub proof fn lemma_line_end(b: Seq<u8>, at: int)
    requires
        0 <= at <= b.len(),
    ensures
        at <= line_end_of(b, at) <= b.len(),
        line_end_of(b, at) == b.len() || b[line_end_of(b, at) - 1] == 10u8,
    decreases b.len() - at,
{
    if at < b.len() && b[at] != 10u8 {
        lemma_line_end(b, at + 1);
    }
}

/// Just after a one-byte character, as a line break is, a new character begins.
proof fn lemma_after_ascii(b: Seq<u8>, a: int)
    requires
        valid_utf8(b),
        0 < a <= b.len(),
        b[a - 1] <= 0x7f,
    ensures
        is_char_boundary(b, a),
    decreases b.len(),
{
    let n = vstd::utf8::length_of_first_scalar(b);
    let rest = vstd::utf8::pop_first_scalar(b);
    assert(rest.len() == b.len() - n);
    if a - 1 < n {
        assert(a == 1 && n == 1);
        assert(rest.len() == b.len() - 1);
        if rest.len() == 0 {
            vstd::utf8::is_char_boundary_start_end_of_seq(rest);
        }
    } else {
        assert(rest[a - n - 1] == b[a - 1]);
        lemma_after_ascii(rest, a - n);
    }
}

/// Line starts are character boundaries.
pub proof fn lemma_line_start_boundary(b: Seq<u8>, s: int)
    requires
        valid_utf8(b),
        0 <= s <= b.len(),
        s == 0 || b[s - 1] == 10u8,
    ensures
        is_char_boundary(b, s),
{
    if s == 0 {
        vstd::utf8::is_char_boundary_start_end_of_seq(b);
    } else {
        lemma_after_ascii(b, s);
    }
}

/// Where the line holding this spot begins.
pub fn line_start(text: &str, at: usize) -> (r: usize)
    requires
        at <= text.spec_bytes().len(),
        is_char_boundary(text.spec_bytes(), at as int),
    ensures
        r == line_start_of(text.spec_bytes(), at as int),
{
    let b = text.as_bytes();
    let mut i = at;
    while i > 0 && b[i - 1] != 10u8
        invariant
            b@ == text.spec_bytes(),
            i <= at <= b@.len(),
            line_start_of(b@, at as int) == line_start_of(b@, i as int),
        decreases i,
    {
        i = i - 1;
    }
    i
}

/// Where the line holding this spot ends, newline included.
pub fn line_end(text: &str, at: usize) -> (r: usize)
    requires
        at <= text.spec_bytes().len(),
        is_char_boundary(text.spec_bytes(), at as int),
    ensures
        r == line_end_of(text.spec_bytes(), at as int),
{
    let b = text.as_bytes();
    let mut i = at;
    while i < b.len() && b[i] != 10u8
        invariant
            b@ == text.spec_bytes(),
            at <= i <= b@.len(),
            line_end_of(b@, at as int) == line_end_of(b@, i as int),
        decreases b@.len() - i,
    {
        i = i + 1;
    }
    if i < b.len() {
        i + 1
    } else {
        i
    }
}

/// One range covers another.
pub open spec fn encloses_spec(outer: Range<usize>, inner: Range<usize>) -> bool {
    outer.start <= inner.start && outer.end >= inner.end
}

fn encloses(outer: &Range<usize>, inner: &Range<usize>) -> (r: bool)
    ensures
        r == encloses_spec(*outer, *inner),
{
    outer.start <= inner.start && outer.end >= inner.end
}

/// The text between two places holds nothing but white space.
pub open spec fn blank(b: Seq<u8>, from: int, to: int) -> bool {
    let chars = decode_utf8(b.subrange(from, to));
    forall|i: int| 0 <= i < chars.len() ==> is_ws(#[trigger] chars[i])
}

/// How far up a comment can reach: past the end of the first line of any definition that
/// encloses `own` and opens on an earlier line, since a comment above that line belongs
/// to the enclosure, not to anything inside it.
pub open spec fn floor_of(b: Seq<u8>, own: Range<usize>, claimed: Seq<Range<usize>>) -> int
    decreases claimed.len(),
{
    if claimed.len() == 0 {
        0
    } else {
        let rest = floor_of(b, own, claimed.drop_last());
        let r = claimed.last();
        if encloses_spec(r, own) && r.start < line_start_of(b, own.start as int) {
            vstd::math::max(rest, line_end_of(b, r.start as int))
        } else {
            rest
        }
    }
}

/// Some other definition, one that doesn't enclose `own`, speaks for part of the line
/// from `above` to `start`.
pub open spec fn barred(claimed: Seq<Range<usize>>, own: Range<usize>, above: int, start: int) -> bool {
    exists|i: int|
        0 <= i < claimed.len() && !encloses_spec(#[trigger] claimed[i], own) && claimed[i].start < start && claimed[i].end > above
}

/// Walks up from line start `start` while the line above is neither blank nor spoken for
/// by another definition, and doesn't go above `floor`.
pub open spec fn climb(b: Seq<u8>, floor: int, own: Range<usize>, claimed: Seq<Range<usize>>, start: int) -> int
    decreases start,
{
    if start <= floor || start <= 0 || start > b.len() {
        start
    } else {
        let above = line_start_of(b, start - 1);
        proof {
            lemma_line_start(b, start - 1);
        }
        if blank(b, above, start) || barred(claimed, own, above, start) {
            start
        } else {
            climb(b, floor, own, claimed, above)
        }
    }
}

/// What `preamble` answers: the run of lines from where the climb stops to the start of
/// `own`'s line, if there are any.
pub open spec fn preamble_spec(b: Seq<u8>, own: Range<usize>, claimed: Seq<Range<usize>>) -> Option<Range<usize>> {
    let owned = line_start_of(b, own.start as int);
    let start = climb(b, floor_of(b, own, claimed), own, claimed, owned);
    if start < owned {
        Some(Range { start: start as usize, end: owned as usize })
    } else {
        None
    }
}

/// Range `c` holds byte `p`.
pub open spec fn holds_byte(c: Range<usize>, p: int) -> bool {
    c.start <= p < c.end
}

/// The climb from a line start stops at a line start, no lower than where it began, and
/// the lines it passes hold no byte of a definition that doesn't enclose `own`.
proof fn lemma_climb_clear(b: Seq<u8>, floor: int, own: Range<usize>, claimed: Seq<Range<usize>>, start: int)
    requires
        0 <= start <= b.len(),
        start == 0 || b[start - 1] == 10u8,
    ensures
        climb(b, floor, own, claimed, start) <= start,
        climb(b, floor, own, claimed, start) == 0 || b[climb(b, floor, own, claimed, start) - 1] == 10u8,
        0 <= climb(b, floor, own, claimed, start),
        forall|i: int, p: int|
            0 <= i < claimed.len() && !encloses_spec(claimed[i], own) && climb(b, floor, own, claimed, start) <= p < start
                ==> !#[trigger] holds_byte(claimed[i], p),
    decreases start,
{
    if !(start <= floor || start <= 0 || start > b.len()) {
        let above = line_start_of(b, start - 1);
        lemma_line_start(b, start - 1);
        if !(blank(b, above, start) || barred(claimed, own, above, start)) {
            lemma_climb_clear(b, floor, own, claimed, above);
            assert forall|i: int, p: int|
                0 <= i < claimed.len() && !encloses_spec(claimed[i], own) && climb(b, floor, own, claimed, start) <= p < start
                    implies !#[trigger] holds_byte(claimed[i], p) by {
                if above <= p && holds_byte(claimed[i], p) {
                    assert(claimed[i].start < start && claimed[i].end > above);
                    assert(barred(claimed, own, above, start));
                }
            }
        }
    }
}

/// A preamble takes no other definition's line: it is a run of whole lines ending where
/// `own`'s line begins, and no definition that doesn't enclose `own` holds a byte of it.
pub proof fn lemma_preamble_unclaimed(b: Seq<u8>, own: Range<usize>, claimed: Seq<Range<usize>>)
    requires
        own.start <= b.len(),
    ensures
        preamble_spec(b, own, claimed) matches Some(r) ==> {
            &&& r.start < r.end
            &&& r.end == line_start_of(b, own.start as int)
            &&& (r.start == 0 || b[r.start - 1] == 10u8)
            &&& forall|i: int, p: int|
                0 <= i < claimed.len() && !encloses_spec(claimed[i], own) && r.start <= p < r.end
                    ==> !#[trigger] holds_byte(claimed[i], p)
        },
{
    let owned = line_start_of(b, own.start as int);
    lemma_line_start(b, own.start as int);
    lemma_climb_clear(b, floor_of(b, own, claimed), own, claimed, owned);
}

/// Whether the text between two line starts holds nothing but white space.
fn blank_between(text: &str, from: usize, to: usize) -> (r: bool)
    requires
        from <= to <= text.spec_bytes().len(),
        from == 0 || text.spec_bytes()[from - 1] == 10u8,
        to == 0 || text.spec_bytes()[to - 1] == 10u8,
    ensures
        r == blank(text.spec_bytes(), from as int, to as int),
{
    let ghost b = text.spec_bytes();
    proof {
        lemma_line_start_boundary(b, from as int);
    }
    let (_, tail) = text.split_at(from);
    let ghost t = tail.spec_bytes();
    assert(t =~= b.subrange(from as int, b.len() as int));
    proof {
        if to > from {
            assert(t[to - from - 1] == b[to - 1]);
            lemma_after_ascii(t, (to - from) as int);
        } else {
            vstd::utf8::is_char_boundary_start_end_of_seq(t);
        }
    }
    let (line, _) = tail.split_at(to - from);
    assert(line.spec_bytes() =~= b.subrange(from as int, to as int));
    assert(line@ == decode_utf8(line.spec_bytes()));
    let chars = crate::text::chars_of(line);
    for i in 0..chars.len()
        invariant
            b == text.spec_bytes(),
            from <= to <= b.len(),
            chars@ == decode_utf8(b.subrange(from as int, to as int)),
            forall|k: int| 0 <= k < i ==> is_ws(#[trigger] chars@[k]),
    {
        if !crate::matching::is_ws_exec(chars[i]) {
            assert(!is_ws(chars@[i as int]));
            return false;
        }
    }
    true
}

/// The unbroken run of lines directly above `own` that no other definition claims.
///
/// `claimed` is every range some definition speaks for, `own` included.
pub fn preamble(text: &str, own: &Range<usize>, claimed: &[Range<usize>]) -> (r: Option<Range<usize>>)
    requires
        own.start <= text.spec_bytes().len(),
        is_char_boundary(text.spec_bytes(), own.start as int),
        forall|i: int|
            0 <= i < claimed@.len() && encloses_spec(#[trigger] claimed@[i], *own) && claimed@[i].start < line_start_of(
                text.spec_bytes(),
                own.start as int,
            ) ==> is_char_boundary(text.spec_bytes(), claimed@[i].start as int),
    ensures
        r == preamble_spec(text.spec_bytes(), *own, claimed@),
{
    let ghost b = text.spec_bytes();
    let owned = line_start(text, own.start);
    proof {
        lemma_line_start(b, own.start as int);
    }
    let mut floor: usize = 0;
    for i in 0..claimed.len()
        invariant
            b == text.spec_bytes(),
            owned == line_start_of(b, own.start as int),
            owned <= b.len(),
            floor as int == floor_of(b, *own, claimed@.subrange(0, i as int)),
            forall|k: int|
                0 <= k < claimed@.len() && encloses_spec(#[trigger] claimed@[k], *own) && claimed@[k].start < owned
                    ==> is_char_boundary(b, claimed@[k].start as int),
    {
        let ghost next = claimed@.subrange(0, i + 1);
        assert(next.drop_last() =~= claimed@.subrange(0, i as int));
        let range = &claimed[i];
        if encloses(range, own) && range.start < owned {
            let end = line_end(text, range.start);
            if end > floor {
                floor = end;
            }
        }
    }
    assert(claimed@.subrange(0, claimed@.len() as int) =~= claimed@);
    let mut start = owned;
    proof {
        lemma_line_start(b, own.start as int);
    }
    loop
        invariant
            b == text.spec_bytes(),
            start <= owned <= b.len(),
            start == 0 || b[start - 1] == 10u8,
            floor as int == floor_of(b, *own, claimed@),
            climb(b, floor as int, *own, claimed@, start as int) == climb(b, floor as int, *own, claimed@, owned as int),
        ensures
            climb(b, floor as int, *own, claimed@, start as int) == start,
        decreases start,
    {
        if start <= floor {
            break;
        }
        proof {
            vstd::utf8::is_char_boundary_iff_not_is_continuation_byte(b, start - 1);
        }
        let above = line_start(text, start - 1);
        proof {
            lemma_line_start(b, start - 1);
        }
        if blank_between(text, above, start) {
            break;
        }
        let mut barred_here = false;
        let mut k: usize = 0;
        while k < claimed.len()
            invariant
                k <= claimed@.len(),
                barred_here == exists|j: int|
                    0 <= j < k && !encloses_spec(#[trigger] claimed@[j], *own) && claimed@[j].start < start && claimed@[j].end > above,
            decreases claimed@.len() - k,
        {
            let range = &claimed[k];
            if !encloses(range, own) && range.start < start && range.end > above {
                barred_here = true;
            }
            k = k + 1;
        }
        if barred_here {
            break;
        }
        start = above;
    }
    if start < owned {
        Some(start..owned)
    } else {
        None
    }
}

} // verus!
