//! Byte offsets, as a parser counts, against the line and UTF-16 column a language server
//! speaks in.

use crate::diff::{line_starts, starts_of};
use crate::model::{Piece, Span};
use crate::prose::lemma_line_start_boundary;
use crate::text::{chars_of, owned};
use vstd::prelude::*;
use vstd::string::StringSliceAdditionalSpecFns;
use vstd::utf8::{decode_utf8, encode_scalar, encode_utf8, is_char_boundary, valid_utf8};

verus! {

broadcast use {
    vstd::utf8::char_is_scalar,
    vstd::utf8::encode_utf8_valid_utf8,
    vstd::utf8::encode_utf8_decode_utf8,
    vstd::utf8::decode_utf8_encode_utf8,
};

/// How many UTF-16 units a character takes: two outside the basic plane, one inside it.
pub open spec fn utf16_width(c: char) -> nat {
    if (c as u32) < 0x10000 {
        1
    } else {
        2
    }
}

/// How many bytes a character takes in UTF-8.
pub open spec fn utf8_width(c: char) -> nat {
    encode_scalar(c as u32).len()
}

/// The UTF-16 units of a run of characters.
pub open spec fn units(cs: Seq<char>) -> nat
    decreases cs.len(),
{
    if cs.len() == 0 {
        0
    } else {
        utf16_width(cs[0]) + units(cs.drop_first())
    }
}

/// How many bytes are passed walking `column` UTF-16 units into a run of characters, a whole
/// character at a time; a column inside a character passes the whole of it.
pub open spec fn advance(cs: Seq<char>, column: nat) -> nat
    decreases cs.len(),
{
    if cs.len() == 0 || column == 0 {
        0
    } else {
        utf8_width(cs[0]) + advance(
            cs.drop_first(),
            if column > utf16_width(cs[0]) {
                (column - utf16_width(cs[0])) as nat
            } else {
                0
            },
        )
    }
}

/// How many of the leading line starts are at or before `o`.
pub open spec fn leading_at_most(starts: Seq<usize>, o: int) -> nat
    decreases starts.len(),
{
    if starts.len() == 0 || starts[0] > o {
        0
    } else {
        1 + leading_at_most(starts.drop_first(), o)
    }
}

/// The line holding byte `o`, counting from zero.
pub open spec fn line_of(t: Seq<char>, o: int) -> int {
    leading_at_most(starts_of(encode_utf8(t)), o) - 1
}

/// The line and UTF-16 column of byte `o` in a text, `o` clamped to the text's end. The
/// protocol's numbers are 32 bits wide; larger ones are cut down as `as u32` does.
pub open spec fn position_spec(t: Seq<char>, o: int) -> (u32, u32) {
    let b = encode_utf8(t);
    let line = line_of(t, o);
    let start = starts_of(b)[line] as int;
    let end = if o < b.len() { o } else { b.len() as int };
    (line as u32, units(decode_utf8(b.subrange(start, end))) as u32)
}

/// The byte a line and UTF-16 column point at: a line past the end points at the end of
/// the text, and a column past the end of the text stops there.
pub open spec fn offset_spec(t: Seq<char>, line: int, column: nat) -> int {
    let b = encode_utf8(t);
    let starts = starts_of(b);
    if line >= starts.len() {
        b.len() as int
    } else {
        starts[line] + advance(decode_utf8(b.subrange(starts[line] as int, b.len() as int)), column)
    }
}

/// Whether byte `o` of a text begins a character that stepping from the start of its line
/// reaches, or is the end of the text.
pub open spec fn lands(t: Seq<char>, o: int) -> bool {
    0 <= o <= encode_utf8(t).len() && is_char_boundary(encode_utf8(t), o)
}

proof fn lemma_starts(b: Seq<u8>)
    requires
        b.len() <= usize::MAX,
    ensures
        starts_of(b).len() >= 1,
        starts_of(b)[0] == 0,
        starts_of(b).len() <= b.len() + 1,
        forall|j: int|
            0 <= j < starts_of(b).len() ==> (#[trigger] starts_of(b)[j]) <= b.len() && (starts_of(b)[j] == 0 || b[starts_of(
                b,
            )[j] - 1] == 10u8),
    decreases b.len(),
{
    if b.len() > 0 {
        let c = b.drop_last();
        lemma_starts(c);
        assert forall|j: int| 0 <= j < starts_of(b).len() implies (#[trigger] starts_of(b)[j]) <= b.len() && (starts_of(b)[j] == 0
            || b[starts_of(b)[j] - 1] == 10u8) by {
            if j < starts_of(c).len() {
                assert(starts_of(b)[j] == starts_of(c)[j]);
                if starts_of(c)[j] != 0 {
                    assert(b[starts_of(c)[j] - 1] == c[starts_of(c)[j] - 1]);
                }
            } else {
                assert(b.last() == 10u8);
                assert(starts_of(b)[j] == b.len());
            }
        }
    }
}

proof fn lemma_leading(starts: Seq<usize>, o: int, k: int)
    requires
        0 <= k <= starts.len(),
        forall|j: int| 0 <= j < k ==> starts[j] <= o,
        k == starts.len() || starts[k] > o,
    ensures
        leading_at_most(starts, o) == k,
    decreases k,
{
    if k > 0 {
        lemma_leading(starts.drop_first(), o, k - 1);
    }
}

proof fn lemma_leading_props(starts: Seq<usize>, o: int)
    ensures
        leading_at_most(starts, o) <= starts.len(),
        forall|j: int| 0 <= j < leading_at_most(starts, o) ==> starts[j] <= o,
    decreases starts.len(),
{
    if starts.len() > 0 && starts[0] <= o {
        lemma_leading_props(starts.drop_first(), o);
        assert forall|j: int| 0 <= j < leading_at_most(starts, o) implies starts[j] <= o by {
            if j > 0 {
                assert(starts[j] == starts.drop_first()[j - 1]);
            }
        }
    }
}

proof fn lemma_units_fit(cs: Seq<char>)
    ensures
        units(cs) <= encode_utf8(cs).len(),
        encode_utf8(cs).len() == if cs.len() == 0 { 0 } else { utf8_width(cs[0]) + encode_utf8(cs.drop_first()).len() },
    decreases cs.len(),
{
    if cs.len() > 0 {
        lemma_units_fit(cs.drop_first());
        vstd::utf8::char_is_scalar(cs[0]);
    }
}

proof fn lemma_advance_units(xs: Seq<char>, ys: Seq<char>)
    ensures
        advance(xs + ys, units(xs)) == encode_utf8(xs).len(),
    decreases xs.len(),
{
    lemma_units_fit(xs);
    if xs.len() > 0 {
        assert((xs + ys).drop_first() =~= xs.drop_first() + ys);
        lemma_advance_units(xs.drop_first(), ys);
        if units(xs.drop_first()) == 0 {
            if xs.drop_first().len() > 0 {
                lemma_units_fit(xs.drop_first().drop_first());
            }
            assert(xs.drop_first().len() == 0);
        }
    } else {
        assert(xs + ys =~= ys);
    }
}

/// How many bytes a character takes in UTF-8.
fn utf8_width_exec(c: char) -> (r: usize)
    ensures
        r == utf8_width(c),
{
    let v = c as u32;
    proof {
        vstd::utf8::char_is_scalar(c);
    }
    if v < 0x80 {
        1
    } else if v < 0x800 {
        2
    } else if v < 0x10000 {
        3
    } else {
        4
    }
}

/// How many UTF-16 units a character takes.
fn utf16_width_exec(c: char) -> (r: usize)
    ensures
        r == utf16_width(c),
{
    if (c as u32) < 0x10000 {
        1
    } else {
        2
    }
}

/// A text, with where each of its lines starts.
pub struct Lines {
    starts: Vec<usize>,
    text: String,
}

impl View for Lines {
    type V = Seq<char>;

    open spec fn view(&self) -> Seq<char> {
        self.chars()
    }
}

impl Lines {
    /// The text's characters.
    pub closed spec fn chars(&self) -> Seq<char> {
        self.text@
    }

    /// The line starts are the text's.
    pub closed spec fn wf(&self) -> bool {
        self.starts@ == starts_of(encode_utf8(self.text@))
    }

    pub fn new(text: &str) -> (r: Lines)
        ensures
            r.wf(),
            r@ == text@,
    {
        Lines { starts: line_starts(text), text: owned(text) }
    }

    /// The line and UTF-16 column of a byte, counting both from zero.
    pub fn position(&self, offset: usize) -> (r: (u32, u32))
        requires
            self.wf(),
            offset >= encode_utf8(self@).len() || is_char_boundary(encode_utf8(self@), offset as int),
        ensures
            r == position_spec(self@, offset as int),
    {
        let ghost b = encode_utf8(self@);
        let n = self.text.as_str().as_bytes().len();
        proof {
            lemma_starts(b);
        }
        let mut k: usize = 0;
        while k < self.starts.len() && self.starts[k] <= offset
            invariant
                self.wf(),
                b == encode_utf8(self@),
                k <= self.starts@.len(),
                forall|j: int| 0 <= j < k ==> self.starts@[j] <= offset,
            decreases self.starts@.len() - k,
        {
            k = k + 1;
        }
        proof {
            lemma_leading(self.starts@, offset as int, k as int);
        }
        let line = k - 1;
        let start = self.starts[line];
        let text = self.text.as_str();
        assert(text.spec_bytes() == b);
        let end = if offset < n { offset } else { n };
        proof {
            vstd::utf8::is_char_boundary_start_end_of_seq(b);
            assert(is_char_boundary(b, end as int));
        }
        let (head, _) = text.split_at(end);
        let ghost h = head.spec_bytes();
        proof {
            vstd::utf8::valid_utf8_split(b, end as int);
            assert(start == 0 || h[start - 1] == b[start - 1]);
            lemma_line_start_boundary(h, start as int);
        }
        let (_, mid) = head.split_at(start);
        assert(mid.spec_bytes() =~= b.subrange(start as int, end as int));
        let cs = chars_of(mid);
        assert(cs@ == decode_utf8(b.subrange(start as int, end as int)));
        proof {
            lemma_units_fit(cs@);
        }
        let mut column: usize = 0;
        let mut i: usize = 0;
        assert(cs@.skip(0) =~= cs@);
        while i < cs.len()
            invariant
                i <= cs@.len(),
                column + units(cs@.skip(i as int)) == units(cs@),
                units(cs@) <= usize::MAX,
            decreases cs@.len() - i,
        {
            assert(cs@.skip(i as int).drop_first() =~= cs@.skip(i + 1));
            column = column + utf16_width_exec(cs[i]);
            i = i + 1;
        }
        (line as u32, column as u32)
    }

    /// The byte a line and UTF-16 column point at. A line past the end lands at the end.
    pub fn offset(&self, line: u32, column: u32) -> (r: usize)
        requires
            self.wf(),
        ensures
            r == offset_spec(self@, line as int, column as nat),
            lands(self@, r as int),
    {
        let ghost b = encode_utf8(self@);
        let l = line as usize;
        let text = self.text.as_str();
        assert(text.spec_bytes() == b);
        let n = text.as_bytes().len();
        proof {
            lemma_starts(b);
            lemma_offset_lands(self@, line as int, column as nat);
        }
        if l >= self.starts.len() {
            return n;
        }
        let start = self.starts[l];
        proof {
            lemma_line_start_boundary(b, start as int);
        }
        let (_, tail) = text.split_at(start);
        let ghost t = tail.spec_bytes();
        assert(t =~= b.subrange(start as int, b.len() as int));
        let cs = chars_of(tail);
        assert(cs@ == decode_utf8(t));
        proof {
            vstd::utf8::valid_utf8_split(b, start as int);
        }
        assert(encode_utf8(cs@) == t);
        let mut offset = start;
        let mut remaining = column as usize;
        let mut i: usize = 0;
        assert(cs@.skip(0) =~= cs@);
        while i < cs.len() && remaining > 0
            invariant
                i <= cs@.len(),
                n == b.len(),
                offset + encode_utf8(cs@.skip(i as int)).len() == b.len(),
                offset + advance(cs@.skip(i as int), remaining as nat) == start + advance(cs@, column as nat),
            decreases cs@.len() - i,
        {
            assert(cs@.skip(i as int).drop_first() =~= cs@.skip(i + 1));
            proof {
                lemma_units_fit(cs@.skip(i as int));
            }
            let w16 = utf16_width_exec(cs[i]);
            remaining = if remaining > w16 { remaining - w16 } else { 0 };
            offset = offset + utf8_width_exec(cs[i]);
            i = i + 1;
        }
        offset
    }

    /// The text.
    pub fn text(&self) -> (r: &str)
        ensures
            r@ == self@,
    {
        self.text.as_str()
    }

    /// One stretch of the text, by bytes.
    pub fn slice(&self, range: &std::ops::Range<usize>) -> (r: &str)
        requires
            range.start <= range.end <= encode_utf8(self@).len(),
            is_char_boundary(encode_utf8(self@), range.start as int),
            is_char_boundary(encode_utf8(self@), range.end as int),
        ensures
            r.spec_bytes() == encode_utf8(self@).subrange(range.start as int, range.end as int),
    {
        let ghost b = encode_utf8(self@);
        let text = self.text.as_str();
        assert(text.spec_bytes() == b);
        let (head, _) = text.split_at(range.end);
        proof {
            vstd::utf8::valid_utf8_split(b, range.end as int);
            let h = head.spec_bytes();
            if range.start < range.end {
                vstd::utf8::is_char_boundary_iff_not_is_continuation_byte(b, range.start as int);
                vstd::utf8::is_char_boundary_iff_not_is_continuation_byte(h, range.start as int);
                assert(h[range.start as int] == b[range.start as int]);
            } else {
                vstd::utf8::is_char_boundary_start_end_of_seq(h);
            }
        }
        let (_, mid) = head.split_at(range.start);
        assert(mid.spec_bytes() =~= b.subrange(range.start as int, range.end as int));
        mid
    }

    /// One stretch of the file as a definition's part, with the line it starts on, counting
    /// from one.
    pub fn piece(&self, file: &str, range: &std::ops::Range<usize>) -> (r: Piece)
        requires
            self.wf(),
            range.start <= range.end <= encode_utf8(self@).len(),
            is_char_boundary(encode_utf8(self@), range.start as int),
            is_char_boundary(encode_utf8(self@), range.end as int),
            position_spec(self@, range.start as int).0 < u32::MAX,
        ensures
            r.text@ == decode_utf8(encode_utf8(self@).subrange(range.start as int, range.end as int)),
            r.span == (Span { start: range.start as u32, end: range.end as u32 }),
            r.line == position_spec(self@, range.start as int).0 + 1,
            r.file@ == file@,
    {
        let text = self.slice(range);
        let line = self.position(range.start).0 + 1;
        Piece {
            text: owned(text),
            span: Span { start: range.start as u32, end: range.end as u32 },
            line,
            file: owned(file),
        }
    }
}

proof fn lemma_prefix_boundary(cs: Seq<char>, k: int)
    requires
        0 <= k <= cs.len(),
    ensures
        is_char_boundary(encode_utf8(cs), encode_utf8(cs.take(k)).len() as int),
        encode_utf8(cs.take(k)).len() <= encode_utf8(cs).len(),
    decreases k,
{
    let bytes = encode_utf8(cs);
    if k == 0 {
        assert(cs.take(0) =~= Seq::<char>::empty());
    } else {
        vstd::utf8::encode_utf8_first_scalar(cs);
        assert(vstd::utf8::pop_first_scalar(bytes) =~= encode_utf8(cs.drop_first()));
        assert(cs.take(k).drop_first() =~= cs.drop_first().take(k - 1));
        assert(cs.take(k)[0] == cs[0]);
        lemma_prefix_boundary(cs.drop_first(), k - 1);
    }
}

/// Walking some UTF-16 units into a run of characters passes whole characters: it stops
/// where the first so many of them end.
proof fn lemma_advance_prefix(cs: Seq<char>, column: nat) -> (k: int)
    ensures
        0 <= k <= cs.len(),
        advance(cs, column) == encode_utf8(cs.take(k)).len(),
    decreases cs.len(),
{
    if cs.len() == 0 || column == 0 {
        assert(cs.take(0) =~= Seq::<char>::empty());
        0
    } else {
        let next = if column > utf16_width(cs[0]) { (column - utf16_width(cs[0])) as nat } else { 0 };
        let k = lemma_advance_prefix(cs.drop_first(), next);
        assert(cs.take(k + 1).drop_first() =~= cs.drop_first().take(k));
        assert(cs.take(k + 1)[0] == cs[0]);
        k + 1
    }
}

/// Every offset lands on the start of a character, or at the end of the text.
pub proof fn lemma_offset_lands(t: Seq<char>, line: int, column: nat)
    requires
        0 <= line,
        encode_utf8(t).len() <= usize::MAX,
    ensures
        lands(t, offset_spec(t, line, column)),
{
    let b = encode_utf8(t);
    let starts = starts_of(b);
    lemma_starts(b);
    vstd::utf8::is_char_boundary_start_end_of_seq(b);
    if line < starts.len() {
        let st = starts[line] as int;
        lemma_line_start_boundary(b, st);
        vstd::utf8::valid_utf8_split(b, st);
        let tail = b.subrange(st, b.len() as int);
        let cs = decode_utf8(tail);
        assert(encode_utf8(cs) == tail);
        let k = lemma_advance_prefix(cs, column);
        lemma_prefix_boundary(cs, k);
        let j = encode_utf8(cs.take(k)).len() as int;
        if j < tail.len() {
            vstd::utf8::is_char_boundary_iff_not_is_continuation_byte(tail, j);
            vstd::utf8::is_char_boundary_iff_not_is_continuation_byte(b, st + j);
            assert(tail[j] == b[st + j]);
        }
    }
}

/// In a text shorter than `u32::MAX` bytes, every line number fits with room for one more.
pub proof fn lemma_line_fits(t: Seq<char>, o: int)
    requires
        0 <= o,
        encode_utf8(t).len() < u32::MAX,
    ensures
        position_spec(t, o).0 < u32::MAX,
{
    let b = encode_utf8(t);
    lemma_starts(b);
    lemma_leading_props(starts_of(b), o);
    let k = leading_at_most(starts_of(b), o);
    assert(starts_of(b)[0] <= o);
    assert(k >= 1);
    assert(0 <= k - 1 < u32::MAX);
}

/// A position and an offset mean the same spot: the byte a character begins at, taken to
/// its line and column and back, is where it started. Holds while the text's lines and
/// columns fit the protocol's 32-bit numbers.
pub proof fn lemma_offset_of_position(t: Seq<char>, o: int)
    requires
        lands(t, o),
        encode_utf8(t).len() < u32::MAX,
    ensures
        offset_spec(t, position_spec(t, o).0 as int, position_spec(t, o).1 as nat) == o,
{
    let b = encode_utf8(t);
    let starts = starts_of(b);
    lemma_starts(b);
    lemma_leading_props(starts, o);
    let l = line_of(t, o);
    let st = starts[l] as int;
    assert(st <= o);
    lemma_line_start_boundary(b, st);
    vstd::utf8::valid_utf8_split(b, st);
    let tail = b.subrange(st, b.len() as int);
    if o < b.len() {
        vstd::utf8::is_char_boundary_iff_not_is_continuation_byte(b, o);
        vstd::utf8::is_char_boundary_iff_not_is_continuation_byte(tail, o - st);
        assert(tail[o - st] == b[o]);
    } else {
        vstd::utf8::is_char_boundary_start_end_of_seq(tail);
    }
    vstd::utf8::decode_utf8_split(tail, o - st);
    vstd::utf8::valid_utf8_split(tail, o - st);
    let head = tail.subrange(0, o - st);
    assert(head =~= b.subrange(st, o));
    let xs = decode_utf8(head);
    let ys = decode_utf8(tail.subrange(o - st, tail.len() as int));
    lemma_advance_units(xs, ys);
    lemma_units_fit(xs);
    assert(encode_utf8(xs) == head);
}

} // verus!
