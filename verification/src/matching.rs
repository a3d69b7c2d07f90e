//! Deciding which definitions in the two snapshots are the same definition, and saying
//! everything else in terms of the identities that fall out.

use crate::diagnostic::{diagnostic_views, Diagnostic, DiagnosticView};
use crate::model::{
    copy_locator, Definition, DefinitionView, Identity, Locator, LocatorView, Occurrence, OccurrenceView, Part, Piece, Sides, SidesView,
    text_of,
};
use crate::checks::{checked, checked_as};
use crate::reference::{Mention, Reference, Site, Target};
use crate::text::{push_char, seq_lt};
use vstd::multiset::Multiset;
use vstd::prelude::*;

verus! {

// ---------------------------------------------------------------------------------------
// Lines, for telling how alike two definitions read.

/// Whether a character is white space, as Rust's `char::is_whitespace` says.
pub open spec fn is_ws(c: char) -> bool {
    ||| c == '\t' || c == '\n' || c == '\u{0B}' || c == '\u{0C}' || c == '\r' || c == ' '
    ||| c == '\u{85}' || c == '\u{A0}' || c == '\u{1680}'
    ||| ('\u{2000}' <= c && c <= '\u{200A}')
    ||| c == '\u{2028}' || c == '\u{2029}' || c == '\u{202F}' || c == '\u{205F}' || c == '\u{3000}'
}

pub(crate) fn is_ws_exec(c: char) -> (r: bool)
    ensures
        r == is_ws(c),
{
    c == '\t' || c == '\n' || c == '\u{0B}' || c == '\u{0C}' || c == '\r' || c == ' ' || c == '\u{85}' || c
        == '\u{A0}' || c == '\u{1680}' || ('\u{2000}' <= c && c <= '\u{200A}') || c == '\u{2028}' || c == '\u{2029}'
        || c == '\u{202F}' || c == '\u{205F}' || c == '\u{3000}'
}

/// `a` and `b` cut the white space off both ends of `s`.
pub open spec fn trim_bounds(s: Seq<char>, a: int, b: int) -> bool {
    &&& 0 <= a <= b <= s.len()
    &&& forall|i: int| 0 <= i < a ==> is_ws(#[trigger] s[i])
    &&& forall|i: int| b <= i < s.len() ==> is_ws(#[trigger] s[i])
    &&& a < b ==> !is_ws(s[a]) && !is_ws(s[b - 1])
    &&& a == b ==> forall|i: int| 0 <= i < s.len() ==> is_ws(#[trigger] s[i])
}

/// A text with the white space cut off both ends.
pub open spec fn trimmed(s: Seq<char>) -> Seq<char> {
    let (a, b) = choose|a: int, b: int| trim_bounds(s, a, b);
    s.subrange(a, b)
}

proof fn lemma_trim_unique(s: Seq<char>, a: int, b: int)
    requires
        trim_bounds(s, a, b),
    ensures
        trimmed(s) == s.subrange(a, b),
{
    let (c, d) = choose|c: int, d: int| trim_bounds(s, c, d);
    if a < b {
        if c < d {
            if c < a {
                assert(is_ws(s[c]));
            }
            if a < c {
                assert(is_ws(s[a]));
            }
            if d < b {
                assert(is_ws(s[b - 1]));
            }
            if b < d {
                assert(is_ws(s[d - 1]));
            }
        } else {
            assert(is_ws(s[a]));
        }
    } else if c < d {
        assert(is_ws(s[c]));
    }
    assert(s.subrange(a, b) =~= s.subrange(c, d));
}

/// A text with the white space cut off both ends.
fn trim(s: &Vec<char>) -> (r: Vec<char>)
    ensures
        r@ == trimmed(s@),
{
    let n = s.len();
    let mut a: usize = 0;
    while a < n && is_ws_exec(s[a])
        invariant
            n == s@.len(),
            a <= n,
            forall|i: int| 0 <= i < a ==> is_ws(#[trigger] s@[i]),
        decreases n - a,
    {
        a = a + 1;
    }
    let mut b: usize = n;
    while b > a && is_ws_exec(s[b - 1])
        invariant
            n == s@.len(),
            a <= b <= n,
            forall|i: int| b <= i < n ==> is_ws(#[trigger] s@[i]),
        decreases b,
    {
        b = b - 1;
    }
    proof {
        if a == b {
            assert forall|i: int| 0 <= i < s@.len() implies is_ws(#[trigger] s@[i]) by {
                if i >= a {
                    assert(i >= b);
                }
            }
        }
        assert(trim_bounds(s@, a as int, b as int));
        lemma_trim_unique(s@, a as int, b as int);
    }
    let mut r: Vec<char> = Vec::new();
    let mut i = a;
    while i < b
        invariant
            a <= i <= b <= s@.len(),
            r@ == s@.subrange(a as int, i as int),
        decreases b - i,
    {
        r.push(s[i]);
        assert(s@.subrange(a as int, i + 1) =~= s@.subrange(a as int, i as int).push(s@[i as int]));
        i = i + 1;
    }
    r
}

/// A text split at each line break.
pub open spec fn segments(s: Seq<char>) -> Seq<Seq<char>>
    decreases s.len(),
{
    if s.len() == 0 {
        seq![Seq::empty()]
    } else {
        let p = segments(s.drop_last());
        if s.last() == '\n' {
            p.push(Seq::empty())
        } else {
            p.update(p.len() - 1, p.last().push(s.last()))
        }
    }
}

proof fn lemma_segments_len(s: Seq<char>)
    ensures
        segments(s).len() >= 1,
    decreases s.len(),
{
    if s.len() > 0 {
        lemma_segments_len(s.drop_last());
    }
}

/// Lines trimmed, with the empty ones left out.
pub open spec fn nonblank(segs: Seq<Seq<char>>) -> Seq<Seq<char>>
    decreases segs.len(),
{
    if segs.len() == 0 {
        Seq::empty()
    } else {
        let t = trimmed(segs.last());
        nonblank(segs.drop_last()) + if t.len() > 0 { seq![t] } else { Seq::empty() }
    }
}

/// A text's lines, each trimmed, blank ones left out.
pub open spec fn lines_of(s: Seq<char>) -> Seq<Seq<char>> {
    nonblank(segments(s))
}

/// A text's lines, each trimmed, blank ones left out.
fn lines_in(text: &String) -> (r: Vec<Vec<char>>)
    ensures
        r@.map_values(|l: Vec<char>| l@) == lines_of(text@),
{
    let chars = crate::text::chars_of(text.as_str());
    let mut done: Vec<Vec<char>> = Vec::new();
    let mut current: Vec<char> = Vec::new();
    let ghost mut segs: Seq<Seq<char>> = seq![Seq::empty()];
    for i in 0..chars.len()
        invariant
            segs == segments(chars@.subrange(0, i as int)),
            segs.len() >= 1,
            current@ == segs.last(),
            done@.map_values(|l: Vec<char>| l@) == nonblank(segs.drop_last()),
    {
        let ghost prefix = chars@.subrange(0, i as int);
        let ghost next = chars@.subrange(0, i + 1);
        assert(next.drop_last() =~= prefix);
        let c = chars[i];
        if c == '\n' {
            let t = trim(&current);
            let ghost was = done@;
            if t.len() > 0 {
                done.push(t);
            }
            current = Vec::new();
            proof {
                let s2 = segs.push(Seq::empty());
                assert(s2.drop_last() =~= segs);
                assert(done@.map_values(|l: Vec<char>| l@) =~= nonblank(s2.drop_last()));
                segs = s2;
            }
        } else {
            current.push(c);
            proof {
                let s2 = segs.update(segs.len() - 1, segs.last().push(c));
                assert(s2.drop_last() =~= segs.drop_last());
                segs = s2;
            }
        }
    }
    assert(chars@.subrange(0, chars@.len() as int) =~= chars@);
    let t = trim(&current);
    if t.len() > 0 {
        done.push(t);
    }
    proof {
        assert(segs =~= segs.drop_last().push(segs.last()));
        assert(done@.map_values(|l: Vec<char>| l@) =~= nonblank(segs));
    }
    done
}


/// A part's lines.
pub open spec fn part_lines(o: OccurrenceView, part: Part) -> Seq<Seq<char>> {
    match text_of(o, part) {
        Some(t) => lines_of(t),
        None => Seq::empty(),
    }
}

/// Every line of a definition, part by part.
pub open spec fn lines_all(o: OccurrenceView) -> Seq<Seq<char>> {
    part_lines(o, Part::Contract) + part_lines(o, Part::Body) + part_lines(o, Part::Docs)
}

/// How many lines a part has, none when it is absent.
pub open spec fn line_count(o: OccurrenceView, part: Part) -> nat {
    match text_of(o, part) {
        Some(t) => lines_of(t).len(),
        None => 0,
    }
}

/// Likeness weighs every part: each line of the contract, the body and the docs is among
/// the lines compared, where it stands in its part, and nothing else is.
pub proof fn lemma_every_part_compared(o: OccurrenceView)
    ensures
        lines_all(o).len() == line_count(o, Part::Contract) + line_count(o, Part::Body) + line_count(o, Part::Docs),
        forall|p: Part, t: Seq<char>, k: int|
            #![trigger text_of(o, p), lines_of(t)[k]]
            text_of(o, p) == Some(t) && 0 <= k < lines_of(t).len() ==> lines_all(o).contains(lines_of(t)[k]),
        forall|t: Seq<char>, k: int|
            #![trigger lines_of(t)[k]]
            text_of(o, Part::Contract) == Some(t) && 0 <= k < lines_of(t).len() ==> lines_all(o)[k] == lines_of(t)[k],
{
    let a = part_lines(o, Part::Contract);
    let b = part_lines(o, Part::Body);
    let c = part_lines(o, Part::Docs);
    let all = lines_all(o);
    assert(all == a + b + c);
    assert forall|p: Part, t: Seq<char>, k: int|
        #![trigger text_of(o, p), lines_of(t)[k]]
        text_of(o, p) == Some(t) && 0 <= k < lines_of(t).len() implies all.contains(lines_of(t)[k]) by {
        match p {
            Part::Contract => {
                assert(all[k] == a[k]);
            },
            Part::Body => {
                assert(all[a.len() + k] == b[k]);
            },
            Part::Docs => {
                assert(all[a.len() + b.len() + k] == c[k]);
            },
        }
    }
}

/// How many lines two definitions have in common, a line counting as often as it appears
/// on both sides.
pub open spec fn shared(was: Seq<Seq<char>>, is: Seq<Seq<char>>) -> nat {
    was.to_multiset().intersection_with(is.to_multiset()).len()
}

/// Adds a part's lines to the end of a list.
fn add_part_lines(r: &mut Vec<Vec<char>>, o: &Occurrence, part: Part)
    ensures
        final(r)@.map_values(|l: Vec<char>| l@) == old(r)@.map_values(|l: Vec<char>| l@) + part_lines(o@, part),
{
    match o.text_of(part) {
        Some(t) => {
            let mut more = lines_in(&t);
            let ghost was = r@;
            let ghost add = more@;
            r.append(&mut more);
            assert(r@.map_values(|l: Vec<char>| l@) =~= was.map_values(|l: Vec<char>| l@) + add.map_values(|l: Vec<char>| l@));
        },
        None => {
            assert(part_lines(o@, part) =~= Seq::empty());
            assert(r@.map_values(|l: Vec<char>| l@) =~= r@.map_values(|l: Vec<char>| l@) + part_lines(o@, part));
        },
    }
}

/// Every line of a definition, part by part.
fn all_lines(o: &Occurrence) -> (r: Vec<Vec<char>>)
    ensures
        r@.map_values(|l: Vec<char>| l@) == lines_all(o@),
{
    let mut r: Vec<Vec<char>> = Vec::new();
    assert(r@.map_values(|l: Vec<char>| l@) =~= Seq::empty());
    add_part_lines(&mut r, o, Part::Contract);
    add_part_lines(&mut r, o, Part::Body);
    add_part_lines(&mut r, o, Part::Docs);
    assert(r@.map_values(|l: Vec<char>| l@) =~= lines_all(o@));
    r
}

/// Whether two runs of characters are the same.
fn chars_eq(a: &Vec<char>, b: &Vec<char>) -> (r: bool)
    ensures
        r == (a@ == b@),
{
    if a.len() != b.len() {
        return false;
    }
    for i in 0..a.len()
        invariant
            a@.len() == b@.len(),
            forall|k: int| 0 <= k < i ==> a@[k] == b@[k],
    {
        if a[i] != b[i] {
            return false;
        }
    }
    assert(a@ =~= b@);
    true
}

/// How many of the lines not yet claimed, among the first `k`, read `x`.
spec fn free_count(is: Seq<Seq<char>>, used: Seq<bool>, x: Seq<char>, k: int) -> int
    decreases k,
{
    if k <= 0 {
        0
    } else {
        free_count(is, used, x, k - 1) + if !used[k - 1] && is[k - 1] == x { 1int } else { 0int }
    }
}

proof fn lemma_free_claim(is: Seq<Seq<char>>, used: Seq<bool>, j: int, k: int)
    requires
        0 <= j < used.len(),
        used.len() == is.len(),
        !used[j],
        0 <= k <= is.len(),
    ensures
        forall|y: Seq<char>| #[trigger] free_count(is, used.update(j, true), y, k) == free_count(is, used, y, k) - if j < k && is[j] == y { 1int } else { 0int },
    decreases k,
{
    if k > 0 {
        lemma_free_claim(is, used, j, k - 1);
        assert forall|y: Seq<char>| #[trigger] free_count(is, used.update(j, true), y, k) == free_count(is, used, y, k) - if j < k && is[j] == y { 1int } else { 0int } by {
            assert(free_count(is, used.update(j, true), y, k - 1) == free_count(is, used, y, k - 1) - if j < k - 1 && is[j] == y { 1int } else { 0int });
        }
    }
}

proof fn lemma_free_all(is: Seq<Seq<char>>, used: Seq<bool>, k: int)
    requires
        0 <= k <= is.len(),
        used.len() == is.len(),
        forall|j: int| 0 <= j < used.len() ==> !used[j],
    ensures
        forall|y: Seq<char>| #[trigger] free_count(is, used, y, k) == is.subrange(0, k).to_multiset().count(y),
    decreases k,
{
    broadcast use vstd::seq_lib::group_to_multiset_ensures;
    broadcast use vstd::multiset::group_multiset_axioms;
    if k > 0 {
        lemma_free_all(is, used, k - 1);
        assert(is.subrange(0, k) =~= is.subrange(0, k - 1).push(is[k - 1]));
        vstd::seq_lib::to_multiset_build(is.subrange(0, k - 1), is[k - 1]);
        assert forall|y: Seq<char>| #[trigger] free_count(is, used, y, k) == is.subrange(0, k).to_multiset().count(y) by {
            assert(free_count(is, used, y, k - 1) == is.subrange(0, k - 1).to_multiset().count(y));
            assert(!used[k - 1]);
            assert(is.subrange(0, k).to_multiset() == is.subrange(0, k - 1).to_multiset().insert(is[k - 1]));
        }
    } else {
        assert(is.subrange(0, 0) =~= Seq::<Seq<char>>::empty());
        assert(is.subrange(0, 0).to_multiset() =~= Multiset::empty());
    }
}

proof fn lemma_free_none(is: Seq<Seq<char>>, used: Seq<bool>, x: Seq<char>, k: int)
    requires
        0 <= k <= is.len(),
        forall|j: int| 0 <= j < k && is[j] == x ==> used[j],
    ensures
        free_count(is, used, x, k) == 0,
    decreases k,
{
    if k > 0 {
        lemma_free_none(is, used, x, k - 1);
    }
}

proof fn lemma_free_some(is: Seq<Seq<char>>, used: Seq<bool>, x: Seq<char>, k: int, j: int)
    requires
        0 <= j < k <= is.len(),
        !used[j],
        is[j] == x,
    ensures
        free_count(is, used, x, k) >= 1,
    decreases k,
{
    lemma_free_nonneg(is, used, x, k - 1);
    if j < k - 1 {
        lemma_free_some(is, used, x, k - 1, j);
    }
}

proof fn lemma_free_nonneg(is: Seq<Seq<char>>, used: Seq<bool>, x: Seq<char>, k: int)
    ensures
        free_count(is, used, x, k) >= 0,
    decreases k,
{
    if k > 0 {
        lemma_free_nonneg(is, used, x, k - 1);
    }
}

/// How many lines two definitions have in common.
fn count_shared(was: &Vec<Vec<char>>, is: &Vec<Vec<char>>) -> (r: usize)
    ensures
        r == shared(was@.map_values(|l: Vec<char>| l@), is@.map_values(|l: Vec<char>| l@)),
{
    broadcast use vstd::seq_lib::group_to_multiset_ensures;
    broadcast use vstd::multiset::group_multiset_axioms;
    let ghost w = was@.map_values(|l: Vec<char>| l@);
    let ghost iv = is@.map_values(|l: Vec<char>| l@);
    let mut used: Vec<bool> = Vec::new();
    for j in 0..is.len()
        invariant
            used@.len() == j,
            forall|k: int| 0 <= k < j ==> !used@[k],
    {
        used.push(false);
    }
    proof {
        lemma_free_all(iv, used@, iv.len() as int);
        assert(iv.subrange(0, iv.len() as int) =~= iv);
    }
    let mut count: usize = 0;
    let ghost mut inter: Multiset<Seq<char>> = Multiset::empty();
    proof {
        assert(w.subrange(0, 0) =~= Seq::<Seq<char>>::empty());
        assert(w.subrange(0, 0).to_multiset() =~= Multiset::empty());
        assert forall|y: Seq<char>| #[trigger] w.subrange(0, 0).to_multiset().intersection_with(iv.to_multiset()).count(y) == inter.count(y) by {
            vstd::multiset::lemma_intersection_count(w.subrange(0, 0).to_multiset(), iv.to_multiset(), y);
        }
        assert(inter =~= w.subrange(0, 0).to_multiset().intersection_with(iv.to_multiset()));
    }
    for i in 0..was.len()
        invariant
            w == was@.map_values(|l: Vec<char>| l@),
            iv == is@.map_values(|l: Vec<char>| l@),
            used@.len() == iv.len(),
            count == inter.len(),
            count <= i,
            inter == w.subrange(0, i as int).to_multiset().intersection_with(iv.to_multiset()),
            forall|y: Seq<char>| #[trigger] free_count(iv, used@, y, iv.len() as int) == iv.to_multiset().count(y) - inter.count(y),
    {
        let ghost prefix = w.subrange(0, i as int);
        let ghost next = w.subrange(0, i + 1);
        let ghost x = w[i as int];
        assert(next =~= prefix.push(x));
        let mut found: Option<usize> = None;
        for j in 0..is.len()
            invariant
                iv == is@.map_values(|l: Vec<char>| l@),
                used@.len() == iv.len(),
                i < was@.len(),
                x == was@[i as int]@,
                found matches Some(f) ==> f < iv.len() && !used@[f as int] && iv[f as int] == x,
                found is None ==> forall|k: int| 0 <= k < j && iv[k] == x ==> used@[k],
        {
            if found.is_none() && !used[j] && chars_eq(&is[j], &was[i]) {
                found = Some(j);
            }
        }
        let ghost before = used@;
        proof {
            vstd::seq_lib::to_multiset_build(prefix, x);
        }
        match found {
            Some(f) => {
                used.set(f, true);
                proof {
                    lemma_free_claim(iv, before, f as int, iv.len() as int);
                    lemma_free_some(iv, before, x, iv.len() as int, f as int);
                    vstd::multiset::lemma_intersection_count(prefix.to_multiset(), iv.to_multiset(), x);
                    assert(inter.len() < i + 1) by {
                        assert(inter.count(x) < iv.to_multiset().count(x));
                    }
                }
                count = count + 1;
                proof {
                    let i2 = inter.insert(x);
                    assert forall|y: Seq<char>| #[trigger] next.to_multiset().intersection_with(iv.to_multiset()).count(y) == i2.count(y) by {
                        vstd::multiset::lemma_intersection_count(next.to_multiset(), iv.to_multiset(), y);
                        vstd::multiset::lemma_intersection_count(prefix.to_multiset(), iv.to_multiset(), y);
                        assert(free_count(iv, before, y, iv.len() as int) == iv.to_multiset().count(y) - inter.count(y));
                    }
                    assert(i2 =~= next.to_multiset().intersection_with(iv.to_multiset()));
                    assert forall|y: Seq<char>| #[trigger] free_count(iv, used@, y, iv.len() as int) == iv.to_multiset().count(y) - i2.count(y) by {
                        assert(free_count(iv, before, y, iv.len() as int) == iv.to_multiset().count(y) - inter.count(y));
                    }
                    inter = i2;
                }
            },
            None => {
                proof {
                    lemma_free_none(iv, used@, x, iv.len() as int);
                    assert forall|y: Seq<char>| #[trigger] next.to_multiset().intersection_with(iv.to_multiset()).count(y) == inter.count(y) by {
                        vstd::multiset::lemma_intersection_count(next.to_multiset(), iv.to_multiset(), y);
                        vstd::multiset::lemma_intersection_count(prefix.to_multiset(), iv.to_multiset(), y);
                        assert(free_count(iv, used@, y, iv.len() as int) == iv.to_multiset().count(y) - inter.count(y));
                    }
                    assert(inter =~= next.to_multiset().intersection_with(iv.to_multiset()));
                }
            },
        }
    }
    assert(w.subrange(0, w.len() as int) =~= w);
    count
}


/// Lines the two definitions share, over all the lines either has: `held` counts both
/// sides, and the lines in common count once on each. Half the lines in common is the
/// threshold git uses for renames, a matter of taste.
pub open spec fn alike(was: Seq<Seq<char>>, is: Seq<Seq<char>>) -> bool {
    let held = was.len() + is.len();
    held > 0 && 4 * shared(was, is) >= held
}

/// How alike two definitions read, scaled to a whole number out of a thousand so pairs
/// sort without fractions: twice the shared lines over all the lines.
pub open spec fn score(was: Seq<Seq<char>>, is: Seq<Seq<char>>) -> int {
    (2000 * shared(was, is)) as int / (was.len() + is.len()) as int
}

proof fn lemma_shared_bound(was: Seq<Seq<char>>, is: Seq<Seq<char>>)
    ensures
        shared(was, is) <= was.len(),
{
    broadcast use vstd::seq_lib::group_to_multiset_ensures;
    broadcast use vstd::multiset::group_multiset_axioms;
    let m = was.to_multiset().intersection_with(is.to_multiset());
    assert forall|y: Seq<char>| m.count(y) <= was.to_multiset().count(y) by {
        vstd::multiset::lemma_intersection_count(was.to_multiset(), is.to_multiset(), y);
    }
    assert(m.subset_of(was.to_multiset()));
    assert(was.to_multiset().sub(m).len() == was.to_multiset().len() - m.len());
    assert(was.to_multiset().len() == was.len());
}


/// The views of some lines.
pub open spec fn line_views(l: Seq<Vec<char>>) -> Seq<Seq<char>> {
    l.map_values(|x: Vec<char>| x@)
}

/// How alike two definitions read, out of a thousand, where they share at least half
/// their lines; nothing where they don't.
fn likeness(was: &Vec<Vec<char>>, is: &Vec<Vec<char>>) -> (r: Option<usize>)
    ensures
        r is Some <==> alike(line_views(was@), line_views(is@)),
        r matches Some(k) ==> k == score(line_views(was@), line_views(is@)),
{
    let common = count_shared(was, is);
    proof {
        lemma_shared_bound(line_views(was@), line_views(is@));
    }
    let held: u128 = was.len() as u128 + is.len() as u128;
    if held == 0 || 4 * (common as u128) < held {
        None
    } else {
        let top: u128 = 2000 * (common as u128);
        let scaled: u128 = top / held;
        assert(scaled <= 2000) by (nonlinear_arith)
            requires
                scaled == top / held,
                top == 2000 * (common as int),
                common as int <= held as int,
                held > 0,
        ;
        Some(scaled as usize)
    }
}

// ---------------------------------------------------------------------------------------
// Pairing up the two snapshots.

/// Index `j` is the first of `after` under `l`.
pub open spec fn first_under(after: Seq<Occurrence>, l: LocatorView, j: int) -> bool {
    &&& 0 <= j < after.len()
    &&& after[j]@.locator == l
    &&& forall|k: int| 0 <= k < j ==> (#[trigger] after[k])@.locator != l
}

/// What `before[w]` pairs with by name: the first of `after` under the same locator, so
/// the first of a name wins.
pub open spec fn by_name(before: Seq<Occurrence>, after: Seq<Occurrence>, w: int) -> Option<int> {
    if exists|j: int| #[trigger] first_under(after, before[w]@.locator, j) {
        Some(choose|j: int| #[trigger] first_under(after, before[w]@.locator, j))
    } else {
        None
    }
}

/// Some definition pairs with `after[i]` by name.
pub open spec fn claimed_by_name(before: Seq<Occurrence>, after: Seq<Occurrence>, i: int) -> bool {
    exists|w: int| 0 <= w < before.len() && #[trigger] by_name(before, after, w) == Some(i)
}

/// `before[w]` and `after[i]` are both left over once names are paired, are the same
/// role (a container and an item are never the same definition, however alike the text),
/// and share at least half their lines.
pub open spec fn candidate(before: Seq<Occurrence>, after: Seq<Occurrence>, w: int, i: int) -> bool {
    &&& 0 <= w < before.len()
    &&& 0 <= i < after.len()
    &&& by_name(before, after, w) is None
    &&& !claimed_by_name(before, after, i)
    &&& before[w]@.role == after[i]@.role
    &&& alike(lines_all(before[w]@), lines_all(after[i]@))
}

/// How a leftover pair ranks: by likeness, then by place, so no two rank the same.
pub open spec fn rank(before: Seq<Occurrence>, after: Seq<Occurrence>, w: int, i: int) -> (int, int, int) {
    (score(lines_all(before[w]@), lines_all(after[i]@)), w, i)
}

/// `a` ranks above `b`.
pub open spec fn above(a: (int, int, int), b: (int, int, int)) -> bool {
    a.0 > b.0 || (a.0 == b.0 && (a.1 > b.1 || (a.1 == b.1 && a.2 > b.2)))
}

/// The first of `after` under a locator.
fn first_named(after: &Vec<Occurrence>, l: &Locator) -> (r: Option<usize>)
    ensures
        r matches Some(j) ==> first_under(after@, l@, j as int),
        r is None ==> forall|j: int| 0 <= j < after@.len() ==> (#[trigger] after@[j])@.locator != l@,
{
    for j in 0..after.len()
        invariant
            forall|k: int| 0 <= k < j ==> (#[trigger] after@[k])@.locator != l@,
    {
        if after[j].locator.same_as(l) {
            return Some(j);
        }
    }
    None
}

proof fn lemma_first_unique(after: Seq<Occurrence>, l: LocatorView, j: int, k: int)
    requires
        first_under(after, l, j),
        first_under(after, l, k),
    ensures
        j == k,
{
    if j < k {
        assert(after[j]@.locator != l);
    }
    if k < j {
        assert(after[k]@.locator != l);
    }
}

/// `p` pairs with index `i`.
pub open spec fn points(p: Option<usize>, i: int) -> bool {
    p matches Some(j) && j == i
}

/// `p` says what the pairing by name `q` says.
pub open spec fn agrees(p: Option<usize>, q: Option<int>) -> bool {
    match q {
        Some(j) => points(p, j),
        None => p is None,
    }
}

proof fn lemma_by_name(before: Seq<Occurrence>, after: Seq<Occurrence>, w: int)
    ensures
        by_name(before, after, w) matches Some(j) ==> first_under(after, before[w]@.locator, j),
{
}

/// `r` says which after-occurrence, if any, each before-occurrence turned into. One that
/// answers to the name of an after-occurrence turned into the first such. Of the rest,
/// a pair is made only of leftovers alike enough, each half in one pair at most, and
/// every such pair that was not made lost out to a made pair that ranks above it: the
/// most alike pairs claim their halves first.
pub open spec fn paired(before: Seq<Occurrence>, after: Seq<Occurrence>, r: Seq<Option<usize>>) -> bool {
    &&& r.len() == before.len()
    &&& forall|w: int| 0 <= w < before.len() && by_name(before, after, w) is Some ==> agrees(#[trigger] r[w], by_name(before, after, w))
    &&& forall|w: int| 0 <= w < before.len() && (#[trigger] r[w]) is Some ==> r[w]->0 < after.len()
    &&& forall|w: int, x: int|
        0 <= w < before.len() && 0 <= x < before.len() && w != x && by_name(before, after, w) is None && (#[trigger] r[w]) is Some
            ==> r[w] != #[trigger] r[x]
    &&& forall|w: int|
        0 <= w < before.len() && by_name(before, after, w) is None && (#[trigger] r[w]) is Some ==> candidate(before, after, w, r[w]->0 as int)
    &&& forall|w: int, i: int| #[trigger] candidate(before, after, w, i) && !points(r[w], i) ==> beaten(before, after, r, w, i)
}

/// Which after-occurrence, if any, each before-occurrence turned into: the same name
/// first, then the leftovers by how alike they read, most alike first.
pub fn pair_up(before: &Vec<Occurrence>, after: &Vec<Occurrence>) -> (r: Vec<Option<usize>>)
    ensures
        paired(before@, after@, r@),
{
    let mut pairs: Vec<Option<usize>> = Vec::new();
    for w in 0..before.len()
        invariant
            pairs@.len() == w,
            forall|x: int| 0 <= x < w ==> agrees(#[trigger] pairs@[x], by_name(before@, after@, x)),
            forall|x: int| 0 <= x < w ==> ((#[trigger] pairs@[x]) matches Some(j) ==> j < after@.len()),
    {
        let found = first_named(after, &before[w].locator);
        proof {
            lemma_by_name(before@, after@, w as int);
            match found {
                Some(j) => {
                    let c = choose|c: int| #[trigger] first_under(after@, before@[w as int]@.locator, c);
                    lemma_first_unique(after@, before@[w as int]@.locator, j as int, c);
                },
                None => {
                    if exists|c: int| #[trigger] first_under(after@, before@[w as int]@.locator, c) {
                        let c = choose|c: int| #[trigger] first_under(after@, before@[w as int]@.locator, c);
                        assert(after@[c]@.locator == before@[w as int]@.locator);
                    }
                },
            }
        }
        pairs.push(found);
    }
    let mut taken: Vec<bool> = Vec::new();
    for i in 0..after.len()
        invariant
            taken@.len() == i,
            forall|x: int| 0 <= x < i ==> !(#[trigger] taken@[x]),
    {
        taken.push(false);
    }
    for w in 0..before.len()
        invariant
            pairs@.len() == before@.len(),
            taken@.len() == after@.len(),
            forall|x: int| 0 <= x < before@.len() ==> ((#[trigger] pairs@[x]) matches Some(j) ==> j < after@.len()),
            forall|i: int| 0 <= i < after@.len() ==> (#[trigger] taken@[i] <==> exists|x: int| 0 <= x < w && #[trigger] points(pairs@[x], i)),
    {
        let ghost t0 = taken@;
        match pairs[w] {
            Some(j) => {
                taken.set(j, true);
            },
            None => {},
        }
        proof {
            assert forall|i: int| 0 <= i < after@.len() implies (#[trigger] taken@[i] <==> exists|x: int| 0 <= x < w + 1 && #[trigger] points(pairs@[x], i)) by {
                if points(pairs@[w as int], i) {
                    assert(taken@[i]);
                } else {
                    assert(taken@[i] == t0[i]);
                    if exists|x: int| 0 <= x < w + 1 && #[trigger] points(pairs@[x], i) {
                        let x = choose|x: int| 0 <= x < w + 1 && #[trigger] points(pairs@[x], i);
                        assert(x < w);
                    }
                    if t0[i] {
                        let x = choose|x: int| 0 <= x < w && #[trigger] points(pairs@[x], i);
                        assert(points(pairs@[x], i));
                    }
                }
            }
        }
    }
    rescue_renames(before, after, &mut pairs, &mut taken);
    pairs
}

/// The pair `(w, i)` lost out: a pair that ranks above it took one of its halves.
pub open spec fn beaten(before: Seq<Occurrence>, after: Seq<Occurrence>, pairs: Seq<Option<usize>>, w: int, i: int) -> bool {
    exists|w2: int|
        0 <= w2 < before.len() && by_name(before, after, w2) is None && (#[trigger] pairs[w2]) is Some && (w2 == w || pairs[w2]->0 == i)
            && above(rank(before, after, w2, pairs[w2]->0 as int), rank(before, after, w, i))
}

/// Who holds the after-occurrences: `taken` says which are paired in `pairs`, and those
/// paired by name are just the ones some definition answers to by name.
proof fn lemma_claims(before: Seq<Occurrence>, after: Seq<Occurrence>, pairs: Seq<Option<usize>>, taken: Seq<bool>)
    requires
        pairs.len() == before.len(),
        taken.len() == after.len(),
        forall|x: int| 0 <= x < before.len() ==> agrees(#[trigger] pairs[x], by_name(before, after, x)),
        forall|i: int| 0 <= i < after.len() ==> (#[trigger] taken[i] <==> exists|x: int| 0 <= x < before.len() && #[trigger] points(pairs[x], i)),
    ensures
        forall|i: int| 0 <= i < after.len() ==> (#[trigger] taken[i] <==> claimed_by_name(before, after, i)),
        forall|x: int| 0 <= x < before.len() ==> ((#[trigger] pairs[x]) is None <==> by_name(before, after, x) is None),
{
    assert forall|i: int| 0 <= i < after.len() implies (#[trigger] taken[i] <==> claimed_by_name(before, after, i)) by {
        if taken[i] {
            let x = choose|x: int| 0 <= x < before.len() && #[trigger] points(pairs[x], i);
            assert(agrees(pairs[x], by_name(before, after, x)));
            assert(by_name(before, after, x) == Some(i));
        }
        if claimed_by_name(before, after, i) {
            let x = choose|x: int| 0 <= x < before.len() && #[trigger] by_name(before, after, x) == Some(i);
            assert(agrees(pairs[x], by_name(before, after, x)));
            assert(points(pairs[x], i));
        }
    }
    assert forall|x: int| 0 <= x < before.len() implies ((#[trigger] pairs[x]) is None <==> by_name(before, after, x) is None) by {
        assert(agrees(pairs[x], by_name(before, after, x)));
    }
}

/// An entry of the candidate list: its likeness and its two places.
pub open spec fn as_rank(c: (usize, usize, usize)) -> (int, int, int) {
    (c.0 as int, c.1 as int, c.2 as int)
}

/// Every leftover pair that reads alike enough, with how alike, best first.
fn candidates(
    before: &Vec<Occurrence>,
    after: &Vec<Occurrence>,
    pairs: &Vec<Option<usize>>,
    taken: &Vec<bool>,
) -> (r: Vec<(usize, usize, usize)>)
    requires
        pairs@.len() == before@.len(),
        taken@.len() == after@.len(),
        forall|w: int| 0 <= w < before@.len() ==> ((#[trigger] pairs@[w]) is None <==> by_name(before@, after@, w) is None),
        forall|i: int| 0 <= i < after@.len() ==> (#[trigger] taken@[i] <==> claimed_by_name(before@, after@, i)),
    ensures
        forall|k: int| 0 <= k < r@.len() ==> candidate(before@, after@, (#[trigger] r@[k]).1 as int, r@[k].2 as int)
            && as_rank(r@[k]) == rank(before@, after@, r@[k].1 as int, r@[k].2 as int),
        forall|w: int, i: int| #[trigger] candidate(before@, after@, w, i) ==> exists|k: int| 0 <= k < r@.len() && (#[trigger] r@[k]).1 == w && r@[k].2 == i,
        forall|k: int, l: int| 0 <= k < l < r@.len() ==> above(as_rank(#[trigger] r@[k]), as_rank(#[trigger] r@[l])),
{
    let nb = before.len();
    let na = after.len();
    let mut was_lines: Vec<Vec<Vec<char>>> = Vec::new();
    for w in 0..nb
        invariant
            nb == before@.len(),
            was_lines@.len() == w,
            forall|x: int| 0 <= x < w ==> line_views((#[trigger] was_lines@[x])@) == lines_all(before@[x]@),
    {
        was_lines.push(all_lines(&before[w]));
    }
    let mut is_lines: Vec<Vec<Vec<char>>> = Vec::new();
    for i in 0..na
        invariant
            na == after@.len(),
            is_lines@.len() == i,
            forall|x: int| 0 <= x < i ==> line_views((#[trigger] is_lines@[x])@) == lines_all(after@[x]@),
    {
        is_lines.push(all_lines(&after[i]));
    }
    // In order of place, then best first.
    let mut found: Vec<(usize, usize, usize)> = Vec::new();
    for w in 0..nb
        invariant
            nb == before@.len(),
            na == after@.len(),
            pairs@.len() == nb,
            taken@.len() == na,
            was_lines@.len() == nb,
            is_lines@.len() == na,
            forall|x: int| 0 <= x < nb ==> line_views((#[trigger] was_lines@[x])@) == lines_all(before@[x]@),
            forall|x: int| 0 <= x < na ==> line_views((#[trigger] is_lines@[x])@) == lines_all(after@[x]@),
            forall|x: int| 0 <= x < before@.len() ==> ((#[trigger] pairs@[x]) is None <==> by_name(before@, after@, x) is None),
            forall|i: int| 0 <= i < after@.len() ==> (#[trigger] taken@[i] <==> claimed_by_name(before@, after@, i)),
            forall|k: int| 0 <= k < found@.len() ==> candidate(before@, after@, (#[trigger] found@[k]).1 as int, found@[k].2 as int)
                && as_rank(found@[k]) == rank(before@, after@, found@[k].1 as int, found@[k].2 as int) && found@[k].1 < w,
            forall|x: int, i: int| 0 <= x < w && #[trigger] candidate(before@, after@, x, i) ==> exists|k: int| 0 <= k < found@.len() && (#[trigger] found@[k]).1 == x && found@[k].2 == i,
            forall|k: int, l: int| 0 <= k < l < found@.len() ==> (#[trigger] found@[k]).1 < (#[trigger] found@[l]).1 || (found@[k].1 == found@[l].1 && found@[k].2 < found@[l].2),
    {
        if pairs[w].is_none() {
            for i in 0..na
                invariant
                    nb == before@.len(),
                    na == after@.len(),
                    w < nb,
                    pairs@.len() == nb,
                    taken@.len() == na,
                    was_lines@.len() == nb,
                    is_lines@.len() == na,
                    pairs@[w as int] is None,
                    forall|x: int| 0 <= x < nb ==> line_views((#[trigger] was_lines@[x])@) == lines_all(before@[x]@),
                    forall|x: int| 0 <= x < na ==> line_views((#[trigger] is_lines@[x])@) == lines_all(after@[x]@),
                    forall|x: int| 0 <= x < before@.len() ==> ((#[trigger] pairs@[x]) is None <==> by_name(before@, after@, x) is None),
                    forall|i2: int| 0 <= i2 < after@.len() ==> (#[trigger] taken@[i2] <==> claimed_by_name(before@, after@, i2)),
                    forall|k: int| 0 <= k < found@.len() ==> candidate(before@, after@, (#[trigger] found@[k]).1 as int, found@[k].2 as int)
                        && as_rank(found@[k]) == rank(before@, after@, found@[k].1 as int, found@[k].2 as int) && (found@[k].1 < w || (found@[k].1 == w && found@[k].2 < i)),
                    forall|x: int, i2: int| (0 <= x < w || (x == w && 0 <= i2 < i)) && #[trigger] candidate(before@, after@, x, i2) ==> exists|k: int| 0 <= k < found@.len() && (#[trigger] found@[k]).1 == x && found@[k].2 == i2,
                    forall|k: int, l: int| 0 <= k < l < found@.len() ==> (#[trigger] found@[k]).1 < (#[trigger] found@[l]).1 || (found@[k].1 == found@[l].1 && found@[k].2 < found@[l].2),
            {
                if !taken[i] && before[w].role == after[i].role {
                    match likeness(&was_lines[w], &is_lines[i]) {
                        Some(sc) => {
                            let ghost was = found@;
                            found.push((sc, w, i));
                            proof {
                                assert(candidate(before@, after@, w as int, i as int));
                                assert forall|x: int, i2: int| (0 <= x < w || (x == w && 0 <= i2 < i + 1)) && #[trigger] candidate(before@, after@, x, i2) implies exists|k: int| 0 <= k < found@.len() && (#[trigger] found@[k]).1 == x && found@[k].2 == i2 by {
                                    if x == w && i2 == i {
                                        assert(found@[was.len() as int].1 == x);
                                    } else {
                                        let k = choose|k: int| 0 <= k < was.len() && (#[trigger] was[k]).1 == x && was[k].2 == i2;
                                        assert(found@[k] == was[k]);
                                    }
                                }
                            }
                        },
                        None => {
                            proof {
                                assert(!candidate(before@, after@, w as int, i as int));
                            }
                        },
                    }
                } else {
                    proof {
                        assert(!candidate(before@, after@, w as int, i as int));
                    }
                }
            }
        } else {
            proof {
                assert forall|i2: int| !candidate(before@, after@, w as int, i2) by {}
            }
        }
    }
    let r = sort_best_first(found);
    proof {
        assert forall|k: int| 0 <= k < r@.len() implies candidate(before@, after@, (#[trigger] r@[k]).1 as int, r@[k].2 as int)
            && as_rank(r@[k]) == rank(before@, after@, r@[k].1 as int, r@[k].2 as int) by {
            assert(r@.contains(r@[k]));
            let k2 = choose|k2: int| 0 <= k2 < found@.len() && found@[k2] == r@[k];
            assert(candidate(before@, after@, found@[k2].1 as int, found@[k2].2 as int));
        }
        assert forall|w: int, i: int| #[trigger] candidate(before@, after@, w, i) implies exists|k: int| 0 <= k < r@.len() && (#[trigger] r@[k]).1 == w && r@[k].2 == i by {
            let k = choose|k: int| 0 <= k < found@.len() && (#[trigger] found@[k]).1 == w && found@[k].2 == i;
            assert(found@.contains(found@[k]));
            assert(r@.contains(found@[k]));
            let k2 = choose|k2: int| 0 <= k2 < r@.len() && r@[k2] == found@[k];
            assert(r@[k2].1 == w);
        }
    }
    r
}

/// The same entries, best first.
fn sort_best_first(found: Vec<(usize, usize, usize)>) -> (r: Vec<(usize, usize, usize)>)
    requires
        forall|k: int, l: int| 0 <= k < l < found@.len() ==> (#[trigger] found@[k]).1 < (#[trigger] found@[l]).1 || (found@[k].1 == found@[l].1 && found@[k].2 < found@[l].2),
    ensures
        forall|c: (usize, usize, usize)| #[trigger] r@.contains(c) <==> found@.contains(c),
        forall|k: int, l: int| 0 <= k < l < r@.len() ==> above(as_rank(#[trigger] r@[k]), as_rank(#[trigger] r@[l])),
{
    let mut out: Vec<(usize, usize, usize)> = Vec::new();
    for t in 0..found.len()
        invariant
            forall|k: int, l: int| 0 <= k < l < found@.len() ==> (#[trigger] found@[k]).1 < (#[trigger] found@[l]).1 || (found@[k].1 == found@[l].1 && found@[k].2 < found@[l].2),
            forall|c: (usize, usize, usize)| #[trigger] out@.contains(c) <==> exists|k: int| 0 <= k < t && found@[k] == c,
            forall|k: int, l: int| 0 <= k < l < out@.len() ==> above(as_rank(#[trigger] out@[k]), as_rank(#[trigger] out@[l])),
    {
        let c = found[t];
        let mut p: usize = 0;
        while p < out.len() && (out[p].0 > c.0 || (out[p].0 == c.0 && (out[p].1 > c.1 || (out[p].1 == c.1 && out[p].2 > c.2))))
            invariant
                p <= out@.len(),
                forall|k: int| 0 <= k < p ==> above(as_rank(#[trigger] out@[k]), as_rank(c)),
            decreases out@.len() - p,
        {
            p = p + 1;
        }
        let ghost was = out@;
        proof {
            // Nothing already placed is the same entry: places differ.
            if p < was.len() {
                assert(was.contains(was[p as int]));
                let k = choose|k: int| 0 <= k < t && found@[k] == was[p as int];
                assert(found@[k] != c);
            }
        }
        out.insert(p, c);
        proof {
            was.insert_ensures(p as int, c);
            assert forall|k: int, l: int| 0 <= k < l < out@.len() implies above(as_rank(#[trigger] out@[k]), as_rank(#[trigger] out@[l])) by {
                if l < p as int {
                } else if k < p as int && l == p as int {
                } else if k < p as int {
                    assert(out@[l] == was[l - 1]);
                    if l - 1 > p as int {
                        assert(above(as_rank(was[p as int]), as_rank(was[l - 1])));
                    }
                } else if k == p as int {
                    assert(out@[l] == was[l - 1]);
                    if l - 1 > p as int {
                        assert(above(as_rank(was[p as int]), as_rank(was[l - 1])));
                    }
                } else {
                    assert(out@[k] == was[k - 1] && out@[l] == was[l - 1]);
                }
            }
            assert forall|d: (usize, usize, usize)| #[trigger] out@.contains(d) <==> exists|k: int| 0 <= k < t + 1 && found@[k] == d by {
                if out@.contains(d) {
                    let j = choose|j: int| 0 <= j < out@.len() && out@[j] == d;
                    if j < p as int {
                        assert(was[j] == d);
                        assert(was.contains(d));
                    } else if j > p as int {
                        assert(was[j - 1] == d);
                        assert(was.contains(d));
                    }
                }
                if exists|k: int| 0 <= k < t + 1 && found@[k] == d {
                    let k = choose|k: int| 0 <= k < t + 1 && found@[k] == d;
                    if k < t {
                        assert(was.contains(d));
                        let j = choose|j: int| 0 <= j < was.len() && was[j] == d;
                        if j < p as int {
                            assert(out@[j] == d);
                        } else {
                            assert(out@[j + 1] == d);
                        }
                    } else {
                        assert(out@[p as int] == d);
                    }
                }
            }
        }
    }
    proof {
        assert forall|c: (usize, usize, usize)| #[trigger] out@.contains(c) <==> found@.contains(c) by {
            if found@.contains(c) {
                let k = choose|k: int| 0 <= k < found@.len() && found@[k] == c;
            }
        }
    }
    out
}


/// Pairs up the leftovers by how alike they read, most alike first, so the most
/// convincing pair claims its halves before a weaker one can. Requiring identical text
/// would catch almost nothing, since people rename and edit in the same commit.
fn rescue_renames(before: &Vec<Occurrence>, after: &Vec<Occurrence>, pairs: &mut Vec<Option<usize>>, taken: &mut Vec<bool>)
    requires
        old(pairs)@.len() == before@.len(),
        old(taken)@.len() == after@.len(),
        forall|w: int| 0 <= w < before@.len() ==> agrees(#[trigger] old(pairs)@[w], by_name(before@, after@, w)),
        forall|w: int| 0 <= w < before@.len() ==> ((#[trigger] old(pairs)@[w]) matches Some(j) ==> j < after@.len()),
        forall|i: int| 0 <= i < after@.len() ==> (#[trigger] old(taken)@[i] <==> exists|x: int| 0 <= x < before@.len() && #[trigger] points(old(pairs)@[x], i)),
    ensures
        final(pairs)@.len() == before@.len(),
        forall|w: int| 0 <= w < before@.len() && by_name(before@, after@, w) is Some ==> #[trigger] final(pairs)@[w] == old(pairs)@[w],
        forall|w: int| 0 <= w < before@.len() && (#[trigger] final(pairs)@[w]) is Some ==> final(pairs)@[w]->0 < after@.len(),
        forall|w: int, x: int|
            0 <= w < before@.len() && 0 <= x < before@.len() && w != x && by_name(before@, after@, w) is None && (#[trigger] final(pairs)@[w]) is Some
                ==> final(pairs)@[w] != #[trigger] final(pairs)@[x],
        forall|w: int|
            0 <= w < before@.len() && by_name(before@, after@, w) is None && (#[trigger] final(pairs)@[w]) is Some ==> candidate(before@, after@, w, final(pairs)@[w]->0 as int),
        forall|w: int, i: int|
            #[trigger] candidate(before@, after@, w, i) && !points(final(pairs)@[w], i) ==> beaten(before@, after@, final(pairs)@, w, i),
{
    let ghost p0 = pairs@;
    proof {
        lemma_claims(before@, after@, pairs@, taken@);
    }
    let sorted = candidates(before, after, pairs, taken);
    for t in 0..sorted.len()
        invariant
            pairs@.len() == before@.len(),
            taken@.len() == after@.len(),
            p0.len() == before@.len(),
            forall|w: int| 0 <= w < before@.len() ==> agrees(#[trigger] p0[w], by_name(before@, after@, w)),
            forall|k: int| 0 <= k < sorted@.len() ==> candidate(before@, after@, (#[trigger] sorted@[k]).1 as int, sorted@[k].2 as int)
                && as_rank(sorted@[k]) == rank(before@, after@, sorted@[k].1 as int, sorted@[k].2 as int),
            forall|k: int, l: int| 0 <= k < l < sorted@.len() ==> above(as_rank(#[trigger] sorted@[k]), as_rank(#[trigger] sorted@[l])),
            forall|w: int| 0 <= w < before@.len() && by_name(before@, after@, w) is Some ==> #[trigger] pairs@[w] == p0[w],
            forall|w: int| 0 <= w < before@.len() ==> ((#[trigger] pairs@[w]) matches Some(j) ==> j < after@.len()),
            forall|i: int| 0 <= i < after@.len() ==> (#[trigger] taken@[i] <==> exists|x: int| 0 <= x < before@.len() && #[trigger] points(pairs@[x], i)),
            forall|w: int, x: int|
                0 <= w < before@.len() && 0 <= x < before@.len() && w != x && by_name(before@, after@, w) is None && (#[trigger] pairs@[w]) is Some
                    ==> pairs@[w] != #[trigger] pairs@[x],
            forall|w: int|
                0 <= w < before@.len() && by_name(before@, after@, w) is None && (#[trigger] pairs@[w]) is Some ==> exists|k: int|
                    0 <= k < t && (#[trigger] sorted@[k]).1 == w && points(pairs@[w], sorted@[k].2 as int),
            forall|k: int| 0 <= k < t ==> points(pairs@[(#[trigger] sorted@[k]).1 as int], sorted@[k].2 as int) || beaten(before@, after@, pairs@, sorted@[k].1 as int, sorted@[k].2 as int),
    {
        let (_, w, i) = sorted[t];
        let ghost pw = pairs@;
        let ghost tw = taken@;
        proof {
            assert(candidate(before@, after@, w as int, i as int));
        }
        if pairs[w].is_none() && !taken[i] {
            pairs.set(w, Some(i));
            taken.set(i, true);
            proof {
                assert(forall|x: int| 0 <= x < before@.len() ==> !(#[trigger] points(pw[x], i as int)));
                assert forall|i2: int| 0 <= i2 < after@.len() implies (#[trigger] taken@[i2] <==> exists|x: int| 0 <= x < before@.len() && #[trigger] points(pairs@[x], i2)) by {
                    if i2 == i as int {
                        assert(points(pairs@[w as int], i2));
                    } else {
                        assert(taken@[i2] == tw[i2]);
                        if tw[i2] {
                            let x = choose|x: int| 0 <= x < before@.len() && #[trigger] points(pw[x], i2);
                            assert(x != w as int);
                            assert(points(pairs@[x], i2));
                        }
                        if exists|x: int| 0 <= x < before@.len() && #[trigger] points(pairs@[x], i2) {
                            let x = choose|x: int| 0 <= x < before@.len() && #[trigger] points(pairs@[x], i2);
                            assert(x != w as int);
                            assert(points(pw[x], i2));
                        }
                    }
                }
                assert forall|a: int, b: int|
                    0 <= a < before@.len() && 0 <= b < before@.len() && a != b && by_name(before@, after@, a) is None && (#[trigger] pairs@[a]) is Some
                        implies pairs@[a] != #[trigger] pairs@[b] by {
                    if a == w as int {
                        assert(!points(pw[b], i as int));
                    } else if b == w as int {
                        assert(!points(pw[a], i as int));
                    } else {
                        assert(pairs@[a] == pw[a] && pairs@[b] == pw[b]);
                    }
                }
                assert forall|x: int|
                    0 <= x < before@.len() && by_name(before@, after@, x) is None && (#[trigger] pairs@[x]) is Some implies exists|k: int|
                        0 <= k < t + 1 && (#[trigger] sorted@[k]).1 == x && points(pairs@[x], sorted@[k].2 as int) by {
                    if x != w as int {
                        assert(pairs@[x] == pw[x]);
                        let k = choose|k: int| 0 <= k < t && (#[trigger] sorted@[k]).1 == x && points(pw[x], sorted@[k].2 as int);
                        assert(points(pairs@[x], sorted@[k].2 as int));
                    } else {
                        assert(sorted@[t as int].1 == x);
                        assert(points(pairs@[x], sorted@[t as int].2 as int));
                    }
                }
                assert forall|k: int| 0 <= k < t + 1 implies points(pairs@[(#[trigger] sorted@[k]).1 as int], sorted@[k].2 as int) || beaten(before@, after@, pairs@, sorted@[k].1 as int, sorted@[k].2 as int) by {
                    if k < t {
                        if points(pw[sorted@[k].1 as int], sorted@[k].2 as int) {
                            assert(sorted@[k].1 != w);
                            assert(pairs@[sorted@[k].1 as int] == pw[sorted@[k].1 as int]);
                        } else {
                            let w2 = choose|w2: int|
                                0 <= w2 < before@.len() && by_name(before@, after@, w2) is None && (#[trigger] pw[w2]) is Some && (w2 == sorted@[k].1 as int || pw[w2]->0 == sorted@[k].2 as int)
                                    && above(rank(before@, after@, w2, pw[w2]->0 as int), rank(before@, after@, sorted@[k].1 as int, sorted@[k].2 as int));
                            assert(w2 != w as int);
                            assert(pairs@[w2] == pw[w2]);
                        }
                    } else {
                        assert(points(pairs@[w as int], i as int));
                    }
                }
            }
        } else {
            proof {
                // Whoever holds a half of this pair claimed it first, so ranks above it.
                if pairs@[w as int] is Some {
                    let k = choose|k: int| 0 <= k < t && (#[trigger] sorted@[k]).1 == w && points(pairs@[w as int], sorted@[k].2 as int);
                    assert(above(as_rank(sorted@[k]), as_rank(sorted@[t as int])));
                    assert(beaten(before@, after@, pairs@, w as int, i as int));
                } else {
                    assert(taken@[i as int]);
                    let x = choose|x: int| 0 <= x < before@.len() && #[trigger] points(pairs@[x], i as int);
                    if by_name(before@, after@, x) is Some {
                        assert(pairs@[x] == p0[x]);
                        assert(agrees(p0[x], by_name(before@, after@, x)));
                        assert(by_name(before@, after@, x) == Some(i as int));
                        assert(claimed_by_name(before@, after@, i as int));
                    }
                    let k = choose|k: int| 0 <= k < t && (#[trigger] sorted@[k]).1 == x && points(pairs@[x], sorted@[k].2 as int);
                    assert(above(as_rank(sorted@[k]), as_rank(sorted@[t as int])));
                    assert(beaten(before@, after@, pairs@, w as int, i as int));
                }
            }
        }
    }
    proof {
        assert forall|w: int, i: int|
            #[trigger] candidate(before@, after@, w, i) && !points(pairs@[w], i) implies beaten(before@, after@, pairs@, w, i) by {
            let k = choose|k: int| 0 <= k < sorted@.len() && (#[trigger] sorted@[k]).1 == w && sorted@[k].2 == i;
            assert(points(pairs@[sorted@[k].1 as int], sorted@[k].2 as int) || beaten(before@, after@, pairs@, sorted@[k].1 as int, sorted@[k].2 as int));
        }
        assert forall|w: int|
            0 <= w < before@.len() && by_name(before@, after@, w) is None && (#[trigger] pairs@[w]) is Some implies candidate(before@, after@, w, pairs@[w]->0 as int) by {
            let k = choose|k: int| 0 <= k < sorted@.len() && (#[trigger] sorted@[k]).1 == w && points(pairs@[w], sorted@[k].2 as int);
        }
    }
}

// ---------------------------------------------------------------------------------------
// Definitions out of the pairing.

/// The views of some definitions.
pub open spec fn definition_views(d: Seq<Definition>) -> Seq<DefinitionView> {
    d.map_values(|one: Definition| one@)
}

/// `before[w]` keeps `after[j]`: it pairs with it, and no definition listed earlier does.
pub open spec fn keeps(pairs: Seq<Option<usize>>, w: int, j: int) -> bool {
    &&& points(pairs[w], j)
    &&& forall|x: int| 0 <= x < w ==> !points(#[trigger] pairs[x], j)
}

/// No definition pairs with `after[j]`.
pub open spec fn unpaired(pairs: Seq<Option<usize>>, j: int) -> bool {
    forall|x: int| 0 <= x < pairs.len() ==> !points(#[trigger] pairs[x], j)
}

/// The places, among the first `n` after-occurrences, that no definition pairs with.
pub open spec fn leftover(pairs: Seq<Option<usize>>, n: int) -> Seq<int>
    decreases n,
{
    if n <= 0 {
        Seq::empty()
    } else {
        leftover(pairs, n - 1) + if unpaired(pairs, n - 1) { seq![n - 1] } else { Seq::empty() }
    }
}

proof fn lemma_leftover(pairs: Seq<Option<usize>>, n: int)
    requires
        n >= 0,
    ensures
        leftover(pairs, n).len() <= n,
        forall|q: int| 0 <= q < leftover(pairs, n).len() ==> 0 <= #[trigger] leftover(pairs, n)[q] < n,
    decreases n,
{
    if n > 0 {
        lemma_leftover(pairs, n - 1);
    }
}

/// Which snapshots the `k`th before-occurrence showed up in: kept, where it pairs with an
/// after-occurrence that nobody earlier took, and removed otherwise.
pub open spec fn sides_of(before: Seq<Occurrence>, after: Seq<Occurrence>, pairs: Seq<Option<usize>>, k: int) -> SidesView {
    match pairs[k] {
        Some(j) => if keeps(pairs, k, j as int) {
            SidesView::Kept { before: before[k]@, after: after[j as int]@ }
        } else {
            SidesView::Removed(before[k]@)
        },
        None => SidesView::Removed(before[k]@),
    }
}

/// The definitions a pairing makes, numbered in order: each before-occurrence, kept or
/// removed, then each after-occurrence nobody paired with, added.
pub open spec fn built(before: Seq<Occurrence>, after: Seq<Occurrence>, pairs: Seq<Option<usize>>) -> Seq<DefinitionView> {
    let left = leftover(pairs, after.len() as int);
    Seq::new(
        (before.len() + left.len()) as nat,
        |k: int|
            DefinitionView {
                identity: Identity(k as u32),
                sides: if k < before.len() {
                    sides_of(before, after, pairs, k)
                } else {
                    SidesView::Added(after[left[k - before.len()]]@)
                },
            },
    )
}

/// The definitions a pairing makes.
fn build_definitions(pairs: &Vec<Option<usize>>, before: &Vec<Occurrence>, after: &Vec<Occurrence>) -> (r: Vec<Definition>)
    requires
        pairs@.len() == before@.len(),
        forall|w: int| 0 <= w < pairs@.len() && (#[trigger] pairs@[w]) is Some ==> pairs@[w]->0 < after@.len(),
        before@.len() + after@.len() <= u32::MAX,
    ensures
        definition_views(r@) == built(before@, after@, pairs@),
{
    let nb = before.len();
    let na = after.len();
    let mut taken: Vec<bool> = Vec::new();
    for j in 0..na
        invariant
            na == after@.len(),
            taken@.len() == j,
            forall|x: int| 0 <= x < j ==> !(#[trigger] taken@[x]),
    {
        taken.push(false);
    }
    let mut r: Vec<Definition> = Vec::new();
    for w in 0..nb
        invariant
            nb == before@.len(),
            na == after@.len(),
            pairs@.len() == nb,
            nb + na <= u32::MAX,
            forall|x: int| 0 <= x < pairs@.len() && (#[trigger] pairs@[x]) is Some ==> pairs@[x]->0 < after@.len(),
            taken@.len() == na,
            forall|j: int| 0 <= j < na ==> (#[trigger] taken@[j] <==> exists|x: int| 0 <= x < w && #[trigger] points(pairs@[x], j)),
            r@.len() == w,
            forall|k: int| 0 <= k < w ==> (#[trigger] r@[k])@ == (DefinitionView {
                identity: Identity(k as u32),
                sides: sides_of(before@, after@, pairs@, k),
            }),
    {
        let ghost t0 = taken@;
        let sides = match pairs[w] {
            Some(j) => {
                if !taken[j] {
                    taken.set(j, true);
                    proof {
                        assert(keeps(pairs@, w as int, j as int));
                    }
                    Sides::Kept { before: before[w].duplicate(), after: after[j].duplicate() }
                } else {
                    proof {
                        let x = choose|x: int| 0 <= x < w && #[trigger] points(pairs@[x], j as int);
                        assert(!keeps(pairs@, w as int, j as int));
                    }
                    Sides::Removed(before[w].duplicate())
                }
            },
            None => Sides::Removed(before[w].duplicate()),
        };
        r.push(Definition { identity: Identity(w as u32), sides });
        proof {
            assert forall|j: int| 0 <= j < na implies (#[trigger] taken@[j] <==> exists|x: int| 0 <= x < w + 1 && #[trigger] points(pairs@[x], j)) by {
                if points(pairs@[w as int], j) {
                    assert(taken@[j]);
                } else {
                    assert(taken@[j] == t0[j]);
                    if exists|x: int| 0 <= x < w + 1 && #[trigger] points(pairs@[x], j) {
                        let x = choose|x: int| 0 <= x < w + 1 && #[trigger] points(pairs@[x], j);
                        assert(x < w);
                    }
                    if t0[j] {
                        let x = choose|x: int| 0 <= x < w && #[trigger] points(pairs@[x], j);
                        assert(points(pairs@[x], j));
                    }
                }
            }
        }
    }
    for j in 0..na
        invariant
            nb == before@.len(),
            na == after@.len(),
            pairs@.len() == nb,
            nb + na <= u32::MAX,
            taken@.len() == na,
            forall|i: int| 0 <= i < na ==> (#[trigger] taken@[i] <==> !unpaired(pairs@, i)),
            r@.len() == nb + leftover(pairs@, j as int).len(),
            forall|k: int| 0 <= k < nb ==> (#[trigger] r@[k])@ == (DefinitionView {
                identity: Identity(k as u32),
                sides: sides_of(before@, after@, pairs@, k),
            }),
            forall|q: int| 0 <= q < leftover(pairs@, j as int).len() ==> (#[trigger] r@[nb + q])@ == (DefinitionView {
                identity: Identity((nb + q) as u32),
                sides: SidesView::Added(after@[leftover(pairs@, j as int)[q]]@),
            }),
    {
        proof {
            lemma_leftover(pairs@, j as int);
            if j == 0 {
                assert forall|i: int| 0 <= i < na implies (#[trigger] taken@[i] <==> !unpaired(pairs@, i)) by {
                    if taken@[i] {
                        let x = choose|x: int| 0 <= x < nb && #[trigger] points(pairs@[x], i);
                        assert(!unpaired(pairs@, i));
                    }
                }
            }
        }
        let ghost was = r@;
        if !taken[j] {
            r.push(Definition { identity: Identity(r.len() as u32), sides: Sides::Added(after[j].duplicate()) });
        }
        proof {
            assert(leftover(pairs@, j + 1) == leftover(pairs@, j as int) + if unpaired(pairs@, j as int) { seq![j as int] } else { Seq::<int>::empty() });
            assert forall|k: int| 0 <= k < nb implies (#[trigger] r@[k])@ == (DefinitionView {
                identity: Identity(k as u32),
                sides: sides_of(before@, after@, pairs@, k),
            }) by {
                assert(r@[k] == was[k]);
            }
            assert forall|q: int| 0 <= q < leftover(pairs@, j + 1).len() implies (#[trigger] r@[nb + q])@ == (DefinitionView {
                identity: Identity((nb + q) as u32),
                sides: SidesView::Added(after@[leftover(pairs@, j + 1)[q]]@),
            }) by {
                if q < leftover(pairs@, j as int).len() {
                    assert(r@[nb + q] == was[nb + q]);
                }
            }
        }
    }
    proof {
        // The first loop's invariant, restated once every occurrence is in.
        assert forall|i: int| 0 <= i < na implies (#[trigger] taken@[i] <==> !unpaired(pairs@, i)) by {}
        lemma_leftover(pairs@, na as int);
        let b = built(before@, after@, pairs@);
        assert forall|k: int| 0 <= k < r@.len() implies definition_views(r@)[k] == b[k] by {
            if k >= nb {
                let q = k - nb;
                assert(r@[nb + q] == r@[k]);
            }
        }
        assert(definition_views(r@) =~= b);
    }
    r
}

// ---------------------------------------------------------------------------------------
// Mentions lined up by the identities they landed on.

/// A mention's target once it names an identity, its symbol seen as text.
pub enum TargetView {
    Known(Identity),
    Unknown { symbol: Seq<char> },
}

/// The view of a target that names an identity.
pub open spec fn target_view(t: Target<Identity>) -> TargetView {
    match t {
        Target::Known(id) => TargetView::Known(id),
        Target::Unknown { symbol } => TargetView::Unknown { symbol: symbol@ },
    }
}

/// The order a derived `Ord` gives targets: known ones first, by identity, then unknown
/// ones by symbol.
pub open spec fn target_lt(a: TargetView, b: TargetView) -> bool {
    match (a, b) {
        (TargetView::Known(x), TargetView::Known(y)) => x.0 < y.0,
        (TargetView::Known(_), TargetView::Unknown { .. }) => true,
        (TargetView::Unknown { .. }, TargetView::Known(_)) => false,
        (TargetView::Unknown { symbol: s }, TargetView::Unknown { symbol: t }) => seq_lt(s, t),
    }
}

/// Where a reference sorts: by where it comes from, then by what it points at.
pub open spec fn key_lt(a: (Identity, TargetView), b: (Identity, TargetView)) -> bool {
    a.0.0 < b.0.0 || (a.0 == b.0 && target_lt(a.1, b.1))
}

proof fn lemma_key_order(a: (Identity, TargetView), b: (Identity, TargetView), c: (Identity, TargetView))
    ensures
        !key_lt(a, a),
        key_lt(a, b) ==> !key_lt(b, a),
        key_lt(a, b) && key_lt(b, c) ==> key_lt(a, c),
        a != b ==> key_lt(a, b) || key_lt(b, a),
{
    match (a.1, b.1) {
        (TargetView::Unknown { symbol: s }, TargetView::Unknown { symbol: t }) => {
            crate::text::lemma_lt_irreflexive(s);
            crate::text::lemma_lt_asymmetric(s, t);
            crate::text::lemma_lt_total(s, t);
        },
        (TargetView::Unknown { symbol: s }, _) => {
            crate::text::lemma_lt_irreflexive(s);
        },
        _ => {},
    }
    match (a.1, b.1, c.1) {
        (TargetView::Unknown { symbol: s }, TargetView::Unknown { symbol: t }, TargetView::Unknown { symbol: u }) => {
            if seq_lt(s, t) && seq_lt(t, u) {
                crate::text::lemma_lt_transitive(s, t, u);
            }
        },
        _ => {},
    }
}

/// The identity a locator stands for on one side: the last definition there to answer to
/// it, since a later entry overwrites an earlier one.
pub open spec fn named_on(defs: Seq<DefinitionView>, before_side: bool, l: LocatorView) -> Option<Identity>
    decreases defs.len(),
{
    if defs.len() == 0 {
        None
    } else {
        let side = if before_side { defs.last().sides.before() } else { defs.last().sides.after() };
        if side matches Some(o) && o.locator == l {
            Some(defs.last().identity)
        } else {
            named_on(defs.drop_last(), before_side, l)
        }
    }
}

/// Where a mention lands: the identities it comes from and points at, where it comes from
/// a definition on its side at all. A target no definition answers to is kept by name.
pub open spec fn landing(defs: Seq<DefinitionView>, before_side: bool, m: Mention) -> Option<(Identity, TargetView)> {
    match named_on(defs, before_side, m.from@) {
        None => None,
        Some(from) => Some(
            (
                from,
                match m.to {
                    Target::Known(l) => match named_on(defs, before_side, l@) {
                        Some(id) => TargetView::Known(id),
                        None => TargetView::Unknown { symbol: l.name@ },
                    },
                    Target::Unknown { symbol } => TargetView::Unknown { symbol: symbol@ },
                },
            ),
        ),
    }
}

/// What is said of the mentions that come from no definition on their side.
pub open spec fn nowhere(defs: Seq<DefinitionView>, before_side: bool, ms: Seq<Mention>) -> Seq<DiagnosticView>
    decreases ms.len(),
{
    if ms.len() == 0 {
        Seq::empty()
    } else {
        nowhere(defs, before_side, ms.drop_last()) + if landing(defs, before_side, ms.last()) is None {
            seq![DiagnosticView::MentionFromNowhere { from: ms.last().from@ }]
        } else {
            Seq::empty()
        }
    }
}

/// The sites of the mentions that land on a key, in order.
pub open spec fn sites_for(defs: Seq<DefinitionView>, before_side: bool, ms: Seq<Mention>, key: (Identity, TargetView)) -> Seq<Site>
    decreases ms.len(),
{
    if ms.len() == 0 {
        Seq::empty()
    } else {
        sites_for(defs, before_side, ms.drop_last(), key) + if landing(defs, before_side, ms.last()) == Some(key) {
            seq![ms.last().site]
        } else {
            Seq::empty()
        }
    }
}

/// Some mention lands on a key.
pub open spec fn lands(defs: Seq<DefinitionView>, before_side: bool, ms: Seq<Mention>, key: (Identity, TargetView)) -> bool {
    exists|i: int| 0 <= i < ms.len() && landing(defs, before_side, #[trigger] ms[i]) == Some(key)
}

/// A reference's key.
pub open spec fn key_of(r: Reference) -> (Identity, TargetView) {
    (r.from, target_view(r.to))
}

/// `refs` lines up the mentions of both snapshots: one reference for each place a mention
/// lands on either side, in order of key, holding the sites that landed there on each.
pub open spec fn lined_up(defs: Seq<DefinitionView>, before: Seq<Mention>, after: Seq<Mention>, refs: Seq<Reference>) -> bool {
    &&& forall|k: int, l: int| 0 <= k < l < refs.len() ==> key_lt(key_of(#[trigger] refs[k]), key_of(#[trigger] refs[l]))
    &&& forall|k: int| 0 <= k < refs.len() ==> lands(defs, true, before, key_of(#[trigger] refs[k])) || lands(defs, false, after, key_of(refs[k]))
    &&& forall|key: (Identity, TargetView)| #[trigger] lands(defs, true, before, key) || #[trigger] lands(defs, false, after, key) ==> exists|k: int|
        0 <= k < refs.len() && key_of(#[trigger] refs[k]) == key
    &&& forall|k: int| 0 <= k < refs.len() ==> (#[trigger] refs[k]).before@ == sites_for(defs, true, before, key_of(refs[k]))
    &&& forall|k: int| 0 <= k < refs.len() ==> (#[trigger] refs[k]).after@ == sites_for(defs, false, after, key_of(refs[k]))
}

/// The identity a locator stands for on one side.
fn named(defs: &Vec<Definition>, before_side: bool, l: &Locator) -> (r: Option<Identity>)
    ensures
        r == named_on(definition_views(defs@), before_side, l@),
{
    let mut i = defs.len();
    assert(defs@.subrange(0, i as int) =~= defs@);
    while i > 0
        invariant
            i <= defs@.len(),
            named_on(definition_views(defs@), before_side, l@) == named_on(definition_views(defs@.subrange(0, i as int)), before_side, l@),
        decreases i,
    {
        let ghost d = definition_views(defs@.subrange(0, i as int));
        assert(d.drop_last() =~= definition_views(defs@.subrange(0, i - 1)));
        assert(d.last() == defs@[i - 1]@);
        let side = if before_side { defs[i - 1].sides.before() } else { defs[i - 1].sides.after() };
        match side {
            Some(o) => {
                if o.locator.same_as(l) {
                    return Some(defs[i - 1].identity);
                }
            },
            None => {},
        }
        i = i - 1;
    }
    assert(definition_views(defs@.subrange(0, 0)) =~= Seq::empty());
    None
}

/// Where a mention lands.
fn land(defs: &Vec<Definition>, before_side: bool, m: &Mention) -> (r: Option<(Identity, Target<Identity>)>)
    ensures
        match r {
            Some((from, to)) => landing(definition_views(defs@), before_side, *m) == Some((from, target_view(to))),
            None => landing(definition_views(defs@), before_side, *m) is None,
        },
{
    match named(defs, before_side, &m.from) {
        None => None,
        Some(from) => {
            let to = match &m.to {
                Target::Known(l) => match named(defs, before_side, l) {
                    Some(id) => Target::Known(id),
                    None => Target::Unknown { symbol: l.name.clone() },
                },
                Target::Unknown { symbol } => Target::Unknown { symbol: symbol.clone() },
            };
            Some((from, to))
        },
    }
}

/// Whether one target sorts before another.
fn target_before(a: &Target<Identity>, b: &Target<Identity>) -> (r: bool)
    ensures
        r == target_lt(target_view(*a), target_view(*b)),
{
    match (a, b) {
        (Target::Known(x), Target::Known(y)) => x.0 < y.0,
        (Target::Known(_), Target::Unknown { .. }) => true,
        (Target::Unknown { .. }, Target::Known(_)) => false,
        (Target::Unknown { symbol: s }, Target::Unknown { symbol: t }) => crate::text::str_lt(s.as_str(), t.as_str()),
    }
}

/// Whether two targets are the same.
fn target_same(a: &Target<Identity>, b: &Target<Identity>) -> (r: bool)
    ensures
        r == (target_view(*a) == target_view(*b)),
{
    match (a, b) {
        (Target::Known(x), Target::Known(y)) => x.0 == y.0,
        (Target::Unknown { symbol: s }, Target::Unknown { symbol: t }) => crate::text::str_eq(s.as_str(), t.as_str()),
        _ => false,
    }
}

/// The sites a reference holds for one side.
pub open spec fn this_side(r: Reference, before_side: bool) -> Seq<Site> {
    if before_side { r.before@ } else { r.after@ }
}

/// The sites a reference holds for the other side.
pub open spec fn other_side(r: Reference, before_side: bool) -> Seq<Site> {
    if before_side { r.after@ } else { r.before@ }
}

/// Some reference has a key.
pub open spec fn has_key(refs: Seq<Reference>, key: (Identity, TargetView)) -> bool {
    exists|k: int| 0 <= k < refs.len() && key_of(#[trigger] refs[k]) == key
}

/// References in strictly increasing order of key.
pub open spec fn by_key(refs: Seq<Reference>) -> bool {
    forall|k: int, l: int| 0 <= k < l < refs.len() ==> key_lt(key_of(#[trigger] refs[k]), key_of(#[trigger] refs[l]))
}

proof fn lemma_no_sites(defs: Seq<DefinitionView>, before_side: bool, ms: Seq<Mention>, key: (Identity, TargetView))
    requires
        !lands(defs, before_side, ms, key),
    ensures
        sites_for(defs, before_side, ms, key) == Seq::<Site>::empty(),
    decreases ms.len(),
{
    if ms.len() > 0 {
        assert forall|i: int| 0 <= i < ms.drop_last().len() implies landing(defs, before_side, #[trigger] ms.drop_last()[i]) != Some(key) by {
            assert(ms.drop_last()[i] == ms[i]);
        }
        lemma_no_sites(defs, before_side, ms.drop_last(), key);
        assert(landing(defs, before_side, ms[ms.len() - 1]) != Some(key));
    }
}

/// A copy of some sites.
fn copy_sites(v: &Vec<Site>) -> (r: Vec<Site>)
    ensures
        r@ == v@,
{
    let mut r: Vec<Site> = Vec::new();
    for i in 0..v.len()
        invariant
            r@ == v@.subrange(0, i as int),
    {
        r.push(v[i].duplicate());
        assert(v@.subrange(0, i + 1) =~= v@.subrange(0, i as int).push(v@[i as int]));
    }
    assert(v@.subrange(0, v@.len() as int) =~= v@);
    r
}

/// Partway through one snapshot's mentions `ms`: the references that were there at the
/// start (`r0`) are all still there with their other side untouched, each new one came
/// from a mention, every mention's key has a reference, and each holds this side's sites.
pub open spec fn holding(r0: Seq<Reference>, refs: Seq<Reference>, dv: Seq<DefinitionView>, before_side: bool, ms: Seq<Mention>) -> bool {
    &&& by_key(refs)
    &&& forall|k: int| 0 <= k < refs.len() ==> this_side(#[trigger] refs[k], before_side) == sites_for(dv, before_side, ms, key_of(refs[k]))
    &&& forall|k: int| 0 <= k < refs.len() && has_key(r0, key_of(#[trigger] refs[k])) ==> exists|k0: int|
        0 <= k0 < r0.len() && key_of(#[trigger] r0[k0]) == key_of(refs[k]) && other_side(r0[k0], before_side) == other_side(refs[k], before_side)
    &&& forall|k: int| 0 <= k < refs.len() && !has_key(r0, key_of(#[trigger] refs[k])) ==> other_side(refs[k], before_side) == Seq::<Site>::empty()
        && lands(dv, before_side, ms, key_of(refs[k]))
    &&& forall|k0: int| 0 <= k0 < r0.len() ==> has_key(refs, key_of(#[trigger] r0[k0]))
    &&& forall|key: (Identity, TargetView)| #[trigger] lands(dv, before_side, ms, key) ==> has_key(refs, key)
}

proof fn lemma_one_more(dv: Seq<DefinitionView>, before_side: bool, ms: Seq<Mention>, m: Mention)
    ensures
        forall|key: (Identity, TargetView)| #[trigger] lands(dv, before_side, ms.push(m), key) == (lands(dv, before_side, ms, key) || landing(dv, before_side, m) == Some(key)),
        forall|key: (Identity, TargetView)| #[trigger] sites_for(dv, before_side, ms.push(m), key) == sites_for(dv, before_side, ms, key) + if landing(dv, before_side, m) == Some(key) {
            seq![m.site]
        } else {
            Seq::<Site>::empty()
        },
        nowhere(dv, before_side, ms.push(m)) == nowhere(dv, before_side, ms) + if landing(dv, before_side, m) is None {
            seq![DiagnosticView::MentionFromNowhere { from: m.from@ }]
        } else {
            Seq::<DiagnosticView>::empty()
        },
{
    let next = ms.push(m);
    assert(next.drop_last() =~= ms);
    assert forall|key: (Identity, TargetView)| #[trigger] lands(dv, before_side, next, key) == (lands(dv, before_side, ms, key) || landing(dv, before_side, m) == Some(key)) by {
        if lands(dv, before_side, next, key) {
            let x = choose|x: int| 0 <= x < next.len() && landing(dv, before_side, #[trigger] next[x]) == Some(key);
            if x < ms.len() {
                assert(ms[x] == next[x]);
            }
        }
        if lands(dv, before_side, ms, key) {
            let x = choose|x: int| 0 <= x < ms.len() && landing(dv, before_side, #[trigger] ms[x]) == Some(key);
            assert(next[x] == ms[x]);
        }
        if landing(dv, before_side, m) == Some(key) {
            assert(next[ms.len() as int] == m);
        }
    }
}

/// Adds a mention's site to the reference already at place `p`, which has its key.
fn add_to(
    refs: &mut Vec<Reference>,
    p: usize,
    site: &Site,
    before_side: bool,
    Ghost(r0): Ghost<Seq<Reference>>,
    Ghost(dv): Ghost<Seq<DefinitionView>>,
    Ghost(ms): Ghost<Seq<Mention>>,
    Ghost(m): Ghost<Mention>,
)
    requires
        holding(r0, old(refs)@, dv, before_side, ms),
        p < old(refs)@.len(),
        landing(dv, before_side, m) == Some(key_of(old(refs)@[p as int])),
        m.site == *site,
    ensures
        holding(r0, final(refs)@, dv, before_side, ms.push(m)),
{
    proof {
        lemma_one_more(dv, before_side, ms, m);
    }
    let ghost rw = refs@;
    let ghost key = key_of(rw[p as int]);
    let r = &refs[p];
    let mut here = if before_side { copy_sites(&r.before) } else { copy_sites(&r.after) };
    let there = if before_side { copy_sites(&r.after) } else { copy_sites(&r.before) };
    here.push(site.duplicate());
    let fresh = if before_side {
        Reference { from: r.from, to: crate::reference::copy_target(&r.to), before: here, after: there }
    } else {
        Reference { from: r.from, to: crate::reference::copy_target(&r.to), before: there, after: here }
    };
    refs.set(p, fresh);
    proof {
        let next = ms.push(m);
        assert(key_of(refs@[p as int]) == key);
        assert forall|k: int| 0 <= k < refs@.len() && k != p implies key_of(#[trigger] refs@[k]) != key by {
            assert(refs@[k] == rw[k]);
            lemma_key_order(key_of(rw[k]), key, key);
        }
        assert forall|k: int, l: int| 0 <= k < l < refs@.len() implies key_lt(key_of(#[trigger] refs@[k]), key_of(#[trigger] refs@[l])) by {
            assert(key_of(refs@[k]) == key_of(rw[k]) && key_of(refs@[l]) == key_of(rw[l]));
        }
        assert forall|k: int| 0 <= k < refs@.len() implies this_side(#[trigger] refs@[k], before_side) == sites_for(dv, before_side, next, key_of(refs@[k])) by {
            if k != p {
                assert(refs@[k] == rw[k]);
            }
        }
        assert forall|k: int| 0 <= k < refs@.len() && has_key(r0, key_of(#[trigger] refs@[k])) implies exists|k0: int|
            0 <= k0 < r0.len() && key_of(#[trigger] r0[k0]) == key_of(refs@[k]) && other_side(r0[k0], before_side) == other_side(refs@[k], before_side) by {
            assert(key_of(refs@[k]) == key_of(rw[k]) && other_side(refs@[k], before_side) == other_side(rw[k], before_side));
        }
        assert forall|k: int| 0 <= k < refs@.len() && !has_key(r0, key_of(#[trigger] refs@[k])) implies other_side(refs@[k], before_side) == Seq::<Site>::empty()
            && lands(dv, before_side, next, key_of(refs@[k])) by {
            assert(key_of(refs@[k]) == key_of(rw[k]) && other_side(refs@[k], before_side) == other_side(rw[k], before_side));
        }
        assert forall|k0: int| 0 <= k0 < r0.len() implies has_key(refs@, key_of(#[trigger] r0[k0])) by {
            let k = choose|k: int| 0 <= k < rw.len() && key_of(#[trigger] rw[k]) == key_of(r0[k0]);
            assert(key_of(refs@[k]) == key_of(rw[k]));
        }
        assert forall|key2: (Identity, TargetView)| #[trigger] lands(dv, before_side, next, key2) implies has_key(refs@, key2) by {
            if lands(dv, before_side, ms, key2) {
                let k = choose|k: int| 0 <= k < rw.len() && key_of(#[trigger] rw[k]) == key2;
                assert(key_of(refs@[k]) == key_of(rw[k]));
            } else {
                assert(key_of(refs@[p as int]) == key2);
            }
        }
    }
}

/// Starts a reference at place `p` for a mention whose key no reference has yet, `p`
/// being where the key sorts.
fn start_at(
    refs: &mut Vec<Reference>,
    p: usize,
    from: Identity,
    to: Target<Identity>,
    site: &Site,
    before_side: bool,
    Ghost(r0): Ghost<Seq<Reference>>,
    Ghost(dv): Ghost<Seq<DefinitionView>>,
    Ghost(ms): Ghost<Seq<Mention>>,
    Ghost(m): Ghost<Mention>,
)
    requires
        holding(r0, old(refs)@, dv, before_side, ms),
        p <= old(refs)@.len(),
        landing(dv, before_side, m) == Some((from, target_view(to))),
        m.site == *site,
        forall|k: int| 0 <= k < p ==> key_lt(key_of(#[trigger] old(refs)@[k]), (from, target_view(to))),
        forall|k: int| p <= k < old(refs)@.len() ==> key_lt((from, target_view(to)), key_of(#[trigger] old(refs)@[k])),
    ensures
        holding(r0, final(refs)@, dv, before_side, ms.push(m)),
{
    let ghost rw = refs@;
    let ghost key = (from, target_view(to));
    proof {
        lemma_one_more(dv, before_side, ms, m);
        assert forall|k: int| 0 <= k < rw.len() implies key_of(#[trigger] rw[k]) != key by {
            lemma_key_order(key, key, key);
        }
        assert(!has_key(rw, key));
        assert(!lands(dv, before_side, ms, key));
        lemma_no_sites(dv, before_side, ms, key);
        assert(!has_key(r0, key)) by {
            if has_key(r0, key) {
                let k0 = choose|k0: int| 0 <= k0 < r0.len() && key_of(#[trigger] r0[k0]) == key;
                assert(has_key(rw, key_of(r0[k0])));
            }
        }
    }
    let mut here: Vec<Site> = Vec::new();
    here.push(site.duplicate());
    let fresh = if before_side {
        Reference { from, to, before: here, after: Vec::new() }
    } else {
        Reference { from, to, before: Vec::new(), after: here }
    };
    refs.insert(p, fresh);
    proof {
        let next = ms.push(m);
        rw.insert_ensures(p as int, fresh);
        assert(key_of(refs@[p as int]) == key);
        assert forall|k: int, l: int| 0 <= k < l < refs@.len() implies key_lt(key_of(#[trigger] refs@[k]), key_of(#[trigger] refs@[l])) by {
            if l < p {
                assert(refs@[k] == rw[k] && refs@[l] == rw[l]);
            } else if l == p {
                assert(refs@[k] == rw[k]);
            } else if k > p {
                assert(refs@[k] == rw[k - 1] && refs@[l] == rw[l - 1]);
            } else if k == p {
                assert(refs@[l] == rw[l - 1]);
            } else {
                assert(refs@[k] == rw[k] && refs@[l] == rw[l - 1]);
                lemma_key_order(key_of(rw[k]), key, key_of(rw[l - 1]));
            }
        }
        assert forall|k: int| 0 <= k < refs@.len() implies this_side(#[trigger] refs@[k], before_side) == sites_for(dv, before_side, next, key_of(refs@[k])) by {
            if k < p {
                assert(refs@[k] == rw[k]);
            } else if k > p {
                assert(refs@[k] == rw[k - 1]);
            } else {
                assert(this_side(refs@[k], before_side) =~= seq![m.site]);
            }
        }
        assert forall|k: int| 0 <= k < refs@.len() && has_key(r0, key_of(#[trigger] refs@[k])) implies exists|k0: int|
            0 <= k0 < r0.len() && key_of(#[trigger] r0[k0]) == key_of(refs@[k]) && other_side(r0[k0], before_side) == other_side(refs@[k], before_side) by {
            if k < p {
                assert(refs@[k] == rw[k]);
            } else if k > p {
                assert(refs@[k] == rw[k - 1]);
            }
        }
        assert forall|k: int| 0 <= k < refs@.len() && !has_key(r0, key_of(#[trigger] refs@[k])) implies other_side(refs@[k], before_side) == Seq::<Site>::empty()
            && lands(dv, before_side, next, key_of(refs@[k])) by {
            if k < p {
                assert(refs@[k] == rw[k]);
            } else if k > p {
                assert(refs@[k] == rw[k - 1]);
            } else {
                assert(other_side(refs@[k], before_side) =~= Seq::<Site>::empty());
            }
        }
        assert forall|k0: int| 0 <= k0 < r0.len() implies has_key(refs@, key_of(#[trigger] r0[k0])) by {
            let k = choose|k: int| 0 <= k < rw.len() && key_of(#[trigger] rw[k]) == key_of(r0[k0]);
            if k < p {
                assert(refs@[k] == rw[k]);
            } else {
                assert(refs@[k + 1] == rw[k]);
            }
        }
        assert forall|key2: (Identity, TargetView)| #[trigger] lands(dv, before_side, next, key2) implies has_key(refs@, key2) by {
            if lands(dv, before_side, ms, key2) {
                let k = choose|k: int| 0 <= k < rw.len() && key_of(#[trigger] rw[k]) == key2;
                if k < p {
                    assert(refs@[k] == rw[k]);
                } else {
                    assert(refs@[k + 1] == rw[k]);
                }
            } else {
                assert(key_of(refs@[p as int]) == key2);
            }
        }
    }
}

/// Adds one snapshot's mentions to the references, keeping them in order of key, and says
/// of each mention that comes from no definition on its side that it does.
fn add_side(
    refs: &mut Vec<Reference>,
    defs: &Vec<Definition>,
    before_side: bool,
    ms: &Vec<Mention>,
    diagnostics: &mut Vec<Diagnostic>,
)
    requires
        by_key(old(refs)@),
        forall|k: int| 0 <= k < old(refs)@.len() ==> this_side(#[trigger] old(refs)@[k], before_side) == Seq::<Site>::empty(),
    ensures
        holding(old(refs)@, final(refs)@, definition_views(defs@), before_side, ms@),
        diagnostic_views(final(diagnostics)@) == diagnostic_views(old(diagnostics)@) + nowhere(definition_views(defs@), before_side, ms@),
{
    let ghost dv = definition_views(defs@);
    let ghost r0 = refs@;
    let ghost d0 = diagnostic_views(diagnostics@);
    proof {
        assert(ms@.subrange(0, 0) =~= Seq::<Mention>::empty());
        assert forall|k0: int| 0 <= k0 < r0.len() implies has_key(refs@, key_of(#[trigger] r0[k0])) by {
            assert(key_of(refs@[k0]) == key_of(r0[k0]));
        }
        assert forall|k: int| 0 <= k < refs@.len() && has_key(r0, key_of(#[trigger] refs@[k])) implies exists|k0: int|
            0 <= k0 < r0.len() && key_of(#[trigger] r0[k0]) == key_of(refs@[k]) && other_side(r0[k0], before_side) == other_side(refs@[k], before_side) by {
            assert(key_of(r0[k]) == key_of(refs@[k]));
        }
        assert forall|k: int| 0 <= k < refs@.len() implies !has_key(r0, key_of(#[trigger] refs@[k])) == false by {
            assert(key_of(r0[k]) == key_of(refs@[k]));
        }
    }
    for i in 0..ms.len()
        invariant
            dv == definition_views(defs@),
            holding(r0, refs@, dv, before_side, ms@.subrange(0, i as int)),
            diagnostic_views(diagnostics@) == d0 + nowhere(dv, before_side, ms@.subrange(0, i as int)),
    {
        let ghost prefix = ms@.subrange(0, i as int);
        let ghost m = ms@[i as int];
        assert(ms@.subrange(0, i + 1) =~= prefix.push(m));
        proof {
            lemma_one_more(dv, before_side, prefix, m);
        }
        match land(defs, before_side, &ms[i]) {
            None => {
                let ghost was = diagnostics@;
                diagnostics.push(Diagnostic::MentionFromNowhere { from: ms[i].from.duplicate() });
                proof {
                    assert(diagnostic_views(diagnostics@) =~= diagnostic_views(was) + seq![DiagnosticView::MentionFromNowhere { from: m.from@ }]);
                    assert forall|k: int| 0 <= k < refs@.len() implies this_side(#[trigger] refs@[k], before_side) == sites_for(dv, before_side, prefix.push(m), key_of(refs@[k])) by {}
                    assert forall|k: int| 0 <= k < refs@.len() && !has_key(r0, key_of(#[trigger] refs@[k])) implies other_side(refs@[k], before_side) == Seq::<Site>::empty()
                        && lands(dv, before_side, prefix.push(m), key_of(refs@[k])) by {}
                    assert forall|key: (Identity, TargetView)| #[trigger] lands(dv, before_side, prefix.push(m), key) implies has_key(refs@, key) by {
                        assert(lands(dv, before_side, prefix, key));
                    }
                }
            },
            Some((from, to)) => {
                let ghost key = (from, target_view(to));
                let mut p: usize = 0;
                while p < refs.len() && (refs[p].from.0 < from.0 || (refs[p].from.0 == from.0 && target_before(&refs[p].to, &to)))
                    invariant
                        p <= refs@.len(),
                        key == (from, target_view(to)),
                        forall|k: int| 0 <= k < p ==> key_lt(key_of(#[trigger] refs@[k]), key),
                    decreases refs@.len() - p,
                {
                    p = p + 1;
                }
                if p < refs.len() && refs[p].from.0 == from.0 && target_same(&refs[p].to, &to) {
                    add_to(refs, p, &ms[i].site, before_side, Ghost(r0), Ghost(dv), Ghost(prefix), Ghost(m));
                } else {
                    proof {
                        assert forall|k: int| p <= k < refs@.len() implies key_lt(key, key_of(#[trigger] refs@[k])) by {
                            lemma_key_order(key_of(refs@[p as int]), key, key_of(refs@[k]));
                            lemma_key_order(key, key_of(refs@[p as int]), key_of(refs@[k]));
                        }
                    }
                    start_at(refs, p, from, to, &ms[i].site, before_side, Ghost(r0), Ghost(dv), Ghost(prefix), Ghost(m));
                }
            },
        }
    }
    assert(ms@.subrange(0, ms@.len() as int) =~= ms@);
}

/// Lines the two snapshots' mentions up by the identities they landed on, so a call
/// that only shows up on one side reads as added or removed.
fn collect_references(
    before: &Vec<Mention>,
    after: &Vec<Mention>,
    defs: &Vec<Definition>,
    diagnostics: &mut Vec<Diagnostic>,
) -> (r: Vec<Reference>)
    ensures
        lined_up(definition_views(defs@), before@, after@, r@),
        diagnostic_views(final(diagnostics)@) == diagnostic_views(old(diagnostics)@) + nowhere(definition_views(defs@), true, before@)
            + nowhere(definition_views(defs@), false, after@),
{
    let ghost dv = definition_views(defs@);
    let mut refs: Vec<Reference> = Vec::new();
    add_side(&mut refs, defs, true, before, diagnostics);
    let ghost r1 = refs@;
    add_side(&mut refs, defs, false, after, diagnostics);
    proof {
        let r2 = refs@;
        let e = Seq::<Reference>::empty();
        assert forall|k: int| 0 <= k < r1.len() implies !has_key(e, key_of(#[trigger] r1[k])) by {}
        assert forall|k: int| 0 <= k < r2.len() implies lands(dv, true, before@, key_of(#[trigger] r2[k])) || lands(dv, false, after@, key_of(r2[k])) by {
            if has_key(r1, key_of(r2[k])) {
                let k0 = choose|k0: int| 0 <= k0 < r1.len() && key_of(#[trigger] r1[k0]) == key_of(r2[k]) && other_side(r1[k0], false) == other_side(r2[k], false);
                assert(!has_key(e, key_of(r1[k0])));
            }
        }
        assert forall|key: (Identity, TargetView)| #[trigger] lands(dv, true, before@, key) || #[trigger] lands(dv, false, after@, key) implies exists|k: int|
            0 <= k < r2.len() && key_of(#[trigger] r2[k]) == key by {
            if lands(dv, true, before@, key) {
                assert(has_key(r1, key));
                let k0 = choose|k0: int| 0 <= k0 < r1.len() && key_of(#[trigger] r1[k0]) == key;
                assert(has_key(r2, key_of(r1[k0])));
            } else {
                assert(has_key(r2, key));
            }
        }
        assert forall|k: int| 0 <= k < r2.len() implies (#[trigger] r2[k]).before@ == sites_for(dv, true, before@, key_of(r2[k])) by {
            if has_key(r1, key_of(r2[k])) {
                let k0 = choose|k0: int| 0 <= k0 < r1.len() && key_of(#[trigger] r1[k0]) == key_of(r2[k]) && other_side(r1[k0], false) == other_side(r2[k], false);
                assert(this_side(r1[k0], true) == sites_for(dv, true, before@, key_of(r1[k0])));
            } else {
                if lands(dv, true, before@, key_of(r2[k])) {
                    assert(has_key(r1, key_of(r2[k])));
                }
                lemma_no_sites(dv, true, before@, key_of(r2[k]));
            }
        }
        assert forall|k: int| 0 <= k < r2.len() implies (#[trigger] r2[k]).after@ == sites_for(dv, false, after@, key_of(r2[k])) by {
            assert(this_side(r2[k], false) == sites_for(dv, false, after@, key_of(r2[k])));
        }
    }
    refs
}

/// What an extractor reports about one snapshot.
#[derive(Debug, Clone)]
pub struct Extraction {
    pub occurrences: Vec<Occurrence>,
    pub mentions: Vec<Mention>,
}

impl Default for Extraction {
    fn default() -> (r: Extraction)
        ensures
            r.occurrences@.len() == 0,
            r.mentions@.len() == 0,
    {
        Extraction { occurrences: Vec::new(), mentions: Vec::new() }
    }
}

/// The two snapshots as one: every definition with its identity, the mentions lined up
/// by identity, and what had to be worked around on the way.
#[derive(Debug, Clone)]
pub struct Matched {
    pub definitions: Vec<Definition>,
    pub references: Vec<Reference>,
    pub diagnostics: Vec<Diagnostic>,
}

/// Decide which definitions in the two snapshots are the same definition, then say
/// everything else in terms of the identities that fall out.
///
/// The definitions are the pairing's: each definition of the earlier snapshot, kept or
/// removed, then each of the later one that nothing paired with, added, numbered from
/// zero. The diagnostics are the checks on the earlier snapshot, then on the later one,
/// then the mentions of each that come from no definition. Identities are 32-bit, so the
/// two snapshots together hold at most `u32::MAX` definitions.
pub fn match_snapshots(before: Extraction, after: Extraction) -> (r: Matched)
    requires
        before.occurrences@.len() + after.occurrences@.len() <= u32::MAX,
    ensures
        exists|pairs: Seq<Option<usize>>| #[trigger] paired(before.occurrences@, after.occurrences@, pairs)
            && definition_views(r.definitions@) == built(before.occurrences@, after.occurrences@, pairs),
        exists|c1: Seq<DiagnosticView>, c2: Seq<DiagnosticView>|
            #[trigger] checked_as(before.occurrences@, c1) && #[trigger] checked_as(after.occurrences@, c2)
                && diagnostic_views(r.diagnostics@) == c1 + c2 + nowhere(definition_views(r.definitions@), true, before.mentions@)
                    + nowhere(definition_views(r.definitions@), false, after.mentions@),
        lined_up(definition_views(r.definitions@), before.mentions@, after.mentions@, r.references@),
{
    let mut diagnostics = checked(&before.occurrences);
    let ghost c1 = diagnostic_views(diagnostics@);
    let mut more = checked(&after.occurrences);
    let ghost c2 = diagnostic_views(more@);
    diagnostics.append(&mut more);
    assert(diagnostic_views(diagnostics@) =~= c1 + c2);
    let pairs = pair_up(&before.occurrences, &after.occurrences);
    let definitions = build_definitions(&pairs, &before.occurrences, &after.occurrences);
    let references = collect_references(&before.mentions, &after.mentions, &definitions, &mut diagnostics);
    Matched { definitions, references, diagnostics }
}

// ---------------------------------------------------------------------------------------
// What every pairing keeps.

proof fn lemma_leftover_holds(pairs: Seq<Option<usize>>, n: int, j: int)
    requires
        0 <= j < n,
    ensures
        leftover(pairs, n).contains(j) == unpaired(pairs, j),
    decreases n,
{
    lemma_leftover(pairs, n - 1);
    if j < n - 1 {
        lemma_leftover_holds(pairs, n - 1, j);
        if unpaired(pairs, n - 1) {
            assert(leftover(pairs, n) == leftover(pairs, n - 1) + seq![n - 1]);
            if leftover(pairs, n).contains(j) {
                let ln = leftover(pairs, n);
                let k = choose|k: int| 0 <= k < ln.len() && #[trigger] ln[k] == j;
                if k < leftover(pairs, n - 1).len() {
                    assert(leftover(pairs, n - 1)[k] == j);
                }
            }
            if leftover(pairs, n - 1).contains(j) {
                let lo = leftover(pairs, n - 1);
                let k = choose|k: int| 0 <= k < lo.len() && #[trigger] lo[k] == j;
                assert(leftover(pairs, n)[k] == j);
            }
        } else {
            assert(leftover(pairs, n) =~= leftover(pairs, n - 1));
        }
    } else {
        if unpaired(pairs, n - 1) {
            assert(leftover(pairs, n)[leftover(pairs, n - 1).len() as int] == j);
        } else {
            assert(leftover(pairs, n) =~= leftover(pairs, n - 1));
        }
    }
}

proof fn lemma_first_pointer(pairs: Seq<Option<usize>>, j: int, n: int)
    requires
        0 <= n <= pairs.len(),
        exists|x: int| 0 <= x < n && #[trigger] points(pairs[x], j),
    ensures
        exists|w: int| 0 <= w < n && keeps(pairs, w, j),
    decreases n,
{
    if exists|x: int| 0 <= x < n - 1 && #[trigger] points(pairs[x], j) {
        lemma_first_pointer(pairs, j, n - 1);
        let w = choose|w: int| 0 <= w < n - 1 && keeps(pairs, w, j);
        assert(keeps(pairs, w, j));
    } else {
        assert(points(pairs[n - 1], j));
        assert(keeps(pairs, n - 1, j));
    }
}

/// No after-occurrence is lost or counted twice: each is kept by exactly one definition
/// of the earlier snapshot, or else added, once.
pub proof fn lemma_each_after_once(pairs: Seq<Option<usize>>, na: int, j: int)
    requires
        0 <= j < na,
    ensures
        (exists|w: int| 0 <= w < pairs.len() && keeps(pairs, w, j)) != leftover(pairs, na).contains(j),
        forall|w1: int, w2: int|
            0 <= w1 < pairs.len() && 0 <= w2 < pairs.len() && keeps(pairs, w1, j) && keeps(pairs, w2, j) ==> w1 == w2,
{
    lemma_leftover_holds(pairs, na, j);
    if !unpaired(pairs, j) {
        lemma_first_pointer(pairs, j, pairs.len() as int);
    } else {
        if exists|w: int| 0 <= w < pairs.len() && keeps(pairs, w, j) {
            let w = choose|w: int| 0 <= w < pairs.len() && keeps(pairs, w, j);
            assert(points(pairs[w], j));
        }
    }
    assert forall|w1: int, w2: int|
        0 <= w1 < pairs.len() && 0 <= w2 < pairs.len() && keeps(pairs, w1, j) && keeps(pairs, w2, j) implies w1 == w2 by {
        if w1 < w2 {
            assert(points(pairs[w1], j));
        } else if w2 < w1 {
            assert(points(pairs[w2], j));
        }
    }
}

/// Which after-occurrence definition `k` of a pairing holds as its later side, if any.
pub open spec fn after_place(before: Seq<Occurrence>, after: Seq<Occurrence>, pairs: Seq<Option<usize>>, k: int) -> Option<int> {
    if k < before.len() {
        match pairs[k] {
            Some(j) => if keeps(pairs, k, j as int) { Some(j as int) } else { None },
            None => None,
        }
    } else {
        Some(leftover(pairs, after.len() as int)[k - before.len()])
    }
}

/// The places nobody paired with come in increasing order.
proof fn lemma_leftover_rises(pairs: Seq<Option<usize>>, n: int)
    requires
        n >= 0,
    ensures
        forall|a: int, b: int| 0 <= a < b < leftover(pairs, n).len() ==> leftover(pairs, n)[a] < leftover(pairs, n)[b],
    decreases n,
{
    if n > 0 {
        lemma_leftover_rises(pairs, n - 1);
        lemma_leftover(pairs, n - 1);
    }
}

/// Matching gives each after-occurrence one definition: of the definitions a pairing
/// makes, exactly one holds `after[j]` as its later side, and a definition's later side
/// is the after-occurrence it holds.
pub proof fn lemma_each_after_one_definition(before: Seq<Occurrence>, after: Seq<Occurrence>, pairs: Seq<Option<usize>>, j: int)
    requires
        pairs.len() == before.len(),
        forall|w: int| 0 <= w < pairs.len() && (#[trigger] pairs[w]) is Some ==> pairs[w]->0 < after.len(),
        0 <= j < after.len(),
    ensures
        exists|k: int| 0 <= k < built(before, after, pairs).len() && #[trigger] after_place(before, after, pairs, k) == Some(j),
        forall|k1: int, k2: int|
            0 <= k1 < built(before, after, pairs).len() && 0 <= k2 < built(before, after, pairs).len() && #[trigger] after_place(before, after, pairs, k1)
                == Some(j) && #[trigger] after_place(before, after, pairs, k2) == Some(j) ==> k1 == k2,
        forall|k: int|
            0 <= k < built(before, after, pairs).len() && #[trigger] after_place(before, after, pairs, k) == Some(j) ==> built(
                before,
                after,
                pairs,
            )[k].sides.after() == Some(after[j]@),
{
    let nb = before.len() as int;
    let na = after.len() as int;
    let left = leftover(pairs, na);
    let all = built(before, after, pairs);
    lemma_each_after_once(pairs, na, j);
    lemma_leftover(pairs, na);
    lemma_leftover_rises(pairs, na);
    if exists|w: int| 0 <= w < pairs.len() && keeps(pairs, w, j) {
        let w = choose|w: int| 0 <= w < pairs.len() && keeps(pairs, w, j);
        assert(after_place(before, after, pairs, w) == Some(j));
    } else {
        assert(left.contains(j));
        let q = choose|q: int| 0 <= q < left.len() && left[q] == j;
        assert(after_place(before, after, pairs, nb + q) == Some(j));
    }
    assert forall|k1: int, k2: int|
        0 <= k1 < all.len() && 0 <= k2 < all.len() && #[trigger] after_place(before, after, pairs, k1) == Some(j)
            && #[trigger] after_place(before, after, pairs, k2) == Some(j) implies k1 == k2 by {
        if k1 < nb && k2 < nb {
        } else if k1 < nb {
            assert(keeps(pairs, k1, j));
            assert(left[k2 - nb] == j);
            assert(left.contains(j));
        } else if k2 < nb {
            assert(keeps(pairs, k2, j));
            assert(left[k1 - nb] == j);
            assert(left.contains(j));
        } else {
            if k1 < k2 {
                assert(left[k1 - nb] < left[k2 - nb]);
            } else if k2 < k1 {
                assert(left[k2 - nb] < left[k1 - nb]);
            }
        }
    }
}

proof fn lemma_first_under_exists(after: Seq<Occurrence>, l: LocatorView, n: int)
    requires
        0 <= n <= after.len(),
        exists|j: int| 0 <= j < n && after[j]@.locator == l,
    ensures
        exists|j: int| #[trigger] first_under(after, l, j),
    decreases n,
{
    if exists|j: int| 0 <= j < n - 1 && after[j]@.locator == l {
        lemma_first_under_exists(after, l, n - 1);
    } else {
        assert(first_under(after, l, n - 1));
    }
}

/// A name that stays keeps its definition: the first occurrence of a name in the earlier
/// snapshot pairs with the first occurrence of that name in the later one, whatever else
/// changed about it.
pub proof fn lemma_same_name_kept(before: Seq<Occurrence>, after: Seq<Occurrence>, pairs: Seq<Option<usize>>, w: int)
    requires
        paired(before, after, pairs),
        0 <= w < before.len(),
        forall|x: int| 0 <= x < w ==> (#[trigger] before[x])@.locator != before[w]@.locator,
        exists|j: int| 0 <= j < after.len() && (#[trigger] after[j])@.locator == before[w]@.locator,
    ensures
        exists|j: int| #[trigger] first_under(after, before[w]@.locator, j) && keeps(pairs, w, j),
{
    let l = before[w]@.locator;
    lemma_first_under_exists(after, l, after.len() as int);
    lemma_by_name(before, after, w);
    let j = by_name(before, after, w)->0;
    assert(agrees(pairs[w], by_name(before, after, w)));
    assert forall|x: int| 0 <= x < w implies !points(#[trigger] pairs[x], j) by {
        lemma_by_name(before, after, x);
        if points(pairs[x], j) {
            if by_name(before, after, x) is Some {
                assert(agrees(pairs[x], by_name(before, after, x)));
                assert(first_under(after, before[x]@.locator, j));
            } else {
                assert(candidate(before, after, x, pairs[x]->0 as int));
                assert(claimed_by_name(before, after, j));
            }
        }
    }
    assert(first_under(after, l, j) && keeps(pairs, w, j));
}

} // verus!
