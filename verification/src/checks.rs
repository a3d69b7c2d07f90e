//! Sanity checks on what an extractor hands over. Extractor mistakes (a comment filed as
//! a declaration, a line claimed twice) otherwise surface far away, as a review that
//! reads oddly.

use crate::diagnostic::{Diagnostic, DiagnosticView};
use crate::model::{all_pieces, Locator, LocatorView, Occurrence, OccurrenceView, Piece};
use crate::text::{lemma_lt_asymmetric, lemma_lt_irreflexive, lemma_lt_total, lemma_lt_transitive, seq_lt, str_eq, str_lt};
use vstd::prelude::*;

verus! {

/// The view of a diagnostic that may not be there.
pub open spec fn opt_view(d: Option<Diagnostic>) -> Option<DiagnosticView> {
    match d {
        Some(d) => Some(d@),
        None => None,
    }
}

/// Piece `a` comes before piece `b` once pieces are put in order of where they start,
/// those that start together keeping the order they were listed in.
pub open spec fn sooner(ps: Seq<Piece>, a: int, b: int) -> bool {
    ps[a].span.start < ps[b].span.start || (ps[a].span.start == ps[b].span.start && a < b)
}

/// Piece `b` comes right after piece `a` in that order.
pub open spec fn follows(ps: Seq<Piece>, a: int, b: int) -> bool {
    &&& 0 <= a < ps.len()
    &&& 0 <= b < ps.len()
    &&& sooner(ps, a, b)
    &&& forall|c: int| 0 <= c < ps.len() ==> !(#[trigger] sooner(ps, a, c) && sooner(ps, c, b))
}

/// Piece `b` comes right after piece `a`, in the same file, and starts before `a` ends.
pub open spec fn trips(ps: Seq<Piece>, a: int, b: int) -> bool {
    &&& follows(ps, a, b)
    &&& ps[a].file@ == ps[b].file@
    &&& ps[b].span.start < ps[a].span.end
}

/// The first place, in order of where pieces start, that two pieces trip over each other.
pub open spec fn first_trip(ps: Seq<Piece>, a: int, b: int) -> bool {
    &&& trips(ps, a, b)
    &&& forall|a2: int, b2: int| #[trigger] trips(ps, a2, b2) ==> !sooner(ps, a2, a)
}

/// What is wrong with a definition's pieces, if anything: where the first piece starts
/// that runs into the one before it.
pub open spec fn tangle(o: OccurrenceView) -> Option<DiagnosticView> {
    let ps = all_pieces(o);
    if exists|a: int, b: int| #[trigger] first_trip(ps, a, b) {
        let (a, b) = choose|a: int, b: int| #[trigger] first_trip(ps, a, b);
        Some(DiagnosticView::Tangled { definition: o.locator, at: ps[b].span.start })
    } else {
        None
    }
}

proof fn lemma_first_trip_unique(ps: Seq<Piece>, a: int, b: int, a2: int, b2: int)
    requires
        first_trip(ps, a, b),
        first_trip(ps, a2, b2),
    ensures
        a == a2,
        b == b2,
{
    assert(trips(ps, a2, b2));
    assert(trips(ps, a, b));
    assert(!sooner(ps, a2, a));
    assert(!sooner(ps, a, a2));
    if b != b2 {
        if sooner(ps, b, b2) {
            assert(sooner(ps, a, b));
        } else {
            assert(sooner(ps, b2, b));
            assert(sooner(ps, a, b2));
        }
    }
}

/// Place `j` is somewhere in `order`.
pub open spec fn listed(order: Seq<usize>, j: int) -> bool {
    exists|k: int| 0 <= k < order.len() && #[trigger] order[k] == j
}

/// Every piece of a definition, part by part.
fn pieces_of(o: &Occurrence) -> (r: Vec<Piece>)
    ensures
        r@ == all_pieces(o@),
{
    let mut r: Vec<Piece> = Vec::new();
    match &o.parts.contract {
        Some(v) => {
            let mut more = crate::model::copy_pieces(v);
            r.append(&mut more);
        },
        None => {},
    }
    match &o.parts.body {
        Some(v) => {
            let mut more = crate::model::copy_pieces(v);
            r.append(&mut more);
        },
        None => {},
    }
    match &o.parts.docs {
        Some(v) => {
            let mut more = crate::model::copy_pieces(v);
            r.append(&mut more);
        },
        None => {},
    }
    assert(r@ =~= all_pieces(o@));
    r
}

/// The pieces' places, in order of where each starts, ties kept in the order listed.
fn in_order(ps: &Vec<Piece>) -> (order: Vec<usize>)
    ensures
        order@.len() == ps@.len(),
        forall|k: int| 0 <= k < order@.len() ==> (#[trigger] order@[k]) < ps@.len(),
        forall|k: int, l: int| 0 <= k < l < order@.len() ==> sooner(ps@, #[trigger] order@[k] as int, #[trigger] order@[l] as int),
        forall|j: int| 0 <= j < ps@.len() ==> #[trigger] listed(order@, j),
{
    let n = ps.len();
    let mut order: Vec<usize> = Vec::new();
    for t in 0..n
        invariant
            n == ps@.len(),
            order@.len() == t,
            forall|k: int| 0 <= k < order@.len() ==> (#[trigger] order@[k]) < t,
            forall|k: int, l: int| 0 <= k < l < order@.len() ==> sooner(ps@, #[trigger] order@[k] as int, #[trigger] order@[l] as int),
            forall|j: int| 0 <= j < t ==> #[trigger] listed(order@, j),
    {
        let mut p: usize = 0;
        while p < order.len() && ps[order[p]].span.start <= ps[t].span.start
            invariant
                n == ps@.len(),
                t < n,
                p <= order@.len(),
                forall|k: int| 0 <= k < order@.len() ==> (#[trigger] order@[k]) < t,
                forall|k: int| 0 <= k < p ==> ps@[(#[trigger] order@[k]) as int].span.start <= ps@[t as int].span.start,
            decreases order@.len() - p,
        {
            p = p + 1;
        }
        let ghost was = order@;
        order.insert(p, t);
        proof {
            was.insert_ensures(p as int, t);
            assert forall|k: int| 0 <= k < order@.len() implies (#[trigger] order@[k]) < t + 1 by {
                if k < p {
                    assert(order@[k] == was[k]);
                } else if k > p {
                    assert(order@[k] == was[k - 1]);
                }
            }
            assert forall|k: int, l: int| 0 <= k < l < order@.len() implies sooner(ps@, #[trigger] order@[k] as int, #[trigger] order@[l] as int) by {
                if l < p {
                    assert(order@[k] == was[k] && order@[l] == was[l]);
                } else if l == p {
                    assert(order@[k] == was[k]);
                    assert(ps@[was[k] as int].span.start <= ps@[t as int].span.start);
                } else if k > p {
                    assert(order@[k] == was[k - 1] && order@[l] == was[l - 1]);
                } else if k == p {
                    assert(order@[l] == was[l - 1]);
                    assert(ps@[was[p as int] as int].span.start > ps@[t as int].span.start);
                    if l - 1 > p {
                        assert(sooner(ps@, was[p as int] as int, was[l - 1] as int));
                    }
                } else {
                    assert(order@[k] == was[k] && order@[l] == was[l - 1]);
                    if l - 1 > k {
                        assert(sooner(ps@, was[k] as int, was[l - 1] as int));
                    }
                }
            }
            assert forall|j: int| 0 <= j < t + 1 implies #[trigger] listed(order@, j) by {
                if j == t {
                    assert(order@[p as int] == j);
                } else {
                    assert(listed(was, j));
                    let k = choose|k: int| 0 <= k < was.len() && #[trigger] was[k] == j;
                    if k < p {
                        assert(order@[k] == j);
                    } else {
                        assert(order@[k + 1] == j);
                    }
                }
            }
        }
    }
    order
}

/// Two places side by side in the order are pieces that follow each other, and pieces
/// that follow each other sit side by side.
proof fn lemma_side_by_side(ps: Seq<Piece>, order: Seq<usize>, k: int, a: int, b: int)
    requires
        order.len() == ps.len(),
        forall|x: int| 0 <= x < order.len() ==> (#[trigger] order[x]) < ps.len(),
        forall|x: int, y: int| 0 <= x < y < order.len() ==> sooner(ps, #[trigger] order[x] as int, #[trigger] order[y] as int),
        forall|j: int| 0 <= j < ps.len() ==> #[trigger] listed(order, j),
    ensures
        0 <= k && k + 1 < order.len() ==> follows(ps, order[k] as int, order[k + 1] as int),
        follows(ps, a, b) ==> exists|x: int| 0 <= x && x + 1 < order.len() && #[trigger] order[x] == a && order[x + 1] == b,
{
    if 0 <= k && k + 1 < order.len() {
        assert forall|c: int| 0 <= c < ps.len() implies !(#[trigger] sooner(ps, order[k] as int, c) && sooner(ps, c, order[k + 1] as int)) by {
            assert(listed(order, c));
            let p = choose|x: int| 0 <= x < order.len() && #[trigger] order[x] == c;
            if p <= k {
                if p < k {
                    assert(sooner(ps, order[p] as int, order[k] as int));
                }
            } else if p > k + 1 {
                assert(sooner(ps, order[k + 1] as int, order[p] as int));
            }
        }
    }
    if follows(ps, a, b) {
        assert(listed(order, a) && listed(order, b));
        let p = choose|x: int| 0 <= x < order.len() && #[trigger] order[x] == a;
        let q = choose|x: int| 0 <= x < order.len() && #[trigger] order[x] == b;
        if q <= p {
            if q < p {
                assert(sooner(ps, order[q] as int, order[p] as int));
            }
        }
        if q > p + 1 {
            assert(sooner(ps, order[p] as int, order[p + 1] as int));
            assert(sooner(ps, order[p + 1] as int, order[q] as int));
            assert(!(sooner(ps, a, order[p + 1] as int) && sooner(ps, order[p + 1] as int, b)));
        }
        assert(order[p] == a && order[p + 1] == b);
    }
}

/// Whether a definition's pieces divide it up, or trip over each other. Pieces of
/// different files sit in different files, so they can't overlap.
pub fn tangled(o: &Occurrence) -> (r: Option<Diagnostic>)
    ensures
        opt_view(r) == tangle(o@),
{
    let ps = pieces_of(o);
    let order = in_order(&ps);
    let n = ps.len();
    let mut k: usize = 0;
    while k < n && k + 1 < n
        invariant
            n == ps@.len(),
            ps@ == all_pieces(o@),
            order@.len() == n,
            forall|x: int| 0 <= x < order@.len() ==> (#[trigger] order@[x]) < ps@.len(),
            forall|x: int, y: int| 0 <= x < y < order@.len() ==> sooner(ps@, #[trigger] order@[x] as int, #[trigger] order@[y] as int),
            forall|j: int| 0 <= j < ps@.len() ==> #[trigger] listed(order@, j),
            forall|x: int| 0 <= x < k && x + 1 < n ==> !trips(ps@, #[trigger] order@[x] as int, order@[x + 1] as int),
        decreases n - k,
    {
        let a = order[k];
        let b = order[k + 1];
        proof {
            lemma_side_by_side(ps@, order@, k as int, 0, 0);
        }
        if str_eq(ps[a].file.as_str(), ps[b].file.as_str()) && ps[b].span.start < ps[a].span.end {
            proof {
                assert(trips(ps@, a as int, b as int));
                assert forall|a2: int, b2: int| #[trigger] trips(ps@, a2, b2) implies !sooner(ps@, a2, a as int) by {
                    lemma_side_by_side(ps@, order@, 0, a2, b2);
                    let x = choose|x: int| 0 <= x && x + 1 < order@.len() && #[trigger] order@[x] == a2 && order@[x + 1] == b2;
                    if x < k {
                        assert(!trips(ps@, order@[x] as int, order@[x + 1] as int));
                    } else if x > k {
                        assert(sooner(ps@, order@[k as int] as int, order@[x] as int));
                    }
                }
                assert(first_trip(ps@, a as int, b as int));
                let (a2, b2) = choose|a2: int, b2: int| #[trigger] first_trip(ps@, a2, b2);
                lemma_first_trip_unique(ps@, a as int, b as int, a2, b2);
            }
            return Some(Diagnostic::Tangled { definition: o.locator.duplicate(), at: ps[b].span.start });
        }
        k = k + 1;
    }
    proof {
        if exists|a: int, b: int| #[trigger] first_trip(ps@, a, b) {
            let (a, b) = choose|a: int, b: int| #[trigger] first_trip(ps@, a, b);
            lemma_side_by_side(ps@, order@, 0, a, b);
            let x = choose|x: int| 0 <= x && x + 1 < order@.len() && #[trigger] order@[x] == a && order@[x + 1] == b;
            assert(!trips(ps@, order@[x] as int, order@[x + 1] as int));
        }
    }
    None
}

// ---------------------------------------------------------------------------------------
// Names answered to twice.

/// Whether one list of texts sorts before another, text by text: the order a derived
/// `Ord` gives a `Vec<String>`.
pub open spec fn list_lt(a: Seq<Seq<char>>, b: Seq<Seq<char>>) -> bool
    decreases a.len(),
{
    if a.len() == 0 {
        b.len() > 0
    } else if b.len() == 0 {
        false
    } else if a[0] != b[0] {
        seq_lt(a[0], b[0])
    } else {
        list_lt(a.drop_first(), b.drop_first())
    }
}

/// Whether one locator sorts before another: by scope, then by name, as the derived
/// `Ord` on `Locator` does.
pub open spec fn locator_lt(a: LocatorView, b: LocatorView) -> bool {
    list_lt(a.scope, b.scope) || (a.scope == b.scope && seq_lt(a.name, b.name))
}

pub proof fn lemma_list_lt_order(a: Seq<Seq<char>>, b: Seq<Seq<char>>, c: Seq<Seq<char>>)
    ensures
        !list_lt(a, a),
        list_lt(a, b) ==> !list_lt(b, a),
        list_lt(a, b) && list_lt(b, c) ==> list_lt(a, c),
        a != b ==> list_lt(a, b) || list_lt(b, a),
    decreases a.len(),
{
    if a.len() > 0 {
        lemma_lt_irreflexive(a[0]);
        if b.len() > 0 {
            lemma_lt_asymmetric(a[0], b[0]);
            lemma_lt_total(a[0], b[0]);
            if c.len() > 0 {
                if seq_lt(a[0], b[0]) && seq_lt(b[0], c[0]) {
                    lemma_lt_transitive(a[0], b[0], c[0]);
                }
                if seq_lt(a[0], b[0]) && b[0] == c[0] {
                }
            }
            if a[0] == b[0] && a.drop_first() == b.drop_first() {
                assert(a =~= seq![a[0]] + a.drop_first());
                assert(b =~= seq![b[0]] + b.drop_first());
            }
        }
        if c.len() > 0 {
            lemma_lt_asymmetric(a[0], c[0]);
        }
        let c2 = if c.len() > 0 { c.drop_first() } else { c };
        let b2 = if b.len() > 0 { b.drop_first() } else { b };
        lemma_list_lt_order(a.drop_first(), b2, c2);
        lemma_list_lt_order(a.drop_first(), a.drop_first(), a.drop_first());
    } else if b.len() == 0 {
        assert(a =~= b);
    }
}

pub proof fn lemma_locator_lt_order(a: LocatorView, b: LocatorView, c: LocatorView)
    ensures
        !locator_lt(a, a),
        locator_lt(a, b) ==> !locator_lt(b, a),
        locator_lt(a, b) && locator_lt(b, c) ==> locator_lt(a, c),
        a != b ==> locator_lt(a, b) || locator_lt(b, a),
{
    lemma_list_lt_order(a.scope, b.scope, c.scope);
    lemma_list_lt_order(b.scope, a.scope, c.scope);
    lemma_list_lt_order(a.scope, c.scope, b.scope);
    lemma_lt_irreflexive(a.name);
    lemma_lt_asymmetric(a.name, b.name);
    lemma_lt_total(a.name, b.name);
    if seq_lt(a.name, b.name) && seq_lt(b.name, c.name) {
        lemma_lt_transitive(a.name, b.name, c.name);
    }
}

proof fn lemma_list_lt_skip(a: Seq<Seq<char>>, b: Seq<Seq<char>>, i: int)
    requires
        0 <= i <= a.len(),
        i <= b.len(),
        a.subrange(0, i) == b.subrange(0, i),
    ensures
        list_lt(a, b) == list_lt(a.skip(i), b.skip(i)),
    decreases i,
{
    if i > 0 {
        assert(a[0] == a.subrange(0, i)[0]);
        assert(b[0] == b.subrange(0, i)[0]);
        assert(a.drop_first().subrange(0, i - 1) =~= a.subrange(0, i).drop_first());
        assert(b.drop_first().subrange(0, i - 1) =~= b.subrange(0, i).drop_first());
        lemma_list_lt_skip(a.drop_first(), b.drop_first(), i - 1);
        assert(a.drop_first().skip(i - 1) =~= a.skip(i));
        assert(b.drop_first().skip(i - 1) =~= b.skip(i));
    } else {
        assert(a.skip(0) =~= a);
        assert(b.skip(0) =~= b);
    }
}

/// Whether one list of texts sorts before another.
fn list_before(a: &Vec<String>, b: &Vec<String>) -> (r: bool)
    ensures
        r == list_lt(crate::text::views(a@), crate::text::views(b@)),
{
    let ghost x = crate::text::views(a@);
    let ghost y = crate::text::views(b@);
    let mut i: usize = 0;
    while i < a.len() && i < b.len() && str_eq(a[i].as_str(), b[i].as_str())
        invariant
            x == crate::text::views(a@),
            y == crate::text::views(b@),
            i <= a@.len(),
            i <= b@.len(),
            x.subrange(0, i as int) == y.subrange(0, i as int),
        decreases a@.len() - i,
    {
        assert(x.subrange(0, i + 1) =~= x.subrange(0, i as int).push(x[i as int]));
        assert(y.subrange(0, i + 1) =~= y.subrange(0, i as int).push(y[i as int]));
        i = i + 1;
    }
    proof {
        lemma_list_lt_skip(x, y, i as int);
    }
    if i == a.len() {
        i < b.len()
    } else if i == b.len() {
        false
    } else {
        assert(x.skip(i as int)[0] == x[i as int]);
        assert(y.skip(i as int)[0] == y[i as int]);
        str_lt(a[i].as_str(), b[i].as_str())
    }
}

/// Whether one locator sorts before another.
pub fn locator_before(a: &Locator, b: &Locator) -> (r: bool)
    ensures
        r == locator_lt(a@, b@),
{
    if list_before(&a.scope, &b.scope) {
        true
    } else if crate::model::strings_eq(&a.scope, &b.scope) {
        str_lt(a.name.as_str(), b.name.as_str())
    } else {
        false
    }
}

/// How many of the occurrences answer to a locator.
pub open spec fn times_named(occs: Seq<Occurrence>, l: LocatorView) -> nat
    decreases occs.len(),
{
    if occs.len() == 0 {
        0
    } else {
        times_named(occs.drop_last(), l) + if occs.last()@.locator == l { 1nat } else { 0nat }
    }
}

proof fn lemma_times_named(occs: Seq<Occurrence>, l: LocatorView)
    ensures
        times_named(occs, l) <= occs.len(),
        times_named(occs, l) > 0 ==> exists|x: int| 0 <= x < occs.len() && (#[trigger] occs[x])@.locator == l,
    decreases occs.len(),
{
    if occs.len() > 0 {
        lemma_times_named(occs.drop_last(), l);
        if times_named(occs.drop_last(), l) > 0 {
            let x = choose|x: int| 0 <= x < occs.drop_last().len() && (#[trigger] occs.drop_last()[x])@.locator == l;
            assert(occs[x] == occs.drop_last()[x]);
        }
    }
}

/// `d` reports, in order of locator, each name more than one occurrence answers to, with
/// how many do.
pub open spec fn twins_of(occs: Seq<Occurrence>, d: Seq<DiagnosticView>) -> bool {
    &&& forall|k: int| 0 <= k < d.len() ==> {
        &&& (#[trigger] d[k]) is TwoOfOneName
        &&& d[k]->times == times_named(occs, d[k]->locator)
        &&& d[k]->times > 1
    }
    &&& forall|k: int, l: int| 0 <= k < l < d.len() ==> locator_lt((#[trigger] d[k])->locator, (#[trigger] d[l])->locator)
    &&& forall|x: int| 0 <= x < occs.len() && times_named(occs, (#[trigger] occs[x])@.locator) > 1 ==> exists|k: int|
        0 <= k < d.len() && (#[trigger] d[k])->locator == occs[x]@.locator
}

/// Locator `l` has an entry in `counts`.
pub open spec fn has_entry(counts: Seq<(Locator, usize)>, l: LocatorView) -> bool {
    exists|k: int| 0 <= k < counts.len() && (#[trigger] counts[k]).0@ == l
}

/// Names more than one definition in a snapshot answers to, in order of name.
pub fn twins(occs: &Vec<Occurrence>) -> (r: Vec<Diagnostic>)
    ensures
        twins_of(occs@, crate::diagnostic::diagnostic_views(r@)),
{
    let mut counts: Vec<(Locator, usize)> = Vec::new();
    for i in 0..occs.len()
        invariant
            forall|k: int| 0 <= k < counts@.len() ==> (#[trigger] counts@[k]).1 == times_named(occs@.subrange(0, i as int), counts@[k].0@),
            forall|k: int, l: int| 0 <= k < l < counts@.len() ==> locator_lt((#[trigger] counts@[k]).0@, (#[trigger] counts@[l]).0@),
            forall|x: int| 0 <= x < i ==> #[trigger] has_entry(counts@, occs@[x]@.locator),
    {
        let ghost prefix = occs@.subrange(0, i as int);
        let ghost next = occs@.subrange(0, i + 1);
        assert(next.drop_last() =~= prefix);
        let l = &occs[i].locator;
        let mut p: usize = 0;
        while p < counts.len() && locator_before(&counts[p].0, l)
            invariant
                p <= counts@.len(),
                forall|k: int| 0 <= k < p ==> locator_lt((#[trigger] counts@[k]).0@, l@),
            decreases counts@.len() - p,
        {
            p = p + 1;
        }
        let ghost was = counts@;
        if p < counts.len() && counts[p].0.same_as(l) {
            proof {
                lemma_times_named(prefix, l@);
            }
            let c = counts[p].1 + 1;
            let keep = counts[p].0.duplicate();
            counts.set(p, (keep, c));
            proof {
                assert forall|k: int| 0 <= k < counts@.len() implies (#[trigger] counts@[k]).1 == times_named(next, counts@[k].0@) by {
                    if k != p {
                        assert(counts@[k] == was[k]);
                        lemma_locator_lt_order(was[k].0@, was[p as int].0@, l@);
                        if k < p {
                            assert(locator_lt(was[k].0@, was[p as int].0@));
                        } else {
                            assert(locator_lt(was[p as int].0@, was[k].0@));
                        }
                    }
                }
                assert forall|k: int, m: int| 0 <= k < m < counts@.len() implies locator_lt((#[trigger] counts@[k]).0@, (#[trigger] counts@[m]).0@) by {
                    assert(counts@[k].0@ == was[k].0@ && counts@[m].0@ == was[m].0@);
                }
                assert forall|x: int| 0 <= x < i + 1 implies #[trigger] has_entry(counts@, occs@[x]@.locator) by {
                    if x < i {
                        assert(has_entry(was, occs@[x]@.locator));
                        let k = choose|k: int| 0 <= k < was.len() && (#[trigger] was[k]).0@ == occs@[x]@.locator;
                        assert(counts@[k].0@ == was[k].0@);
                    } else {
                        assert(counts@[p as int].0@ == occs@[x]@.locator);
                    }
                }
            }
        } else {
            proof {
                // The name is new: everything before `p` sorts before it, everything from
                // `p` on after it.
                assert forall|k: int| p <= k < was.len() implies locator_lt(l@, (#[trigger] was[k]).0@) by {
                    lemma_locator_lt_order(was[p as int].0@, l@, was[k].0@);
                    lemma_locator_lt_order(l@, was[p as int].0@, was[k].0@);
                }
                assert forall|k: int| 0 <= k < was.len() implies (#[trigger] was[k]).0@ != l@ by {
                    lemma_locator_lt_order(l@, l@, l@);
                }
                if times_named(prefix, l@) > 0 {
                    lemma_times_named(prefix, l@);
                    let x = choose|x: int| 0 <= x < prefix.len() && (#[trigger] prefix[x])@.locator == l@;
                    assert(prefix[x] == occs@[x]);
                    assert(has_entry(was, occs@[x]@.locator));
                }
            }
            counts.insert(p, (l.duplicate(), 1));
            proof {
                was.insert_ensures(p as int, counts@[p as int]);
                assert forall|k: int| 0 <= k < counts@.len() implies (#[trigger] counts@[k]).1 == times_named(next, counts@[k].0@) by {
                    if k < p {
                        assert(counts@[k] == was[k]);
                    } else if k > p {
                        assert(counts@[k] == was[k - 1]);
                    }
                }
                assert forall|k: int, m: int| 0 <= k < m < counts@.len() implies locator_lt((#[trigger] counts@[k]).0@, (#[trigger] counts@[m]).0@) by {
                    if m < p {
                        assert(counts@[k] == was[k] && counts@[m] == was[m]);
                    } else if m == p {
                        assert(counts@[k] == was[k]);
                    } else if k > p {
                        assert(counts@[k] == was[k - 1] && counts@[m] == was[m - 1]);
                    } else if k == p {
                        assert(counts@[m] == was[m - 1]);
                    } else {
                        assert(counts@[k] == was[k] && counts@[m] == was[m - 1]);
                        lemma_locator_lt_order(was[k].0@, l@, was[m - 1].0@);
                    }
                }
                assert forall|x: int| 0 <= x < i + 1 implies #[trigger] has_entry(counts@, occs@[x]@.locator) by {
                    if x < i {
                        assert(has_entry(was, occs@[x]@.locator));
                        let k = choose|k: int| 0 <= k < was.len() && (#[trigger] was[k]).0@ == occs@[x]@.locator;
                        if k < p {
                            assert(counts@[k] == was[k]);
                        } else {
                            assert(counts@[k + 1] == was[k]);
                        }
                    } else {
                        assert(counts@[p as int].0@ == occs@[x]@.locator);
                    }
                }
            }
        }
    }
    assert(occs@.subrange(0, occs@.len() as int) =~= occs@);
    let mut out: Vec<Diagnostic> = Vec::new();
    let ghost mut from: Seq<int> = Seq::empty();
    for j in 0..counts.len()
        invariant
            from.len() == out@.len(),
            forall|q: int| 0 <= q < from.len() ==> 0 <= #[trigger] from[q] < j,
            forall|q: int, m: int| 0 <= q < m < from.len() ==> #[trigger] from[q] < #[trigger] from[m],
            forall|q: int| 0 <= q < from.len() ==> (#[trigger] out@[q])@ == (DiagnosticView::TwoOfOneName {
                locator: counts@[from[q]].0@,
                times: counts@[from[q]].1,
            }),
            forall|q: int| 0 <= q < from.len() ==> counts@[#[trigger] from[q]].1 > 1,
            forall|k: int| 0 <= k < j && (#[trigger] counts@[k]).1 > 1 ==> exists|q: int| 0 <= q < from.len() && #[trigger] from[q] == k,
    {
        if counts[j].1 > 1 {
            let ghost was = from;
            out.push(Diagnostic::TwoOfOneName { locator: counts[j].0.duplicate(), times: counts[j].1 });
            proof {
                from = from.push(j as int);
                assert forall|k: int| 0 <= k < j + 1 && (#[trigger] counts@[k]).1 > 1 implies exists|q: int| 0 <= q < from.len() && #[trigger] from[q] == k by {
                    if k < j {
                        let q = choose|q: int| 0 <= q < was.len() && #[trigger] was[q] == k;
                        assert(from[q] == k);
                    } else {
                        assert(from[was.len() as int] == k);
                    }
                }
            }
        }
    }
    proof {
        let d = crate::diagnostic::diagnostic_views(out@);
        assert forall|k: int| 0 <= k < d.len() implies {
            &&& (#[trigger] d[k]) is TwoOfOneName
            &&& d[k]->times == times_named(occs@, d[k]->locator)
            &&& d[k]->times > 1
        } by {
            assert(d[k] == out@[k]@);
        }
        assert forall|k: int, l: int| 0 <= k < l < d.len() implies locator_lt((#[trigger] d[k])->locator, (#[trigger] d[l])->locator) by {
            assert(d[k] == out@[k]@ && d[l] == out@[l]@);
            assert(from[k] < from[l]);
        }
        assert forall|x: int| 0 <= x < occs@.len() && times_named(occs@, (#[trigger] occs@[x])@.locator) > 1 implies exists|k: int|
            0 <= k < d.len() && (#[trigger] d[k])->locator == occs@[x]@.locator by {
            assert(has_entry(counts@, occs@[x]@.locator));
            let k = choose|k: int| 0 <= k < counts@.len() && (#[trigger] counts@[k]).0@ == occs@[x]@.locator;
            let q = choose|q: int| 0 <= q < from.len() && #[trigger] from[q] == k;
            assert(d[q] == out@[q]@);
        }
    }
    out
}

// ---------------------------------------------------------------------------------------
// Both together.

/// What is wrong with each definition's pieces, definition by definition.
pub open spec fn tangles(occs: Seq<Occurrence>) -> Seq<DiagnosticView>
    decreases occs.len(),
{
    if occs.len() == 0 {
        Seq::empty()
    } else {
        tangles(occs.drop_last()) + match tangle(occs.last()@) {
            Some(d) => seq![d],
            None => Seq::empty(),
        }
    }
}

/// `d` is what the checks say of one snapshot: the names answered to twice, then the
/// definitions whose pieces trip over each other.
pub open spec fn checked_as(occs: Seq<Occurrence>, d: Seq<DiagnosticView>) -> bool {
    exists|tw: Seq<DiagnosticView>| #[trigger] twins_of(occs, tw) && d == tw + tangles(occs)
}

/// Sanity checks on one snapshot's definitions, before anything takes a name for an
/// identity: a repeated name would quietly match one twin and report the rest as added
/// or removed.
pub fn checked(occs: &Vec<Occurrence>) -> (r: Vec<Diagnostic>)
    ensures
        checked_as(occs@, crate::diagnostic::diagnostic_views(r@)),
{
    let mut found = twins(occs);
    let ghost tw = crate::diagnostic::diagnostic_views(found@);
    for i in 0..occs.len()
        invariant
            crate::diagnostic::diagnostic_views(found@) == tw + tangles(occs@.subrange(0, i as int)),
    {
        let ghost was = found@;
        let ghost next = occs@.subrange(0, i + 1);
        assert(next.drop_last() =~= occs@.subrange(0, i as int));
        match tangled(&occs[i]) {
            Some(d) => {
                found.push(d);
                assert(crate::diagnostic::diagnostic_views(found@) =~= crate::diagnostic::diagnostic_views(was) + seq![d@]);
            },
            None => {},
        }
        assert(crate::diagnostic::diagnostic_views(found@) =~= tw + tangles(next));
    }
    assert(occs@.subrange(0, occs@.len() as int) =~= occs@);
    assert(twins_of(occs@, tw));
    found
}

} // verus!
