//! The order to read a change in: nothing before what it depends on, then finish the
//! current branch before moving on, then foundations before what stands on them.
//!
//! A definition is *open* once read while something unread still depends on it. One is
//! taken *on faith* when read before a dependency, which only happens in a cycle.
//! Candidates are compared criterion by criterion rather than scored, so there are no
//! weights to tune; `pick` lists the criteria.

use crate::group::{path_in, Grouping};
use crate::model::{copy_locator, Definition, Identity, Locator, LocatorView, OccurrenceView, Role};
use crate::review::Edge;
use crate::text::{joined, push_char};
use vstd::prelude::*;

verus! {

// ---------------------------------------------------------------------------------------
// Which definition speaks for an identity, and what a name in a file stands for.

/// Index `i` is the last definition handed over for its identity, the one that counts.
pub open spec fn counts(defs: Seq<Definition>, i: int) -> bool {
    &&& 0 <= i < defs.len()
    &&& forall|j: int| i < j < defs.len() ==> (#[trigger] defs[j]).identity != defs[i].identity
}

/// The definition that counts for `x`, if any was handed over.
pub open spec fn entry(defs: Seq<Definition>, x: Identity) -> Option<int> {
    if exists|i: int| #[trigger] counts(defs, i) && defs[i].identity == x {
        Some(choose|i: int| #[trigger] counts(defs, i) && defs[i].identity == x)
    } else {
        None
    }
}

/// The newest occurrence of `x`, if it was handed over.
pub open spec fn latest(defs: Seq<Definition>, x: Identity) -> Option<OccurrenceView> {
    match entry(defs, x) {
        Some(i) => Some(defs[i].sides@.latest()),
        None => None,
    }
}

/// Index `i` counts, and its newest occurrence sits in `file` under `name`.
pub open spec fn answers(defs: Seq<Definition>, i: int, file: Seq<char>, name: LocatorView) -> bool {
    &&& counts(defs, i)
    &&& defs[i].sides@.latest().file == file
    &&& defs[i].sides@.latest().locator == name
}

/// Index `i` answers to the name, with the greatest identity of all that do.
pub open spec fn answers_best(defs: Seq<Definition>, i: int, file: Seq<char>, name: LocatorView) -> bool {
    &&& answers(defs, i, file, name)
    &&& forall|j: int| #[trigger] answers(defs, j, file, name) ==> defs[j].identity.0 <= defs[i].identity.0
}

/// What a name in a file stands for: of the definitions that answer to it, the one with
/// the greatest identity.
pub open spec fn named(defs: Seq<Definition>, file: Seq<char>, name: LocatorView) -> Option<Identity> {
    if exists|i: int| #[trigger] answers_best(defs, i, file, name) {
        Some(defs[choose|i: int| #[trigger] answers_best(defs, i, file, name)].identity)
    } else {
        None
    }
}

/// What `x` says it is written inside.
pub open spec fn parent_of(defs: Seq<Definition>, x: Identity) -> Option<LocatorView> {
    match latest(defs, x) {
        Some(o) => o.parent,
        None => None,
    }
}

/// The containers above a parent's name, nearest first, looked up within one file, for
/// at most `fuel` levels.
pub open spec fn climb(defs: Seq<Definition>, file: Seq<char>, held: Option<LocatorView>, fuel: nat) -> Seq<Identity>
    decreases fuel,
{
    if fuel == 0 {
        Seq::empty()
    } else {
        match held {
            None => Seq::empty(),
            Some(name) => match named(defs, file, name) {
                None => Seq::empty(),
                Some(up) => seq![up] + climb(defs, file, parent_of(defs, up), (fuel - 1) as nat),
            },
        }
    }
}

/// What `x` is written inside, nearest first, within its own file. A chain of parents
/// can't be longer than what was handed over, so it is followed no further than that.
pub open spec fn around(defs: Seq<Definition>, x: Identity) -> Seq<Identity> {
    match latest(defs, x) {
        Some(o) => climb(defs, o.file, o.parent, defs.len()),
        None => Seq::empty(),
    }
}

/// Whether definition `i` is the last one handed over for its identity.
fn is_last(defs: &Vec<Definition>, i: usize) -> (r: bool)
    requires
        i < defs@.len(),
    ensures
        r == counts(defs@, i as int),
{
    let n = defs.len();
    let mut j = i + 1;
    while j < n
        invariant
            n == defs@.len(),
            i < j <= n,
            forall|k: int| i < k < j ==> (#[trigger] defs@[k]).identity != defs@[i as int].identity,
        decreases n - j,
    {
        if defs[j].identity == defs[i].identity {
            return false;
        }
        j = j + 1;
    }
    true
}

/// Whether definition `i` is the last one handed over for its identity.
pub fn counts_exec(defs: &Vec<Definition>, i: usize) -> (r: bool)
    requires
        i < defs@.len(),
    ensures
        r == counts(defs@, i as int),
{
    is_last(defs, i)
}

/// Two definitions that count for one identity are the same one.
pub proof fn lemma_counts_unique(defs: Seq<Definition>, i: int, j: int)
    requires
        counts(defs, i),
        counts(defs, j),
        defs[i].identity == defs[j].identity,
    ensures
        i == j,
{
    if i < j {
        assert(defs[j].identity != defs[i].identity);
    }
    if j < i {
        assert(defs[i].identity != defs[j].identity);
    }
}

/// The definition that counts for `x`.
pub fn find_entry(defs: &Vec<Definition>, x: Identity) -> (r: Option<usize>)
    ensures
        r matches Some(i) ==> entry(defs@, x) == Some(i as int),
        r is None ==> entry(defs@, x) is None,
{
    let mut i = defs.len();
    while i > 0
        invariant
            i <= defs@.len(),
            forall|k: int| i <= k < defs@.len() ==> (#[trigger] defs@[k]).identity != x,
        decreases i,
    {
        i = i - 1;
        if defs[i].identity == x {
            proof {
                assert(counts(defs@, i as int));
                let c = choose|c: int| #[trigger] counts(defs@, c) && defs@[c].identity == x;
                if c < i {
                    assert(defs@[i as int].identity != defs@[c].identity);
                }
            }
            return Some(i);
        }
    }
    proof {
        if exists|c: int| #[trigger] counts(defs@, c) && defs@[c].identity == x {
            let c = choose|c: int| #[trigger] counts(defs@, c) && defs@[c].identity == x;
            assert(defs@[c].identity != x);
        }
    }
    None
}

/// Two identities answering best to one name are the same one.
proof fn lemma_best_unique(defs: Seq<Definition>, file: Seq<char>, name: LocatorView, i: int, j: int)
    requires
        answers_best(defs, i, file, name),
        answers_best(defs, j, file, name),
    ensures
        defs[i].identity == defs[j].identity,
{
    assert(defs[j].identity.0 <= defs[i].identity.0);
    assert(defs[i].identity.0 <= defs[j].identity.0);
}

/// What a name in a file stands for.
fn lookup(defs: &Vec<Definition>, file: &String, name: &Locator) -> (r: Option<Identity>)
    ensures
        r == named(defs@, file@, name@),
{
    let mut best: Option<usize> = None;
    for i in 0..defs.len()
        invariant
            best matches Some(b) ==> b < i && answers(defs@, b as int, file@, name@),
            best matches Some(b) ==> forall|k: int|
                0 <= k < i && #[trigger] answers(defs@, k, file@, name@) ==> defs@[k].identity.0 <= defs@[b as int].identity.0,
            best is None ==> forall|k: int| 0 <= k < i ==> !#[trigger] answers(defs@, k, file@, name@),
    {
        let it = defs[i].sides.latest();
        if is_last(defs, i) && crate::text::str_eq(it.file.as_str(), file.as_str()) && it.locator.same_as(name) {
            match best {
                Some(b) => {
                    if defs[b].identity.0 < defs[i].identity.0 {
                        best = Some(i);
                    }
                },
                None => {
                    best = Some(i);
                },
            }
        }
    }
    match best {
        Some(b) => {
            proof {
                assert(answers_best(defs@, b as int, file@, name@));
                let c = choose|c: int| #[trigger] answers_best(defs@, c, file@, name@);
                lemma_best_unique(defs@, file@, name@, b as int, c);
            }
            Some(defs[b].identity)
        },
        None => {
            proof {
                if exists|c: int| #[trigger] answers_best(defs@, c, file@, name@) {
                    let c = choose|c: int| #[trigger] answers_best(defs@, c, file@, name@);
                    assert(answers(defs@, c, file@, name@));
                }
            }
            None
        },
    }
}

/// What `x` is written inside, nearest first, within its own file.
fn around_of(defs: &Vec<Definition>, x: Identity) -> (r: Vec<Identity>)
    ensures
        r@ == around(defs@, x),
{
    match find_entry(defs, x) {
        None => Vec::new(),
        Some(i) => {
            let it = defs[i].sides.latest();
            let ghost start = it@.parent;
            let mut held: Option<Locator> = copy_locator(&it.parent);
            let mut above: Vec<Identity> = Vec::new();
            let mut fuel: usize = defs.len();
            assert(above@ + climb(defs@, it.file@, crate::model::opt_locator(held), fuel as nat) =~= climb(defs@, it.file@, start, defs@.len()));
            loop
                invariant
                    fuel <= defs@.len(),
                    above@ + climb(defs@, it.file@, crate::model::opt_locator(held), fuel as nat) == climb(defs@, it.file@, start, defs@.len()),
                ensures
                    above@ == climb(defs@, it.file@, start, defs@.len()),
                decreases fuel,
            {
                if fuel == 0 {
                    assert(above@ =~= above@ + Seq::<Identity>::empty());
                    break;
                }
                match held {
                    None => {
                        assert(above@ =~= above@ + Seq::<Identity>::empty());
                        break;
                    },
                    Some(name) => {
                        match lookup(defs, &it.file, &name) {
                            None => {
                                assert(above@ =~= above@ + Seq::<Identity>::empty());
                                break;
                            },
                            Some(up) => {
                                let ghost was = above@;
                                above.push(up);
                                let next = match find_entry(defs, up) {
                                    Some(k) => copy_locator(&defs[k].sides.latest().parent),
                                    None => None,
                                };
                                assert(crate::model::opt_locator(next) == parent_of(defs@, up));
                                fuel = fuel - 1;
                                assert(above@ + climb(defs@, it.file@, crate::model::opt_locator(next), fuel as nat) =~= was + (seq![up] + climb(defs@, it.file@, parent_of(defs@, up), fuel as nat)));
                                held = next;
                            },
                        }
                    },
                }
            }
            above
        },
    }
}


// ---------------------------------------------------------------------------------------
// Which members lean on which.

/// A container of the edge's source that the edge is carried out to: it and every
/// container nearer the source sit outside the target, so the target isn't inside it.
pub open spec fn stays(defs: Seq<Definition>, e: Edge, c: Identity) -> bool {
    c != e.to && !around(defs, e.to).contains(c)
}

/// The edge's source sits inside `c`, and the dependency is carried out to it: a
/// container depends on whatever its contents depend on outside it.
pub open spec fn lifted(defs: Seq<Definition>, e: Edge, c: Identity) -> bool {
    exists|k: int|
        0 <= k < around(defs, e.from).len() && around(defs, e.from)[k] == c && forall|j: int|
            0 <= j <= k ==> #[trigger] stays(defs, e, around(defs, e.from)[j])
}

/// The edge makes member `a` lean on member `b`.
pub open spec fn gives(ms: Seq<Identity>, defs: Seq<Definition>, e: Edge, a: int, b: int) -> bool {
    &&& 0 <= a < ms.len()
    &&& 0 <= b < ms.len()
    &&& a != b
    &&& e.to == ms[b]
    &&& (e.from == ms[a] || lifted(defs, e, ms[a]))
}

/// Member `a` leans on member `b` through one of the first `t` edges.
pub open spec fn leans_by(ms: Seq<Identity>, edges: Seq<Edge>, defs: Seq<Definition>, a: int, b: int, t: int) -> bool {
    exists|e: int| 0 <= e < t && #[trigger] gives(ms, defs, edges[e], a, b)
}

/// Member `a` leans on member `b`: it depends on it, directly or through what it holds.
pub open spec fn leans(ms: Seq<Identity>, edges: Seq<Edge>, defs: Seq<Definition>, a: int, b: int) -> bool {
    leans_by(ms, edges, defs, a, b, edges.len() as int)
}

/// Indices in strictly increasing order.
pub open spec fn rising(s: Seq<usize>) -> bool {
    forall|i: int, j: int| 0 <= i < j < s.len() ==> s[i] < s[j]
}

/// One list of member places per member, each rising and naming only members.
pub open spec fn lists(l: Seq<Vec<usize>>, n: int) -> bool {
    &&& l.len() == n
    &&& forall|a: int| 0 <= a < n ==> #[trigger] rising(l[a]@)
    &&& forall|a: int, i: int| 0 <= a < n && 0 <= i < l[a]@.len() ==> #[trigger] l[a]@[i] < n
}

/// Identities in strictly increasing order.
pub open spec fn increasing_ids(s: Seq<Identity>) -> bool {
    forall|i: int, j: int| 0 <= i < j < s.len() ==> s[i].0 < s[j].0
}

/// Where `x` stands among the members, if it is one.
fn place_of(ms: &Vec<Identity>, x: Identity) -> (r: Option<usize>)
    requires
        increasing_ids(ms@),
    ensures
        r matches Some(p) ==> p < ms@.len() && ms@[p as int] == x,
        r is None ==> !ms@.contains(x),
{
    for i in 0..ms.len()
        invariant
            forall|k: int| 0 <= k < i ==> ms@[k] != x,
    {
        if ms[i] == x {
            return Some(i);
        }
    }
    None
}

/// Adds a place to a rising list, where it isn't there already.
pub(crate) fn add_place(v: &mut Vec<usize>, x: usize)
    requires
        rising(old(v)@),
    ensures
        rising(final(v)@),
        forall|y: usize| #[trigger] final(v)@.contains(y) <==> (old(v)@.contains(y) || y == x),
{
    let ghost before = v@;
    let mut i: usize = 0;
    while i < v.len() && v[i] < x
        invariant
            i <= v@.len(),
            v@ == before,
            forall|k: int| 0 <= k < i ==> #[trigger] before[k] < x,
        decreases v@.len() - i,
    {
        i = i + 1;
    }
    if i < v.len() && v[i] == x {
        return;
    }
    v.insert(i, x);
    proof {
        let now = v@;
        before.insert_ensures(i as int, x);
        assert forall|a: int, b: int| 0 <= a < b < now.len() implies now[a] < now[b] by {
            if a > i as int {
                assert(now[a] == before[a - 1]);
            }
            if b > i as int {
                assert(now[b] == before[b - 1]);
            }
        }
        assert forall|y: usize| #[trigger] now.contains(y) <==> (before.contains(y) || y == x) by {
            if now.contains(y) {
                let k = choose|k: int| 0 <= k < now.len() && now[k] == y;
                if k > i as int {
                    assert(now[k] == before[k - 1]);
                }
            }
            if before.contains(y) {
                let k = choose|k: int| 0 <= k < before.len() && before[k] == y;
                if k < i {
                    assert(now[k] == y);
                } else {
                    assert(now[k + 1] == y);
                }
            }
            if y == x {
                assert(now[i as int] == y);
            }
        }
    }
}

/// Whether a list of identities holds `x`.
fn holds_id(v: &Vec<Identity>, x: Identity) -> (r: bool)
    ensures
        r == v@.contains(x),
{
    for i in 0..v.len()
        invariant
            forall|k: int| 0 <= k < i ==> v@[k] != x,
    {
        if v[i] == x {
            return true;
        }
    }
    false
}

/// Records that member `a` leans on member `b`, both ways round.
fn lean(leans_on: &mut Vec<Vec<usize>>, holds_up: &mut Vec<Vec<usize>>, a: usize, b: usize, Ghost(n): Ghost<int>)
    requires
        a < n,
        b < n,
        lists(old(leans_on)@, n),
        lists(old(holds_up)@, n),
    ensures
        lists(final(leans_on)@, n),
        lists(final(holds_up)@, n),
        forall|p: usize, q: usize|
            p < n && q < n ==> (#[trigger] final(leans_on)@[p as int]@.contains(q) <==> (old(leans_on)@[p as int]@.contains(q) || (p == a && q == b))),
        forall|p: usize, q: usize|
            p < n && q < n ==> (#[trigger] final(holds_up)@[q as int]@.contains(p) <==> (old(holds_up)@[q as int]@.contains(p) || (p == a && q == b))),
{
    let ghost l0 = leans_on@;
    let ghost h0 = holds_up@;
    add_place(&mut leans_on[a], b);
    add_place(&mut holds_up[b], a);
    proof {
        assert forall|i: int| 0 <= i < n implies #[trigger] rising(leans_on@[i]@) by {
            if i != a as int {
                assert(leans_on@[i] == l0[i]);
            }
        }
        assert forall|p: int, i: int| 0 <= p < n && 0 <= i < leans_on@[p]@.len() implies #[trigger] leans_on@[p]@[i] < n by {
            if p != a as int {
                assert(leans_on@[p] == l0[p]);
            } else {
                assert(leans_on@[p]@.contains(leans_on@[p]@[i]));
                if l0[p]@.contains(leans_on@[p]@[i]) {
                    let k = choose|k: int| 0 <= k < l0[p]@.len() && l0[p]@[k] == leans_on@[p]@[i];
                    assert(l0[p]@[k] < n);
                }
            }
        }
        assert forall|i: int| 0 <= i < n implies #[trigger] rising(holds_up@[i]@) by {
            if i != b as int {
                assert(holds_up@[i] == h0[i]);
            }
        }
        assert forall|q: int, i: int| 0 <= q < n && 0 <= i < holds_up@[q]@.len() implies #[trigger] holds_up@[q]@[i] < n by {
            if q != b as int {
                assert(holds_up@[q] == h0[q]);
            } else {
                assert(holds_up@[q]@.contains(holds_up@[q]@[i]));
                if h0[q]@.contains(holds_up@[q]@[i]) {
                    let k = choose|k: int| 0 <= k < h0[q]@.len() && h0[q]@[k] == holds_up@[q]@[i];
                    assert(h0[q]@[k] < n);
                }
            }
        }
        assert forall|p: usize, q: usize| p < n && q < n implies (#[trigger] leans_on@[p as int]@.contains(q) <==> (l0[p as int]@.contains(q) || (p == a && q == b))) by {
            if p != a {
                assert(leans_on@[p as int] == l0[p as int]);
            }
        }
        assert forall|p: usize, q: usize| p < n && q < n implies (#[trigger] holds_up@[q as int]@.contains(p) <==> (h0[q as int]@.contains(p) || (p == a && q == b))) by {
            if q != b {
                assert(holds_up@[q as int] == h0[q as int]);
            }
        }
    }
}


/// The edge makes `a` lean on `b`, counting only the first `k` containers of its source.
pub open spec fn gives_within(ms: Seq<Identity>, defs: Seq<Definition>, e: Edge, a: int, b: int, k: int) -> bool {
    &&& 0 <= a < ms.len()
    &&& 0 <= b < ms.len()
    &&& a != b
    &&& e.to == ms[b]
    &&& (e.from == ms[a] || exists|kk: int|
        0 <= kk < k && kk < around(defs, e.from).len() && around(defs, e.from)[kk] == ms[a] && forall|j: int|
            0 <= j <= kk ==> #[trigger] stays(defs, e, around(defs, e.from)[j]))
}

/// Records what one edge makes lean on what: its source on its target, and each
/// container of the source out to the first that also holds the target.
fn lean_edge(
    leans_on: &mut Vec<Vec<usize>>,
    holds_up: &mut Vec<Vec<usize>>,
    e: Edge,
    ms: &Vec<Identity>,
    defs: &Vec<Definition>,
)
    requires
        increasing_ids(ms@),
        lists(old(leans_on)@, ms@.len() as int),
        lists(old(holds_up)@, ms@.len() as int),
    ensures
        lists(final(leans_on)@, ms@.len() as int),
        lists(final(holds_up)@, ms@.len() as int),
        forall|p: usize, q: usize|
            p < ms@.len() && q < ms@.len() ==> (#[trigger] final(leans_on)@[p as int]@.contains(q) <==> (
            old(leans_on)@[p as int]@.contains(q) || gives(ms@, defs@, e, p as int, q as int))),
        forall|p: usize, q: usize|
            p < ms@.len() && q < ms@.len() ==> (#[trigger] final(holds_up)@[q as int]@.contains(p) <==> (
            old(holds_up)@[q as int]@.contains(p) || gives(ms@, defs@, e, p as int, q as int))),
{
    let ghost n = ms@.len() as int;
    let ghost l0 = leans_on@;
    let ghost h0 = holds_up@;
    let to = place_of(ms, e.to);
    if let Some(b) = to {
        if let Some(a) = place_of(ms, e.from) {
            if a != b {
                lean(leans_on, holds_up, a, b, Ghost(n));
            }
        }
    }
    let up = around_of(defs, e.from);
    let down = around_of(defs, e.to);
    proof {
        assert forall|p: usize, q: usize| p < n && q < n implies (#[trigger] leans_on@[p as int]@.contains(q) <==> (
            l0[p as int]@.contains(q) || gives_within(ms@, defs@, e, p as int, q as int, 0))) by {}
        assert forall|p: usize, q: usize| p < n && q < n implies (#[trigger] holds_up@[q as int]@.contains(p) <==> (
            h0[q as int]@.contains(p) || gives_within(ms@, defs@, e, p as int, q as int, 0))) by {}
    }
    let mut k: usize = 0;
    while k < up.len()
        invariant
            increasing_ids(ms@),
            n == ms@.len(),
            k <= up@.len(),
            up@ == around(defs@, e.from),
            down@ == around(defs@, e.to),
            to matches Some(b) ==> b < n && ms@[b as int] == e.to,
            to is None ==> !ms@.contains(e.to),
            forall|j: int| 0 <= j < k ==> #[trigger] stays(defs@, e, up@[j]),
            lists(leans_on@, n),
            lists(holds_up@, n),
            forall|p: usize, q: usize|
                p < n && q < n ==> (#[trigger] leans_on@[p as int]@.contains(q) <==> (l0[p as int]@.contains(q)
                    || gives_within(ms@, defs@, e, p as int, q as int, k as int))),
            forall|p: usize, q: usize|
                p < n && q < n ==> (#[trigger] holds_up@[q as int]@.contains(p) <==> (h0[q as int]@.contains(p)
                    || gives_within(ms@, defs@, e, p as int, q as int, k as int))),
        ensures
            k == up@.len() || (k < up@.len() && !stays(defs@, e, up@[k as int])),
        decreases up@.len() - k,
    {
        let c = up[k];
        if c == e.to || holds_id(&down, c) {
            break;
        }
        let ghost l1 = leans_on@;
        let ghost h1 = holds_up@;
        let mut added: Option<(usize, usize)> = None;
        if let Some(b) = to {
            if let Some(a) = place_of(ms, c) {
                if a != b {
                    lean(leans_on, holds_up, a, b, Ghost(n));
                    added = Some((a, b));
                }
            }
        }
        proof {
            assert(stays(defs@, e, up@[k as int]));
            assert forall|p: usize, q: usize| p < n && q < n implies
                gives_within(ms@, defs@, e, p as int, q as int, k + 1) == (gives_within(ms@, defs@, e, p as int, q as int, k as int)
                    || added == Some((p, q))) by {
                if gives_within(ms@, defs@, e, p as int, q as int, k + 1) && !gives_within(ms@, defs@, e, p as int, q as int, k as int) {
                    let kk = choose|kk: int| 0 <= kk < k + 1 && kk < around(defs@, e.from).len() && around(defs@, e.from)[kk] == ms@[p as int] && forall|j: int|
                        0 <= j <= kk ==> #[trigger] stays(defs@, e, around(defs@, e.from)[j]);
                    assert(kk == k);
                    assert(to == Some(q));
                    assert(ms@[p as int] == c);
                }
                if added == Some((p, q)) {
                    assert(ms@[p as int] == c);
                    assert forall|j: int| 0 <= j <= k implies #[trigger] stays(defs@, e, around(defs@, e.from)[j]) by {
                        if j < k {
                            assert(stays(defs@, e, up@[j]));
                        }
                    }
                }
            }
        }
        k = k + 1;
    }
    proof {
        assert forall|p: usize, q: usize| p < n && q < n implies
            gives_within(ms@, defs@, e, p as int, q as int, k as int) == gives(ms@, defs@, e, p as int, q as int) by {
            if gives(ms@, defs@, e, p as int, q as int) && e.from != ms@[p as int] {
                let kk = choose|kk: int| 0 <= kk < around(defs@, e.from).len() && around(defs@, e.from)[kk] == ms@[p as int]
                    && forall|j: int| 0 <= j <= kk ==> #[trigger] stays(defs@, e, around(defs@, e.from)[j]);
                if kk >= k {
                    assert(stays(defs@, e, around(defs@, e.from)[k as int]));
                }
            }
        }
    }
}

/// Which members lean on which, as places, and the reverse: `.0[a]` lists what `a`
/// leans on and `.1[b]` what leans on `b`, each in order.
fn relations(edges: &Vec<Edge>, ms: &Vec<Identity>, defs: &Vec<Definition>) -> (r: (Vec<Vec<usize>>, Vec<Vec<usize>>))
    requires
        increasing_ids(ms@),
    ensures
        lists(r.0@, ms@.len() as int),
        lists(r.1@, ms@.len() as int),
        forall|a: usize, b: usize|
            a < ms@.len() && b < ms@.len() ==> (#[trigger] r.0@[a as int]@.contains(b) <==> leans(ms@, edges@, defs@, a as int, b as int)),
        forall|a: usize, b: usize|
            a < ms@.len() && b < ms@.len() ==> (#[trigger] r.1@[b as int]@.contains(a) <==> leans(ms@, edges@, defs@, a as int, b as int)),
{
    let ghost n = ms@.len() as int;
    let mut leans_on: Vec<Vec<usize>> = Vec::new();
    let mut holds_up: Vec<Vec<usize>> = Vec::new();
    for i in 0..ms.len()
        invariant
            n == ms@.len(),
            leans_on@.len() == i,
            holds_up@.len() == i,
            forall|a: int| 0 <= a < i ==> (#[trigger] leans_on@[a])@.len() == 0,
            forall|a: int| 0 <= a < i ==> (#[trigger] holds_up@[a])@.len() == 0,
    {
        leans_on.push(Vec::new());
        holds_up.push(Vec::new());
    }
    for t in 0..edges.len()
        invariant
            increasing_ids(ms@),
            n == ms@.len(),
            lists(leans_on@, n),
            lists(holds_up@, n),
            forall|p: usize, q: usize|
                p < n && q < n ==> (#[trigger] leans_on@[p as int]@.contains(q) <==> leans_by(ms@, edges@, defs@, p as int, q as int, t as int)),
            forall|p: usize, q: usize|
                p < n && q < n ==> (#[trigger] holds_up@[q as int]@.contains(p) <==> leans_by(ms@, edges@, defs@, p as int, q as int, t as int)),
    {
        let ghost l0 = leans_on@;
        let ghost h0 = holds_up@;
        lean_edge(&mut leans_on, &mut holds_up, edges[t], ms, defs);
        proof {
            assert forall|p: usize, q: usize| p < n && q < n implies
                leans_by(ms@, edges@, defs@, p as int, q as int, t + 1) == (leans_by(ms@, edges@, defs@, p as int, q as int, t as int)
                    || gives(ms@, defs@, edges@[t as int], p as int, q as int)) by {
                if leans_by(ms@, edges@, defs@, p as int, q as int, t + 1) && !gives(ms@, defs@, edges@[t as int], p as int, q as int) {
                    let e = choose|e: int| 0 <= e < t + 1 && #[trigger] gives(ms@, defs@, edges@[e], p as int, q as int);
                    assert(e < t);
                }
            }
        }
    }
    (leans_on, holds_up)
}


// ---------------------------------------------------------------------------------------
// Picking the next one to read.

/// How many of the places in `s` are still unread.
pub open spec fn unread_in(s: Seq<usize>, done: Seq<bool>) -> int
    decreases s.len(),
{
    if s.len() == 0 {
        0
    } else {
        unread_in(s.drop_last(), done) + if done[s.last() as int] { 0int } else { 1int }
    }
}

/// Everything a candidate is judged on, for every member: what each leans on, what leans
/// on each, which are containers' headers, and where each sits.
#[verifier::ext_equal]
pub struct Board {
    pub lean: Seq<Seq<usize>>,
    pub hold: Seq<Seq<usize>>,
    pub head: Seq<bool>,
    pub group: Seq<Seq<Seq<char>>>,
    pub home: Seq<Seq<char>>,
}

impl Board {
    /// Members already read that `c` leans on and that wait on nothing unread but `c`:
    /// reading `c` finishes their branch.
    pub open spec fn closing(self, done: Seq<bool>, s: Seq<usize>) -> int
        decreases s.len(),
    {
        if s.len() == 0 {
            0
        } else {
            self.closing(done, s.drop_last()) + if done[s.last() as int] && unread_in(self.hold[s.last() as int], done) == 1 {
                1int
            } else {
                0int
            }
        }
    }

    /// How far reading `c` moves the reader from where the last one read sat: out of the
    /// module, out of the package, or both.
    pub open spec fn away(self, prev: Option<int>, c: int) -> int {
        match prev {
            Some(p) => (if self.home[p] != self.home[c] { 1int } else { 0int }) + (if self.group[p] != self.group[c] {
                1int
            } else {
                0int
            }),
            None => 0,
        }
    }

    /// `c` is judged ahead of `d`, count by count: fewer unread dependencies; less moving
    /// about; a container's header before anything else; more branches finished; more
    /// things waiting on it; and last the earlier place.
    pub open spec fn ahead(self, done: Seq<bool>, prev: Option<int>, c: int, d: int) -> bool {
        let (lc, ld) = (unread_in(self.lean[c], done), unread_in(self.lean[d], done));
        let (ac, ad) = (self.away(prev, c), self.away(prev, d));
        let (hc, hd) = (if self.head[c] { 0int } else { 1int }, if self.head[d] { 0int } else { 1int });
        let (cc, cd) = (self.closing(done, self.lean[c]), self.closing(done, self.lean[d]));
        let (uc, ud) = (unread_in(self.hold[c], done), unread_in(self.hold[d], done));
        lc < ld || (lc == ld && (ac < ad || (ac == ad && (hc < hd || (hc == hd && (cc > cd || (cc == cd && (uc > ud
            || (uc == ud && c < d)))))))))
    }

    /// `c` is the one to read next: unread, and ahead of every other unread member.
    pub open spec fn chosen(self, done: Seq<bool>, prev: Option<int>, c: int) -> bool {
        &&& 0 <= c < done.len()
        &&& !done[c]
        &&& forall|d: int| 0 <= d < done.len() && !done[d] && d != c ==> #[trigger] self.ahead(done, prev, c, d)
    }
}

/// The board that a set of lists, flags and texts lays out.
pub open spec fn board_of(
    leans_on: Seq<Vec<usize>>,
    holds_up: Seq<Vec<usize>>,
    headers: Seq<bool>,
    groups: Seq<Vec<String>>,
    homes: Seq<String>,
) -> Board {
    Board {
        lean: leans_on.map_values(|v: Vec<usize>| v@),
        hold: holds_up.map_values(|v: Vec<usize>| v@),
        head: headers,
        group: groups.map_values(|g: Vec<String>| crate::text::views(g@)),
        home: crate::text::views(homes),
    }
}

/// How many of the places in a list are still unread.
fn count_unread(s: &Vec<usize>, done: &Vec<bool>) -> (r: usize)
    requires
        forall|i: int| 0 <= i < s@.len() ==> #[trigger] s@[i] < done@.len(),
    ensures
        r == unread_in(s@, done@),
{
    let mut r: usize = 0;
    for i in 0..s.len()
        invariant
            forall|k: int| 0 <= k < s@.len() ==> #[trigger] s@[k] < done@.len(),
            r == unread_in(s@.subrange(0, i as int), done@),
            r <= i,
    {
        assert(s@.subrange(0, i + 1).drop_last() =~= s@.subrange(0, i as int));
        if !done[s[i]] {
            r = r + 1;
        }
    }
    assert(s@.subrange(0, s@.len() as int) =~= s@);
    r
}

/// How many branches reading a member with these dependencies would finish.
fn count_closing(s: &Vec<usize>, done: &Vec<bool>, holds_up: &Vec<Vec<usize>>, Ghost(board): Ghost<Board>) -> (r: usize)
    requires
        holds_up@.len() == done@.len(),
        board.hold == holds_up@.map_values(|v: Vec<usize>| v@),
        forall|i: int| 0 <= i < s@.len() ==> #[trigger] s@[i] < done@.len(),
        forall|a: int, i: int| 0 <= a < holds_up@.len() && 0 <= i < holds_up@[a]@.len() ==> #[trigger] holds_up@[a]@[i] < done@.len(),
    ensures
        r == board.closing(done@, s@),
{
    let mut r: usize = 0;
    for i in 0..s.len()
        invariant
            holds_up@.len() == done@.len(),
            board.hold == holds_up@.map_values(|v: Vec<usize>| v@),
            forall|k: int| 0 <= k < s@.len() ==> #[trigger] s@[k] < done@.len(),
            forall|a: int, k: int| 0 <= a < holds_up@.len() && 0 <= k < holds_up@[a]@.len() ==> #[trigger] holds_up@[a]@[k] < done@.len(),
            r == board.closing(done@, s@.subrange(0, i as int)),
            r <= i,
    {
        assert(s@.subrange(0, i + 1).drop_last() =~= s@.subrange(0, i as int));
        let l = s[i];
        if done[l] {
            assert forall|k: int| 0 <= k < holds_up@[l as int]@.len() implies #[trigger] holds_up@[l as int]@[k] < done@.len() by {}
            let waiting = count_unread(&holds_up[l], done);
            if waiting == 1 {
                r = r + 1;
            }
        }
    }
    assert(s@.subrange(0, s@.len() as int) =~= s@);
    r
}

/// Everything a candidate is judged on, worked out.
#[derive(Clone, Copy)]
struct Judged {
    leaning: usize,
    away: usize,
    not_header: usize,
    closing: usize,
    holding: usize,
}

impl Judged {
    spec fn matches(self, board: Board, done: Seq<bool>, prev: Option<int>, c: int) -> bool {
        &&& self.leaning == unread_in(board.lean[c], done)
        &&& self.away == board.away(prev, c)
        &&& self.not_header == (if board.head[c] { 0int } else { 1int })
        &&& self.closing == board.closing(done, board.lean[c])
        &&& self.holding == unread_in(board.hold[c], done)
    }
}

/// A member is judged on: what it leans on that is unread, how far it moves the reader,
/// whether it is a container's header, how many branches it finishes, and how many
/// unread members lean on it.
fn judge(
    c: usize,
    done: &Vec<bool>,
    leans_on: &Vec<Vec<usize>>,
    holds_up: &Vec<Vec<usize>>,
    headers: &Vec<bool>,
    groups: &Vec<Vec<String>>,
    homes: &Vec<String>,
    prev: Option<usize>,
    Ghost(board): Ghost<Board>,
) -> (r: Judged)
    requires
        c < done@.len(),
        leans_on@.len() == done@.len(),
        holds_up@.len() == done@.len(),
        headers@.len() == done@.len(),
        groups@.len() == done@.len(),
        homes@.len() == done@.len(),
        prev matches Some(p) ==> p < done@.len(),
        board == board_of(leans_on@, holds_up@, headers@, groups@, homes@),
        forall|a: int, i: int| 0 <= a < leans_on@.len() && 0 <= i < leans_on@[a]@.len() ==> #[trigger] leans_on@[a]@[i] < done@.len(),
        forall|a: int, i: int| 0 <= a < holds_up@.len() && 0 <= i < holds_up@[a]@.len() ==> #[trigger] holds_up@[a]@[i] < done@.len(),
    ensures
        r.matches(board, done@, match prev { Some(p) => Some(p as int), None => None }, c as int),
{
    assert forall|i: int| 0 <= i < leans_on@[c as int]@.len() implies #[trigger] leans_on@[c as int]@[i] < done@.len() by {}
    assert forall|i: int| 0 <= i < holds_up@[c as int]@.len() implies #[trigger] holds_up@[c as int]@[i] < done@.len() by {}
    let leaning = count_unread(&leans_on[c], done);
    let holding = count_unread(&holds_up[c], done);
    let closing = count_closing(&leans_on[c], done, holds_up, Ghost(board));
    let away: usize = match prev {
        Some(p) => {
            let module = if crate::text::str_eq(homes[p].as_str(), homes[c].as_str()) { 0 } else { 1 };
            let package = if crate::model::strings_eq(&groups[p], &groups[c]) { 0 } else { 1 };
            module + package
        },
        None => 0,
    };
    proof {
        assert(board.lean[c as int] == leans_on@[c as int]@);
        assert(board.hold[c as int] == holds_up@[c as int]@);
        if let Some(p) = prev {
            assert(board.home[p as int] == homes@[p as int]@);
            assert(board.home[c as int] == homes@[c as int]@);
            assert(board.group[p as int] == crate::text::views(groups@[p as int]@));
            assert(board.group[c as int] == crate::text::views(groups@[c as int]@));
        }
    }
    Judged { leaning, away, not_header: if headers[c] { 0 } else { 1 }, closing, holding }
}

proof fn lemma_unread_bound(s: Seq<usize>, done: Seq<bool>)
    ensures
        0 <= unread_in(s, done) <= s.len(),
    decreases s.len(),
{
    if s.len() > 0 {
        lemma_unread_bound(s.drop_last(), done);
    }
}

/// A rising list of places below `n` has at most `n` of them.
proof fn lemma_rising_bound(s: Seq<usize>, n: int)
    requires
        n >= 0,
        forall|i: int| 0 <= i < s.len() ==> #[trigger] s[i] < n,
    ensures
        rising(s) ==> s.len() <= n,
    decreases s.len(),
{
    if s.len() > 0 && rising(s) {
        let t = s.drop_last();
        assert forall|i: int| 0 <= i < t.len() implies #[trigger] t[i] < s.last() by {
            assert(t[i] == s[i]);
        }
        assert(rising(t)) by {
            assert forall|i: int, j: int| 0 <= i < j < t.len() implies t[i] < t[j] by {
                assert(t[i] == s[i] && t[j] == s[j]);
            }
        }
        lemma_rising_bound(t, s.last() as int);
        assert(t.len() <= s.last() as int);
        assert(s[s.len() - 1] < n);
        assert(s.len() == t.len() + 1);
    }
}

/// `a` is judged ahead of `b`, count by count.
fn judged_ahead(a: &Judged, ca: usize, b: &Judged, cb: usize) -> (r: bool)
    ensures
        r == (a.leaning < b.leaning || (a.leaning == b.leaning && (a.away < b.away || (a.away == b.away && (a.not_header
            < b.not_header || (a.not_header == b.not_header && (a.closing > b.closing || (a.closing == b.closing && (
        a.holding > b.holding || (a.holding == b.holding && ca < cb)))))))))),
{
    if a.leaning != b.leaning {
        return a.leaning < b.leaning;
    }
    if a.away != b.away {
        return a.away < b.away;
    }
    if a.not_header != b.not_header {
        return a.not_header < b.not_header;
    }
    if a.closing != b.closing {
        return a.closing > b.closing;
    }
    if a.holding != b.holding {
        return a.holding > b.holding;
    }
    ca < cb
}

/// The next one to read, judged on each count in turn; nothing once everything is read.
fn pick(
    done: &Vec<bool>,
    leans_on: &Vec<Vec<usize>>,
    holds_up: &Vec<Vec<usize>>,
    headers: &Vec<bool>,
    groups: &Vec<Vec<String>>,
    homes: &Vec<String>,
    prev: Option<usize>,
) -> (r: Option<usize>)
    requires
        leans_on@.len() == done@.len(),
        holds_up@.len() == done@.len(),
        headers@.len() == done@.len(),
        groups@.len() == done@.len(),
        homes@.len() == done@.len(),
        prev matches Some(p) ==> p < done@.len(),
        forall|a: int, i: int| 0 <= a < leans_on@.len() && 0 <= i < leans_on@[a]@.len() ==> #[trigger] leans_on@[a]@[i] < done@.len(),
        forall|a: int, i: int| 0 <= a < holds_up@.len() && 0 <= i < holds_up@[a]@.len() ==> #[trigger] holds_up@[a]@[i] < done@.len(),
    ensures
        r matches Some(c) ==> board_of(leans_on@, holds_up@, headers@, groups@, homes@).chosen(
            done@,
            match prev { Some(p) => Some(p as int), None => None },
            c as int,
        ),
        r is None <==> forall|d: int| 0 <= d < done@.len() ==> done@[d],
{
    let ghost board = board_of(leans_on@, holds_up@, headers@, groups@, homes@);
    let ghost at: Option<int> = match prev { Some(p) => Some(p as int), None => None };
    let mut best: Option<(usize, Judged)> = None;
    for c in 0..done.len()
        invariant
            leans_on@.len() == done@.len(),
            holds_up@.len() == done@.len(),
            headers@.len() == done@.len(),
            groups@.len() == done@.len(),
            homes@.len() == done@.len(),
            prev matches Some(p) ==> p < done@.len(),
            board == board_of(leans_on@, holds_up@, headers@, groups@, homes@),
            at == match prev { Some(p) => Some(p as int), None => None },
            forall|a: int, i: int| 0 <= a < leans_on@.len() && 0 <= i < leans_on@[a]@.len() ==> #[trigger] leans_on@[a]@[i] < done@.len(),
            forall|a: int, i: int| 0 <= a < holds_up@.len() && 0 <= i < holds_up@[a]@.len() ==> #[trigger] holds_up@[a]@[i] < done@.len(),
            best is None ==> forall|d: int| 0 <= d < c ==> done@[d],
            best matches Some((b, j)) ==> b < c && !done@[b as int] && j.matches(board, done@, at, b as int),
            best matches Some((b, j)) ==> forall|d: int| 0 <= d < c && !done@[d] && d != b ==> #[trigger] board.ahead(done@, at, b as int, d),
    {
        if !done[c] {
            let judged = judge(c, done, leans_on, holds_up, headers, groups, homes, prev, Ghost(board));
            let better = match &best {
                None => true,
                Some((b, j)) => judged_ahead(&judged, c, j, *b),
            };
            if better {
                proof {
                    if let Some((b, j)) = best {
                        assert(board.ahead(done@, at, c as int, b as int));
                        assert forall|d: int| 0 <= d < c + 1 && !done@[d] && d != c implies #[trigger] board.ahead(done@, at, c as int, d) by {
                            if d != b {
                                assert(board.ahead(done@, at, b as int, d));
                            }
                        }
                    }
                }
                best = Some((c, judged));
            } else {
                proof {
                    if let Some((b, j)) = best {
                        assert(board.ahead(done@, at, b as int, c as int));
                    }
                }
            }
        }
    }
    match best {
        Some((b, _)) => Some(b),
        None => None,
    }
}


// ---------------------------------------------------------------------------------------
// The reading.

/// One step of a reading.
#[derive(Debug, Clone, PartialEq, Eq)]
pub struct Step {
    pub definition: Identity,
    /// Dependencies not yet read. Only non-empty inside a cycle.
    pub on_faith: Vec<Identity>,
}

/// Numbers for comparing one ordering rule against another on real changes.
#[derive(Debug, Clone, Copy, PartialEq, Eq, Structural)]
pub struct Cost {
    /// The most open at once.
    pub peak_open: usize,
    /// Summed over every step, to tell a long shallow reading from a short deep one.
    pub total_open: usize,
    pub taken_on_faith: usize,
    /// Steps that moved to another package, or without a grouping, another file.
    pub jumps: usize,
}

impl Default for Cost {
    fn default() -> (r: Cost)
        ensures
            r == (Cost { peak_open: 0, total_open: 0, taken_on_faith: 0, jumps: 0 }),
    {
        Cost { peak_open: 0, total_open: 0, taken_on_faith: 0, jumps: 0 }
    }
}

/// A whole reading: the steps in order, and what reading them that way costs.
#[derive(Debug, Clone, PartialEq, Eq)]
pub struct ReadingOrder {
    pub steps: Vec<Step>,
    /// Numbers for comparing one ordering rule against another on real changes.
    pub cost: Cost,
}

impl Default for ReadingOrder {
    fn default() -> (r: ReadingOrder)
        ensures
            r.steps@.len() == 0,
            r.cost == (Cost { peak_open: 0, total_open: 0, taken_on_faith: 0, jumps: 0 }),
    {
        ReadingOrder { steps: Vec::new(), cost: Cost { peak_open: 0, total_open: 0, taken_on_faith: 0, jumps: 0 } }
    }
}

/// The places below `k` that satisfy `pred`, in order.
pub open spec fn picks(k: int, pred: spec_fn(int) -> bool) -> Seq<usize>
    decreases k,
{
    if k <= 0 {
        Seq::empty()
    } else {
        picks(k - 1, pred) + if pred(k - 1) { seq![(k - 1) as usize] } else { Seq::empty() }
    }
}

proof fn lemma_picks(k: int, pred: spec_fn(int) -> bool)
    requires
        0 <= k <= usize::MAX + 1,
    ensures
        rising(picks(k, pred)),
        forall|i: int| 0 <= i < picks(k, pred).len() ==> #[trigger] picks(k, pred)[i] < k,
        forall|y: usize| #[trigger] picks(k, pred).contains(y) <==> (y < k && pred(y as int)),
    decreases k,
{
    if k > 0 {
        lemma_picks(k - 1, pred);
        let s = picks(k - 1, pred);
        let t = picks(k, pred);
        assert forall|y: usize| #[trigger] t.contains(y) <==> (y < k && pred(y as int)) by {
            if t.contains(y) {
                let i = choose|i: int| 0 <= i < t.len() && t[i] == y;
                if i < s.len() {
                    assert(s[i] == y);
                    assert(s.contains(y));
                }
            }
            if y < k && pred(y as int) {
                if y < k - 1 {
                    assert(s.contains(y));
                    let i = choose|i: int| 0 <= i < s.len() && s[i] == y;
                    assert(t[i] == y);
                } else {
                    assert(t[s.len() as int] == y);
                }
            }
        }
    }
}

/// Two rising lists holding the same places are the same list.
proof fn lemma_rising_same(a: Seq<usize>, b: Seq<usize>)
    requires
        rising(a),
        rising(b),
        forall|y: usize| a.contains(y) <==> b.contains(y),
    ensures
        a == b,
    decreases a.len(),
{
    if a.len() == 0 {
        if b.len() > 0 {
            assert(b.contains(b[0]));
        }
        assert(a =~= b);
    } else if b.len() == 0 {
        assert(a.contains(a[0]));
    } else {
        assert(a.contains(a.last()));
        assert(b.contains(b.last()));
        let i = choose|i: int| 0 <= i < b.len() && b[i] == a.last();
        let j = choose|j: int| 0 <= j < a.len() && a[j] == b.last();
        assert(a.last() == b.last());
        let (ta, tb) = (a.drop_last(), b.drop_last());
        assert(rising(ta)) by {
            assert forall|x: int, y: int| 0 <= x < y < ta.len() implies ta[x] < ta[y] by {
                assert(ta[x] == a[x] && ta[y] == a[y]);
            }
        }
        assert(rising(tb)) by {
            assert forall|x: int, y: int| 0 <= x < y < tb.len() implies tb[x] < tb[y] by {
                assert(tb[x] == b[x] && tb[y] == b[y]);
            }
        }
        assert forall|y: usize| ta.contains(y) <==> tb.contains(y) by {
            if ta.contains(y) {
                let k = choose|k: int| 0 <= k < ta.len() && ta[k] == y;
                assert(a[k] == y && a[k] < a.last());
                assert(b.contains(y));
                let m = choose|m: int| 0 <= m < b.len() && b[m] == y;
                assert(m != b.len() - 1);
                assert(tb[m] == y);
            }
            if tb.contains(y) {
                let k = choose|k: int| 0 <= k < tb.len() && tb[k] == y;
                assert(b[k] == y && b[k] < b.last());
                assert(a.contains(y));
                let m = choose|m: int| 0 <= m < a.len() && a[m] == y;
                assert(m != a.len() - 1);
                assert(ta[m] == y);
            }
        }
        lemma_rising_same(ta, tb);
        assert(a =~= ta.push(a.last()));
        assert(b =~= tb.push(b.last()));
    }
}

/// Whether `x` is a container, whose header is read on arriving at it.
pub open spec fn header(defs: Seq<Definition>, x: Identity) -> bool {
    match latest(defs, x) {
        Some(o) => o.role == Role::Container,
        None => false,
    }
}

/// Where `x` sits, for counting jumps: the grouping's path if it has one, else its file.
pub open spec fn whereabouts(defs: Seq<Definition>, of: Seq<(Identity, Vec<String>)>, x: Identity) -> Seq<Seq<char>> {
    if path_in(of, x).len() > 0 {
        path_in(of, x)
    } else {
        match latest(defs, x) {
            Some(o) => seq![o.file],
            None => Seq::empty(),
        }
    }
}

/// The module `x` belongs to, written as its file, a null, and its path: the outermost
/// container in its file, or `x` itself when nothing holds it. Not the file, since a file
/// can hold two modules, and not the nearest container, which would wrongly make a method
/// and a plain function two places. Neither a file name nor a path can hold a null, so
/// the two halves can't be confused.
pub open spec fn home(defs: Seq<Definition>, x: Identity) -> Seq<char> {
    let above = around(defs, x);
    let outermost = if above.len() > 0 { above.last() } else { x };
    match latest(defs, outermost) {
        Some(o) => o.file + seq!['\0'] + joined(o.locator.scope.push(o.locator.name), seq![':', ':']),
        None => Seq::empty(),
    }
}

/// Everything the members of a reading are judged on, worked out from what was handed over.
pub open spec fn board(ms: Seq<Identity>, edges: Seq<Edge>, defs: Seq<Definition>, of: Seq<(Identity, Vec<String>)>) -> Board {
    Board {
        lean: Seq::new(ms.len(), |a: int| picks(ms.len() as int, |b: int| leans(ms, edges, defs, a, b))),
        hold: Seq::new(ms.len(), |b: int| picks(ms.len() as int, |a: int| leans(ms, edges, defs, a, b))),
        head: Seq::new(ms.len(), |a: int| header(defs, ms[a])),
        group: Seq::new(ms.len(), |a: int| whereabouts(defs, of, ms[a])),
        home: Seq::new(ms.len(), |a: int| home(defs, ms[a])),
    }
}

/// Where `x` stands among the members.
pub open spec fn place(ms: Seq<Identity>, x: Identity) -> int {
    choose|k: int| 0 <= k < ms.len() && ms[k] == x
}

/// Which members the first `i` steps have read.
pub open spec fn done_after(ms: Seq<Identity>, steps: Seq<Step>, i: int) -> Seq<bool> {
    Seq::new(ms.len(), |c: int| exists|j: int| 0 <= j < i && (#[trigger] steps[j]).definition == ms[c])
}

/// Where the reader stands after the first `i` steps: the place of the last one read.
pub open spec fn standing(ms: Seq<Identity>, steps: Seq<Step>, i: int) -> Option<int> {
    if i == 0 {
        None
    } else {
        Some(place(ms, steps[i - 1].definition))
    }
}

/// The places in `s` still unread, in order.
pub open spec fn still_unread(s: Seq<usize>, done: Seq<bool>) -> Seq<usize>
    decreases s.len(),
{
    if s.len() == 0 {
        s
    } else {
        still_unread(s.drop_last(), done) + if done[s.last() as int] { Seq::empty() } else { seq![s.last()] }
    }
}

/// The members at some places.
pub open spec fn members_at(ms: Seq<Identity>, s: Seq<usize>) -> Seq<Identity> {
    s.map_values(|p: usize| ms[p as int])
}

/// How many of the first `k` members are read and still have something unread leaning on
/// them: open, in the reader's mind.
pub open spec fn open_among(b: Board, done: Seq<bool>, k: int) -> int
    decreases k,
{
    if k <= 0 {
        0
    } else {
        open_among(b, done, k - 1) + if done[k - 1] && unread_in(b.hold[k - 1], done) > 0 { 1int } else { 0int }
    }
}

/// How many are open once the `i`th step has been read.
pub open spec fn open_at(b: Board, ms: Seq<Identity>, steps: Seq<Step>, i: int) -> int {
    open_among(b, done_after(ms, steps, i + 1), ms.len() as int)
}

/// The open counts of the first `k` steps, summed.
pub open spec fn total_open(b: Board, ms: Seq<Identity>, steps: Seq<Step>, k: int) -> int
    decreases k,
{
    if k <= 0 {
        0
    } else {
        total_open(b, ms, steps, k - 1) + open_at(b, ms, steps, k - 1)
    }
}

/// The most open at once over the first `k` steps.
pub open spec fn peak_open(b: Board, ms: Seq<Identity>, steps: Seq<Step>, k: int) -> int
    decreases k,
{
    if k <= 0 {
        0
    } else {
        let before = peak_open(b, ms, steps, k - 1);
        let now = open_at(b, ms, steps, k - 1);
        if now > before { now } else { before }
    }
}

/// How many were taken on faith over the first `k` steps.
pub open spec fn on_faith_total(steps: Seq<Step>, k: int) -> int
    decreases k,
{
    if k <= 0 {
        0
    } else {
        on_faith_total(steps, k - 1) + steps[k - 1].on_faith@.len()
    }
}

/// How many of the first `k` steps moved to another package, or file.
pub open spec fn jumps(b: Board, ms: Seq<Identity>, steps: Seq<Step>, k: int) -> int
    decreases k,
{
    if k <= 1 {
        0
    } else {
        jumps(b, ms, steps, k - 1) + if b.group[place(ms, steps[k - 1].definition)] != b.group[place(ms, steps[k
            - 2].definition)] {
            1int
        } else {
            0int
        }
    }
}

/// Whether `x` is a container.
fn header_of(defs: &Vec<Definition>, x: Identity) -> (r: bool)
    ensures
        r == header(defs@, x),
{
    match find_entry(defs, x) {
        Some(i) => defs[i].sides.latest().role == Role::Container,
        None => false,
    }
}

/// Where `x` sits, for counting jumps.
fn whereabouts_of(defs: &Vec<Definition>, grouping: &Grouping, x: Identity) -> (r: Vec<String>)
    ensures
        crate::text::views(r@) == whereabouts(defs@, grouping.of@, x),
{
    let grouped = grouping.path_of(x);
    if grouped.len() > 0 {
        return grouped;
    }
    match find_entry(defs, x) {
        Some(i) => {
            let mut r: Vec<String> = Vec::new();
            r.push(defs[i].sides.latest().file.clone());
            assert(crate::text::views(r@) =~= seq![defs@[i as int].sides@.latest().file]);
            r
        },
        None => {
            let r: Vec<String> = Vec::new();
            assert(crate::text::views(r@) =~= Seq::empty());
            r
        },
    }
}

/// The module `x` belongs to, written as its file, a null, and its path.
fn home_of(defs: &Vec<Definition>, x: Identity) -> (r: String)
    ensures
        r@ == home(defs@, x),
{
    let above = around_of(defs, x);
    let outermost = if above.len() > 0 { above[above.len() - 1] } else { x };
    match find_entry(defs, outermost) {
        Some(i) => {
            let it = defs[i].sides.latest();
            let mut r = it.file.clone();
            push_char(&mut r, '\0');
            let path = it.locator.written();
            r.append(path.as_str());
            r
        },
        None => String::new(),
    }
}

/// How many members are open: read, with something unread leaning on them.
fn count_open(holds_up: &Vec<Vec<usize>>, done: &Vec<bool>, Ghost(b): Ghost<Board>) -> (r: usize)
    requires
        holds_up@.len() == done@.len(),
        b.hold == holds_up@.map_values(|v: Vec<usize>| v@),
        forall|a: int, i: int| 0 <= a < holds_up@.len() && 0 <= i < holds_up@[a]@.len() ==> #[trigger] holds_up@[a]@[i] < done@.len(),
    ensures
        r == open_among(b, done@, done@.len() as int),
        r <= done@.len(),
{
    let mut r: usize = 0;
    for m in 0..done.len()
        invariant
            holds_up@.len() == done@.len(),
            b.hold == holds_up@.map_values(|v: Vec<usize>| v@),
            forall|a: int, i: int| 0 <= a < holds_up@.len() && 0 <= i < holds_up@[a]@.len() ==> #[trigger] holds_up@[a]@[i] < done@.len(),
            r == open_among(b, done@, m as int),
            r <= m,
    {
        if done[m] {
            assert forall|i: int| 0 <= i < holds_up@[m as int]@.len() implies #[trigger] holds_up@[m as int]@[i] < done@.len() by {}
            if count_unread(&holds_up[m], done) > 0 {
                r = r + 1;
            }
        }
    }
    r
}

/// How many entries are set.
spec fn trues(s: Seq<bool>) -> int
    decreases s.len(),
{
    if s.len() == 0 {
        0
    } else {
        trues(s.drop_last()) + if s.last() { 1int } else { 0int }
    }
}

proof fn lemma_trues_set(s: Seq<bool>, k: int)
    requires
        0 <= k < s.len(),
        !s[k],
    ensures
        trues(s.update(k, true)) == trues(s) + 1,
    decreases s.len(),
{
    let t = s.update(k, true);
    if k < s.len() - 1 {
        assert(t.drop_last() =~= s.drop_last().update(k, true));
        lemma_trues_set(s.drop_last(), k);
    } else {
        assert(t.drop_last() =~= s.drop_last());
    }
}

proof fn lemma_trues_all(s: Seq<bool>)
    requires
        forall|i: int| 0 <= i < s.len() ==> s[i],
    ensures
        trues(s) == s.len(),
    decreases s.len(),
{
    if s.len() > 0 {
        lemma_trues_all(s.drop_last());
    }
}

proof fn lemma_place(ms: Seq<Identity>, p: int)
    requires
        increasing_ids(ms),
        0 <= p < ms.len(),
    ensures
        place(ms, ms[p]) == p,
{
    let q = place(ms, ms[p]);
    assert(0 <= q < ms.len() && ms[q] == ms[p]);
    if q < p {
        assert(ms[q].0 < ms[p].0);
    }
    if p < q {
        assert(ms[p].0 < ms[q].0);
    }
}


/// What the first `k` steps of a reading say is the same for two readings that agree on
/// those steps.
proof fn lemma_stable(b: Board, ms: Seq<Identity>, s: Seq<Step>, t: Seq<Step>, k: int)
    requires
        0 <= k <= s.len(),
        k <= t.len(),
        forall|j: int| 0 <= j < k ==> s[j] == t[j],
    ensures
        forall|j: int| 0 <= j <= k ==> #[trigger] done_after(ms, s, j) == done_after(ms, t, j),
        forall|j: int| 0 <= j <= k ==> #[trigger] standing(ms, s, j) == standing(ms, t, j),
        total_open(b, ms, s, k) == total_open(b, ms, t, k),
        peak_open(b, ms, s, k) == peak_open(b, ms, t, k),
        on_faith_total(s, k) == on_faith_total(t, k),
        jumps(b, ms, s, k) == jumps(b, ms, t, k),
    decreases k,
{
    assert forall|j: int| 0 <= j <= k implies #[trigger] done_after(ms, s, j) == done_after(ms, t, j) by {
        assert forall|c: int| 0 <= c < ms.len() implies done_after(ms, s, j)[c] == done_after(ms, t, j)[c] by {
            if done_after(ms, s, j)[c] {
                let x = choose|x: int| 0 <= x < j && (#[trigger] s[x]).definition == ms[c];
                assert(t[x] == s[x]);
            }
            if done_after(ms, t, j)[c] {
                let x = choose|x: int| 0 <= x < j && (#[trigger] t[x]).definition == ms[c];
                assert(t[x] == s[x]);
            }
        }
        assert(done_after(ms, s, j) =~= done_after(ms, t, j));
    }
    if k > 0 {
        lemma_stable(b, ms, s, t, k - 1);
        assert(done_after(ms, s, k) == done_after(ms, t, k));
        if k >= 2 {
            assert(s[k - 2] == t[k - 2]);
        }
        assert(s[k - 1] == t[k - 1]);
    }
}

/// `steps` and `cost` are the reading of the members `ms`: every member read once; each
/// step the member judged ahead of every other unread one, given what was read before it
/// and where the last one sat; what it leans on still unread taken on faith, which only
/// happens when every unread member leans on something unread; and the costs counted
/// over the steps.
pub open spec fn is_reading(
    ms: Seq<Identity>,
    edges: Seq<Edge>,
    defs: Seq<Definition>,
    of: Seq<(Identity, Vec<String>)>,
    steps: Seq<Step>,
    cost: Cost,
) -> bool {
    &&& steps.len() == ms.len()
    &&& forall|i: int|
            0 <= i < steps.len() ==> ms[place(ms, (#[trigger] steps[i]).definition)] == steps[i].definition
                && board(ms, edges, defs, of).chosen(
                done_after(ms, steps, i),
                standing(ms, steps, i),
                place(ms, steps[i].definition),
            )
    &&& forall|i: int|
            0 <= i < steps.len() ==> (#[trigger] steps[i]).on_faith@ == members_at(
                ms,
                still_unread(
                    board(ms, edges, defs, of).lean[place(ms, steps[i].definition)],
                    done_after(ms, steps, i),
                ),
            )
    &&& reads_all(ms, steps)
    &&& forall|i: int, j: int| 0 <= i < j < steps.len() ==> (#[trigger] steps[i]).definition != (#[trigger] steps[j]).definition
    &&& forall|i: int|
            0 <= i < steps.len() && (#[trigger] steps[i]).on_faith@.len() > 0 ==> forced(
                board(ms, edges, defs, of),
                done_after(ms, steps, i),
            )
    &&& cost.peak_open == peak_open(board(ms, edges, defs, of), ms, steps, ms.len() as int)
    &&& cost.total_open == capped(total_open(board(ms, edges, defs, of), ms, steps, ms.len() as int))
    &&& cost.taken_on_faith == capped(on_faith_total(steps, ms.len() as int))
    &&& cost.jumps == jumps(board(ms, edges, defs, of), ms, steps, ms.len() as int)
}

/// The order to read the members of `read` in, and what reading them that way costs.
///
/// Every member is read exactly once. At each step the next one is the member judged
/// ahead of every other unread one on these counts, in turn: fewest dependencies still
/// unread, so nothing is read before what it leans on unless a cycle forces it; least
/// moving about, out of the module or the package the last one sat in; a container's
/// header on arriving somewhere, before its contents; most branches finished; most
/// things waiting on it; and last the earlier member, so the same change always reads
/// the same. What a step leans on that is still unread is taken on faith.
///
/// `edges` is what depends on what among everything drawn. A container leans on whatever
/// its contents lean on outside it, out to the first container that also holds what is
/// leaned on: no edge ever says so, and without it a module's header would be read long
/// before anything it holds.
#[verifier::rlimit(40)]
pub fn order(read: &Vec<Identity>, edges: &Vec<Edge>, definitions: &Vec<Definition>, grouping: &Grouping) -> (r: ReadingOrder)
    requires
        increasing_ids(read@),
    ensures
        is_reading(read@, edges@, definitions@, grouping.of@, r.steps@, r.cost),
{
    let ghost ms = read@;
    let ghost b = board(read@, edges@, definitions@, grouping.of@);
    let n = read.len();
    let (leans_on, holds_up) = relations(edges, read, definitions);

    // What each member is judged on besides its dependencies.
    let mut headers: Vec<bool> = Vec::new();
    let mut groups: Vec<Vec<String>> = Vec::new();
    let mut homes: Vec<String> = Vec::new();
    for m in 0..n
        invariant
            n == read@.len(),
            headers@.len() == m,
            groups@.len() == m,
            homes@.len() == m,
            forall|a: int| 0 <= a < m ==> #[trigger] headers@[a] == header(definitions@, read@[a]),
            forall|a: int| 0 <= a < m ==> crate::text::views(#[trigger] groups@[a]@) == whereabouts(definitions@, grouping.of@, read@[a]),
            forall|a: int| 0 <= a < m ==> (#[trigger] homes@[a])@ == home(definitions@, read@[a]),
    {
        headers.push(header_of(definitions, read[m]));
        groups.push(whereabouts_of(definitions, grouping, read[m]));
        homes.push(home_of(definitions, read[m]));
    }
    proof {
        let laid = board_of(leans_on@, holds_up@, headers@, groups@, homes@);
        assert forall|a: int| 0 <= a < n implies #[trigger] laid.lean[a] == b.lean[a] by {
            let pred = |y: int| leans(ms, edges@, definitions@, a, y);
            lemma_picks(n as int, pred);
            assert forall|y: usize| leans_on@[a]@.contains(y) <==> picks(n as int, pred).contains(y) by {
                if leans_on@[a]@.contains(y) {
                    let k = choose|k: int| 0 <= k < leans_on@[a]@.len() && leans_on@[a]@[k] == y;
                    assert(leans_on@[a]@[k] < n);
                }
                if y < n {
                    assert(leans_on@[a as int]@.contains(y) <==> leans(ms, edges@, definitions@, a, y as int));
                }
            }
            lemma_rising_same(leans_on@[a]@, picks(n as int, pred));
        }
        assert forall|a: int| 0 <= a < n implies #[trigger] laid.hold[a] == b.hold[a] by {
            let pred = |x: int| leans(ms, edges@, definitions@, x, a);
            lemma_picks(n as int, pred);
            assert forall|y: usize| holds_up@[a]@.contains(y) <==> picks(n as int, pred).contains(y) by {
                if holds_up@[a]@.contains(y) {
                    let k = choose|k: int| 0 <= k < holds_up@[a]@.len() && holds_up@[a]@[k] == y;
                    assert(holds_up@[a]@[k] < n);
                }
                if y < n {
                    assert(holds_up@[a as int]@.contains(y) <==> leans(ms, edges@, definitions@, y as int, a));
                }
            }
            lemma_rising_same(holds_up@[a]@, picks(n as int, pred));
        }
        assert(laid.lean =~= b.lean);
        assert(laid.hold =~= b.hold);
        assert(laid.head =~= b.head);
        assert(laid.group =~= b.group);
        assert(laid.home =~= b.home);
        assert(laid =~= b);
    }

    let mut done: Vec<bool> = Vec::new();
    for m in 0..n
        invariant
            done@.len() == m,
            forall|a: int| 0 <= a < m ==> !done@[a],
    {
        done.push(false);
    }
    let mut steps: Vec<Step> = Vec::new();
    let mut peak: usize = 0;
    let mut total: usize = 0;
    let mut faith: usize = 0;
    let mut moves: usize = 0;
    let mut prev: Option<usize> = None;
    proof {
        assert(done@ =~= done_after(ms, steps@, 0));
        lemma_trues_none(done@);
    }
    let mut i: usize = 0;
    while i < n
        invariant
            n == read@.len(),
            ms == read@,
            increasing_ids(ms),
            b == board(read@, edges@, definitions@, grouping.of@),
            b == board_of(leans_on@, holds_up@, headers@, groups@, homes@),
            lists(leans_on@, n as int),
            lists(holds_up@, n as int),
            headers@.len() == n,
            groups@.len() == n,
            homes@.len() == n,
            i <= n,
            steps@.len() == i,
            done@ == done_after(ms, steps@, i as int),
            trues(done@) == i,
            prev matches Some(p) ==> p < n,
            match prev { Some(p) => Some(p as int), None => None } == standing(ms, steps@, i as int),
            forall|j: int|
                0 <= j < i ==> ms[place(ms, (#[trigger] steps@[j]).definition)] == steps@[j].definition && b.chosen(
                    done_after(ms, steps@, j),
                    standing(ms, steps@, j),
                    place(ms, steps@[j].definition),
                ),
            forall|j: int|
                0 <= j < i ==> (#[trigger] steps@[j]).on_faith@ == members_at(
                    ms,
                    still_unread(b.lean[place(ms, steps@[j].definition)], done_after(ms, steps@, j)),
                ),
            peak == peak_open(b, ms, steps@, i as int),
            total == capped(total_open(b, ms, steps@, i as int)),
            faith == capped(on_faith_total(steps@, i as int)),
            moves == jumps(b, ms, steps@, i as int),
            peak <= n,
            moves <= i,
        decreases n - i,
    {
        let picked = pick(&done, &leans_on, &holds_up, &headers, &groups, &homes, prev);
        assert(picked is Some) by {
            if picked is None {
                lemma_trues_all(done@);
            }
        }
        let next = picked.unwrap();
        let ghost at = match prev { Some(p) => Some(p as int), None => None };
        assert(b.chosen(done@, at, next as int));

        // What it leans on that is still unread is taken on faith.
        let mut on_faith: Vec<Identity> = Vec::new();
        let row = &leans_on[next];
        assert(row@ == b.lean[next as int]);
        for k in 0..row.len()
            invariant
                n == read@.len(),
                ms == read@,
                done@.len() == n,
                next < n,
                b.lean.len() == n,
                row@ == b.lean[next as int],
                forall|x: int| 0 <= x < row@.len() ==> #[trigger] row@[x] < n,
                on_faith@ == members_at(ms, still_unread(row@.subrange(0, k as int), done@)),
                on_faith@.len() <= k,
        {
            assert(row@.subrange(0, k + 1).drop_last() =~= row@.subrange(0, k as int));
            let l = row[k];
            let ghost prefix = still_unread(row@.subrange(0, k as int), done@);
            let ghost full = still_unread(row@.subrange(0, k + 1), done@);
            assert(row@.subrange(0, k + 1).last() == l);
            if !done[l] {
                on_faith.push(read[l]);
                assert(full =~= prefix.push(l));
                assert(members_at(ms, full) =~= members_at(ms, prefix).push(ms[l as int]));
            } else {
                assert(full =~= prefix);
            }
        }
        assert(row@.subrange(0, row@.len() as int) =~= row@);
        proof {
            lemma_rising_bound(row@, n as int);
        }

        let ghost before = done@;
        done.set(next, true);
        let opened = count_open(&holds_up, &done, Ghost(b));
        let moved = match prev {
            Some(p) => !crate::model::strings_eq(&groups[p], &groups[next]),
            None => false,
        };
        if moved {
            moves = moves + 1;
        }
        if opened > peak {
            peak = opened;
        }
        total = total.saturating_add(opened);
        faith = faith.saturating_add(on_faith.len());
        let ghost old_steps = steps@;
        let ghost faith_list = on_faith@;
        steps.push(Step { definition: read[next], on_faith });
        proof {
            let s1 = steps@;
            lemma_stable(b, ms, old_steps, s1, i as int);
            lemma_place(ms, next as int);
            assert(s1[i as int].definition == ms[next as int]);
            lemma_trues_set(before, next as int);
            assert forall|c: int| 0 <= c < n implies done@[c] == done_after(ms, s1, i + 1)[c] by {
                if c == next {
                    assert(s1[i as int].definition == ms[c]);
                } else {
                    if done_after(ms, s1, i + 1)[c] {
                        let x = choose|x: int| 0 <= x < i + 1 && (#[trigger] s1[x]).definition == ms[c];
                        if x == i {
                            lemma_place(ms, c);
                            assert(false);
                        }
                        assert(old_steps[x] == s1[x]);
                        assert(done_after(ms, old_steps, i as int)[c]);
                    }
                    if before[c] {
                        assert(done_after(ms, old_steps, i as int)[c]);
                        let x = choose|x: int| 0 <= x < i && (#[trigger] old_steps[x]).definition == ms[c];
                        assert(s1[x] == old_steps[x]);
                    }
                }
            }
            assert(done@ =~= done_after(ms, s1, i + 1));
            assert(standing(ms, s1, i + 1) == Some(next as int));
            assert forall|j: int| 0 <= j < i + 1 implies ms[place(ms, (#[trigger] s1[j]).definition)] == s1[j].definition
                && b.chosen(done_after(ms, s1, j), standing(ms, s1, j), place(ms, s1[j].definition)) by {
                if j < i {
                    assert(s1[j] == old_steps[j]);
                }
            }
            assert forall|j: int| 0 <= j < i + 1 implies (#[trigger] s1[j]).on_faith@ == members_at(
                ms,
                still_unread(b.lean[place(ms, s1[j].definition)], done_after(ms, s1, j)),
            ) by {
                if j < i {
                    assert(s1[j] == old_steps[j]);
                }
            }
            assert(open_at(b, ms, s1, i as int) == opened);
            if i >= 1 {
                assert(s1[i - 1] == old_steps[i - 1]);
                assert(b.group[next as int] == crate::text::views(groups@[next as int]@));
            }
        }
        prev = Some(next);
        i = i + 1;
    }
    proof {
        lemma_trues_full(done@);
        lemma_reading_whole(b, ms, steps@);
    }
    ReadingOrder { steps, cost: Cost { peak_open: peak, total_open: total, taken_on_faith: faith, jumps: moves } }
}


/// A reading that chose each step as the one ahead of the rest reads every member, none
/// twice, and takes something on faith only when nothing else was left.
proof fn lemma_reading_whole(b: Board, ms: Seq<Identity>, steps: Seq<Step>)
    requires
        steps.len() == ms.len(),
        b.lean.len() == ms.len(),
        forall|c: int| 0 <= c < ms.len() ==> #[trigger] done_after(ms, steps, ms.len() as int)[c],
        forall|j: int|
            0 <= j < steps.len() ==> ms[place(ms, (#[trigger] steps[j]).definition)] == steps[j].definition && b.chosen(
                done_after(ms, steps, j),
                standing(ms, steps, j),
                place(ms, steps[j].definition),
            ),
        forall|j: int|
            0 <= j < steps.len() ==> (#[trigger] steps[j]).on_faith@ == members_at(
                ms,
                still_unread(b.lean[place(ms, steps[j].definition)], done_after(ms, steps, j)),
            ),
    ensures
        reads_all(ms, steps),
        forall|i: int, j: int| 0 <= i < j < steps.len() ==> (#[trigger] steps[i]).definition != (#[trigger] steps[j]).definition,
        forall|i: int|
            0 <= i < steps.len() && (#[trigger] steps[i]).on_faith@.len() > 0 ==> forced(b, done_after(ms, steps, i)),
{
    assert forall|c: int| 0 <= c < ms.len() implies #[trigger] read_in(ms, steps, c) by {
        assert(done_after(ms, steps, ms.len() as int)[c]);
    }
    assert forall|i: int, j: int| 0 <= i < j < steps.len() implies (#[trigger] steps[i]).definition != (#[trigger] steps[j]).definition by {
        if steps[i].definition == steps[j].definition {
            let p = place(ms, steps[j].definition);
            assert(b.chosen(done_after(ms, steps, j), standing(ms, steps, j), p));
            assert(steps[i].definition == ms[p]);
            assert(done_after(ms, steps, j)[p]);
        }
    }
    assert forall|i: int| 0 <= i < steps.len() && (#[trigger] steps[i]).on_faith@.len() > 0 implies forced(
        b,
        done_after(ms, steps, i),
    ) by {
        let p = place(ms, steps[i].definition);
        let now = done_after(ms, steps, i);
        assert(b.chosen(now, standing(ms, steps, i), p));
        lemma_still_len(b.lean[p], now);
        assert forall|d: int| 0 <= d < now.len() && !now[d] implies #[trigger] unread_in(b.lean[d], now) > 0 by {
            if d != p {
                assert(b.ahead(now, standing(ms, steps, i), p, d));
            }
        }
    }
}

/// A count, held at the largest a machine word can say.
pub open spec fn capped(x: int) -> int {
    if x > usize::MAX { usize::MAX as int } else { x }
}

/// Some step reads member `c`.
pub open spec fn read_in(ms: Seq<Identity>, steps: Seq<Step>, c: int) -> bool {
    exists|i: int| 0 <= i < steps.len() && (#[trigger] steps[i]).definition == ms[c]
}

/// Every member is read by some step.
pub open spec fn reads_all(ms: Seq<Identity>, steps: Seq<Step>) -> bool {
    forall|c: int| 0 <= c < ms.len() ==> #[trigger] read_in(ms, steps, c)
}

/// Every unread member leans on something still unread, so whatever is read next is read
/// before one of its dependencies: only a cycle among the unread ones leaves no choice.
pub open spec fn forced(b: Board, done: Seq<bool>) -> bool {
    forall|d: int| 0 <= d < done.len() && !done[d] ==> #[trigger] unread_in(b.lean[d], done) > 0
}

proof fn lemma_still_len(s: Seq<usize>, done: Seq<bool>)
    ensures
        still_unread(s, done).len() == unread_in(s, done),
    decreases s.len(),
{
    if s.len() > 0 {
        lemma_still_len(s.drop_last(), done);
    }
}

proof fn lemma_trues_full(s: Seq<bool>)
    requires
        trues(s) == s.len(),
    ensures
        forall|i: int| 0 <= i < s.len() ==> s[i],
    decreases s.len(),
{
    if s.len() > 0 {
        lemma_trues_bound(s.drop_last());
        lemma_trues_full(s.drop_last());
        assert forall|i: int| 0 <= i < s.len() implies s[i] by {
            if i < s.len() - 1 {
                assert(s.drop_last()[i] == s[i]);
            }
        }
    }
}

proof fn lemma_trues_bound(s: Seq<bool>)
    ensures
        0 <= trues(s) <= s.len(),
    decreases s.len(),
{
    if s.len() > 0 {
        lemma_trues_bound(s.drop_last());
    }
}

proof fn lemma_trues_none(s: Seq<bool>)
    requires
        forall|i: int| 0 <= i < s.len() ==> !s[i],
    ensures
        trues(s) == 0,
    decreases s.len(),
{
    if s.len() > 0 {
        lemma_trues_none(s.drop_last());
    }
}

} // verus!
