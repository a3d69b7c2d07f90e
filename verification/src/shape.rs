//! How groups and definitions nest, and which tier each sits on.
//!
//! Tiers are worked out here, once, so the reading and the page can't disagree about them.

use crate::group::Grouping;
use crate::model::Identity;
use crate::order::{add_place, rising, Step};
use crate::review::{Definition, Edge};
use vstd::prelude::*;

verus! {

/// One box on the page, or one thing in it.
#[derive(Debug, PartialEq, Eq)]
pub enum Group {
    /// A group from the grouping, or a definition with others written inside it. A
    /// definition's box holds its own node when there's something in it to read.
    Group {
        name: String,
        /// Zero if it depends on nothing else in its holder, else one more than its
        /// deepest dependency.
        tier: u32,
        /// Tiers ascending, and along a tier in reading order.
        children: Vec<Group>,
    },
    Node { id: Identity, tier: u32 },
}

/// Every definition in a group, however deep, in the order drawn.
pub open spec fn within(g: Group) -> Seq<Identity>
    decreases g,
{
    match g {
        Group::Node { id, .. } => seq![id],
        Group::Group { children, .. } => within_all(children@),
    }
}

/// Every definition in some groups, however deep, in the order drawn.
pub open spec fn within_all(gs: Seq<Group>) -> Seq<Identity>
    decreases gs,
{
    if gs.len() == 0 {
        Seq::empty()
    } else {
        within_all(gs.drop_last()) + within(gs.last())
    }
}

impl Group {
    /// The tier a group or node sits on.
    pub open spec fn tier_spec(self) -> u32 {
        match self {
            Group::Group { tier, .. } => tier,
            Group::Node { tier, .. } => tier,
        }
    }

    /// The tier it sits on.
    pub fn tier(&self) -> (r: u32)
        ensures
            r == self.tier_spec(),
    {
        match self {
            Group::Group { tier, .. } => *tier,
            Group::Node { tier, .. } => *tier,
        }
    }

    /// Every definition in it, however deep.
    pub fn within(&self) -> (r: Vec<Identity>)
        ensures
            r@ == within(*self),
        decreases self,
    {
        match self {
            Group::Node { id, .. } => {
                let mut r: Vec<Identity> = Vec::new();
                r.push(*id);
                r
            },
            Group::Group { children, .. } => {
                let mut r: Vec<Identity> = Vec::new();
                for i in 0..children.len()
                    invariant
                        self is Group,
                        self->children == *children,
                        r@ == within_all(children@.subrange(0, i as int)),
                {
                    assert(children@.subrange(0, i + 1).drop_last() =~= children@.subrange(0, i as int));
                    proof {
                        vstd::std_specs::vec::axiom_vec_index_decreases(*children, i as int);
                        assert(decreases_to!(*self => self->children));
                    }
                    let mut more = children[i].within();
                    r.append(&mut more);
                }
                assert(children@.subrange(0, children@.len() as int) =~= children@);
                r
            },
        }
    }

    /// The same group or node, set on another tier.
    pub fn on(self, tier: u32) -> (r: Group)
        ensures
            r == (match self {
                Group::Group { name, children, .. } => Group::Group { name, tier, children },
                Group::Node { id, .. } => Group::Node { id, tier },
            }),
    {
        match self {
            Group::Group { name, children, .. } => Group::Group { name, tier, children },
            Group::Node { id, .. } => Group::Node { id, tier },
        }
    }
}


// ---------------------------------------------------------------------------------------
// Tiers.

/// A way through units, each leaning on the next.
pub open spec fn lean_path(leans: Seq<Vec<usize>>, p: Seq<usize>) -> bool {
    &&& p.len() >= 1
    &&& forall|i: int| #![trigger p[i]] 0 <= i < p.len() - 1 ==> leans[p[i] as int]@.contains(p[i + 1])
}

/// A way runs from unit `v` to unit `u`.
pub open spec fn leads(leans: Seq<Vec<usize>>, v: usize, u: usize) -> bool {
    exists|p: Seq<usize>| #[trigger] lean_path(leans, p) && p[0] == v && p.last() == u
}

/// Unit `u` has been worked out: it has a value and is no longer being worked on.
pub open spec fn finished(seen: Seq<Option<u32>>, open: Seq<usize>, u: usize) -> bool {
    &&& u < seen.len()
    &&& seen[u as int] is Some
    &&& !open.contains(u)
}

/// The value a unit was given.
pub open spec fn val(seen: Seq<Option<u32>>, u: usize) -> int {
    match seen[u as int] {
        Some(v) => v as int,
        None => 0,
    }
}

/// How many of the first `k` units have been worked out.
pub open spec fn fin_count(seen: Seq<Option<u32>>, open: Seq<usize>, k: int) -> int
    decreases k,
{
    if k <= 0 {
        0
    } else {
        fin_count(seen, open, k - 1) + if finished(seen, open, (k - 1) as usize) { 1int } else { 0int }
    }
}

/// How many units have no value yet.
pub open spec fn nones(seen: Seq<Option<u32>>) -> int
    decreases seen.len(),
{
    if seen.len() == 0 {
        0
    } else {
        nones(seen.drop_last()) + if seen.last() is None { 1int } else { 0int }
    }
}

/// Everything that holds of the units worked out so far, with `open` the ones being worked on.
pub open spec fn good(leans: Seq<Vec<usize>>, seen: Seq<Option<u32>>, open: Seq<usize>) -> bool {
    &&& forall|u: usize| #[trigger] open.contains(u) ==> u < seen.len() && seen[u as int] == Some(0u32)
    &&& forall|u: usize| #[trigger] finished(seen, open, u) ==> (val(seen, u) == 0 <==> leans[u as int]@.len() == 0)
    &&& forall|u: usize, v: usize|
        #[trigger] finished(seen, open, u) && #[trigger] leans[u as int]@.contains(v) ==> seen[v as int] is Some && (val(seen, u)
            > val(seen, v) || leads(leans, v, u)) && (open.contains(v) ==> leads(leans, v, u))
    &&& forall|u: usize|
        #[trigger] finished(seen, open, u) && leans[u as int]@.len() > 0 ==> val(seen, u) == 1 || exists|v: usize|
            #[trigger] leans[u as int]@.contains(v) && finished(seen, open, v) && val(seen, u) == val(seen, v) + 1
    &&& forall|u: usize| #[trigger] finished(seen, open, u) ==> val(seen, u) <= fin_count(seen, open, seen.len() as int)
}

/// The depth of one unit: zero if it leans on nothing, else one more than the deepest of
/// what it leans on. A unit still being worked on counts as zero, which is how a cycle
/// gets settled: by whichever unit was visited first.
#[verifier::rlimit(60)]
fn depth(
    at: usize,
    leans: &Vec<Vec<usize>>,
    seen: &mut Vec<Option<u32>>,
    Ghost(open): Ghost<Seq<usize>>,
) -> (found: u32)
    requires
        leans@.len() == old(seen)@.len(),
        old(seen)@.len() < u32::MAX,
        at < old(seen)@.len(),
        forall|u: int, i: int| 0 <= u < leans@.len() && 0 <= i < leans@[u]@.len() ==> #[trigger] leans@[u]@[i] < leans@.len(),
        forall|u: int| 0 <= u < leans@.len() ==> !(#[trigger] leans@[u]@).contains(u as usize),
        open.len() > 0 ==> lean_path(leans@, open) && leans@[open.last() as int]@.contains(at),
        good(leans@, old(seen)@, open),
    ensures
        final(seen)@.len() == old(seen)@.len(),
        final(seen)@[at as int] is Some,
        forall|u: int| 0 <= u < old(seen)@.len() && old(seen)@[u] is Some ==> #[trigger] final(seen)@[u] == old(seen)@[u],
        good(leans@, final(seen)@, open),
        nones(final(seen)@) <= nones(old(seen)@),
        open.contains(at) ==> found == 0,
        !open.contains(at) ==> finished(final(seen)@, open, at) && found == val(final(seen)@, at),
    decreases nones(old(seen)@),
{
    if let Some(found) = seen[at] {
        return found;
    }
    let ghost start = seen@;
    let ghost n = seen@.len() as int;
    proof {
        assert(!open.contains(at));
    }
    seen.set(at, Some(0));
    let ghost open2 = open.push(at);
    proof {
        lemma_nones_set(start, at as int, 0);
        lemma_push_has(open, at);
        assert forall|u: usize| #[trigger] finished(seen@, open2, u) <==> finished(start, open, u) by {
            lemma_push_has(open, at);
            if u != at && u < n {
                assert(seen@[u as int] == start[u as int]);
            }
        }
        lemma_fin_same(start, open, seen@, open2, n);
        assert(lean_path(leans@, open2)) by {
            assert forall|i: int| #![trigger open2[i]] 0 <= i < open2.len() - 1 implies leans@[open2[i] as int]@.contains(open2[i + 1]) by {
                if i < open.len() - 1 {
                    assert(open2[i] == open[i] && open2[i + 1] == open[i + 1]);
                } else {
                    assert(open2[i] == open.last());
                }
            }
        }
        assert(good(leans@, seen@, open2)) by {
            assert forall|u: usize, v: usize|
                #[trigger] finished(seen@, open2, u) && #[trigger] leans@[u as int]@.contains(v) implies seen@[v as int] is Some && (val(seen@, u)
                    > val(seen@, v) || leads(leans@, v, u)) && (open2.contains(v) ==> leads(leans@, v, u)) by {
                assert(finished(start, open, u));
                assert(u != at);
                if v == at {
                    assert(start[v as int] is Some);
                }
                assert(seen@[u as int] == start[u as int]);
                assert(seen@[v as int] == start[v as int]);
            }
            assert forall|u: usize|
                #[trigger] finished(seen@, open2, u) && leans@[u as int]@.len() > 0 implies val(seen@, u) == 1 || exists|v: usize|
                    #[trigger] leans@[u as int]@.contains(v) && finished(seen@, open2, v) && val(seen@, u) == val(seen@, v) + 1 by {
                assert(finished(start, open, u));
                assert(seen@[u as int] == start[u as int]);
                if val(start, u) != 1 {
                    let v = choose|v: usize| #[trigger] leans@[u as int]@.contains(v) && finished(start, open, v) && val(start, u) == val(start, v) + 1;
                    assert(seen@[v as int] == start[v as int]);
                }
            }
            assert forall|u: usize| #[trigger] finished(seen@, open2, u) implies val(seen@, u) <= fin_count(seen@, open2, seen@.len() as int) by {
                assert(finished(start, open, u));
                assert(seen@[u as int] == start[u as int]);
            }
            assert forall|u: usize| #[trigger] finished(seen@, open2, u) implies (val(seen@, u) == 0 <==> leans@[u as int]@.len() == 0) by {
                assert(finished(start, open, u));
                assert(seen@[u as int] == start[u as int]);
            }
            assert forall|u: usize| #[trigger] open2.contains(u) implies u < seen@.len() && seen@[u as int] == Some(0u32) by {
                if u != at {
                    assert(open.contains(u));
                }
            }
        }
    }
    let mut found: u32 = 0;
    let row = &leans[at];
    proof {
        lemma_fin_bound(seen@, open2, n);
    }
    for k in 0..row.len()
        invariant
            row@ == leans@[at as int]@,
            leans@.len() == n,
            seen@.len() == n,
            n < u32::MAX,
            at < n,
            forall|u: int, i: int| 0 <= u < leans@.len() && 0 <= i < leans@[u]@.len() ==> #[trigger] leans@[u]@[i] < leans@.len(),
            forall|u: int| 0 <= u < leans@.len() ==> !(#[trigger] leans@[u]@).contains(u as usize),
            seen@[at as int] == Some(0u32),
            open2 == open.push(at),
            !open.contains(at),
            lean_path(leans@, open2),
            good(leans@, seen@, open2),
            start == old(seen)@,
            start.len() == n,
            nones(seen@) < nones(start),
            forall|u: int| 0 <= u < start.len() && start[u] is Some ==> #[trigger] seen@[u] == start[u],
            k > 0 ==> found >= 1,
            k == 0 ==> found == 0,
            found <= fin_count(seen@, open2, seen@.len() as int) + 1,
            k > 0 ==> found == 1 || exists|v: usize| #[trigger] row@.contains(v) && finished(seen@, open2, v) && found == val(seen@, v) + 1,
            forall|j: int| 0 <= j < k ==> seen@[row@[j] as int] is Some && (finished(seen@, open2, #[trigger] row@[j]) ==> found > val(seen@, row@[j])),
    {
        let other = row[k];
        let ghost before = seen@;
        let ghost found0 = found;
        proof {
            assert(row@.contains(other));
            lemma_nones_nonneg(seen@);
        }
        let d = depth(other, leans, seen, Ghost(open2));
        proof {
            lemma_fin_bound(seen@, open2, n);
            assert forall|u: usize| #[trigger] finished(before, open2, u) implies finished(seen@, open2, u) by {
                assert(seen@[u as int] == before[u as int]);
            }
            lemma_fin_mono(before, seen@, open2, n);
            if !open2.contains(other) {
                assert(val(seen@, other) <= fin_count(seen@, open2, n));
            }
        }
        if d + 1 > found {
            found = d + 1;
        }
        proof {
            assert forall|u: int| 0 <= u < start.len() && start[u] is Some implies #[trigger] seen@[u] == start[u] by {
                assert(before.len() == n);
                assert(before[u] == start[u]);
                assert(seen@[u] == before[u]);
            }
            if k > 0 && found0 != 1 && found == found0 {
                let v = choose|v: usize| #[trigger] row@.contains(v) && finished(before, open2, v) && found0 == val(before, v) + 1;
                assert(seen@[v as int] == before[v as int]);
                assert(finished(seen@, open2, v));
            }
            if found != found0 {
                if open2.contains(other) {
                    assert(d == 0);
                    assert(found == 1);
                } else {
                    assert(d == val(seen@, other));
                    assert(found == val(seen@, other) + 1);
                    assert(row@.contains(other) && finished(seen@, open2, other));
                }
            }
            assert forall|j: int| 0 <= j < k + 1 implies seen@[row@[j] as int] is Some && (finished(seen@, open2, #[trigger] row@[j]) ==> found > val(seen@, row@[j])) by {
                if j < k {
                    assert(before[row@[j] as int] is Some);
                    assert(seen@[row@[j] as int] == before[row@[j] as int]);
                    if finished(seen@, open2, row@[j]) {
                        lemma_push_has(open, at);
                    }
                }
            }
        }
    }
    let ghost s1 = seen@;
    seen.set(at, Some(found));
    proof {
        let s2 = seen@;
        lemma_nones_set(s1, at as int, found);
        lemma_push_has(open, at);
        assert forall|u: usize| u != at implies (#[trigger] finished(s2, open, u) == finished(s1, open2, u)) by {
            lemma_push_has(open, at);
            if u < n {
                assert(s2[u as int] == s1[u as int]);
            }
        }
        lemma_fin_close(s1, open2, s2, open, at, n);
        assert forall|u: int| 0 <= u < start.len() && start[u] is Some implies #[trigger] s2[u] == start[u] by {
            assert(u != at);
        }
        assert forall|i: int| 0 <= i < open.len() implies #[trigger] leads(leans@, open[i], at) by {
            lemma_path_tail(leans@, open2, i);
            assert(open2[i] == open[i]);
        }
        assert(good(leans@, s2, open)) by {
            assert forall|u: usize| #[trigger] open.contains(u) implies u < s2.len() && s2[u as int] == Some(0u32) by {
                assert(open2.contains(u));
                assert(u != at);
            }
            assert forall|u: usize| #[trigger] finished(s2, open, u) implies (val(s2, u) == 0 <==> leans@[u as int]@.len() == 0) by {
                if u != at {
                    assert(finished(s1, open2, u));
                }
            }
            assert forall|u: usize, v: usize|
                #[trigger] finished(s2, open, u) && #[trigger] leans@[u as int]@.contains(v) implies s2[v as int] is Some && (val(s2, u)
                    > val(s2, v) || leads(leans@, v, u)) && (open.contains(v) ==> leads(leans@, v, u)) by {
                if u == at {
                    let j = choose|j: int| 0 <= j < row@.len() && row@[j] == v;
                    assert(s1[row@[j] as int] is Some);
                    assert(v != at);
                    if open.contains(v) {
                        let i = choose|i: int| 0 <= i < open.len() && open[i] == v;
                        assert(leads(leans@, open[i], at));
                    } else {
                        assert(!open2.contains(v)) by {
                            lemma_push_has(open, at);
                        }
                        assert(finished(s1, open2, row@[j]));
                    }
                } else {
                    assert(finished(s1, open2, u));
                    if v == at {
                        assert(open2.contains(v));
                    } else {
                        assert(open.contains(v) ==> open2.contains(v));
                    }
                }
            }
            assert forall|u: usize|
                #[trigger] finished(s2, open, u) && leans@[u as int]@.len() > 0 implies val(s2, u) == 1 || exists|v: usize|
                    #[trigger] leans@[u as int]@.contains(v) && finished(s2, open, v) && val(s2, u) == val(s2, v) + 1 by {
                if u == at {
                    if found != 1 {
                        let v = choose|v: usize| #[trigger] row@.contains(v) && finished(s1, open2, v) && found == val(s1, v) + 1;
                        assert(v != at);
                        assert(finished(s2, open, v));
                    }
                } else {
                    assert(finished(s1, open2, u));
                    if val(s1, u) != 1 {
                        let v = choose|v: usize| #[trigger] leans@[u as int]@.contains(v) && finished(s1, open2, v) && val(s1, u) == val(s1, v) + 1;
                        assert(v != at);
                        assert(finished(s2, open, v));
                    }
                }
            }
            assert forall|u: usize| #[trigger] finished(s2, open, u) implies val(s2, u) <= fin_count(s2, open, s2.len() as int) by {
                if u != at {
                    assert(finished(s1, open2, u));
                }
            }
        }
    }
    found
}

proof fn lemma_push_has(open: Seq<usize>, at: usize)
    ensures
        forall|u: usize| #[trigger] open.push(at).contains(u) <==> (open.contains(u) || u == at),
{
    assert forall|u: usize| #[trigger] open.push(at).contains(u) <==> (open.contains(u) || u == at) by {
        let o = open.push(at);
        if o.contains(u) {
            let i = choose|i: int| 0 <= i < o.len() && o[i] == u;
            if i < open.len() {
                assert(open[i] == u);
            }
        }
        if open.contains(u) {
            let i = choose|i: int| 0 <= i < open.len() && open[i] == u;
            assert(o[i] == u);
        }
        if u == at {
            assert(o[open.len() as int] == u);
        }
    }
}

proof fn lemma_nones_set(s: Seq<Option<u32>>, k: int, v: u32)
    requires
        0 <= k < s.len(),
    ensures
        nones(s.update(k, Some(v))) == nones(s) - (if s[k] is None { 1int } else { 0int }),
    decreases s.len(),
{
    let t = s.update(k, Some(v));
    if k < s.len() - 1 {
        assert(t.drop_last() =~= s.drop_last().update(k, Some(v)));
        lemma_nones_set(s.drop_last(), k, v);
    } else {
        assert(t.drop_last() =~= s.drop_last());
    }
}

proof fn lemma_nones_nonneg(s: Seq<Option<u32>>)
    ensures
        nones(s) >= 0,
    decreases s.len(),
{
    if s.len() > 0 {
        lemma_nones_nonneg(s.drop_last());
    }
}

proof fn lemma_fin_bound(s: Seq<Option<u32>>, open: Seq<usize>, k: int)
    requires
        k >= 0,
    ensures
        0 <= fin_count(s, open, k) <= k,
    decreases k,
{
    if k > 0 {
        lemma_fin_bound(s, open, k - 1);
    }
}

proof fn lemma_fin_mono(s: Seq<Option<u32>>, t: Seq<Option<u32>>, open: Seq<usize>, k: int)
    requires
        forall|u: usize| #[trigger] finished(s, open, u) ==> finished(t, open, u),
    ensures
        fin_count(s, open, k) <= fin_count(t, open, k),
    decreases k,
{
    if k > 0 {
        lemma_fin_mono(s, t, open, k - 1);
        assert(finished(s, open, (k - 1) as usize) ==> finished(t, open, (k - 1) as usize));
    }
}

proof fn lemma_fin_same(s: Seq<Option<u32>>, open: Seq<usize>, t: Seq<Option<u32>>, open2: Seq<usize>, k: int)
    requires
        forall|u: usize| #[trigger] finished(t, open2, u) <==> finished(s, open, u),
    ensures
        fin_count(t, open2, k) == fin_count(s, open, k),
    decreases k,
{
    if k > 0 {
        lemma_fin_same(s, open, t, open2, k - 1);
        assert(finished(t, open2, (k - 1) as usize) == finished(s, open, (k - 1) as usize));
    }
}

proof fn lemma_fin_close(s1: Seq<Option<u32>>, open2: Seq<usize>, s2: Seq<Option<u32>>, open: Seq<usize>, at: usize, k: int)
    requires
        forall|u: usize| u != at ==> (#[trigger] finished(s2, open, u) == finished(s1, open2, u)),
        !finished(s1, open2, at),
        finished(s2, open, at),
        0 <= k <= usize::MAX,
    ensures
        fin_count(s2, open, k) == fin_count(s1, open2, k) + (if at < k { 1int } else { 0int }),
    decreases k,
{
    if k > 0 {
        lemma_fin_close(s1, open2, s2, open, at, k - 1);
        let u = (k - 1) as usize;
        assert(u as int == k - 1);
        if u != at {
            assert(finished(s2, open, u) == finished(s1, open2, u));
        } else {
            assert(at < k);
        }
    }
}

proof fn lemma_path_tail(leans: Seq<Vec<usize>>, p: Seq<usize>, i: int)
    requires
        lean_path(leans, p),
        0 <= i < p.len(),
    ensures
        leads(leans, p[i], p.last()),
{
    let q = p.subrange(i, p.len() as int);
    assert forall|j: int| #![trigger q[j]] 0 <= j < q.len() - 1 implies leans[q[j] as int]@.contains(q[j + 1]) by {
        assert(q[j] == p[i + j] && q[j + 1] == p[i + j + 1]);
    }
    assert(lean_path(leans, q));
    assert(q[0] == p[i] && q.last() == p.last());
}


/// Which unit holds a definition: the last that does.
#[verifier::opaque]
pub open spec fn unit_in(units: Seq<Vec<Identity>>, x: Identity) -> Option<int> {
    if exists|u: int| #[trigger] last_holding(units, x, u) {
        Some(choose|u: int| #[trigger] last_holding(units, x, u))
    } else {
        None
    }
}

/// Unit `u` holds `x`, and no later one does.
pub open spec fn last_holding(units: Seq<Vec<Identity>>, x: Identity, u: int) -> bool {
    &&& 0 <= u < units.len()
    &&& units[u]@.contains(x)
    &&& forall|w: int| u < w < units.len() ==> !(#[trigger] units[w])@.contains(x)
}

/// Unit `u` leans on unit `v`: some edge runs from something in one to something in the other.
pub open spec fn unit_leans(units: Seq<Vec<Identity>>, edges: Seq<Edge>, u: int, v: int) -> bool {
    &&& u != v
    &&& exists|e: int| 0 <= e < edges.len() && unit_in(units, (#[trigger] edges[e]).from) == Some(u) && unit_in(units, edges[e].to) == Some(v)
}

/// A way through units, each leaning on the next.
pub open spec fn unit_path(units: Seq<Vec<Identity>>, edges: Seq<Edge>, p: Seq<usize>) -> bool {
    &&& p.len() >= 1
    &&& forall|i: int| #![trigger p[i]] 0 <= i < p.len() - 1 ==> unit_leans(units, edges, p[i] as int, p[i + 1] as int)
}

/// Some way through units runs from `v` to `u`: they sit on a cycle when `u` also leans on `v`.
pub open spec fn unit_leads(units: Seq<Vec<Identity>>, edges: Seq<Edge>, v: int, u: int) -> bool {
    exists|p: Seq<usize>| #[trigger] unit_path(units, edges, p) && p[0] == v && p.last() == u
}

/// Which unit holds a definition: the last that does.
fn unit_of(units: &Vec<Vec<Identity>>, x: Identity) -> (r: Option<usize>)
    ensures
        r matches Some(u) ==> unit_in(units@, x) == Some(u as int),
        r is None ==> unit_in(units@, x) is None,
{
    reveal(unit_in);
    let mut u = units.len();
    while u > 0
        invariant
            u <= units@.len(),
            forall|w: int| u <= w < units@.len() ==> !(#[trigger] units@[w])@.contains(x),
        decreases u,
    {
        u = u - 1;
        if crate::review::holds(&units[u], x) {
            proof {
                assert(last_holding(units@, x, u as int));
                let c = choose|c: int| #[trigger] last_holding(units@, x, c);
                if c < u {
                    assert(units@[u as int]@.contains(x));
                }
                if c > u {
                    assert(units@[c]@.contains(x));
                }
                assert(c == u);
                reveal(unit_in);
                assert(unit_in(units@, x) == Some(c));
            }
            return Some(u);
        }
    }
    None
}

proof fn lemma_unit_in_range(units: Seq<Vec<Identity>>, x: Identity)
    ensures
        unit_in(units, x) matches Some(u) ==> 0 <= u < units.len(),
{
    reveal(unit_in);
}

/// A dependency between two units, as their places. Nothing when either end is in no
/// unit, or both ends are in the same one.
pub fn placed(units: &Vec<Vec<Identity>>, from: Identity, to: Identity) -> (r: Option<(usize, usize)>)
    ensures
        r matches Some((a, b)) ==> unit_in(units@, from) == Some(a as int) && unit_in(units@, to) == Some(b as int) && a != b,
        r is None ==> !(unit_in(units@, from) is Some && unit_in(units@, to) is Some && unit_in(units@, from) != unit_in(units@, to)),
{
    match (unit_of(units, from), unit_of(units, to)) {
        (Some(a), Some(b)) => if a != b { Some((a, b)) } else { None },
        _ => None,
    }
}

proof fn lemma_path_units(leans: Seq<Vec<usize>>, units: Seq<Vec<Identity>>, edges: Seq<Edge>, p: Seq<usize>)
    requires
        lean_path(leans, p),
        p[0] < leans.len(),
        leans.len() == units.len(),
        forall|u: int, i: int| 0 <= u < leans.len() && 0 <= i < leans[u]@.len() ==> #[trigger] leans[u]@[i] < leans.len(),
        forall|u: usize, v: usize| u < leans.len() && v < leans.len() ==> (#[trigger] leans[u as int]@.contains(v) <==> unit_leans(units, edges, u as int, v as int)),
    ensures
        unit_path(units, edges, p),
{
    assert forall|i: int| 0 <= i < p.len() implies #[trigger] p[i] < leans.len() by {
        lemma_path_in(leans, p, i);
    }
    assert forall|i: int| #![trigger p[i]] 0 <= i < p.len() - 1 implies unit_leans(units, edges, p[i] as int, p[i + 1] as int) by {
        assert(p[i] < leans.len() && p[i + 1] < leans.len());
        assert(leans[p[i] as int]@.contains(p[i + 1]));
    }
}

proof fn lemma_path_in(leans: Seq<Vec<usize>>, p: Seq<usize>, i: int)
    requires
        lean_path(leans, p),
        p[0] < leans.len(),
        forall|u: int, k: int| 0 <= u < leans.len() && 0 <= k < leans[u]@.len() ==> #[trigger] leans[u]@[k] < leans.len(),
        0 <= i < p.len(),
    ensures
        p[i] < leans.len(),
    decreases i,
{
    if i > 0 {
        lemma_path_in(leans, p, i - 1);
        let row = leans[p[i - 1] as int]@;
        assert(row.contains(p[i]));
        let k = choose|k: int| 0 <= k < row.len() && #[trigger] row[k] == p[i];
        assert(row[k] < leans.len());
    }
}

/// Which units lean on which, each list rising: `r[u]` holds `v` when some edge runs from
/// something in unit `u` to something in another unit `v`.
fn unit_relation(units: &Vec<Vec<Identity>>, edges: &Vec<Edge>) -> (r: Vec<Vec<usize>>)
    ensures
        r@.len() == units@.len(),
        forall|a: int| 0 <= a < r@.len() ==> #[trigger] rising(r@[a]@),
        forall|a: int, i: int| 0 <= a < r@.len() && 0 <= i < r@[a]@.len() ==> #[trigger] r@[a]@[i] < r@.len(),
        forall|a: usize, b: usize| a < r@.len() && b < r@.len() ==> (#[trigger] r@[a as int]@.contains(b) <==> unit_leans(units@, edges@, a as int, b as int)),
{
    let n = units.len();
    let mut leans: Vec<Vec<usize>> = Vec::new();
    for i in 0..n
        invariant
            leans@.len() == i,
            forall|a: int| 0 <= a < i ==> (#[trigger] leans@[a])@.len() == 0,
    {
        leans.push(Vec::new());
    }
    for k in 0..edges.len()
        invariant
            n == units@.len(),
            leans@.len() == n,
            forall|a: int| 0 <= a < n ==> #[trigger] rising(leans@[a]@),
            forall|a: int, i: int| 0 <= a < n && 0 <= i < leans@[a]@.len() ==> #[trigger] leans@[a]@[i] < n,
            forall|a: usize, b: usize| a < n && b < n ==> (#[trigger] leans@[a as int]@.contains(b) <==> leans_upto(units@, edges@, a as int, b as int, k as int)),
    {
        let ghost l0 = leans@;
        match placed(units, edges[k].from, edges[k].to) {
            Some((a, b)) => {
                proof {
                    lemma_unit_in_range(units@, edges@[k as int].from);
                    lemma_unit_in_range(units@, edges@[k as int].to);
                    assert(rising(leans@[a as int]@));
                }
                add_place(&mut leans[a], b);
                proof {
                    assert forall|x: int| 0 <= x < n implies #[trigger] rising(leans@[x]@) by {
                        if x != a as int {
                            assert(leans@[x] == l0[x]);
                        }
                    }
                    assert forall|x: int, i: int| 0 <= x < n && 0 <= i < leans@[x]@.len() implies #[trigger] leans@[x]@[i] < n by {
                        if x != a as int {
                            assert(leans@[x] == l0[x]);
                        } else {
                            assert(leans@[x]@.contains(leans@[x]@[i]));
                            if l0[x]@.contains(leans@[x]@[i]) {
                                let j = choose|j: int| 0 <= j < l0[x]@.len() && l0[x]@[j] == leans@[x]@[i];
                                assert(l0[x]@[j] < n);
                            }
                        }
                    }
                    assert forall|p: usize, q: usize| p < n && q < n implies (#[trigger] leans@[p as int]@.contains(q) <==> leans_upto(units@, edges@, p as int, q as int, k + 1)) by {
                        if p != a {
                            assert(leans@[p as int] == l0[p as int]);
                        }
                        lemma_upto_step(units@, edges@, p as int, q as int, k as int);
                    }
                }
            },
            None => {
                proof {
                    assert forall|p: usize, q: usize| p < n && q < n implies (#[trigger] leans@[p as int]@.contains(q) <==> leans_upto(units@, edges@, p as int, q as int, k + 1)) by {
                        lemma_upto_step(units@, edges@, p as int, q as int, k as int);
                    }
                }
            },
        }
    }
    proof {
        assert forall|a: usize, b: usize| a < n && b < n implies (#[trigger] leans@[a as int]@.contains(b) <==> unit_leans(units@, edges@, a as int, b as int)) by {
            if leans_upto(units@, edges@, a as int, b as int, edges@.len() as int) {
                let e = choose|e: int| 0 <= e < edges@.len() && #[trigger] edge_between(units@, edges@[e], a as int, b as int);
                assert(unit_in(units@, edges@[e].from) == Some(a as int));
            }
            if unit_leans(units@, edges@, a as int, b as int) {
                let e = choose|e: int| 0 <= e < edges@.len() && unit_in(units@, (#[trigger] edges@[e]).from) == Some(a as int) && unit_in(units@, edges@[e].to) == Some(b as int);
                assert(edge_between(units@, edges@[e], a as int, b as int));
            }
        }
    }
    leans
}

/// The edge runs from unit `u` to another unit `v`.
pub open spec fn edge_between(units: Seq<Vec<Identity>>, e: Edge, u: int, v: int) -> bool {
    u != v && unit_in(units, e.from) == Some(u) && unit_in(units, e.to) == Some(v)
}

/// One of the first `k` edges runs from unit `u` to another unit `v`.
pub open spec fn leans_upto(units: Seq<Vec<Identity>>, edges: Seq<Edge>, u: int, v: int, k: int) -> bool {
    exists|e: int| 0 <= e < k && #[trigger] edge_between(units, edges[e], u, v)
}

proof fn lemma_upto_step(units: Seq<Vec<Identity>>, edges: Seq<Edge>, u: int, v: int, k: int)
    requires
        0 <= k < edges.len(),
    ensures
        leans_upto(units, edges, u, v, k + 1) == (leans_upto(units, edges, u, v, k) || edge_between(units, edges[k], u, v)),
{
    if leans_upto(units, edges, u, v, k + 1) && !edge_between(units, edges[k], u, v) {
        let e = choose|e: int| 0 <= e < k + 1 && #[trigger] edge_between(units, edges[e], u, v);
        assert(e < k);
    }
}

/// Every unit's depth, visiting units in order.
#[verifier::rlimit(40)]
fn depths(leans: &Vec<Vec<usize>>) -> (t: Vec<u32>)
    requires
        leans@.len() < u32::MAX,
        forall|a: int, i: int| 0 <= a < leans@.len() && 0 <= i < leans@[a]@.len() ==> #[trigger] leans@[a]@[i] < leans@.len(),
        forall|a: int| 0 <= a < leans@.len() ==> !(#[trigger] leans@[a]@).contains(a as usize),
    ensures
        t@.len() == leans@.len(),
        exists|seen: Seq<Option<u32>>|
            #[trigger] good(leans@, seen, Seq::empty()) && seen.len() == leans@.len() && forall|a: int| 0 <= a < leans@.len() ==> #[trigger] seen[a] == Some(t@[a]),
{
    let n = leans.len();
    let mut seen: Vec<Option<u32>> = Vec::new();
    for i in 0..n
        invariant
            seen@.len() == i,
            forall|a: int| 0 <= a < i ==> (#[trigger] seen@[a]) is None,
    {
        seen.push(None);
    }
    let ghost none: Seq<usize> = Seq::empty();
    proof {
        lemma_fin_bound(seen@, none, n as int);
    }
    let mut t: Vec<u32> = Vec::new();
    for u in 0..n
        invariant
            n == leans@.len(),
            n < u32::MAX,
            none == Seq::<usize>::empty(),
            seen@.len() == n,
            forall|a: int, i: int| 0 <= a < n && 0 <= i < leans@[a]@.len() ==> #[trigger] leans@[a]@[i] < n,
            forall|a: int| 0 <= a < n ==> !(#[trigger] leans@[a]@).contains(a as usize),
            good(leans@, seen@, none),
            t@.len() == u,
            forall|a: int| 0 <= a < u ==> (#[trigger] seen@[a]) == Some(t@[a]),
    {
        let ghost before = seen@;
        let d = depth(u, leans, &mut seen, Ghost(none));
        proof {
            assert forall|a: int| 0 <= a < u implies (#[trigger] seen@[a]) == Some(t@[a]) by {
                assert(before[a] is Some);
            }
            assert(!none.contains(u));
        }
        t.push(d);
    }
    t
}

/// Zero for a unit that depends on nothing else here, else one more than its deepest
/// dependency. A cycle has no right answer, so it's settled by whichever unit is visited
/// first: a unit may sit no higher than something it leans on only where that leads back
/// to it.
fn tiers(units: &Vec<Vec<Identity>>, edges: &Vec<Edge>) -> (t: Vec<u32>)
    requires
        units@.len() < u32::MAX,
    ensures
        t@.len() == units@.len(),
        forall|u: int| 0 <= u < t@.len() ==> (#[trigger] t@[u] == 0 <==> forall|v: int| 0 <= v < units@.len() ==> !unit_leans(units@, edges@, u, v)),
        forall|u: int, v: int|
            0 <= u < t@.len() && 0 <= v < t@.len() && #[trigger] unit_leans(units@, edges@, u, v) ==> t@[u] > t@[v] || unit_leads(units@, edges@, v, u),
        forall|u: int|
            0 <= u < t@.len() && (exists|v: int| 0 <= v < t@.len() && #[trigger] unit_leans(units@, edges@, u, v)) ==> #[trigger] t@[u] == 1 || exists|v: int|
                0 <= v < t@.len() && #[trigger] unit_leans(units@, edges@, u, v) && t@[u] == t@[v] + 1,
{
    let leans = unit_relation(units, edges);
    proof {
        assert forall|a: int| 0 <= a < leans@.len() implies !(#[trigger] leans@[a]@).contains(a as usize) by {}
    }
    let t = depths(&leans);
    proof {
        let n = units@.len() as int;
        let seen = choose|seen: Seq<Option<u32>>|
            #[trigger] good(leans@, seen, Seq::empty()) && seen.len() == leans@.len() && forall|a: int| 0 <= a < leans@.len() ==> #[trigger] seen[a] == Some(t@[a]);
        let none = Seq::<usize>::empty();
        assert forall|u: int| 0 <= u < n implies #[trigger] finished(seen, none, u as usize) by {
            assert(seen[u] == Some(t@[u]));
        }
        assert forall|u: int| 0 <= u < t@.len() implies (#[trigger] t@[u] == 0 <==> forall|v: int| 0 <= v < units@.len() ==> !unit_leans(units@, edges@, u, v)) by {
            assert(finished(seen, none, u as usize));
            assert(val(seen, u as usize) == t@[u]);
            if leans@[u]@.len() > 0 {
                let v = leans@[u]@[0];
                assert(leans@[u]@.contains(v));
                assert(unit_leans(units@, edges@, u, v as int));
            } else {
                assert forall|v: int| 0 <= v < units@.len() implies !unit_leans(units@, edges@, u, v) by {
                    if unit_leans(units@, edges@, u, v) {
                        assert(leans@[u]@.contains(v as usize));
                    }
                }
            }
        }
        assert forall|u: int, v: int|
            0 <= u < t@.len() && 0 <= v < t@.len() && #[trigger] unit_leans(units@, edges@, u, v) implies t@[u] > t@[v] || unit_leads(units@, edges@, v, u) by {
            assert(leans@[u]@.contains(v as usize));
            assert(finished(seen, none, u as usize));
            assert(val(seen, u as usize) == t@[u] && val(seen, v as usize) == t@[v]);
            if leads(leans@, v as usize, u as usize) {
                let p = choose|p: Seq<usize>| #[trigger] lean_path(leans@, p) && p[0] == v as usize && p.last() == u as usize;
                lemma_path_units(leans@, units@, edges@, p);
            }
        }
        assert forall|u: int|
            0 <= u < t@.len() && (exists|v: int| 0 <= v < t@.len() && #[trigger] unit_leans(units@, edges@, u, v)) implies #[trigger] t@[u] == 1 || exists|v: int|
                0 <= v < t@.len() && #[trigger] unit_leans(units@, edges@, u, v) && t@[u] == t@[v] + 1 by {
            let w = choose|v: int| 0 <= v < t@.len() && #[trigger] unit_leans(units@, edges@, u, v);
            assert(leans@[u]@.contains(w as usize));
            assert(finished(seen, none, u as usize));
            assert(val(seen, u as usize) == t@[u]);
            if t@[u] != 1 {
                let v = choose|v: usize| #[trigger] leans@[u]@.contains(v) && finished(seen, none, v) && val(seen, u as usize) == val(seen, v) + 1;
                let k = choose|k: int| 0 <= k < leans@[u]@.len() && leans@[u]@[k] == v;
                assert(v < n);
                assert(val(seen, v) == t@[v as int]);
                assert(unit_leans(units@, edges@, u, v as int));
            }
        }
    }
    t
}


// ---------------------------------------------------------------------------------------
// Arranging what a holder holds.

/// The step that reads `x`: the last one naming it.
pub open spec fn first_at(steps: Seq<Step>, x: Identity) -> Option<int> {
    if exists|i: int| #[trigger] last_step(steps, x, i) {
        Some(choose|i: int| #[trigger] last_step(steps, x, i))
    } else {
        None
    }
}

/// Step `i` reads `x`, and no later step does.
pub open spec fn last_step(steps: Seq<Step>, x: Identity, i: int) -> bool {
    &&& 0 <= i < steps.len()
    &&& steps[i].definition == x
    &&& forall|j: int| i < j < steps.len() ==> (#[trigger] steps[j]).definition != x
}

/// How soon any of `members` is read: the earliest step reading one, or the largest
/// number there is when none is read.
pub open spec fn soonest(steps: Seq<Step>, members: Seq<Identity>) -> int
    decreases members.len(),
{
    if members.len() == 0 {
        usize::MAX as int
    } else {
        let rest = soonest(steps, members.drop_last());
        match first_at(steps, members.last()) {
            Some(i) => if i < rest { i } else { rest },
            None => rest,
        }
    }
}

/// The step that reads `x`.
fn step_of(steps: &Vec<Step>, x: Identity) -> (r: Option<usize>)
    ensures
        r matches Some(i) ==> first_at(steps@, x) == Some(i as int),
        r is None ==> first_at(steps@, x) is None,
{
    let mut i = steps.len();
    while i > 0
        invariant
            i <= steps@.len(),
            forall|j: int| i <= j < steps@.len() ==> (#[trigger] steps@[j]).definition != x,
        decreases i,
    {
        i = i - 1;
        if steps[i].definition == x {
            proof {
                assert(last_step(steps@, x, i as int));
                let c = choose|c: int| #[trigger] last_step(steps@, x, c);
                if c < i {
                    assert(steps@[i as int].definition == x);
                }
                if c > i {
                    assert(steps@[c].definition == x);
                }
            }
            return Some(i);
        }
    }
    None
}

/// How soon any of `members` is read.
fn soonest_of(steps: &Vec<Step>, members: &Vec<Identity>) -> (r: usize)
    ensures
        r == soonest(steps@, members@),
{
    let mut r: usize = usize::MAX;
    for k in 0..members.len()
        invariant
            r == soonest(steps@, members@.subrange(0, k as int)),
    {
        assert(members@.subrange(0, k + 1).drop_last() =~= members@.subrange(0, k as int));
        match step_of(steps, members[k]) {
            Some(i) => {
                if i < r {
                    r = i;
                }
            },
            None => {},
        }
    }
    assert(members@.subrange(0, members@.len() as int) =~= members@);
    r
}

/// Where a group or node sits among its siblings: by tier, then by how soon it is read.
pub open spec fn key_le(a: (u32, usize), b: (u32, usize)) -> bool {
    a.0 < b.0 || (a.0 == b.0 && a.1 <= b.1)
}

/// `idx` lists each place below `n` exactly once.
pub open spec fn permutes(idx: Seq<int>, n: int) -> bool {
    &&& idx.len() == n
    &&& forall|k: int| 0 <= k < n ==> 0 <= #[trigger] idx[k] < n
    &&& forall|k: int, l: int| 0 <= k < l < n ==> #[trigger] idx[k] != #[trigger] idx[l]
}

/// A group set on a tier.
pub open spec fn on_tier(g: Group, tier: u32) -> Group {
    match g {
        Group::Group { name, children, .. } => Group::Group { name, tier, children },
        Group::Node { id, .. } => Group::Node { id, tier },
    }
}

/// Tiers that the count of what leans on what among some units bears out.
pub open spec fn tiers_hold(units: Seq<Vec<Identity>>, edges: Seq<Edge>, t: Seq<u32>) -> bool {
    &&& t.len() == units.len()
    &&& forall|u: int| 0 <= u < t.len() ==> (#[trigger] t[u] == 0 <==> forall|v: int| 0 <= v < units.len() ==> !unit_leans(units, edges, u, v))
    &&& forall|u: int, v: int|
        0 <= u < t.len() && 0 <= v < t.len() && #[trigger] unit_leans(units, edges, u, v) ==> t[u] > t[v] || unit_leads(units, edges, v, u)
    &&& forall|u: int|
        0 <= u < t.len() && (exists|v: int| 0 <= v < t.len() && #[trigger] unit_leans(units, edges, u, v)) ==> #[trigger] t[u] == 1 || exists|v: int|
            0 <= v < t.len() && #[trigger] unit_leans(units, edges, u, v) && t[u] == t[v] + 1
}

/// `r` is `held` on the given tiers, sorted by tier and then by how soon each is read,
/// keeping the order given where both are the same.
pub open spec fn sorted_as(held: Seq<Group>, t: Seq<u32>, soon: Seq<usize>, r: Seq<Group>, idx: Seq<int>) -> bool {
    &&& permutes(idx, held.len() as int)
    &&& r.len() == held.len()
    &&& forall|k: int| 0 <= k < r.len() ==> #[trigger] r[k] == on_tier(held[idx[k]], t[idx[k]])
    &&& forall|k: int, l: int| 0 <= k < l < r.len() ==> key_le((t[#[trigger] idx[k]], soon[idx[k]]), (t[#[trigger] idx[l]], soon[idx[l]]))
    &&& forall|k: int, l: int|
        0 <= k < l < r.len() && (t[idx[k]], soon[idx[k]]) == (t[idx[l]], soon[idx[l]]) ==> #[trigger] idx[k] < #[trigger] idx[l]
}

/// Whatever is arranged sits in tiers ascending, and along a tier in reading order: of two
/// things side by side, the first is on a lower tier, or on the same one and read no later.
pub proof fn lemma_arranged_in_order(held: Seq<Group>, edges: Seq<Edge>, steps: Seq<Step>, r: Seq<Group>)
    requires
        arranged_as(held, edges, steps, r),
    ensures
        forall|k: int, l: int|
            0 <= k < l < r.len() ==> (#[trigger] r[k]).tier_spec() < (#[trigger] r[l]).tier_spec() || (r[k].tier_spec()
                == r[l].tier_spec() && soonest(steps, within(r[k])) <= soonest(steps, within(r[l]))),
{
    let (units, t, soon, idx) = choose|units: Seq<Vec<Identity>>, t: Seq<u32>, soon: Seq<usize>, idx: Seq<int>|
        #[trigger] tiers_hold(units, edges, t) && #[trigger] sorted_as(held, t, soon, r, idx) && units.len() == held.len()
            && soon.len() == held.len() && (forall|k: int| 0 <= k < held.len() ==> (#[trigger] units[k])@ == within(held[k]))
            && (forall|k: int| 0 <= k < held.len() ==> #[trigger] soon[k] == soonest(steps, within(held[k])));
    assert forall|k: int, l: int| 0 <= k < l < r.len() implies (#[trigger] r[k]).tier_spec() < (#[trigger] r[l]).tier_spec() || (
    r[k].tier_spec() == r[l].tier_spec() && soonest(steps, within(r[k])) <= soonest(steps, within(r[l]))) by {
        let a = idx[k];
        let b = idx[l];
        assert(0 <= a < held.len() && 0 <= b < held.len());
        assert(r[k] == on_tier(held[a], t[a]));
        assert(r[l] == on_tier(held[b], t[b]));
        assert(key_le((t[a], soon[a]), (t[b], soon[b])));
        assert(within(r[k]) == within(held[a]));
        assert(within(r[l]) == within(held[b]));
        assert(soon[a] == soonest(steps, within(held[a])));
        assert(soon[b] == soonest(steps, within(held[b])));
    }
}

/// Fills in tiers and sorts by tier, then reading order, keeping the order given where
/// both are the same. A box counts as one thing that depends on whatever its contents
/// depend on outside it.
#[verifier::spinoff_prover]
#[verifier::rlimit(40)]
fn arranged(held: Vec<Group>, edges: &Vec<Edge>, steps: &Vec<Step>) -> (r: Vec<Group>)
    requires
        held@.len() < u32::MAX,
    ensures
        exists|units: Seq<Vec<Identity>>, t: Seq<u32>, soon: Seq<usize>, idx: Seq<int>|
            #[trigger] tiers_hold(units, edges@, t) && #[trigger] sorted_as(held@, t, soon, r@, idx) && units.len() == held@.len()
                && soon.len() == held@.len() && (forall|k: int| 0 <= k < held@.len() ==> (#[trigger] units[k])@ == within(held@[k]))
                && (forall|k: int| 0 <= k < held@.len() ==> #[trigger] soon[k] == soonest(steps@, within(held@[k]))),
{
    let ghost original = held@;
    let n = held.len();
    let mut units: Vec<Vec<Identity>> = Vec::new();
    let mut soon: Vec<usize> = Vec::new();
    for i in 0..n
        invariant
            n == held@.len(),
            units@.len() == i,
            soon@.len() == i,
            forall|k: int| 0 <= k < i ==> (#[trigger] units@[k])@ == within(held@[k]),
            forall|k: int| 0 <= k < i ==> (#[trigger] soon@[k]) == soonest(steps@, within(held@[k])),
    {
        let members = held[i].within();
        soon.push(soonest_of(steps, &members));
        units.push(members);
    }
    let t = tiers(&units, edges);
    let mut rest = held;
    let mut out: Vec<Group> = Vec::new();
    let mut keys: Vec<(u32, usize)> = Vec::new();
    let ghost mut idx: Seq<int> = Seq::empty();
    let mut i = n;
    while i > 0
        invariant
            n == original.len(),
            t@.len() == n,
            soon@.len() == n,
            i <= n,
            rest@ == original.subrange(0, i as int),
            out@.len() == n - i,
            keys@.len() == n - i,
            idx.len() == n - i,
            forall|k: int| 0 <= k < idx.len() ==> i <= #[trigger] idx[k] < n,
            forall|k: int, l: int| 0 <= k < l < idx.len() ==> #[trigger] idx[k] != #[trigger] idx[l],
            forall|k: int| 0 <= k < keys@.len() ==> #[trigger] keys@[k] == (t@[idx[k]], soon@[idx[k]]),
            forall|k: int| 0 <= k < out@.len() ==> #[trigger] out@[k] == on_tier(original[idx[k]], t@[idx[k]]),
            forall|k: int, l: int| 0 <= k < l < keys@.len() ==> key_le(#[trigger] keys@[k], #[trigger] keys@[l]),
            forall|k: int, l: int| 0 <= k < l < keys@.len() && keys@[k] == keys@[l] ==> #[trigger] idx[k] < #[trigger] idx[l],
        decreases i,
    {
        i = i - 1;
        let g = rest.pop().unwrap();
        let key = (t[i], soon[i]);
        let mut p: usize = 0;
        while p < keys.len() && (keys[p].0 < key.0 || (keys[p].0 == key.0 && keys[p].1 < key.1))
            invariant
                p <= keys@.len(),
                forall|k: int| 0 <= k < p ==> !key_le(key, #[trigger] keys@[k]),
            decreases keys@.len() - p,
        {
            p = p + 1;
        }
        let ghost k0 = keys@;
        let ghost o0 = out@;
        let ghost i0 = idx;
        out.insert(p, g.on(t[i]));
        keys.insert(p, key);
        proof {
            idx = idx.insert(p as int, i as int);
            k0.insert_ensures(p as int, key);
            i0.insert_ensures(p as int, i as int);
            o0.insert_ensures(p as int, on_tier(original[i as int], t@[i as int]));
            assert(g == original[i as int]);
            assert forall|k: int| 0 <= k < idx.len() implies i <= #[trigger] idx[k] < n by {
                if k > p as int {
                    assert(idx[k] == i0[k - 1]);
                }
            }
            assert forall|k: int, l: int| 0 <= k < l < idx.len() implies #[trigger] idx[k] != #[trigger] idx[l] by {
                if k > p as int {
                    assert(idx[k] == i0[k - 1]);
                }
                if l > p as int {
                    assert(idx[l] == i0[l - 1]);
                }
            }
            assert forall|k: int| 0 <= k < keys@.len() implies #[trigger] keys@[k] == (t@[idx[k]], soon@[idx[k]]) by {
                if k > p as int {
                    assert(keys@[k] == k0[k - 1] && idx[k] == i0[k - 1]);
                }
            }
            assert forall|k: int| 0 <= k < out@.len() implies #[trigger] out@[k] == on_tier(original[idx[k]], t@[idx[k]]) by {
                if k > p as int {
                    assert(out@[k] == o0[k - 1] && idx[k] == i0[k - 1]);
                }
            }
            assert forall|k: int, l: int| 0 <= k < l < keys@.len() implies key_le(#[trigger] keys@[k], #[trigger] keys@[l]) by {
                if l < p as int {
                } else if k < p as int && l == p as int {
                    assert(!key_le(key, k0[k]));
                } else if k < p as int {
                    assert(keys@[l] == k0[l - 1]);
                    assert(!key_le(key, k0[k]));
                    if p < k0.len() {
                        assert(key_le(key, k0[p as int]));
                        if l - 1 > p as int {
                            assert(key_le(k0[p as int], k0[l - 1]));
                        }
                    }
                } else if k == p as int {
                    assert(keys@[l] == k0[l - 1]);
                    if p < k0.len() {
                        if l - 1 > p as int {
                            assert(key_le(k0[p as int], k0[l - 1]));
                        }
                    }
                } else {
                    assert(keys@[k] == k0[k - 1] && keys@[l] == k0[l - 1]);
                }
            }
            assert forall|k: int, l: int| 0 <= k < l < keys@.len() && keys@[k] == keys@[l] implies #[trigger] idx[k] < #[trigger] idx[l] by {
                if l < p as int {
                } else if k < p as int && l == p as int {
                    assert(!key_le(key, k0[k]));
                } else if k < p as int {
                    assert(keys@[l] == k0[l - 1]);
                    assert(!key_le(key, k0[k]));
                    if p < k0.len() {
                        assert(key_le(key, k0[p as int]));
                        if l - 1 > p as int {
                            assert(key_le(k0[p as int], k0[l - 1]));
                        }
                    }
                } else if k == p as int {
                    assert(idx[l] == i0[l - 1]);
                } else {
                    assert(keys@[k] == k0[k - 1] && keys@[l] == k0[l - 1]);
                    assert(idx[k] == i0[k - 1] && idx[l] == i0[l - 1]);
                }
            }
            assert(rest@ =~= original.subrange(0, i as int));
        }
    }
    proof {
        let sn = soon@;
        assert(sorted_as(original, t@, sn, out@, idx));
        assert(tiers_hold(units@, edges@, t@));
    }
    out
}


// ---------------------------------------------------------------------------------------
// Nesting.

/// What a definition holds: the identities of the definitions whose parent it is, in order.
pub open spec fn held_by(defs: Seq<(Identity, Definition)>, up: Identity) -> Seq<Identity>
    decreases defs.len(),
{
    if defs.len() == 0 {
        Seq::empty()
    } else {
        let rest = held_by(defs.drop_last(), up);
        if defs.last().1.parent == Some(up) {
            rest.push(defs.last().0)
        } else {
            rest
        }
    }
}

proof fn lemma_held_by(defs: Seq<(Identity, Definition)>, up: Identity)
    ensures
        held_by(defs, up).len() <= defs.len(),
        forall|x: Identity| #[trigger] held_by(defs, up).contains(x) ==> keys_of(defs).contains(x),
    decreases defs.len(),
{
    if defs.len() > 0 {
        let rest = defs.drop_last();
        lemma_held_by(rest, up);
        assert forall|x: Identity| #[trigger] held_by(defs, up).contains(x) implies keys_of(defs).contains(x) by {
            let h = held_by(defs, up);
            let j = choose|j: int| 0 <= j < h.len() && h[j] == x;
            if j < held_by(rest, up).len() {
                assert(held_by(rest, up)[j] == x);
                assert(held_by(rest, up).contains(x));
                let m = choose|m: int| 0 <= m < keys_of(rest).len() && keys_of(rest)[m] == x;
                assert(keys_of(defs)[m] == x);
            } else {
                assert(keys_of(defs)[defs.len() - 1] == x);
            }
        }
    }
}

/// The name the box of `id` is drawn with: the newest name of the first definition with
/// that identity from `i` on, nothing where there is none.
pub open spec fn box_name(defs: Seq<(Identity, Definition)>, id: Identity, i: int) -> Seq<char>
    decreases defs.len() - i,
{
    if i < 0 || i >= defs.len() {
        Seq::empty()
    } else if defs[i].0 == id {
        defs[i].1.sides.latest_spec().locator.name@
    } else {
        box_name(defs, id, i + 1)
    }
}

/// `r` is `held` arranged: on tiers that what leans on what bears out, sorted by tier and
/// then by how soon each is read.
pub open spec fn arranged_as(held: Seq<Group>, edges: Seq<Edge>, steps: Seq<Step>, r: Seq<Group>) -> bool {
    exists|units: Seq<Vec<Identity>>, t: Seq<u32>, soon: Seq<usize>, idx: Seq<int>|
        #[trigger] tiers_hold(units, edges, t) && #[trigger] sorted_as(held, t, soon, r, idx) && units.len() == held.len()
            && soon.len() == held.len() && (forall|k: int| 0 <= k < held.len() ==> (#[trigger] units[k])@ == within(held[k]))
            && (forall|k: int| 0 <= k < held.len() ==> #[trigger] soon[k] == soonest(steps, within(held[k])))
}

/// How a definition is drawn, looking `fuel` levels down: a node when it holds nothing or
/// the fuel is out; else a box named after it, on tier zero, holding its own node first when
/// a step reads it, then each thing it holds drawn the same way, all of it arranged.
pub open spec fn built_as(
    defs: Seq<(Identity, Definition)>,
    edges: Seq<Edge>,
    steps: Seq<Step>,
    id: Identity,
    fuel: nat,
    g: Group,
) -> bool
    decreases fuel,
{
    let held = held_by(defs, id);
    if fuel == 0 || held.len() == 0 {
        g == Group::Node { id, tier: 0 }
    } else {
        let off: int = if first_at(steps, id) is Some { 1int } else { 0int };
        match g {
            Group::Group { name, tier, children } => {
                &&& name@ == box_name(defs, id, 0)
                &&& tier == 0
                &&& exists|inside: Seq<Group>|
                    #[trigger] arranged_as(inside, edges, steps, children@) && inside.len() == off + held.len()
                        && (off == 1 ==> inside[0] == Group::Node { id, tier: 0 })
                        && forall|j: int| off <= j < inside.len() ==> built_as(
                            defs, edges, steps, held[j - off], (fuel - 1) as nat, #[trigger] inside[j])
            },
            Group::Node { .. } => false,
        }
    }
}

/// The outermost definitions, those written inside nothing, in order.
pub open spec fn root_ids(defs: Seq<(Identity, Definition)>) -> Seq<Identity>
    decreases defs.len(),
{
    if defs.len() == 0 {
        Seq::empty()
    } else {
        root_ids(defs.drop_last()) + if defs.last().1.parent is None { seq![defs.last().0] } else { Seq::empty() }
    }
}

/// Of some definitions, those a grouping puts under `path`, in order.
pub open spec fn under(of: Seq<(Identity, Vec<String>)>, ids: Seq<Identity>, path: Seq<Seq<char>>) -> Seq<Identity>
    decreases ids.len(),
{
    if ids.len() == 0 {
        Seq::empty()
    } else {
        under(of, ids.drop_last(), path) + if crate::group::path_in(of, ids.last()) == path { seq![ids.last()] } else { Seq::empty() }
    }
}

/// Paths in ascending order, text by text, none twice.
pub open spec fn paths_in_order(paths: Seq<Seq<Seq<char>>>) -> bool {
    forall|a: int, b: int| 0 <= a < b < paths.len() ==> crate::checks::list_lt(#[trigger] paths[a], #[trigger] paths[b])
}

/// The paths are those the grouping gives some of these definitions.
pub open spec fn paths_cover(of: Seq<(Identity, Vec<String>)>, ids: Seq<Identity>, paths: Seq<Seq<Seq<char>>>) -> bool {
    &&& forall|q: int| 0 <= q < paths.len() ==> exists|k: int| 0 <= k < ids.len() && crate::group::path_in(of, ids[k]) == #[trigger] paths[q]
    &&& forall|k: int| 0 <= k < ids.len() ==> paths.contains(crate::group::path_in(of, #[trigger] ids[k]))
}

/// One box named after a path, its names joined with `/`, on tier zero, holding `bs`
/// arranged.
pub open spec fn boxed_as(g: Group, path: Seq<Seq<char>>, bs: Seq<Group>, edges: Seq<Edge>, steps: Seq<Step>) -> bool {
    match g {
        Group::Group { name, tier, children } => name@ == crate::text::joined(path, seq!['/']) && tier == 0 && arranged_as(
            bs,
            edges,
            steps,
            children@,
        ),
        Group::Node { .. } => false,
    }
}

/// How the outermost definitions under one path are drawn: each drawn as it nests; with
/// no path they stand on their own, else they are arranged inside one box named after the
/// path, its names joined with `/`.
pub open spec fn block_as(
    defs: Seq<(Identity, Definition)>,
    of: Seq<(Identity, Vec<String>)>,
    edges: Seq<Edge>,
    steps: Seq<Step>,
    path: Seq<Seq<char>>,
    block: Seq<Group>,
) -> bool {
    let ms = under(of, root_ids(defs), path);
    exists|bs: Seq<Group>|
        #[trigger] bs.len() == ms.len() && (forall|k: int| 0 <= k < bs.len() ==> built_as(defs, edges, steps, ms[k], defs.len() as nat, #[trigger] bs[k]))
            && if path.len() == 0 {
                block == bs
            } else {
                block.len() == 1 && boxed_as(block[0], path, bs, edges, steps)
            }
}

/// Everything drawn, as it nests: for each path the outermost definitions are grouped
/// under, in ascending order, their block; all the blocks laid end to end and arranged.
pub open spec fn laid_out(
    defs: Seq<(Identity, Definition)>,
    of: Seq<(Identity, Vec<String>)>,
    edges: Seq<Edge>,
    steps: Seq<Step>,
    r: Seq<Group>,
) -> bool {
    exists|paths: Seq<Seq<Seq<char>>>, blocks: Seq<Seq<Group>>|
        #[trigger] paths_in_order(paths) && paths_cover(of, root_ids(defs), paths) && blocks.len() == paths.len() && (forall|p: int|
            0 <= p < paths.len() ==> block_as(defs, of, edges, steps, paths[p], #[trigger] blocks[p]))
            && #[trigger] arranged_as(blocks.flatten(), edges, steps, r)
}

/// The texts of some paths, as values.
pub open spec fn path_views(paths: Seq<Vec<String>>) -> Seq<Seq<Seq<char>>> {
    paths.map_values(|p: Vec<String>| crate::text::views(p@))
}

/// What's written inside what, and which group the outermost things are in.
pub struct Shape<'a> {
    definitions: &'a Vec<(Identity, Definition)>,
    grouping: &'a Grouping,
}

/// Identities of the definitions, in order.
pub open spec fn keys_of(defs: Seq<(Identity, Definition)>) -> Seq<Identity> {
    defs.map_values(|d: (Identity, Definition)| d.0)
}

impl<'a> Shape<'a> {
    pub closed spec fn definitions_spec(&self) -> Seq<(Identity, Definition)> {
        self.definitions@
    }

    pub closed spec fn grouping_spec(&self) -> Seq<(Identity, Vec<String>)> {
        self.grouping.of@
    }

    /// The shape of these definitions, grouped by `grouping` where nothing holds them.
    pub fn new(definitions: &'a Vec<(Identity, Definition)>, grouping: &'a Grouping) -> (r: Shape<'a>)
        ensures
            r.definitions_spec() == definitions@,
            r.grouping_spec() == grouping.of@,
    {
        Shape { definitions, grouping }
    }

    /// What `up` holds, in order.
    fn children_of(&self, up: Identity) -> (r: Vec<Identity>)
        ensures
            r@ == held_by(self.definitions@, up),
            forall|x: Identity| #[trigger] r@.contains(x) ==> keys_of(self.definitions@).contains(x),
            r@.len() <= self.definitions@.len(),
    {
        let mut r: Vec<Identity> = Vec::new();
        for i in 0..self.definitions.len()
            invariant
                r@ == held_by(self.definitions@.take(i as int), up),
        {
            let ghost upto = self.definitions@.take(i + 1);
            assert(upto.drop_last() =~= self.definitions@.take(i as int));
            assert(upto.last() == self.definitions@[i as int]);
            if self.definitions[i].1.parent == Some(up) {
                r.push(self.definitions[i].0);
            }
        }
        assert(self.definitions@.take(self.definitions@.len() as int) =~= self.definitions@);
        proof {
            lemma_held_by(self.definitions@, up);
        }
        r
    }

    /// The name a definition's box is drawn with.
    fn name_of(&self, id: Identity) -> (r: String)
        ensures
            r@ == box_name(self.definitions@, id, 0),
    {
        for i in 0..self.definitions.len()
            invariant
                box_name(self.definitions@, id, 0) == box_name(self.definitions@, id, i as int),
        {
            if self.definitions[i].0 == id {
                let name = self.definitions[i].1.sides.latest().locator.name.clone();
                return name;
            }
        }
        String::new()
    }

    /// A definition, drawn: a node when it holds nothing, else a box holding its own node
    /// when there's something in it to read, and everything written inside it. A
    /// definition with nothing to read (a module nothing changed in) is only a box.
    fn build(&self, id: Identity, edges: &Vec<Edge>, steps: &Vec<Step>, fuel: usize) -> (r: Group)
        requires
            self.definitions@.len() < u32::MAX - 1,
        ensures
            r.tier_spec() == 0,
            built_as(self.definitions@, edges@, steps@, id, fuel as nat, r),
        decreases fuel,
    {
        let node = Group::Node { id, tier: 0 };
        if fuel == 0 {
            return node;
        }
        let held = self.children_of(id);
        if held.len() == 0 {
            return node;
        }
        let mut inside: Vec<Group> = Vec::new();
        let stepped = step_of(steps, id).is_some();
        let off: usize = if stepped { 1 } else { 0 };
        if stepped {
            inside.push(node);
        }
        for k in 0..held.len()
            invariant
                self.definitions@.len() < u32::MAX - 1,
                held@ == held_by(self.definitions@, id),
                held@.len() <= self.definitions@.len(),
                off == (if first_at(steps@, id) is Some { 1int } else { 0int }),
                inside@.len() == off + k,
                off == 1 ==> inside@[0] == (Group::Node { id, tier: 0 }),
                fuel > 0,
                forall|j: int| off <= j < inside@.len() ==> built_as(
                    self.definitions@, edges@, steps@, held@[j - off], (fuel - 1) as nat, #[trigger] inside@[j]),
        {
            let one = self.build(held[k], edges, steps, fuel - 1);
            inside.push(one);
        }
        let ghost before = inside@;
        let name = self.name_of(id);
        let children = arranged(inside, edges, steps);
        assert(arranged_as(before, edges@, steps@, children@));
        let r = Group::Group { name, tier: 0, children };
        assert(r matches Group::Group { children: c, .. } && c@ == children@);
        r
    }

    /// Everything drawn, as it nests: the outermost definitions of each group boxed under
    /// the group's path, those in no group beside the groups, all of it arranged by tier
    /// and reading order.
    #[verifier::spinoff_prover]
    #[verifier::rlimit(30)]
    pub fn groups(&self, edges: &Vec<Edge>, steps: &Vec<Step>) -> (r: Vec<Group>)
        requires
            self.definitions_spec().len() < u32::MAX - 1,
        ensures
            laid_out(self.definitions_spec(), self.grouping_spec(), edges@, steps@, r@),
    {
        let n = self.definitions.len();
        let ghost defs = self.definitions@;
        let ghost of = self.grouping.of@;
        // The outermost definitions, and every path they are grouped under, each once, in order.
        let mut roots: Vec<(Identity, Vec<String>)> = Vec::new();
        let mut paths: Vec<Vec<String>> = Vec::new();
        for i in 0..n
            invariant
                n == self.definitions@.len(),
                defs == self.definitions@,
                of == self.grouping.of@,
                roots@.len() <= i,
                roots@.len() == root_ids(defs.take(i as int)).len(),
                forall|j: int| 0 <= j < roots@.len() ==> (#[trigger] roots@[j]).0 == root_ids(defs.take(i as int))[j]
                    && crate::text::views(roots@[j].1@) == crate::group::path_in(of, roots@[j].0),
                distinct_paths(paths@),
                paths_in_order(path_views(paths@)),
                forall|q: int| 0 <= q < paths@.len() ==> rooted(roots@, crate::text::views(#[trigger] paths@[q]@)),
                forall|j: int| 0 <= j < roots@.len() ==> path_views(paths@).contains(crate::text::views((#[trigger] roots@[j]).1@)),
        {
            let ghost ids0 = root_ids(defs.take(i as int));
            assert(defs.take(i + 1).drop_last() =~= defs.take(i as int));
            assert(defs.take(i + 1).last() == defs[i as int]);
            if self.definitions[i].1.parent.is_none() {
                let id = self.definitions[i].0;
                let path = self.grouping.path_of(id);
                let mut there = false;
                for q in 0..paths.len()
                    invariant
                        there ==> exists|x: int| 0 <= x < paths@.len() && crate::text::views(#[trigger] paths@[x]@) == crate::text::views(path@),
                        !there ==> forall|x: int| 0 <= x < q ==> crate::text::views(#[trigger] paths@[x]@) != crate::text::views(path@),
                {
                    if crate::model::strings_eq(&paths[q], &path) {
                        there = true;
                    }
                }
                let ghost pv = crate::text::views(path@);
                if !there {
                    let mut at: usize = 0;
                    while at < paths.len() && path_lt(&paths[at], &path)
                        invariant
                            at <= paths@.len(),
                            forall|x: int| 0 <= x < at ==> crate::checks::list_lt(crate::text::views(#[trigger] paths@[x]@), pv),
                            pv == crate::text::views(path@),
                        decreases paths@.len() - at,
                    {
                        at = at + 1;
                    }
                    let ghost was = paths@;
                    let ghost wv = path_views(was);
                    proof {
                        if at < was.len() {
                            crate::checks::lemma_list_lt_order(pv, wv[at as int], pv);
                            assert(wv[at as int] != pv);
                            crate::checks::lemma_list_lt_order(wv[at as int], pv, pv);
                            assert(crate::checks::list_lt(pv, wv[at as int]));
                        }
                    }
                    paths.insert(at, crate::model::copy_strings(&path));
                    proof {
                        was.insert_ensures(at as int, paths@[at as int]);
                        assert forall|x: int, y: int| 0 <= x < y < paths@.len() implies crate::text::views(#[trigger] paths@[x]@) != crate::text::views(#[trigger] paths@[y]@) by {
                            if x < at && y < at {
                            } else if x < at && y == at {
                            } else if x < at {
                                assert(paths@[y] == was[y - 1]);
                            } else if x == at {
                                assert(paths@[y] == was[y - 1]);
                            } else {
                                assert(paths@[x] == was[x - 1] && paths@[y] == was[y - 1]);
                            }
                        }
                        let nv = path_views(paths@);
                        assert forall|x: int, y: int| 0 <= x < y < nv.len() implies crate::checks::list_lt(#[trigger] nv[x], #[trigger] nv[y]) by {
                            if x < at && y < at {
                                assert(nv[x] == wv[x] && nv[y] == wv[y]);
                            } else if x < at && y == at {
                                assert(nv[x] == wv[x]);
                            } else if x < at {
                                assert(nv[x] == wv[x] && nv[y] == wv[y - 1]);
                                crate::checks::lemma_list_lt_order(wv[x], pv, wv[at as int]);
                                if y - 1 > at {
                                    crate::checks::lemma_list_lt_order(pv, wv[at as int], wv[y - 1]);
                                }
                                crate::checks::lemma_list_lt_order(wv[x], pv, wv[y - 1]);
                            } else if x == at {
                                assert(nv[y] == wv[y - 1]);
                                if y - 1 > at {
                                    crate::checks::lemma_list_lt_order(pv, wv[at as int], wv[y - 1]);
                                }
                            } else {
                                assert(nv[x] == wv[x - 1] && nv[y] == wv[y - 1]);
                            }
                        }
                        assert forall|j: int| 0 <= j < roots@.len() implies nv.contains(crate::text::views((#[trigger] roots@[j]).1@)) by {
                            let v = crate::text::views(roots@[j].1@);
                            let x = choose|x: int| 0 <= x < wv.len() && wv[x] == v;
                            if x < at {
                                assert(nv[x] == v);
                            } else {
                                assert(nv[x + 1] == v);
                            }
                        }
                        assert(nv[at as int] == pv);
                    }
                }
                let ghost before = roots@;
                roots.push((id, path));
                proof {
                    assert(root_ids(defs.take(i + 1)) == ids0.push(id));
                    assert forall|q: int| 0 <= q < paths@.len() implies rooted(roots@, crate::text::views(#[trigger] paths@[q]@)) by {
                        if crate::text::views(paths@[q]@) == pv {
                            assert(crate::text::views(roots@[before.len() as int].1@) == pv);
                        } else {
                            assert(rooted(before, crate::text::views(paths@[q]@)));
                            let j = choose|j: int| 0 <= j < before.len() && crate::text::views(#[trigger] before[j].1@) == crate::text::views(paths@[q]@);
                            assert(roots@[j] == before[j]);
                        }
                    }
                    assert forall|j: int| 0 <= j < roots@.len() implies path_views(paths@).contains(crate::text::views((#[trigger] roots@[j]).1@)) by {
                        if j == before.len() {
                            let x = choose|x: int| 0 <= x < paths@.len() && crate::text::views(#[trigger] paths@[x]@) == pv;
                            assert(path_views(paths@)[x] == pv);
                        } else {
                            assert(roots@[j] == before[j]);
                        }
                    }
                    assert forall|j: int| 0 <= j < roots@.len() implies (#[trigger] roots@[j]).0 == root_ids(defs.take(i + 1))[j]
                        && crate::text::views(roots@[j].1@) == crate::group::path_in(of, roots@[j].0) by {
                        if j < before.len() {
                            assert(roots@[j] == before[j]);
                        }
                    }
                }
            } else {
                proof {
                    assert(root_ids(defs.take(i + 1)) == ids0);
                }
            }
        }
        assert(defs.take(n as int) =~= defs);
        let ghost ids = root_ids(defs);
        let ghost pvs = path_views(paths@);
        let mut top: Vec<Group> = Vec::new();
        let ghost mut blocks: Seq<Seq<Group>> = Seq::empty();
        proof {
            lemma_among_none(roots@, paths@, roots@.len() as int);
            lemma_root_ids_len(defs);
        }
        for p in 0..paths.len()
            invariant
                n == self.definitions@.len(),
                n < u32::MAX - 1,
                defs == self.definitions@,
                of == self.grouping.of@,
                ids == root_ids(defs),
                ids.len() <= n,
                pvs == path_views(paths@),
                roots@.len() == ids.len(),
                forall|j: int| 0 <= j < roots@.len() ==> (#[trigger] roots@[j]).0 == ids[j]
                    && crate::text::views(roots@[j].1@) == crate::group::path_in(of, roots@[j].0),
                distinct_paths(paths@),
                forall|q: int| 0 <= q < paths@.len() ==> rooted(roots@, crate::text::views(#[trigger] paths@[q]@)),
                top@.len() <= among(roots@, paths@, p as int, roots@.len() as int),
                blocks.len() == p,
                top@ == blocks.flatten(),
                forall|q: int| 0 <= q < p ==> block_as(defs, of, edges@, steps@, pvs[q], #[trigger] blocks[q]),
        {
            let path = &paths[p];
            assert(pvs[p as int] == crate::text::views(path@));
            let mut built: Vec<Group> = Vec::new();
            for k in 0..roots.len()
                invariant
                    n == self.definitions@.len(),
                    n < u32::MAX - 1,
                    defs == self.definitions@,
                    of == self.grouping.of@,
                    ids == root_ids(defs),
                    p < paths@.len(),
                    path == paths@[p as int],
                    k <= roots@.len(),
                    roots@.len() == ids.len(),
                    forall|j: int| 0 <= j < roots@.len() ==> (#[trigger] roots@[j]).0 == ids[j]
                        && crate::text::views(roots@[j].1@) == crate::group::path_in(of, roots@[j].0),
                    built@.len() <= matching(roots@, path@, k as int),
                    built@.len() == under(of, ids.take(k as int), crate::text::views(path@)).len(),
                    forall|j: int| 0 <= j < built@.len() ==> built_as(
                        defs, edges@, steps@, under(of, ids.take(k as int), crate::text::views(path@))[j], n as nat, #[trigger] built@[j]),
            {
                let ghost u0 = under(of, ids.take(k as int), crate::text::views(path@));
                assert(ids.take(k + 1).drop_last() =~= ids.take(k as int));
                assert(ids.take(k + 1).last() == roots@[k as int].0);
                if crate::model::strings_eq(&roots[k].1, path) {
                    let one = self.build(roots[k].0, edges, steps, n);
                    built.push(one);
                }
            }
            assert(ids.take(roots@.len() as int) =~= ids);
            proof {
                lemma_among_step(roots@, paths@, p as int, roots@.len() as int);
                lemma_among_bound(roots@, paths@, p + 1, roots@.len() as int);
                assert(rooted(roots@, crate::text::views(paths@[p as int]@)));
                let j = choose|j: int| 0 <= j < roots@.len() && crate::text::views(#[trigger] roots@[j].1@) == crate::text::views(paths@[p as int]@);
                lemma_matching_pos(roots@, path@, roots@.len() as int, j);
            }
            let ghost bs = built@;
            let ghost old_top = top@;
            let ghost b0 = blocks;
            if path.len() == 0 {
                top.append(&mut built);
                proof {
                    assert(crate::text::views(path@).len() == 0);
                    lemma_block(defs, of, edges@, steps@, pvs[p as int], bs, bs);
                    blocks = blocks.push(bs);
                    assert(top@ =~= old_top + bs);
                }
            } else {
                let name = crate::text::join(path, "/");
                let children = arranged(built, edges, steps);
                let g = Group::Group { name, tier: 0, children };
                top.push(g);
                proof {
                    reveal_strlit("/");
                    assert("/"@ =~= seq!['/']);
                    assert(arranged_as(bs, edges@, steps@, children@));
                    lemma_block(defs, of, edges@, steps@, pvs[p as int], bs, seq![g]);
                    blocks = blocks.push(seq![g]);
                    assert(top@ =~= old_top + seq![g]);
                }
            }
            proof {
                assert(blocks =~= b0.push(blocks.last()));
                b0.lemma_flatten_push(blocks.last());
                assert(top@ =~= blocks.flatten());
                assert forall|q: int| 0 <= q < p + 1 implies block_as(defs, of, edges@, steps@, pvs[q], #[trigger] blocks[q]) by {
                }
            }
        }
        proof {
            lemma_among_bound(roots@, paths@, paths@.len() as int, roots@.len() as int);
        }
        let ghost flat = top@;
        let r = arranged(top, edges, steps);
        proof {
            assert(arranged_as(flat, edges@, steps@, r@));
            assert forall|k: int| 0 <= k < ids.len() implies pvs.contains(crate::group::path_in(of, #[trigger] ids[k])) by {
                assert(path_views(paths@).contains(crate::text::views(roots@[k].1@)));
            }
            assert forall|q: int| 0 <= q < pvs.len() implies exists|k: int| 0 <= k < ids.len() && crate::group::path_in(of, ids[k]) == #[trigger] pvs[q] by {
                assert(rooted(roots@, crate::text::views(paths@[q]@)));
                let j = choose|j: int| 0 <= j < roots@.len() && crate::text::views(#[trigger] roots@[j].1@) == crate::text::views(paths@[q]@);
                assert(crate::group::path_in(of, ids[j]) == pvs[q]);
            }
            assert(paths_cover(of, ids, pvs));
            assert(self.definitions_spec() == defs && self.grouping_spec() == of);
        }
        r
    }
}

proof fn lemma_root_ids_len(defs: Seq<(Identity, Definition)>)
    ensures
        root_ids(defs).len() <= defs.len(),
    decreases defs.len(),
{
    if defs.len() > 0 {
        lemma_root_ids_len(defs.drop_last());
    }
}

proof fn lemma_block(
    defs: Seq<(Identity, Definition)>,
    of: Seq<(Identity, Vec<String>)>,
    edges: Seq<Edge>,
    steps: Seq<Step>,
    path: Seq<Seq<char>>,
    bs: Seq<Group>,
    block: Seq<Group>,
)
    requires
        bs.len() == under(of, root_ids(defs), path).len(),
        forall|k: int| 0 <= k < bs.len() ==> built_as(defs, edges, steps, under(of, root_ids(defs), path)[k], defs.len() as nat, #[trigger] bs[k]),
        if path.len() == 0 {
            block == bs
        } else {
            block.len() == 1 && boxed_as(block[0], path, bs, edges, steps)
        },
    ensures
        block_as(defs, of, edges, steps, path, block),
{
    assert(bs.len() == under(of, root_ids(defs), path).len());
}

/// No two paths read the same.
pub open spec fn distinct_paths(paths: Seq<Vec<String>>) -> bool {
    forall|x: int, y: int| 0 <= x < y < paths.len() ==> crate::text::views(#[trigger] paths[x]@) != crate::text::views(#[trigger] paths[y]@)
}

/// Some root is grouped under the path.
spec fn rooted(roots: Seq<(Identity, Vec<String>)>, path: Seq<Seq<char>>) -> bool {
    exists|j: int| 0 <= j < roots.len() && crate::text::views(#[trigger] roots[j].1@) == path
}

/// How many of the first `k` roots are grouped under `path`.
spec fn matching(roots: Seq<(Identity, Vec<String>)>, path: Seq<String>, k: int) -> int
    decreases k,
{
    if k <= 0 {
        0
    } else {
        matching(roots, path, k - 1) + if crate::text::views(roots[k - 1].1@) == crate::text::views(path) { 1int } else { 0int }
    }
}

/// How many of the first `k` roots are grouped under one of the first `p` paths.
spec fn among(roots: Seq<(Identity, Vec<String>)>, paths: Seq<Vec<String>>, p: int, k: int) -> int
    decreases k,
{
    if k <= 0 {
        0
    } else {
        among(roots, paths, p, k - 1) + if exists|q: int| 0 <= q < p && crate::text::views(#[trigger] paths[q]@) == crate::text::views(roots[k - 1].1@) {
            1int
        } else {
            0int
        }
    }
}

proof fn lemma_among_none(roots: Seq<(Identity, Vec<String>)>, paths: Seq<Vec<String>>, k: int)
    ensures
        among(roots, paths, 0, k) == 0,
    decreases k,
{
    if k > 0 {
        lemma_among_none(roots, paths, k - 1);
    }
}

proof fn lemma_among_step(roots: Seq<(Identity, Vec<String>)>, paths: Seq<Vec<String>>, p: int, k: int)
    requires
        0 <= p < paths.len(),
        distinct_paths(paths),
    ensures
        among(roots, paths, p + 1, k) == among(roots, paths, p, k) + matching(roots, paths[p]@, k),
    decreases k,
{
    if k > 0 {
        lemma_among_step(roots, paths, p, k - 1);
        let v = crate::text::views(roots[k - 1].1@);
        if crate::text::views(paths[p]@) == v {
            if exists|q: int| 0 <= q < p && crate::text::views(#[trigger] paths[q]@) == v {
                let q = choose|q: int| 0 <= q < p && crate::text::views(#[trigger] paths[q]@) == v;
                assert(crate::text::views(paths[q]@) != crate::text::views(paths[p]@));
            }
        }
    }
}

proof fn lemma_among_bound(roots: Seq<(Identity, Vec<String>)>, paths: Seq<Vec<String>>, p: int, k: int)
    ensures
        0 <= among(roots, paths, p, k) <= if k < 0 { 0 } else { k },
    decreases k,
{
    if k > 0 {
        lemma_among_bound(roots, paths, p, k - 1);
    }
}

proof fn lemma_matching_pos(roots: Seq<(Identity, Vec<String>)>, path: Seq<String>, k: int, j: int)
    requires
        0 <= j < k,
        crate::text::views(roots[j].1@) == crate::text::views(path),
    ensures
        matching(roots, path, k) >= 1,
    decreases k,
{
    lemma_matching_nonneg(roots, path, k - 1);
    if j < k - 1 {
        lemma_matching_pos(roots, path, k - 1, j);
    }
}

proof fn lemma_matching_nonneg(roots: Seq<(Identity, Vec<String>)>, path: Seq<String>, k: int)
    ensures
        matching(roots, path, k) >= 0,
    decreases k,
{
    if k > 0 {
        lemma_matching_nonneg(roots, path, k - 1);
    }
}

/// Whether one path sorts before another: text by text, a shorter one first where it
/// runs out.
fn path_lt(a: &Vec<String>, b: &Vec<String>) -> (r: bool)
    ensures
        r == crate::checks::list_lt(crate::text::views(a@), crate::text::views(b@)),
{
    let ghost va = crate::text::views(a@);
    let ghost vb = crate::text::views(b@);
    assert(va.skip(0) =~= va && vb.skip(0) =~= vb);
    let mut i: usize = 0;
    while i < a.len() && i < b.len()
        invariant
            i <= a@.len(),
            i <= b@.len(),
            va == crate::text::views(a@),
            vb == crate::text::views(b@),
            crate::checks::list_lt(va, vb) == crate::checks::list_lt(va.skip(i as int), vb.skip(i as int)),
        decreases a@.len() - i,
    {
        let ghost sa = va.skip(i as int);
        let ghost sb = vb.skip(i as int);
        assert(sa[0] == a@[i as int]@ && sb[0] == b@[i as int]@);
        if crate::text::str_lt(a[i].as_str(), b[i].as_str()) {
            proof {
                crate::text::lemma_lt_irreflexive(sa[0]);
            }
            return true;
        }
        if crate::text::str_lt(b[i].as_str(), a[i].as_str()) {
            proof {
                crate::text::lemma_lt_irreflexive(sa[0]);
            }
            return false;
        }
        proof {
            crate::text::lemma_lt_total(sa[0], sb[0]);
            assert(sa.drop_first() =~= va.skip(i + 1));
            assert(sb.drop_first() =~= vb.skip(i + 1));
        }
        i = i + 1;
    }
    assert(va.skip(i as int).len() == 0 || vb.skip(i as int).len() == 0);
    a.len() < b.len()
}

} // verus!
