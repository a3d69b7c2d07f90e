//! Following a break in a contract outward, to whatever relies on the broken definition
//! somewhere its own callers can see.

use crate::change::Change;
use crate::diagnostic::{Diagnostic, DiagnosticView};
use crate::model::{Identity, Part};
use crate::reference::{Reference, Target};
use vstd::prelude::*;

verus! {

/// Whether the mention still stands in the newer snapshot, somewhere its own callers can
/// see. A call that was deleted breaks nobody.
pub open spec fn in_contract(r: Reference) -> bool {
    exists|i: int| 0 <= i < r.after@.len() && (#[trigger] r.after@[i]).part == Part::Contract
}

/// `x` mentions `y` in its contract, in the newer snapshot.
pub open spec fn link(refs: Seq<Reference>, y: Identity, x: Identity) -> bool {
    exists|i: int|
        0 <= i < refs.len() && in_contract(#[trigger] refs[i]) && refs[i].to == Target::Known(y)
            && refs[i].from == x
}

/// `y`'s own change breaks its callers.
pub open spec fn broken(changes: Seq<(Identity, Change)>, y: Identity) -> bool {
    exists|i: int| 0 <= i < changes.len() && (#[trigger] changes[i]).0 == y && changes[i].1@.breaks_callers()
}

/// Which identities a list of changes says break their callers.
pub open spec fn breaks(changes: Seq<(Identity, Change)>) -> spec_fn(Identity) -> bool {
    |y: Identity| broken(changes, y)
}

/// A path a break travels: it starts at a definition `hurt` says breaks its callers, and
/// each definition after that mentions the one before it in its contract.
pub open spec fn chain(hurt: spec_fn(Identity) -> bool, refs: Seq<Reference>, path: Seq<Identity>) -> bool {
    &&& path.len() >= 1
    &&& hurt(path[0])
    &&& forall|i: int| #![trigger path[i]] 0 <= i < path.len() - 1 ==> link(refs, path[i], path[i + 1])
}

/// A break reaches `x` in at most `n` steps, counting a break of its own as none.
pub open spec fn near(hurt: spec_fn(Identity) -> bool, refs: Seq<Reference>, x: Identity, n: int) -> bool {
    exists|path: Seq<Identity>| #[trigger] chain(hurt, refs, path) && path.len() <= n + 1 && path.last() == x
}

/// Something `x` mentions in its contract is reached by a break in at most `n` steps.
pub open spec fn step(hurt: spec_fn(Identity) -> bool, refs: Seq<Reference>, x: Identity, n: int) -> bool {
    exists|y: Identity| link(refs, y, x) && #[trigger] near(hurt, refs, y, n)
}

/// A break reaches `x` from one of its dependencies in at most `d` steps, `d` at least one.
pub open spec fn hit(hurt: spec_fn(Identity) -> bool, refs: Seq<Reference>, x: Identity, d: int) -> bool {
    d >= 1 && step(hurt, refs, x, (d - 1))
}

/// The nearest a break comes to `x` through its dependencies is `d` steps, and that is no
/// further than `depth`.
pub open spec fn reached_at(
    hurt: spec_fn(Identity) -> bool,
    refs: Seq<Reference>,
    depth: int,
    x: Identity,
    d: int,
) -> bool {
    &&& 1 <= d <= depth
    &&& hit(hurt, refs, x, d)
    &&& !hit(hurt, refs, x, (d - 1))
}

proof fn lemma_hit_succ(hurt: spec_fn(Identity) -> bool, refs: Seq<Reference>, x: Identity, n: int)
    requires
        n >= 0,
    ensures
        hit(hurt, refs, x, n + 1) == step(hurt, refs, x, n),
{
    
}

/// `near` at `n` is a break of its own or a hit within `n`.
proof fn lemma_near_hit(hurt: spec_fn(Identity) -> bool, refs: Seq<Reference>, x: Identity, n: int)
    requires
        n >= 0,
    ensures
        near(hurt, refs, x, n) == (hurt(x) || hit(hurt, refs, x, n)),
{
    if near(hurt, refs, x, n) && !hurt(x) {
        let path = choose|path: Seq<Identity>| #[trigger] chain(hurt, refs, path) && path.len() <= n + 1 && path.last() == x;
        assert(path.len() >= 2);
        let y = path[path.len() - 2];
        let shorter = path.drop_last();
        assert(link(refs, path[path.len() - 2], path[path.len() - 1]));
        assert forall|i: int| #![trigger shorter[i]] 0 <= i < shorter.len() - 1 implies link(refs, shorter[i], shorter[i + 1]) by {
            assert(shorter[i] == path[i]);
            assert(shorter[i + 1] == path[i + 1]);
        }
        assert(chain(hurt, refs, shorter));
        assert(near(hurt, refs, y, n - 1));
        assert(step(hurt, refs, x, n - 1));
    }
    if hurt(x) {
        let path = seq![x];
        assert(chain(hurt, refs, path));
    }
    if hit(hurt, refs, x, n) {
        let y = choose|y: Identity| link(refs, y, x) && #[trigger] near(hurt, refs, y, n - 1);
        lemma_chain_extend(hurt, refs, y, x, n - 1);
    }
}

/// A path to `y` carries on to whatever mentions `y` in its contract.
proof fn lemma_chain_extend(hurt: spec_fn(Identity) -> bool, refs: Seq<Reference>, y: Identity, x: Identity, n: int)
    requires
        link(refs, y, x),
        near(hurt, refs, y, n),
    ensures
        near(hurt, refs, x, n + 1),
{
    let path = choose|path: Seq<Identity>| #[trigger] chain(hurt, refs, path) && path.len() <= n + 1 && path.last() == y;
    let longer = path.push(x);
    assert forall|i: int| #![trigger longer[i]] 0 <= i < longer.len() - 1 implies link(refs, longer[i], longer[i + 1]) by {
        if i < path.len() - 1 {
            assert(longer[i] == path[i]);
            assert(longer[i + 1] == path[i + 1]);
        } else {
            assert(longer[i] == y);
        }
    }
    assert(chain(hurt, refs, longer));
}

/// A dependency reached within `n` passes the break on within one more.
proof fn lemma_step_intro(hurt: spec_fn(Identity) -> bool, refs: Seq<Reference>, y: Identity, x: Identity, n: int)
    requires
        n >= 0,
        link(refs, y, x),
        near(hurt, refs, y, n),
    ensures
        step(hurt, refs, x, n),
        hit(hurt, refs, x, n + 1),
{
        assert(link(refs, y, x) && near(hurt, refs, y, n));
    lemma_hit_succ(hurt, refs, x, n);
}

/// One name per mention in a contract that nothing could bind, in the order found.
pub open spec fn unbound(refs: Seq<Reference>) -> Seq<DiagnosticView>
    decreases refs.len(),
{
    if refs.len() == 0 {
        Seq::empty()
    } else {
        let rest = unbound(refs.drop_last());
        let r = refs.last();
        match r.to {
            Target::Unknown { symbol } => if in_contract(r) {
                rest.push(DiagnosticView::UnboundInContract { definition: r.from, symbol: symbol@ })
            } else {
                rest
            },
            Target::Known(_) => rest,
        }
    }
}

/// Identities in strictly increasing order.
pub open spec fn increasing(s: Seq<(Identity, u32)>) -> bool {
    forall|i: int, j: int| 0 <= i < j < s.len() ==> s[i].0.0 < s[j].0.0
}

/// What a level of the walk holds: the broken ones at first, then whatever a break
/// reaches at exactly that distance.
pub open spec fn level_set(hurt: spec_fn(Identity) -> bool, refs: Seq<Reference>, y: Identity, k: int) -> bool {
    if k == 0 {
        hurt(y)
    } else {
        hit(hurt, refs, y, k) && !hit(hurt, refs, y, (k - 1))
    }
}

/// Whether a mention stands in the newer snapshot's contract.
fn mentioned_in_contract(reference: &Reference) -> (r: bool)
    ensures
        r == in_contract(*reference),
{
    for i in 0..reference.after.len()
        invariant
            forall|k: int| 0 <= k < i ==> reference.after@[k].part != Part::Contract,
    {
        if reference.after[i].part == Part::Contract {
            return true;
        }
    }
    false
}

fn holds_identity(v: &Vec<Identity>, x: Identity) -> (r: bool)
    ensures
        r == v@.contains(x),
{
    for i in 0..v.len()
        invariant
            forall|k: int| 0 <= k < i ==> v@[k] != x,
    {
        if v[i] == x {
            return true;
        }
    }
    false
}

fn find_reached(v: &Vec<(Identity, u32)>, x: Identity) -> (r: bool)
    ensures
        r == exists|k: int| 0 <= k < v@.len() && (#[trigger] v@[k]).0 == x,
{
    for i in 0..v.len()
        invariant
            forall|k: int| 0 <= k < i ==> (#[trigger] v@[k]).0 != x,
    {
        if v[i].0 == x {
            return true;
        }
    }
    false
}

/// A level past the first holds only what came through a link from the level before it.
proof fn lemma_level_parent(
    hurt: spec_fn(Identity) -> bool,
    refs: Seq<Reference>,
    x: Identity,
    d: int,
)
    requires
        d >= 1,
        level_set(hurt, refs, x, d),
    ensures
        exists|y: Identity| link(refs, y, x) && #[trigger] level_set(hurt, refs, y, (d - 1)),
{
    let p: int = (d - 1);
    lemma_hit_succ(hurt, refs, x, p);
    assert(p + 1 == d);
    assert(step(hurt, refs, x, p));
    let y = choose|y: Identity| link(refs, y, x) && #[trigger] near(hurt, refs, y, p);
    if p == 0 {
        assert(level_set(hurt, refs, y, 0));
    } else {
        lemma_near_hit(hurt, refs, y, p);
        if hurt(y) {
            // Then `x` sits one step from a break, which a level past the first rules out.
            lemma_near_hit(hurt, refs, y, 0);
            lemma_step_intro(hurt, refs, y, x, 0);
            lemma_hit_grows(hurt, refs, x, 1, p);
            assert(false);
        }
        let q: int = (p - 1);
        if hit(hurt, refs, y, q) {
            lemma_near_hit(hurt, refs, y, q);
            lemma_step_intro(hurt, refs, y, x, q);
            assert(q + 1 == p);
            assert(false);
        }
        assert(level_set(hurt, refs, y, p));
    }
}

/// With nothing at some level of the walk, nothing lies at any level beyond it.
proof fn lemma_levels_down(
    hurt: spec_fn(Identity) -> bool,
    refs: Seq<Reference>,
    x: Identity,
    d: int,
    k: int,
)
    requires
        0 <= k <= d,
        level_set(hurt, refs, x, d),
    ensures
        exists|y: Identity| #[trigger] level_set(hurt, refs, y, k),
    decreases d - k,
{
    if d > k {
        lemma_level_parent(hurt, refs, x, d);
        let y = choose|y: Identity| link(refs, y, x) && #[trigger] level_set(hurt, refs, y, (d - 1));
        lemma_levels_down(hurt, refs, y, (d - 1), k);
    }
}

/// A list of identities holds the same as before plus one more.
proof fn lemma_push_contains<T>(s: Seq<T>, x: T, y: T)
    ensures
        s.push(x).contains(y) == (s.contains(y) || y == x),
{
    if s.push(x).contains(y) {
        let k = choose|k: int| 0 <= k < s.push(x).len() && s.push(x)[k] == y;
        if k < s.len() {
            assert(s[k] == y);
        }
    }
    if s.contains(y) {
        let k = choose|k: int| 0 <= k < s.len() && s[k] == y;
        assert(s.push(x)[k] == y);
    }
    if y == x {
        assert(s.push(x)[s.len() as int] == y);
    }
}

/// Whether some entry of a list names `x`.
pub open spec fn holds(v: Seq<(Identity, u32)>, x: Identity) -> bool {
    exists|m: int| 0 <= m < v.len() && (#[trigger] v[m]).0 == x
}

/// Every entry sits at the nearest distance a break comes to it, within `depth`, and no
/// further out than `bound`.
spec fn sound(
    hurt: spec_fn(Identity) -> bool,
    refs: Seq<Reference>,
    depth: int,
    v: Seq<(Identity, u32)>,
    bound: int,
) -> bool {
    forall|m: int|
        0 <= m < v.len() ==> reached_at(hurt, refs, depth, (#[trigger] v[m]).0, v[m].1 as int)
            && v[m].1 <= bound
}

/// Whatever a break reaches within `level` steps has an entry.
spec fn complete(hurt: spec_fn(Identity) -> bool, refs: Seq<Reference>, v: Seq<(Identity, u32)>, level: int) -> bool {
    forall|x: Identity, d: int| 1 <= d <= level && #[trigger] hit(hurt, refs, x, d) ==> holds(v, x)
}

/// The pairs are exactly who mentions whom in a contract, as (mentioned, mentioner).
spec fn exact_links(links: Seq<(Identity, Identity)>, refs: Seq<Reference>) -> bool {
    forall|y: Identity, x: Identity|
        #![trigger links.contains((y, x))]
        #![trigger link(refs, y, x)]
        links.contains((y, x)) <==> link(refs, y, x)
}

/// The list holds exactly one level of the walk.
spec fn exact_level(v: Seq<Identity>, hurt: spec_fn(Identity) -> bool, refs: Seq<Reference>, k: int) -> bool {
    forall|y: Identity|
        #![trigger v.contains(y)]
        #![trigger level_set(hurt, refs, y, k)]
        v.contains(y) <==> level_set(hurt, refs, y, k)
}

/// Adds an entry to a list kept in order of identity, and says where it went.
fn insert_by_identity(v: &mut Vec<(Identity, u32)>, x: Identity, d: u32) -> (pos: usize)
    requires
        increasing(old(v)@),
        !holds(old(v)@, x),
    ensures
        pos <= old(v)@.len(),
        final(v)@ == old(v)@.insert(pos as int, (x, d)),
        increasing(final(v)@),
{
    let ghost before = v@;
    let mut i: usize = 0;
    while i < v.len() && v[i].0.0 < x.0
        invariant
            i <= v@.len(),
            v@ == before,
            forall|k: int| 0 <= k < i ==> (#[trigger] before[k]).0.0 < x.0,
        decreases v@.len() - i,
    {
        i = i + 1;
    }
    v.insert(i, (x, d));
    proof {
        let now = v@;
        before.insert_ensures(i as int, (x, d));
        assert forall|a: int, b: int| 0 <= a < b < now.len() implies now[a].0.0 < now[b].0.0 by {
            if i < before.len() {
                assert(before[i as int].0 != x);
                assert(before[i as int].0.0 != x.0);
            }
            if a > i as int {
                assert(now[a] == before[a - 1]);
            }
            if b > i as int {
                assert(now[b] == before[b - 1]);
            }
        }
    }
    i
}

/// Inserting keeps every name a list held, and adds one.
proof fn lemma_holds_insert(v: Seq<(Identity, u32)>, pos: int, e: (Identity, u32))
    requires
        0 <= pos <= v.len(),
    ensures
        holds(v.insert(pos, e), e.0),
        forall|z: Identity| holds(v, z) ==> #[trigger] holds(v.insert(pos, e), z),
{
    v.insert_ensures(pos, e);
    let w = v.insert(pos, e);
    assert(w[pos] == e);
    assert forall|z: Identity| holds(v, z) implies #[trigger] holds(w, z) by {
        let q = choose|q: int| 0 <= q < v.len() && (#[trigger] v[q]).0 == z;
        if q < pos {
            assert(w[q] == v[q]);
        } else {
            assert(w[q + 1] == v[q]);
        }
    }
}

/// Who mentions whom in a contract, as (mentioned, mentioner), and a diagnostic for each
/// mention in a contract that nothing could bind.
fn contract_links(references: &Vec<Reference>) -> (r: (Vec<(Identity, Identity)>, Vec<Diagnostic>))
    ensures
        exact_links(r.0@, references@),
        crate::diagnostic::diagnostic_views(r.1@) == unbound(references@),
{
    let ghost rs = references@;
    let mut links: Vec<(Identity, Identity)> = Vec::new();
    let mut diagnostics: Vec<Diagnostic> = Vec::new();
    for i in 0..references.len()
        invariant
            rs == references@,
            forall|m: int| 0 <= m < links@.len() ==> link(rs, (#[trigger] links@[m]).0, links@[m].1),
            forall|n: int|
                0 <= n < i && in_contract(#[trigger] rs[n]) && rs[n].to is Known ==> links@.contains(
                    (rs[n].to->0, rs[n].from),
                ),
            crate::diagnostic::diagnostic_views(diagnostics@) == unbound(rs.subrange(0, i as int)),
    {
        let reference = &references[i];
        let counts = mentioned_in_contract(reference);
        let ghost was = links@;
        let ghost prefix = rs.subrange(0, i as int);
        let ghost next = rs.subrange(0, i + 1);
        assert(next.drop_last() =~= prefix);
        assert(next.last() == *reference);
        match &reference.to {
            Target::Known(to) => {
                if counts {
                    links.push((*to, reference.from));
                }
            },
            Target::Unknown { symbol } => {
                if counts {
                    diagnostics.push(
                        Diagnostic::UnboundInContract { definition: reference.from, symbol: symbol.clone() },
                    );
                }
            },
        }
        proof {
            assert(crate::diagnostic::diagnostic_views(diagnostics@) =~= unbound(next));
            assert forall|m: int| 0 <= m < links@.len() implies link(rs, (#[trigger] links@[m]).0, links@[m].1) by {
                if m < was.len() {
                    assert(links@[m] == was[m]);
                } else {
                    assert(in_contract(rs[i as int]));
                }
            }
            assert forall|n: int|
                0 <= n < i + 1 && in_contract(#[trigger] rs[n]) && rs[n].to is Known implies links@.contains(
                (rs[n].to->0, rs[n].from),
            ) by {
                let e = (rs[n].to->0, rs[n].from);
                if links@ != was {
                    lemma_push_contains(was, links@.last(), e);
                    assert(links@ == was.push(links@.last()));
                }
            }
        }
    }
    proof {
        assert(rs.subrange(0, rs.len() as int) =~= rs);
        assert forall|y: Identity, x: Identity| links@.contains((y, x)) <==> link(rs, y, x) by {
            if links@.contains((y, x)) {
                let m = choose|m: int| 0 <= m < links@.len() && links@[m] == (y, x);
                assert(link(rs, links@[m].0, links@[m].1));
            }
            if link(rs, y, x) {
                let n = choose|n: int|
                    0 <= n < rs.len() && in_contract(#[trigger] rs[n]) && rs[n].to == Target::Known(y)
                        && rs[n].from == x;
                assert(links@.contains((rs[n].to->0, rs[n].from)));
            }
        }
    }
    (links, diagnostics)
}

/// Everything whose own change breaks its callers.
fn broken_ones(changes: &Vec<(Identity, Change)>) -> (r: Vec<Identity>)
    ensures
        forall|y: Identity| r@.contains(y) <==> #[trigger] broken(changes@, y),
{
    let ghost cs = changes@;
    let mut found: Vec<Identity> = Vec::new();
    for i in 0..changes.len()
        invariant
            cs == changes@,
            forall|m: int| 0 <= m < found@.len() ==> broken(cs, #[trigger] found@[m]),
            forall|n: int| 0 <= n < i && (#[trigger] cs[n]).1@.breaks_callers() ==> found@.contains(cs[n].0),
    {
        let ghost was = found@;
        let breaks = changes[i].1.breaks_callers();
        if breaks {
            found.push(changes[i].0);
        }
        proof {
            assert forall|n: int| 0 <= n < i + 1 && (#[trigger] cs[n]).1@.breaks_callers() implies found@.contains(cs[n].0) by {
                if breaks {
                    lemma_push_contains(was, cs[i as int].0, cs[n].0);
                }
            }
        }
    }
    proof {
        assert forall|y: Identity| found@.contains(y) <==> #[trigger] broken(cs, y) by {
            if found@.contains(y) {
                let m = choose|m: int| 0 <= m < found@.len() && found@[m] == y;
                assert(broken(cs, found@[m]));
            }
            if broken(cs, y) {
                let n = choose|n: int| 0 <= n < cs.len() && (#[trigger] cs[n]).0 == y && cs[n].1@.breaks_callers();
                assert(found@.contains(cs[n].0));
            }
        }
    }
    found
}

/// One level of the walk: whatever the current level's definitions are mentioned by, in a
/// contract, that has no entry yet gets one at the next distance out.
fn advance(
    links: &Vec<(Identity, Identity)>,
    frontier: &Vec<Identity>,
    reached: &mut Vec<(Identity, u32)>,
    level: u32,
    Ghost(hurt): Ghost<spec_fn(Identity) -> bool>,
    Ghost(rs): Ghost<Seq<Reference>>,
    Ghost(depth): Ghost<int>,
) -> (next: Vec<Identity>)
    requires
        level < depth <= u32::MAX,
        exact_links(links@, rs),
        exact_level(frontier@, hurt, rs, level as int),
        increasing(old(reached)@),
        sound(hurt, rs, depth, old(reached)@, level as int),
        complete(hurt, rs, old(reached)@, level as int),
    ensures
        increasing(final(reached)@),
        sound(hurt, rs, depth, final(reached)@, level + 1),
        complete(hurt, rs, final(reached)@, level + 1),
        exact_level(next@, hurt, rs, level + 1),
{
    let ghost k = level as int;
    let ghost start = reached@;
    let mut next: Vec<Identity> = Vec::new();
    for j in 0..links.len()
        invariant
            level < depth <= u32::MAX,
            k == level as int,
            exact_links(links@, rs),
            exact_level(frontier@, hurt, rs, k),
            complete(hurt, rs, start, k),
            increasing(reached@),
            sound(hurt, rs, depth, reached@, k + 1),
            forall|z: Identity| holds(start, z) ==> #[trigger] holds(reached@, z),
            forall|z: Identity| #[trigger] next@.contains(z) ==> level_set(hurt, rs, z, k + 1),
            forall|m: int|
                0 <= m < reached@.len() && reached@[m].1 == k + 1 ==> next@.contains((#[trigger] reached@[m]).0),
            forall|m: int|
                0 <= m < j && frontier@.contains((#[trigger] links@[m]).0) ==> holds(reached@, links@[m].1),
    {
        let (y, x) = links[j];
        let from_frontier = holds_identity(frontier, y);
        if from_frontier && !find_reached(reached, x) {
            proof {
                assert(links@.contains((y, x)));
                assert(link(rs, y, x));
                assert(level_set(hurt, rs, y, k));
                lemma_near_hit(hurt, rs, y, k);
                lemma_step_intro(hurt, rs, y, x, k);
                if k >= 1 && hit(hurt, rs, x, k) {
                    assert(holds(start, x));
                    assert(holds(reached@, x));
                    assert(false);
                }
                assert(level_set(hurt, rs, x, k + 1));
                assert(reached_at(hurt, rs, depth, x, k + 1));
            }
            let ghost was = reached@;
            let ghost was_next = next@;
            let pos = insert_by_identity(reached, x, level + 1);
            next.push(x);
            proof {
                let e = (x, (level + 1) as u32);
                was.insert_ensures(pos as int, e);
                lemma_holds_insert(was, pos as int, e);
                assert forall|m: int| 0 <= m < reached@.len() implies reached_at(
                    hurt,
                    rs,
                    depth,
                    (#[trigger] reached@[m]).0,
                    reached@[m].1 as int,
                ) && reached@[m].1 <= k + 1 by {
                    if m > pos as int {
                        assert(reached@[m] == was[m - 1]);
                    }
                }
                assert forall|z: Identity| #[trigger] next@.contains(z) implies level_set(hurt, rs, z, k + 1) by {
                    lemma_push_contains(was_next, x, z);
                }
                assert forall|m: int|
                    0 <= m < reached@.len() && reached@[m].1 == k + 1 implies next@.contains(
                    (#[trigger] reached@[m]).0,
                ) by {
                    lemma_push_contains(was_next, x, reached@[m].0);
                    if m > pos as int {
                        assert(reached@[m] == was[m - 1]);
                    }
                }
                assert forall|m: int|
                    0 <= m < j + 1 && frontier@.contains((#[trigger] links@[m]).0) implies holds(
                    reached@,
                    links@[m].1,
                ) by {
                    if m < j {
                        assert(holds(was, links@[m].1));
                    }
                }
            }
        } else {
            proof {
                assert forall|m: int|
                    0 <= m < j + 1 && frontier@.contains((#[trigger] links@[m]).0) implies holds(
                    reached@,
                    links@[m].1,
                ) by {
                    if m == j {
                        assert(frontier@.contains(y));
                    }
                }
            }
        }
    }
    proof {
        assert forall|x: Identity, d: int| 1 <= d <= k + 1 && #[trigger] hit(hurt, rs, x, d) implies holds(
            reached@,
            x,
        ) by {
            if d <= k {
                assert(holds(start, x));
            } else if k >= 1 && hit(hurt, rs, x, k) {
                assert(holds(start, x));
            } else {
                assert(level_set(hurt, rs, x, k + 1));
                lemma_level_parent(hurt, rs, x, k + 1);
                assert((k + 1) - 1 == k);
                let y = choose|y: Identity| link(rs, y, x) && #[trigger] level_set(hurt, rs, y, k);
                assert(frontier@.contains(y));
                assert(links@.contains((y, x)));
                let m = choose|m: int| 0 <= m < links@.len() && links@[m] == (y, x);
                assert(frontier@.contains(links@[m].0));
            }
        }
        assert forall|y: Identity| next@.contains(y) <==> #[trigger] level_set(hurt, rs, y, k + 1) by {
            if level_set(hurt, rs, y, k + 1) {
                assert(hit(hurt, rs, y, k + 1));
                assert(holds(reached@, y));
                let m = choose|m: int| 0 <= m < reached@.len() && (#[trigger] reached@[m]).0 == y;
                let e = reached@[m];
                assert(reached_at(hurt, rs, depth, e.0, e.1 as int));
                if (e.1 as int) < k + 1 {
                    // Then it was reached sooner, which being hit no sooner than now rules out.
                    lemma_hit_grows(hurt, rs, y, e.1 as int, k);
                    assert(false);
                }
                assert(e.1 == k + 1);
            }
        }
    }
    next
}

/// Unchanged and changed definitions downstream of a contract break, each with how many
/// hops away it sits, in order of identity, and a diagnostic for every mention in a
/// contract that nothing could bind. Only contract mentions are followed: a body can call
/// anything without its callers caring. `depth` is how far to follow; nought means not at
/// all. Each one keeps its shortest distance: something called directly and also through
/// a chain is, to a reader, called directly.
pub fn affected(
    changes: &Vec<(Identity, Change)>,
    references: &Vec<Reference>,
    depth: u32,
) -> (r: (Vec<(Identity, u32)>, Vec<Diagnostic>))
    ensures
        increasing(r.0@),
        forall|k: int|
            0 <= k < r.0@.len() ==> reached_at(
                breaks(changes@),
                references@,
                depth as int,
                #[trigger] r.0@[k].0,
                r.0@[k].1 as int,
            ),
        forall|x: Identity, d: int|
            reached_at(breaks(changes@), references@, depth as int, x, d) ==> r.0@.contains((x, d as u32)),
        crate::diagnostic::diagnostic_views(r.1@) == unbound(references@),
{
    let ghost cs = changes@;
    let ghost hurt = breaks(cs);
    let ghost rs = references@;
    let (links, diagnostics) = contract_links(references);
    let mut frontier = broken_ones(changes);
    let mut reached: Vec<(Identity, u32)> = Vec::new();
    let mut level: u32 = 0;
    assert(exact_level(frontier@, hurt, rs, 0));
    while level < depth && frontier.len() > 0
        invariant
            cs == changes@,
            hurt == breaks(cs),
            rs == references@,
            level <= depth,
            exact_links(links@, rs),
            exact_level(frontier@, hurt, rs, level as int),
            increasing(reached@),
            sound(hurt, rs, depth as int, reached@, level as int),
            complete(hurt, rs, reached@, level as int),
        decreases depth - level,
    {
        frontier = advance(&links, &frontier, &mut reached, level, Ghost(hurt), Ghost(rs), Ghost(depth as int));
        level = level + 1;
    }
    proof {
        assert forall|x: Identity, d: int| reached_at(hurt, rs, depth as int, x, d) implies reached@.contains(
            (x, d as u32),
        ) by {
            if d > level as int {
                // The walk ran out of things to follow before the depth it was allowed.
                assert(frontier@.len() == 0);
                assert(level_set(hurt, rs, x, d));
                lemma_levels_down(hurt, rs, x, d, level as int);
                let y = choose|y: Identity| #[trigger] level_set(hurt, rs, y, level as int);
                assert(frontier@.contains(y));
                assert(false);
            }
            assert(hit(hurt, rs, x, d));
            assert(holds(reached@, x));
            let m = choose|m: int| 0 <= m < reached@.len() && (#[trigger] reached@[m]).0 == x;
            let e = reached@[m];
            assert(reached_at(hurt, rs, depth as int, e.0, e.1 as int));
            lemma_reached_unique(hurt, rs, depth as int, x, d, e.1 as int);
            assert(reached@[m] == (x, d as u32));
        }
    }
    (reached, diagnostics)
}

/// Being reached within some distance means being reached within any longer one.
proof fn lemma_hit_grows(
    hurt: spec_fn(Identity) -> bool,
    refs: Seq<Reference>,
    x: Identity,
    d: int,
    e: int,
)
    requires
        d <= e,
        hit(hurt, refs, x, d),
    ensures
        hit(hurt, refs, x, e),
{
    let y = choose|y: Identity| link(refs, y, x) && #[trigger] near(hurt, refs, y, d - 1);
    lemma_near_grows(hurt, refs, y, d - 1, e - 1);
    assert(step(hurt, refs, x, e - 1));
}

proof fn lemma_near_grows(hurt: spec_fn(Identity) -> bool, refs: Seq<Reference>, x: Identity, n: int, m: int)
    requires
        n <= m,
        near(hurt, refs, x, n),
    ensures
        near(hurt, refs, x, m),
{
    let path = choose|path: Seq<Identity>| #[trigger] chain(hurt, refs, path) && path.len() <= n + 1 && path.last() == x;
    assert(chain(hurt, refs, path) && path.len() <= m + 1 && path.last() == x);
}

/// The nearest distance is one distance.
proof fn lemma_reached_unique(
    hurt: spec_fn(Identity) -> bool,
    refs: Seq<Reference>,
    depth: int,
    x: Identity,
    d: int,
    e: int,
)
    requires
        reached_at(hurt, refs, depth, x, d),
        reached_at(hurt, refs, depth, x, e),
    ensures
        d == e,
{
    if d < e {
        lemma_hit_grows(hurt, refs, x, d, (e - 1));
    }
    if e < d {
        lemma_hit_grows(hurt, refs, x, e, (d - 1));
    }
}

} // verus!
