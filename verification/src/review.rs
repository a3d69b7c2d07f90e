//! Everything one review of a repository comes to.
//!
//! One object, built in one place at the end, with everything about a definition on that
//! definition, so nothing can name a definition that wasn't handed over.

use crate::change::{classified, classify, Change, ChangeView, Mark};
use crate::group::Grouping;
use crate::order::{counts, done_after, entry, is_reading, latest, order, place, read_in, Cost, Step};
use crate::propagate::{affected, broken, breaks, reached_at, unbound};
use crate::shape::{Group, Shape};
use crate::diagnostic::{Diagnostic, DiagnosticView};
use crate::model::{self, Identity, Locator, LocatorView, Role, Sides};
use crate::reference::{Reference, Target};
use crate::text::{decimal, joined, number};
use vstd::prelude::*;

verus! {

/// One definition depending on another, as the reader will see it. Definitions that
/// nobody needs to read are left out, so an edge can stand in for a chain that ran
/// through them.
#[derive(Debug, Clone, Copy, PartialEq, Eq, Structural)]
pub struct Edge {
    pub from: Identity,
    pub to: Identity,
}

/// One definition, and everything this review knows about it.
#[derive(Debug, Clone, PartialEq, Eq)]
pub struct Definition {
    /// Whether it holds others. Said by whoever read the file.
    pub role: Role,
    /// What it was on each side.
    pub sides: Sides,
    /// What happened to it.
    pub change: Change,
    /// Hops from the nearest change that reached it. Never zero: its own change is `change`.
    pub reached: Option<u32>,
    /// The one word for what happened to it, as every rendering shows it.
    pub mark: Mark,
    /// What it's written inside. Always present in this review when it isn't `None`.
    pub parent: Option<Identity>,
}

/// How much trust a warning costs the review it's about.
#[derive(Debug, Clone, Copy, PartialEq, Eq, Structural)]
pub enum Impact {
    /// Something that changed might not be here at all, and a reader trusting the review
    /// would never learn of it.
    Incomplete,
    /// It's here and it's shown, but it was worked out from worse information than it
    /// should have been.
    Degraded,
}

/// A reason this review might be wrong. Our own findings and the adapters' notes share one
/// list; `impact` is what a reader acts on.
#[derive(Debug, Clone, PartialEq, Eq)]
pub struct Warning {
    pub impact: Impact,
    /// Worded here rather than on the page, so there's one wording and names can be
    /// looked up while they're still to hand.
    pub message: String,
    /// What it's about, when it's about one definition. For pointing somebody at it.
    pub about: Option<Identity>,
}

/// A warning, with its message seen as text.
pub struct WarningView {
    pub impact: Impact,
    pub message: Seq<char>,
    pub about: Option<Identity>,
}

impl View for Warning {
    type V = WarningView;

    open spec fn view(&self) -> WarningView {
        WarningView { impact: self.impact, message: self.message@, about: self.about }
    }
}

/// The views of a list of warnings.
pub open spec fn warning_views(w: Seq<Warning>) -> Seq<WarningView> {
    w.map_values(|one: Warning| one@)
}

/// A locator written out: its scope and name, joined by `::`.
pub open spec fn written(l: LocatorView) -> Seq<char> {
    joined(l.scope.push(l.name), seq![':', ':'])
}

/// The first definition handed over for `x`, the one a name is looked up in.
pub open spec fn first_with(defs: Seq<model::Definition>, x: Identity) -> Option<int> {
    if exists|i: int| 0 <= i < defs.len() && (#[trigger] defs[i]).identity == x {
        Some(choose|i: int| 0 <= i < defs.len() && (#[trigger] defs[i]).identity == x && forall|j: int| 0 <= j < i ==> (#[trigger] defs[j]).identity != x)
    } else {
        None
    }
}

/// How a definition is named in a warning: where it is and which file it sits in, or just
/// its number when it wasn't handed over.
pub open spec fn name_in(defs: Seq<model::Definition>, x: Identity) -> Seq<char> {
    match first_with(defs, x) {
        Some(i) => written(defs[i].sides@.latest().locator) + " ("@ + defs[i].sides@.latest().file + ")"@,
        None => "definition "@ + decimal(x.0 as nat),
    }
}

/// Numbers written out, a comma between each.
pub open spec fn listed(at: Seq<u32>) -> Seq<char> {
    joined(at.map_values(|n: u32| decimal(n as nat)), ", "@)
}

/// The wording of one of our own findings, and what it costs the review.
pub open spec fn wording(d: DiagnosticView, defs: Seq<model::Definition>) -> (Impact, Seq<char>) {
    match d {
        DiagnosticView::Unattributed { file, lines, at } => (
            Impact::Incomplete,
            file + ": "@ + decimal(lines as nat) + " changed line"@ + (if lines == 1 { ""@ } else { "s"@ })
                + " belong to no definition, around line "@ + listed(at),
        ),
        DiagnosticView::UnboundInContract { definition, symbol } => (
            Impact::Incomplete,
            symbol + " appears where callers of "@ + name_in(defs, definition)
                + " can see it, but nothing could say what it refers to"@,
        ),
        DiagnosticView::MentionFromNowhere { from } => (
            Impact::Incomplete,
            "a mention came from "@ + written(from) + ", which was never reported"@,
        ),
        DiagnosticView::Tangled { definition, at } => (
            Impact::Incomplete,
            written(definition) + " was handed over with two of its pieces covering the same text, around byte "@
                + decimal(at as nat)
                + " \u{2014} so a line of it is shown twice, and read as two different kinds of change"@,
        ),
        DiagnosticView::TwoOfOneName { locator, times } => (
            Impact::Incomplete,
            decimal(times as nat) + " definitions are called "@ + written(locator)
                + ", so only one of them could be followed from one side to the other"@,
        ),
        DiagnosticView::LopsidedContract { definition } => (
            Impact::Degraded,
            name_in(defs, definition)
                + ": the compiler described one side of this and not the other, so the signature as written was compared instead"@,
        ),
    }
}

/// A finding, worded: what it costs, what it says, and what it's about.
pub open spec fn told_spec(d: DiagnosticView, defs: Seq<model::Definition>) -> WarningView {
    WarningView { impact: wording(d, defs).0, message: wording(d, defs).1, about: d.about() }
}

/// How a definition is named in a warning.
fn name_of(defs: &Vec<model::Definition>, x: Identity) -> (r: String)
    ensures
        r@ == name_in(defs@, x),
{
    for i in 0..defs.len()
        invariant
            forall|j: int| 0 <= j < i ==> (#[trigger] defs@[j]).identity != x,
    {
        if defs[i].identity == x {
            let it = defs[i].sides.latest();
            let mut r = it.locator.written();
            r.append(" (");
            r.append(it.file.as_str());
            r.append(")");
            proof {
                let c = choose|c: int| 0 <= c < defs@.len() && (#[trigger] defs@[c]).identity == x && forall|j: int| 0 <= j < c ==> (#[trigger] defs@[j]).identity != x;
                if c < i {
                } else if c > i {
                    assert(defs@[i as int].identity == x);
                }
                assert(c == i);
            }
            return r;
        }
    }
    let mut r = String::new();
    r.append("definition ");
    let n = number(x.0 as usize);
    r.append(n.as_str());
    r
}

/// Numbers written out, a comma between each.
fn list_numbers(at: &Vec<u32>) -> (r: String)
    ensures
        r@ == listed(at@),
{
    let mut words: Vec<String> = Vec::new();
    for i in 0..at.len()
        invariant
            words@.len() == i,
            forall|k: int| 0 <= k < i ==> (#[trigger] words@[k])@ == decimal(at@[k] as nat),
    {
        words.push(number(at[i] as usize));
    }
    assert(crate::text::views(words@) =~= at@.map_values(|n: u32| decimal(n as nat)));
    crate::text::join(&words, ", ")
}

/// One of our own findings, worded. Names are looked up here so five findings of one kind
/// can be told apart.
pub fn told(found: &Diagnostic, definitions: &Vec<model::Definition>) -> (r: Warning)
    ensures
        r@ == told_spec(found@, definitions@),
{
    let (impact, message) = match found {
        Diagnostic::Unattributed { file, lines, at } => {
            let mut m = file.clone();
            m.append(": ");
            m.append(number(*lines).as_str());
            m.append(" changed line");
            if *lines == 1 {
                m.append("");
            } else {
                m.append("s");
            }
            m.append(" belong to no definition, around line ");
            m.append(list_numbers(at).as_str());
            (Impact::Incomplete, m)
        },
        Diagnostic::UnboundInContract { definition, symbol } => {
            let mut m = symbol.clone();
            m.append(" appears where callers of ");
            m.append(name_of(definitions, *definition).as_str());
            m.append(" can see it, but nothing could say what it refers to");
            (Impact::Incomplete, m)
        },
        Diagnostic::MentionFromNowhere { from } => {
            let mut m = String::new();
            m.append("a mention came from ");
            m.append(from.written().as_str());
            m.append(", which was never reported");
            (Impact::Incomplete, m)
        },
        Diagnostic::Tangled { definition, at } => {
            let mut m = definition.written();
            m.append(" was handed over with two of its pieces covering the same text, around byte ");
            m.append(number(*at as usize).as_str());
            m.append(" \u{2014} so a line of it is shown twice, and read as two different kinds of change");
            (Impact::Incomplete, m)
        },
        Diagnostic::TwoOfOneName { locator, times } => {
            let mut m = number(*times);
            m.append(" definitions are called ");
            m.append(locator.written().as_str());
            m.append(", so only one of them could be followed from one side to the other");
            (Impact::Incomplete, m)
        },
        Diagnostic::LopsidedContract { definition } => {
            let mut m = name_of(definitions, *definition);
            m.append(
                ": the compiler described one side of this and not the other, so the signature as written was compared instead",
            );
            (Impact::Degraded, m)
        },
    };
    Warning { impact, message, about: found.about() }
}


// ---------------------------------------------------------------------------------------
// Edges between what's drawn.

/// What `a` mentions, in the order mentioned. A mention counts if it was there in either
/// snapshot, so that a deleted definition still hangs off whatever it used to call.
pub open spec fn deps_of(refs: Seq<Reference>, a: Identity) -> Seq<Identity>
    decreases refs.len(),
{
    if refs.len() == 0 {
        Seq::empty()
    } else {
        let r = refs.last();
        deps_of(refs.drop_last(), a) + match r.to {
            Target::Known(to) => if r.from == a && to != a { seq![to] } else { Seq::empty() },
            Target::Unknown { .. } => Seq::empty(),
        }
    }
}

/// Keys in strictly increasing order.
pub open spec fn keyed(m: Seq<(Identity, Vec<Identity>)>) -> bool {
    forall|i: int, j: int| 0 <= i < j < m.len() ==> m[i].0.0 < m[j].0.0
}

/// The list is what each definition mentions, keyed by the one mentioning.
pub open spec fn mentions_map(m: Seq<(Identity, Vec<Identity>)>, refs: Seq<Reference>) -> bool {
    &&& keyed(m)
    &&& forall|k: int| 0 <= k < m.len() ==> (#[trigger] m[k]).1@ == deps_of(refs, m[k].0) && m[k].1@.len() > 0
    &&& forall|a: Identity| #[trigger] deps_of(refs, a).len() > 0 ==> exists|k: int| 0 <= k < m.len() && (#[trigger] m[k]).0 == a
}

/// What each definition mentions, keyed by the one mentioning, in order of identity.
fn dependencies(references: &Vec<Reference>) -> (r: Vec<(Identity, Vec<Identity>)>)
    ensures
        mentions_map(r@, references@),
{
    let ghost rs = references@;
    let mut out: Vec<(Identity, Vec<Identity>)> = Vec::new();
    for i in 0..references.len()
        invariant
            rs == references@,
            mentions_map(out@, rs.subrange(0, i as int)),
    {
        let ghost was = out@;
        let ghost prefix = rs.subrange(0, i as int);
        let ghost next = rs.subrange(0, i + 1);
        assert(next.drop_last() =~= prefix);
        let from = references[i].from;
        let mut added = false;
        match &references[i].to {
            Target::Known(to) => {
                if *to != from {
                    let to = *to;
                    added = true;
                    let mut k: usize = 0;
                    while k < out.len() && out[k].0.0 < from.0
                        invariant
                            out@ == was,
                            k <= out@.len(),
                            forall|x: int| 0 <= x < k ==> (#[trigger] out@[x]).0.0 < from.0,
                        decreases out@.len() - k,
                    {
                        k = k + 1;
                    }
                    if k < out.len() && out[k].0 == from {
                        out[k].1.push(to);
                        proof {
                            assert forall|x: int| 0 <= x < out@.len() implies (#[trigger] out@[x]).1@ == deps_of(next, out@[x].0) && out@[x].1@.len() > 0 by {
                                if x != k {
                                    assert(out@[x] == was[x]);
                                }
                            }
                            assert forall|a: Identity| #[trigger] deps_of(next, a).len() > 0 implies exists|x: int| 0 <= x < out@.len() && (#[trigger] out@[x]).0 == a by {
                                if a == from {
                                    assert(out@[k as int].0 == a);
                                } else {
                                    assert(deps_of(next, a) == deps_of(prefix, a));
                                    let x = choose|x: int| 0 <= x < was.len() && (#[trigger] was[x]).0 == a;
                                    assert(out@[x].0 == a);
                                }
                            }
                        }
                    } else {
                        let mut one: Vec<Identity> = Vec::new();
                        one.push(to);
                        out.insert(k, (from, one));
                        proof {
                            was.insert_ensures(k as int, (from, one));
                            if k < was.len() {
                                assert(was[k as int].0 != from);
                                assert(was[k as int].0.0 != from.0);
                            }
                            assert forall|x: int, y: int| 0 <= x < y < out@.len() implies out@[x].0.0 < out@[y].0.0 by {
                                if x > k as int {
                                    assert(out@[x] == was[x - 1]);
                                }
                                if y > k as int {
                                    assert(out@[y] == was[y - 1]);
                                }
                            }
                            assert(deps_of(prefix, from).len() == 0) by {
                                if deps_of(prefix, from).len() > 0 {
                                    let x = choose|x: int| 0 <= x < was.len() && (#[trigger] was[x]).0 == from;
                                    if x < k {
                                        assert(was[x].0.0 < from.0);
                                    } else {
                                        assert(was[x].0.0 >= was[k as int].0.0);
                                    }
                                }
                            }
                            assert forall|x: int| 0 <= x < out@.len() implies (#[trigger] out@[x]).1@ == deps_of(next, out@[x].0) && out@[x].1@.len() > 0 by {
                                if x < k {
                                    assert(out@[x] == was[x]);
                                } else if x > k {
                                    assert(out@[x] == was[x - 1]);
                                } else {
                                    assert(deps_of(prefix, from) =~= Seq::<Identity>::empty());
                                    assert(out@[x].1@ =~= deps_of(next, from));
                                }
                            }
                            assert forall|a: Identity| #[trigger] deps_of(next, a).len() > 0 implies exists|x: int| 0 <= x < out@.len() && (#[trigger] out@[x]).0 == a by {
                                if a == from {
                                    assert(out@[k as int].0 == a);
                                } else {
                                    assert(deps_of(next, a) == deps_of(prefix, a));
                                    let x = choose|x: int| 0 <= x < was.len() && (#[trigger] was[x]).0 == a;
                                    if x < k {
                                        assert(out@[x].0 == a);
                                    } else {
                                        assert(out@[x + 1].0 == a);
                                    }
                                }
                            }
                        }
                    }
                }
            },
            Target::Unknown { .. } => {},
        }
        proof {
            if !added {
                assert(out@ == was);
                assert forall|a: Identity| deps_of(next, a) == deps_of(prefix, a) by {}
            }
        }
    }
    assert(rs.subrange(0, rs.len() as int) =~= rs);
    out
}

/// What `a` mentions, going by a list keyed by the one mentioning.
fn mentions_of(m: &Vec<(Identity, Vec<Identity>)>, a: Identity, Ghost(refs): Ghost<Seq<Reference>>) -> (r: Vec<Identity>)
    requires
        mentions_map(m@, refs),
    ensures
        r@ == deps_of(refs, a),
{
    for k in 0..m.len()
        invariant
            mentions_map(m@, refs),
            forall|x: int| 0 <= x < k ==> (#[trigger] m@[x]).0 != a,
    {
        if m[k].0 == a {
            let held = &m[k].1;
            let mut r: Vec<Identity> = Vec::new();
            for j in 0..held.len()
                invariant
                    r@ == held@.subrange(0, j as int),
            {
                r.push(held[j]);
                assert(held@.subrange(0, j + 1) =~= held@.subrange(0, j as int).push(held@[j as int]));
            }
            assert(held@.subrange(0, held@.len() as int) =~= held@);
            return r;
        }
    }
    proof {
        if deps_of(refs, a).len() > 0 {
            let x = choose|x: int| 0 <= x < m@.len() && (#[trigger] m@[x]).0 == a;
        }
    }
    Vec::new()
}


/// `p` runs from its first definition to its last through mentions, passing only through
/// definitions the reader won't see.
pub open spec fn hidden_way(refs: Seq<Reference>, shown: Seq<Identity>, p: Seq<Identity>) -> bool {
    &&& p.len() >= 2
    &&& forall|i: int| #![trigger p[i]] 0 <= i < p.len() - 1 ==> deps_of(refs, p[i]).contains(p[i + 1])
    &&& forall|i: int| 0 < i < p.len() - 1 ==> !shown.contains(#[trigger] p[i])
}

/// `to` is drawn joined to `from`: the reader sees it, and `from` mentions it directly or
/// through definitions the reader won't see.
pub open spec fn joins(refs: Seq<Reference>, shown: Seq<Identity>, from: Identity, to: Identity) -> bool {
    &&& shown.contains(to)
    &&& to != from
    &&& reaches(refs, shown, from, to)
}

/// Some hidden way runs from `from` to `to`.
pub open spec fn reaches(refs: Seq<Reference>, shown: Seq<Identity>, from: Identity, to: Identity) -> bool {
    exists|p: Seq<Identity>| #[trigger] hidden_way(refs, shown, p) && p[0] == from && p.last() == to
}

/// Every definition a mention can point at, and one more.
spec fn pool(refs: Seq<Reference>, from: Identity) -> Seq<Identity> {
    refs.map_values(|r: Reference| match r.to {
        Target::Known(v) => v,
        Target::Unknown { .. } => from,
    }).push(from)
}

proof fn lemma_pool(refs: Seq<Reference>, from: Identity, a: Identity, v: Identity)
    requires
        deps_of(refs, a).contains(v),
    ensures
        pool(refs, from).contains(v),
    decreases refs.len(),
{
    let rest = refs.drop_last();
    if deps_of(rest, a).contains(v) {
        lemma_pool(rest, from, a, v);
        let k = choose|k: int| 0 <= k < pool(rest, from).len() && pool(rest, from)[k] == v;
        if k < rest.len() {
            assert(pool(refs, from)[k] == v);
        } else {
            assert(pool(refs, from)[refs.len() as int] == v);
        }
    } else {
        assert(pool(refs, from)[refs.len() - 1] == v);
    }
}

/// A list with nothing twice, drawn from a pool, is no longer than the pool.
proof fn lemma_bounded(seen: Seq<Identity>, p: Seq<Identity>)
    requires
        seen.no_duplicates(),
        forall|i: int| 0 <= i < seen.len() ==> p.contains(#[trigger] seen[i]),
    ensures
        seen.len() <= p.len(),
{
    broadcast use vstd::seq_lib::seq_to_set_is_finite;
    seen.unique_seq_to_set();
    p.lemma_cardinality_of_set();
    assert(seen.to_set().subset_of(p.to_set())) by {
        assert forall|x: Identity| seen.to_set().contains(x) implies p.to_set().contains(x) by {
            let i = choose|i: int| 0 <= i < seen.len() && seen[i] == x;
            assert(p.contains(seen[i]));
        }
    }
    vstd::set_lib::lemma_len_subset(seen.to_set(), p.to_set());
}

/// Whether a list of identities holds `x`.
pub(crate) fn holds(v: &Vec<Identity>, x: Identity) -> (r: bool)
    ensures
        r == v@.contains(x),
{
    for i in 0..v.len()
        invariant
            forall|k: int| 0 <= k < i ==> v@[k] != x,
    {
        if v[i] == x {
            return true;
        }
    }
    false
}

/// What some mentions add to what has been met: each not met yet, once, in order.
pub open spec fn fresh(seen: Seq<Identity>, deps: Seq<Identity>) -> Seq<Identity>
    decreases deps.len(),
{
    if deps.len() == 0 {
        Seq::empty()
    } else {
        let prev = fresh(seen, deps.drop_last());
        if (seen + prev).contains(deps.last()) { prev } else { prev.push(deps.last()) }
    }
}

/// The walk outward from `from`, breadth first: from position `head` of what has been met,
/// each definition the reader won't see has what it mentions met in turn, for at most
/// `fuel` more steps.
pub open spec fn bfs(refs: Seq<Reference>, shown: Seq<Identity>, from: Identity, q: Seq<Identity>, head: int, fuel: nat) -> Seq<Identity>
    decreases fuel,
{
    if fuel == 0 || head < 0 || head >= q.len() {
        q
    } else {
        let node = q[head];
        let q2 = if shown.contains(node) { q } else { q + fresh(seq![from] + q, deps_of(refs, node)) };
        bfs(refs, shown, from, q2, head + 1, (fuel - 1) as nat)
    }
}

/// Everything met walking outward from `from`, in the order met: what `from` mentions first,
/// then what each of those the reader won't see mentions, and so on.
pub open spec fn met(refs: Seq<Reference>, shown: Seq<Identity>, from: Identity) -> Seq<Identity> {
    bfs(refs, shown, from, fresh(seq![from], deps_of(refs, from)), 0, (refs.len() + 1) as nat)
}

/// Of what was met, what the reader sees, in order.
pub open spec fn drawn_of(q: Seq<Identity>, shown: Seq<Identity>) -> Seq<Identity>
    decreases q.len(),
{
    if q.len() == 0 {
        Seq::empty()
    } else {
        drawn_of(q.drop_last(), shown) + if shown.contains(q.last()) { seq![q.last()] } else { Seq::empty() }
    }
}

/// What `from` is drawn joined to, nearest first: met breadth first, as the walk outward
/// meets them.
pub open spec fn joined_list(refs: Seq<Reference>, shown: Seq<Identity>, from: Identity) -> Seq<Identity> {
    drawn_of(met(refs, shown, from), shown)
}

/// Every edge, one definition after another, each one's in the order its walk meets them.
pub open spec fn all_edges(refs: Seq<Reference>, shown: Seq<Identity>, upto: int) -> Seq<Edge>
    decreases upto,
{
    if upto <= 0 {
        Seq::empty()
    } else {
        all_edges(refs, shown, upto - 1) + joined_list(refs, shown, shown[upto - 1]).map_values(|t: Identity| Edge { from: shown[upto - 1], to: t })
    }
}

/// What `from` is drawn joined to, each once, nearest first.
#[verifier::rlimit(50)]
#[verifier::spinoff_prover]
fn joined_to(
    m: &Vec<(Identity, Vec<Identity>)>,
    shown: &Vec<Identity>,
    from: Identity,
    Ghost(refs): Ghost<Seq<Reference>>,
) -> (r: Vec<Identity>)
    requires
        mentions_map(m@, refs),
        shown@.contains(from),
    ensures
        r@.no_duplicates(),
        forall|t: Identity| #[trigger] r@.contains(t) <==> joins(refs, shown@, from, t),
        r@ == joined_list(refs, shown@, from),
{
    // Everything met so far is `from` and then the queue, in the order met.
    let mut seen: Vec<Identity> = Vec::new();
    seen.push(from);
    let mut queue: Vec<Identity> = Vec::new();
    let mut found: Vec<Identity> = Vec::new();
    let mut head: usize = 0;
    let ghost hp = pool(refs, from);
    let ghost start = seq![from];
    // Whatever `from` mentions comes first.
    let first = mentions_of(m, from, Ghost(refs));
    assert(hp[hp.len() - 1] == from);
    assert(seen@ =~= seq![from] + queue@);
    for j in 0..first.len()
        invariant
            first@ == deps_of(refs, from),
            seen@ == seq![from] + queue@,
            seen@.no_duplicates(),
            forall|i: int| 0 <= i < seen@.len() ==> hp.contains(#[trigger] seen@[i]),
            forall|k: int| 0 <= k < queue@.len() ==> reaches(refs, shown@, from, #[trigger] queue@[k]),
            forall|x: int| 0 <= x < j ==> seen@.contains(#[trigger] first@[x]),
            hp == pool(refs, from),
            queue@ == fresh(seq![from], first@.take(j as int)),
    {
        let v = first[j];
        assert(first@.take(j + 1).drop_last() =~= first@.take(j as int));
        assert(first@.take(j + 1).last() == v);
        if !holds(&seen, v) {
            proof {
                assert(deps_of(refs, from).contains(v));
                lemma_pool(refs, from, from, v);
                let p = seq![from, v];
                assert(p[0] == from);
                assert(hidden_way(refs, shown@, p));
            }
            let ghost was = seen@;
            seen.push(v);
            queue.push(v);
            proof {
                assert(seen@ =~= seq![from] + queue@);
                assert forall|x: int| 0 <= x < j + 1 implies seen@.contains(#[trigger] first@[x]) by {
                    if x < j {
                        let k = choose|k: int| 0 <= k < was.len() && was[k] == first@[x];
                        assert(seen@[k] == first@[x]);
                    } else {
                        assert(seen@[was.len() as int] == v);
                    }
                }
                assert forall|i: int| 0 <= i < seen@.len() implies hp.contains(#[trigger] seen@[i]) by {
                    if i < was.len() {
                        assert(seen@[i] == was[i]);
                    }
                }
            }
        }
    }
    assert(first@.take(first@.len() as int) =~= first@);
    while head < queue.len()
        invariant
            mentions_map(m@, refs),
            shown@.contains(from),
            hp == pool(refs, from),
            seen@ == seq![from] + queue@,
            seen@.no_duplicates(),
            forall|i: int| 0 <= i < seen@.len() ==> hp.contains(#[trigger] seen@[i]),
            head <= queue@.len(),
            forall|k: int| 0 <= k < queue@.len() ==> reaches(refs, shown@, from, #[trigger] queue@[k]),
            forall|v: Identity| #[trigger] deps_of(refs, from).contains(v) ==> seen@.contains(v),
            forall|k: int, v: Identity| 0 <= k < head && !shown@.contains(queue@[k]) && #[trigger] deps_of(refs, queue@[k]).contains(v) ==> seen@.contains(v),
            found@.no_duplicates(),
            forall|t: Identity| #[trigger] found@.contains(t) <==> exists|k: int| 0 <= k < head && queue@[k] == t && shown@.contains(t),
            bfs(refs, shown@, from, queue@, head as int, (refs.len() + 1 - head) as nat) == met(refs, shown@, from),
            found@ == drawn_of(queue@.take(head as int), shown@),
            head <= refs.len() + 1,
        decreases refs.len() + 1 - head,
    {
        proof {
            lemma_bounded(seen@, hp);
        }
        let ghost qa = queue@;
        let ghost fuel = (refs.len() + 1 - head) as nat;
        assert(qa.take(head + 1).drop_last() =~= qa.take(head as int));
        let node = queue[head];
        let ghost h0: int = head as int;
        head = head + 1;
        if holds(shown, node) {
            let ghost was = found@;
            proof {
                if was.contains(node) {
                    let k = choose|k: int| 0 <= k < h0 && queue@[k] == node && shown@.contains(node);
                    assert(seen@[k + 1] == seen@[h0 + 1]);
                }
            }
            found.push(node);
            proof {
                assert(qa.take(head as int).last() == node);
                assert(found@ =~= drawn_of(queue@.take(head as int), shown@));
                assert forall|t: Identity| #[trigger] found@.contains(t) <==> exists|k: int| 0 <= k < head && queue@[k] == t && shown@.contains(t) by {
                    lemma_vec_push_contains(was, node, t);
                    if exists|k: int| 0 <= k < head && queue@[k] == t && shown@.contains(t) {
                        let k = choose|k: int| 0 <= k < head && queue@[k] == t && shown@.contains(t);
                        if k < h0 {
                            assert(was.contains(t));
                        }
                    }
                    if was.contains(t) {
                        let k = choose|k: int| 0 <= k < h0 && queue@[k] == t && shown@.contains(t);
                        assert(0 <= k < head);
                    }
                }
            }
        } else {
            let next = mentions_of(m, node, Ghost(refs));
            let ghost q0 = queue@;
            let ghost s0 = seen@;
            for j in 0..next.len()
                invariant
                    queue@ == q0 + fresh(seq![from] + q0, next@.take(j as int)),
                    next@ == deps_of(refs, node),
                    node == q0[h0],
                    0 <= h0 < q0.len(),
                    head == h0 + 1,
                    !shown@.contains(node),
                    shown@.contains(from),
                    hp == pool(refs, from),
                    seen@ == seq![from] + queue@,
                    seen@.no_duplicates(),
                    forall|i: int| 0 <= i < seen@.len() ==> hp.contains(#[trigger] seen@[i]),
                    queue@.len() >= q0.len(),
                    forall|k: int| 0 <= k < q0.len() ==> (#[trigger] queue@[k]) == q0[k],
                    forall|k: int| 0 <= k < queue@.len() ==> reaches(refs, shown@, from, #[trigger] queue@[k]),
                    forall|v: Identity| s0.contains(v) ==> #[trigger] seen@.contains(v),
                    forall|x: int| 0 <= x < j ==> seen@.contains(#[trigger] next@[x]),
            {
                let v = next[j];
                assert(next@.take(j + 1).drop_last() =~= next@.take(j as int));
                assert(next@.take(j + 1).last() == v);
                assert(seq![from] + q0 + fresh(seq![from] + q0, next@.take(j as int)) =~= seen@);
                if !holds(&seen, v) {
                    proof {
                        lemma_pool(refs, from, node, v);
                        assert(queue@[h0] == node);
                        assert(reaches(refs, shown@, from, queue@[h0]));
                        let p0 = choose|p: Seq<Identity>| #[trigger] hidden_way(refs, shown@, p) && p[0] == from && p.last() == queue@[h0];
                        assert(p0.last() == node);
                        let p = p0.push(v);
                        assert forall|i: int| #![trigger p[i]] 0 <= i < p.len() - 1 implies deps_of(refs, p[i]).contains(p[i + 1]) by {
                            if i < p0.len() - 1 {
                                assert(p[i] == p0[i] && p[i + 1] == p0[i + 1]);
                            } else {
                                assert(p[i] == node);
                                assert(deps_of(refs, node).contains(v));
                            }
                        }
                        assert forall|i: int| 0 < i < p.len() - 1 implies !shown@.contains(#[trigger] p[i]) by {
                            if i < p0.len() - 1 {
                                assert(p[i] == p0[i]);
                            } else {
                                assert(p[i] == node);
                            }
                        }
                        assert(hidden_way(refs, shown@, p) && p[0] == from && p.last() == v);
                    }
                    let ghost was = seen@;
                    seen.push(v);
                    queue.push(v);
                    proof {
                        assert(seen@ =~= seq![from] + queue@);
                        assert forall|x: int| 0 <= x < j + 1 implies seen@.contains(#[trigger] next@[x]) by {
                            if x < j {
                                let k = choose|k: int| 0 <= k < was.len() && was[k] == next@[x];
                                assert(seen@[k] == next@[x]);
                            } else {
                                assert(seen@[was.len() as int] == v);
                            }
                        }
                        assert forall|i: int| 0 <= i < seen@.len() implies hp.contains(#[trigger] seen@[i]) by {
                            if i < was.len() {
                                assert(seen@[i] == was[i]);
                            }
                        }
                        assert forall|w: Identity| s0.contains(w) implies #[trigger] seen@.contains(w) by {
                            assert(was.contains(w));
                            let k = choose|k: int| 0 <= k < was.len() && was[k] == w;
                            assert(seen@[k] == w);
                        }
                    }
                }
            }
            proof {
                assert(next@.take(next@.len() as int) =~= next@);
                assert(queue@.take(head as int) =~= q0.take(head as int));
                assert(qa.take(head as int).last() == node);
                assert(drawn_of(queue@.take(head as int), shown@) == drawn_of(q0.take(h0), shown@));
                assert forall|k: int, v: Identity| 0 <= k < head && !shown@.contains(queue@[k]) && #[trigger] deps_of(refs, queue@[k]).contains(v) implies seen@.contains(v) by {
                    if k < h0 {
                        assert(queue@[k] == q0[k]);
                        assert(s0.contains(v));
                    } else {
                        assert(queue@[k] == node);
                        let x = choose|x: int| 0 <= x < next@.len() && next@[x] == v;
                        assert(seen@.contains(next@[x]));
                    }
                }
                assert forall|t: Identity| #[trigger] found@.contains(t) <==> exists|k: int| 0 <= k < head && queue@[k] == t && shown@.contains(t) by {
                    if exists|k: int| 0 <= k < head && queue@[k] == t && shown@.contains(t) {
                        let k = choose|k: int| 0 <= k < head && queue@[k] == t && shown@.contains(t);
                        assert(k < h0);
                        assert(queue@[k] == q0[k]);
                    }
                    if found@.contains(t) {
                        let k = choose|k: int| 0 <= k < h0 && q0[k] == t && shown@.contains(t);
                        assert(queue@[k] == q0[k]);
                    }
                }
            }
        }
    }
    proof {
        assert forall|t: Identity| #[trigger] found@.contains(t) <==> joins(refs, shown@, from, t) by {
            if found@.contains(t) {
                let k = choose|k: int| 0 <= k < head && queue@[k] == t && shown@.contains(t);
                assert(seen@[k + 1] == t);
                assert(seen@[0] == from);
            }
            if joins(refs, shown@, from, t) {
                let p = choose|p: Seq<Identity>| #[trigger] hidden_way(refs, shown@, p) && p[0] == from && p.last() == t;
                lemma_way_seen(refs, shown@, p, seen@, queue@, from, p.len() - 1);
                assert(seen@.contains(t));
                let i = choose|i: int| 0 <= i < seen@.len() && seen@[i] == t;
                assert(i != 0);
                assert(queue@[i - 1] == t);
            }
        }
        assert(queue@.take(head as int) =~= queue@);
    }
    found
}

/// Whatever a hidden way reaches from `from` has been met, once every definition met
/// that the reader won't see has had its mentions followed.
proof fn lemma_way_seen(
    refs: Seq<Reference>,
    shown: Seq<Identity>,
    p: Seq<Identity>,
    seen: Seq<Identity>,
    queue: Seq<Identity>,
    from: Identity,
    i: int,
)
    requires
        hidden_way(refs, shown, p),
        p[0] == from,
        shown.contains(from),
        0 <= i < p.len(),
        seen == seq![from] + queue,
        forall|v: Identity| #[trigger] deps_of(refs, from).contains(v) ==> seen.contains(v),
        forall|k: int, v: Identity| 0 <= k < queue.len() && !shown.contains(queue[k]) && #[trigger] deps_of(refs, queue[k]).contains(v) ==> seen.contains(v),
    ensures
        seen.contains(p[i]),
    decreases i,
{
    if i == 0 {
        assert(seen[0] == from);
    } else {
        lemma_way_seen(refs, shown, p, seen, queue, from, i - 1);
        assert(deps_of(refs, p[i - 1]).contains(p[i]));
        if i - 1 == 0 {
        } else {
            assert(!shown.contains(p[i - 1]));
            let k = choose|k: int| 0 <= k < seen.len() && seen[k] == p[i - 1];
            assert(k != 0);
            assert(queue[k - 1] == p[i - 1]);
        }
    }
}

pub(crate) proof fn lemma_vec_push_contains(s: Seq<Identity>, x: Identity, y: Identity)
    ensures
        s.push(x).contains(y) == (s.contains(y) || y == x),
{
    if s.push(x).contains(y) {
        let k = choose|k: int| 0 <= k < s.push(x).len() && s.push(x)[k] == y;
        if k < s.len() {
            assert(s[k] == y);
        }
    }
    if s.contains(y) {
        let k = choose|k: int| 0 <= k < s.len() && s[k] == y;
        assert(s.push(x)[k] == y);
    }
    if y == x {
        assert(s.push(x)[s.len() as int] == y);
    }
}


/// Identities in strictly increasing order.
pub open spec fn ascending(s: Seq<Identity>) -> bool {
    forall|i: int, j: int| 0 <= i < j < s.len() ==> s[i].0 < s[j].0
}

/// The edges between what's drawn: each runs from something drawn to something drawn
/// that it mentions directly or through definitions the reader won't see, every such
/// pair is there once, and they come in order of the definition they start from, each
/// one's in the order the walk outward from it meets them.
pub open spec fn edges_over(refs: Seq<Reference>, shown: Seq<Identity>, edges: Seq<Edge>) -> bool {
    &&& edges == all_edges(refs, shown, shown.len() as int)
    &&& forall|i: int| 0 <= i < edges.len() ==> shown.contains((#[trigger] edges[i]).from) && joins(refs, shown, edges[i].from, edges[i].to)
    &&& forall|f: Identity, t: Identity| shown.contains(f) && #[trigger] joins(refs, shown, f, t) ==> edges.contains(Edge { from: f, to: t })
    &&& edges.no_duplicates()
    &&& forall|i: int, j: int| 0 <= i < j < edges.len() ==> (#[trigger] edges[i]).from.0 <= (#[trigger] edges[j]).from.0
}

/// Walk out from each definition worth drawing, stepping over anything the reader won't
/// see, so two changed definitions joined by an untouched helper still look joined. Each
/// edge comes once; they come in order of the definition they start from, and from each,
/// breadth first, nearest first.
fn project(shown: &Vec<Identity>, references: &Vec<Reference>) -> (r: Vec<Edge>)
    requires
        ascending(shown@),
    ensures
        edges_over(references@, shown@, r@),
{
    let ghost refs = references@;
    let m = dependencies(references);
    let mut edges: Vec<Edge> = Vec::new();
    for s in 0..shown.len()
        invariant
            refs == references@,
            mentions_map(m@, refs),
            ascending(shown@),
            forall|i: int, y: int| 0 <= i < edges@.len() && s <= y < shown@.len() ==> (#[trigger] edges@[i]).from.0 < (#[trigger] shown@[y]).0,
            forall|i: int| 0 <= i < edges@.len() ==> shown@.contains((#[trigger] edges@[i]).from) && joins(refs, shown@, edges@[i].from, edges@[i].to),
            forall|x: int, t: Identity| 0 <= x < s && #[trigger] joins(refs, shown@, shown@[x], t) ==> edges@.contains(Edge { from: shown@[x], to: t }),
            edges@.no_duplicates(),
            forall|i: int, j: int| 0 <= i < j < edges@.len() ==> (#[trigger] edges@[i]).from.0 <= (#[trigger] edges@[j]).from.0,
            edges@ == all_edges(refs, shown@, s as int),
    {
        let from = shown[s];
        assert(shown@.contains(from)) by {
            assert(shown@[s as int] == from);
        }
        let list = joined_to(&m, shown, from, Ghost(refs));
        let ghost before = edges@;
        for k in 0..list.len()
            invariant
                refs == references@,
                ascending(shown@),
                from == shown@[s as int],
                shown@.contains(from),
                s < shown@.len(),
                list@.no_duplicates(),
                forall|t: Identity| #[trigger] list@.contains(t) <==> joins(refs, shown@, from, t),
                edges@.len() == before.len() + k,
                forall|i: int| 0 <= i < before.len() ==> (#[trigger] edges@[i]) == before[i],
                forall|i: int| before.len() <= i < edges@.len() ==> (#[trigger] edges@[i]) == (Edge { from, to: list@[i - before.len()] }),
                forall|i: int, y: int| 0 <= i < before.len() && s <= y < shown@.len() ==> (#[trigger] before[i]).from.0 < (#[trigger] shown@[y]).0,
                forall|i: int| 0 <= i < before.len() ==> shown@.contains((#[trigger] before[i]).from) && joins(refs, shown@, before[i].from, before[i].to),
                before.no_duplicates(),
                forall|i: int, j: int| 0 <= i < j < before.len() ==> (#[trigger] before[i]).from.0 <= (#[trigger] before[j]).from.0,
                before == all_edges(refs, shown@, s as int),
                list@ == joined_list(refs, shown@, from),
        {
            edges.push(Edge { from, to: list[k] });
        }
        proof {
            let after = edges@;
            assert(after =~= all_edges(refs, shown@, s + 1));
            assert forall|i: int| 0 <= i < before.len() implies (#[trigger] before[i]).from.0 < from.0 by {
                assert(before[i].from.0 < shown@[s as int].0);
            }
            assert forall|i: int, y: int| 0 <= i < after.len() && s + 1 <= y < shown@.len() implies (#[trigger] after[i]).from.0 < (#[trigger] shown@[y]).0 by {
                assert(shown@[s as int].0 < shown@[y].0);
                if i < before.len() {
                    assert(after[i] == before[i]);
                    assert(before[i].from.0 < shown@[y].0);
                } else {
                    assert(after[i] == (Edge { from, to: list@[i - before.len()] }));
                }
            }
            assert forall|i: int| 0 <= i < after.len() implies shown@.contains((#[trigger] after[i]).from) && joins(refs, shown@, after[i].from, after[i].to) by {
                if i < before.len() {
                    assert(after[i] == before[i]);
                } else {
                    let t = list@[i - before.len()];
                    assert(after[i] == (Edge { from, to: t }));
                    assert(list@.contains(t));
                }
            }
            assert forall|x: int, t: Identity| 0 <= x < s + 1 && #[trigger] joins(refs, shown@, shown@[x], t) implies after.contains(Edge { from: shown@[x], to: t }) by {
                if x < s {
                    assert(before.contains(Edge { from: shown@[x], to: t }));
                    let i = choose|i: int| 0 <= i < before.len() && before[i] == (Edge { from: shown@[x], to: t });
                    assert(after[i] == before[i]);
                } else {
                    assert(list@.contains(t));
                    let i = choose|i: int| 0 <= i < list@.len() && list@[i] == t;
                    assert(after[before.len() + i] == (Edge { from, to: t }));
                }
            }
            assert forall|i: int, j: int| 0 <= i < j < after.len() implies after[i] != after[j] by {
                if j < before.len() {
                    assert(after[i] == before[i] && after[j] == before[j]);
                } else if i < before.len() {
                    assert(after[i] == before[i]);
                    assert(before[i].from.0 < from.0);
                } else {
                    assert(after[i] == (Edge { from, to: list@[i - before.len()] }));
                    assert(after[j] == (Edge { from, to: list@[j - before.len()] }));
                }
            }
            assert forall|i: int, j: int| 0 <= i < j < after.len() implies (#[trigger] after[i]).from.0 <= (#[trigger] after[j]).from.0 by {
                if j < before.len() {
                    assert(after[i] == before[i] && after[j] == before[j]);
                } else if i < before.len() {
                    assert(after[i] == before[i]);
                    assert(before[i].from.0 < from.0);
                } else {
                    assert(after[i] == (Edge { from, to: list@[i - before.len()] }));
                    assert(after[j] == (Edge { from, to: list@[j - before.len()] }));
                }
            }
        }
    }
    proof {
        assert forall|f: Identity, t: Identity| shown@.contains(f) && #[trigger] joins(refs, shown@, f, t) implies edges@.contains(Edge { from: f, to: t }) by {
            let x = choose|x: int| 0 <= x < shown@.len() && shown@[x] == f;
            assert(joins(refs, shown@, shown@[x], t));
        }
    }
    edges
}


// ---------------------------------------------------------------------------------------
// What is read, and what is drawn around it.

/// `y`'s change, going by the definition that counts for it, breaks its callers.
pub open spec fn hurt(defs: Seq<model::Definition>, y: Identity) -> bool {
    exists|i: int| #[trigger] counts(defs, i) && defs[i].identity == y && classified(defs[i]@).0.breaks_callers()
}

/// Which identities break their callers.
pub open spec fn hurts(defs: Seq<model::Definition>) -> spec_fn(Identity) -> bool {
    |y: Identity| hurt(defs, y)
}

/// `x`'s own change, going by the definition that counts for it, is worth reading.
pub open spec fn worth(defs: Seq<model::Definition>, x: Identity) -> bool {
    exists|i: int| #[trigger] counts(defs, i) && defs[i].identity == x && classified(defs[i]@).0.worth_reading()
}

/// A change reaches `x` from something it depends on, within `ripples` steps.
pub open spec fn rippled(defs: Seq<model::Definition>, refs: Seq<Reference>, ripples: u32, x: Identity) -> bool {
    exists|d: int| #[trigger] reached_at(hurts(defs), refs, ripples as int, x, d)
}

/// `x` is worth reading: its own change is, or a change reached it.
pub open spec fn in_read(defs: Seq<model::Definition>, refs: Seq<Reference>, ripples: u32, x: Identity) -> bool {
    worth(defs, x) || rippled(defs, refs, ripples, x)
}

/// Index `i` counts, and its newest occurrence is called `name`.
pub open spec fn answers_to(defs: Seq<model::Definition>, i: int, name: LocatorView) -> bool {
    &&& counts(defs, i)
    &&& defs[i].sides@.latest().locator == name
}

/// Index `i` answers to `name`, with the greatest identity of all that do.
pub open spec fn answers_best_to(defs: Seq<model::Definition>, i: int, name: LocatorView) -> bool {
    &&& answers_to(defs, i, name)
    &&& forall|j: int| #[trigger] answers_to(defs, j, name) ==> defs[j].identity.0 <= defs[i].identity.0
}

/// What a name stands for: of the definitions called that, the one with the greatest
/// identity.
pub open spec fn called(defs: Seq<model::Definition>, name: LocatorView) -> Option<Identity> {
    if exists|i: int| #[trigger] answers_best_to(defs, i, name) {
        Some(defs[choose|i: int| #[trigger] answers_best_to(defs, i, name)].identity)
    } else {
        None
    }
}

/// How many steps out a reading goes: what was asked for, else what is configured, else
/// one, which is just enough to answer who breaks if this breaks.
pub fn ripples_of(asked: Option<u32>, configured: Option<u32>) -> (r: u32)
    ensures
        r == match asked {
            Some(n) => n,
            None => match configured {
                Some(n) => n,
                None => 1,
            },
        },
{
    match asked {
        Some(n) => n,
        None => match configured {
            Some(n) => n,
            None => 1,
        },
    }
}

/// What an adapter noted, as a warning. A note is always about something the adapter
/// couldn't do, so what it concerns may be missing: the file it is about, when it names
/// one, leads the message.
pub fn noted(note: &crate::protocol::Note) -> (r: Warning)
    ensures
        r.impact == Impact::Incomplete,
        r.about is None,
        r.message@ == match note.file {
            Some(f) => f@ + seq![':', ' '] + note.message@,
            None => note.message@,
        },
{
    let mut message = String::new();
    match &note.file {
        Some(f) => {
            let sep = ": ";
            proof {
                reveal_strlit(": ");
                assert(sep@ =~= seq![':', ' ']);
            }
            message.append(f.as_str());
            message.append(sep);
        },
        None => {},
    }
    message.append(note.message.as_str());
    proof {
        if note.file is None {
            assert(message@ =~= note.message@);
        }
    }
    Warning { impact: Impact::Incomplete, message, about: None }
}

/// What the newest occurrence of `x` says it is written inside, going by name.
pub open spec fn named_parent(defs: Seq<model::Definition>, x: Identity) -> Option<Identity> {
    match latest(defs, x) {
        Some(o) => match o.parent {
            Some(name) => called(defs, name),
            None => None,
        },
        None => None,
    }
}

/// The containers the names give above `x`, nearest first, for at most `fuel` levels.
pub open spec fn named_lifts(defs: Seq<model::Definition>, x: Identity, fuel: nat) -> Seq<Identity>
    decreases fuel,
{
    if fuel == 0 {
        Seq::empty()
    } else {
        match named_parent(defs, x) {
            Some(p) => seq![p] + named_lifts(defs, p, (fuel - 1) as nat),
            None => Seq::empty(),
        }
    }
}

/// What `x` is written inside: the container its name gives, unless that container is `x`
/// itself or leads back to it. Nothing is written inside itself, however the extractors
/// describe it.
pub open spec fn parent_spec(defs: Seq<model::Definition>, x: Identity) -> Option<Identity> {
    match named_parent(defs, x) {
        Some(p) => if p == x || named_lifts(defs, p, defs.len()).contains(x) {
            None
        } else {
            Some(p)
        },
        None => None,
    }
}

/// The containers above `x`, nearest first, for at most `fuel` levels.
pub open spec fn lifts(defs: Seq<model::Definition>, x: Identity, fuel: nat) -> Seq<Identity>
    decreases fuel,
{
    if fuel == 0 {
        Seq::empty()
    } else {
        match parent_spec(defs, x) {
            Some(p) => seq![p] + lifts(defs, p, (fuel - 1) as nat),
            None => Seq::empty(),
        }
    }
}

/// `y` is drawn: it is worth reading, or holds something that is. A chain of containers
/// can't be longer than what was handed over, so it is followed no further than that.
pub open spec fn drawn(defs: Seq<model::Definition>, refs: Seq<Reference>, ripples: u32, y: Identity) -> bool {
    exists|r: Identity| #[trigger] in_read(defs, refs, ripples, r) && (y == r || lifts(defs, r, defs.len()).contains(y))
}

/// The change is what happened to a definition that counts.
pub open spec fn came_from(defs: Seq<model::Definition>, e: (Identity, Change)) -> bool {
    exists|i: int| #[trigger] counts(defs, i) && defs[i].identity == e.0 && e.1@ == classified(defs[i]@).0
}

/// Some change in the list is about `x`.
pub open spec fn names(changes: Seq<(Identity, Change)>, x: Identity) -> bool {
    exists|k: int| 0 <= k < changes.len() && (#[trigger] changes[k]).0 == x
}

/// The list holds what happened to each definition that counts, and nothing else.
pub open spec fn counted(defs: Seq<model::Definition>, changes: Seq<(Identity, Change)>) -> bool {
    &&& forall|k: int| 0 <= k < changes.len() ==> #[trigger] came_from(defs, changes[k])
    &&& forall|i: int| #[trigger] counts(defs, i) ==> names(changes, defs[i].identity)
}

/// The diagnostics the compiler's lopsidedness gives, in the order handed over.
pub open spec fn lopsided_all(defs: Seq<model::Definition>) -> Seq<DiagnosticView>
    decreases defs.len(),
{
    if defs.len() == 0 {
        Seq::empty()
    } else {
        lopsided_all(defs.drop_last()) + match classified(defs.last()@).1 {
            Some(d) => seq![d],
            None => Seq::empty(),
        }
    }
}

/// What happened to each definition that counts, and each lopsided finding.
fn classify_all(defs: &Vec<model::Definition>) -> (r: (Vec<(Identity, Change)>, Vec<Diagnostic>))
    ensures
        counted(defs@, r.0@),
        crate::diagnostic::diagnostic_views(r.1@) == lopsided_all(defs@),
{
    let mut changes: Vec<(Identity, Change)> = Vec::new();
    let mut found: Vec<Diagnostic> = Vec::new();
    for i in 0..defs.len()
        invariant
            forall|k: int| 0 <= k < changes@.len() ==> #[trigger] came_from(defs@, changes@[k]),
            forall|c: int| 0 <= c < i && #[trigger] counts(defs@, c) ==> names(changes@, defs@[c].identity),
            crate::diagnostic::diagnostic_views(found@) == lopsided_all(defs@.subrange(0, i as int)),
    {
        let (change, lop) = classify(&defs[i]);
        assert(defs@.subrange(0, i + 1).drop_last() =~= defs@.subrange(0, i as int));
        match lop {
            Some(d) => {
                found.push(d);
            },
            None => {},
        }
        assert(crate::diagnostic::diagnostic_views(found@) =~= lopsided_all(defs@.subrange(0, i + 1)));
        if crate::order::counts_exec(defs, i) {
            let ghost was = changes@;
            changes.push((defs[i].identity, change));
            proof {
                assert forall|k: int| 0 <= k < changes@.len() implies #[trigger] came_from(defs@, changes@[k]) by {
                    if k < was.len() {
                        assert(changes@[k] == was[k]);
                        assert(came_from(defs@, was[k]));
                    } else {
                        assert(counts(defs@, i as int));
                    }
                }
                assert forall|c: int| 0 <= c < i + 1 && #[trigger] counts(defs@, c) implies names(changes@, defs@[c].identity) by {
                    if c < i {
                        assert(names(was, defs@[c].identity));
                        let k = choose|k: int| 0 <= k < was.len() && (#[trigger] was[k]).0 == defs@[c].identity;
                        assert(changes@[k] == was[k]);
                    } else {
                        assert(changes@[was.len() as int].0 == defs@[c].identity);
                    }
                }
            }
        }
    }
    assert(defs@.subrange(0, defs@.len() as int) =~= defs@);
    (changes, found)
}

/// Counting changes say the same breaks as the definitions they came from.
proof fn lemma_counted_breaks(defs: Seq<model::Definition>, changes: Seq<(Identity, Change)>)
    requires
        counted(defs, changes),
    ensures
        breaks(changes) == hurts(defs),
{
    assert forall|y: Identity| broken(changes, y) == hurt(defs, y) by {
        if broken(changes, y) {
            let k = choose|k: int| 0 <= k < changes.len() && (#[trigger] changes[k]).0 == y && changes[k].1@.breaks_callers();
            assert(came_from(defs, changes[k]));
            let c = choose|c: int| #[trigger] counts(defs, c) && defs[c].identity == changes[k].0 && changes[k].1@ == classified(defs[c]@).0;
        }
        if hurt(defs, y) {
            let c = choose|c: int| #[trigger] counts(defs, c) && defs[c].identity == y && classified(defs[c]@).0.breaks_callers();
            assert(names(changes, defs[c].identity));
            let k = choose|k: int| 0 <= k < changes.len() && (#[trigger] changes[k]).0 == defs[c].identity;
            assert(came_from(defs, changes[k]));
            let c2 = choose|c2: int| #[trigger] counts(defs, c2) && defs[c2].identity == changes[k].0 && changes[k].1@ == classified(defs[c2]@).0;
            crate::order::lemma_counts_unique(defs, c, c2);
        }
    }
    assert(breaks(changes) =~= hurts(defs));
}

/// Adds an identity to a list kept in increasing order, where it isn't there already.
fn add_id(v: &mut Vec<Identity>, x: Identity)
    requires
        ascending(old(v)@),
    ensures
        ascending(final(v)@),
        forall|y: Identity| #[trigger] final(v)@.contains(y) <==> (old(v)@.contains(y) || y == x),
{
    let ghost before = v@;
    let mut i: usize = 0;
    while i < v.len() && v[i].0 < x.0
        invariant
            i <= v@.len(),
            v@ == before,
            forall|k: int| 0 <= k < i ==> (#[trigger] before[k]).0 < x.0,
        decreases v@.len() - i,
    {
        i = i + 1;
    }
    if i < v.len() && v[i] == x {
        return;
    }
    v.insert(i, x);
    proof {
        let now = v@;
        before.insert_ensures(i as int, x);
        if i < before.len() {
            assert(before[i as int] != x);
            assert(before[i as int].0 != x.0);
        }
        assert forall|a: int, b: int| 0 <= a < b < now.len() implies now[a].0 < now[b].0 by {
            if a > i as int {
                assert(now[a] == before[a - 1]);
            }
            if b > i as int {
                assert(now[b] == before[b - 1]);
            }
        }
        assert forall|y: Identity| #[trigger] now.contains(y) <==> (before.contains(y) || y == x) by {
            if now.contains(y) {
                let k = choose|k: int| 0 <= k < now.len() && now[k] == y;
                if k > i as int {
                    assert(now[k] == before[k - 1]);
                }
            }
            if before.contains(y) {
                let k = choose|k: int| 0 <= k < before.len() && before[k] == y;
                if k < i {
                    assert(now[k] == y);
                } else {
                    assert(now[k + 1] == y);
                }
            }
            if y == x {
                assert(now[i as int] == y);
            }
        }
    }
}


/// The members worth reading, in order of identity.
fn read_list(
    changes: &Vec<(Identity, Change)>,
    reached: &Vec<(Identity, u32)>,
    Ghost(defs): Ghost<Seq<model::Definition>>,
    Ghost(refs): Ghost<Seq<Reference>>,
    Ghost(ripples): Ghost<u32>,
) -> (r: Vec<Identity>)
    requires
        counted(defs, changes@),
        forall|k: int| 0 <= k < reached@.len() ==> reached_at(hurts(defs), refs, ripples as int, (#[trigger] reached@[k]).0, reached@[k].1 as int),
        forall|x: Identity, d: int| #[trigger] reached_at(hurts(defs), refs, ripples as int, x, d) ==> reached@.contains((x, d as u32)),
    ensures
        ascending(r@),
        forall|x: Identity| #[trigger] r@.contains(x) <==> in_read(defs, refs, ripples, x),
{
    let mut out: Vec<Identity> = Vec::new();
    for k in 0..changes.len()
        invariant
            counted(defs, changes@),
            ascending(out@),
            forall|x: Identity| #[trigger] out@.contains(x) <==> exists|j: int| 0 <= j < k && (#[trigger] changes@[j]).0 == x && changes@[j].1@.worth_reading(),
    {
        let ghost was = out@;
        if changes[k].1.worth_reading() {
            add_id(&mut out, changes[k].0);
        }
        proof {
            assert forall|x: Identity| #[trigger] out@.contains(x) <==> exists|j: int| 0 <= j < k + 1 && (#[trigger] changes@[j]).0 == x && changes@[j].1@.worth_reading() by {
                if exists|j: int| 0 <= j < k + 1 && (#[trigger] changes@[j]).0 == x && changes@[j].1@.worth_reading() {
                    let j = choose|j: int| 0 <= j < k + 1 && (#[trigger] changes@[j]).0 == x && changes@[j].1@.worth_reading();
                    if j < k {
                        assert(was.contains(x));
                    }
                }
            }
        }
    }
    let ghost worthy = out@;
    for k in 0..reached.len()
        invariant
            ascending(out@),
            forall|x: Identity| #[trigger] out@.contains(x) <==> (worthy.contains(x) || exists|j: int| 0 <= j < k && (#[trigger] reached@[j]).0 == x),
    {
        let ghost was = out@;
        add_id(&mut out, reached[k].0);
        proof {
            assert forall|x: Identity| #[trigger] out@.contains(x) <==> (worthy.contains(x) || exists|j: int| 0 <= j < k + 1 && (#[trigger] reached@[j]).0 == x) by {
                if exists|j: int| 0 <= j < k + 1 && (#[trigger] reached@[j]).0 == x {
                    let j = choose|j: int| 0 <= j < k + 1 && (#[trigger] reached@[j]).0 == x;
                    if j < k {
                        assert(was.contains(x));
                    }
                }
            }
        }
    }
    proof {
        assert forall|x: Identity| #[trigger] out@.contains(x) <==> in_read(defs, refs, ripples, x) by {
            if worthy.contains(x) {
                let j = choose|j: int| 0 <= j < changes@.len() && (#[trigger] changes@[j]).0 == x && changes@[j].1@.worth_reading();
                assert(came_from(defs, changes@[j]));
                let c = choose|c: int| #[trigger] counts(defs, c) && defs[c].identity == changes@[j].0 && changes@[j].1@ == classified(defs[c]@).0;
                assert(worth(defs, x));
            }
            if exists|j: int| 0 <= j < reached@.len() && (#[trigger] reached@[j]).0 == x {
                let j = choose|j: int| 0 <= j < reached@.len() && (#[trigger] reached@[j]).0 == x;
                assert(reached_at(hurts(defs), refs, ripples as int, x, reached@[j].1 as int));
                assert(rippled(defs, refs, ripples, x));
            }
            if worth(defs, x) {
                let c = choose|c: int| #[trigger] counts(defs, c) && defs[c].identity == x && classified(defs[c]@).0.worth_reading();
                assert(names(changes@, defs[c].identity));
                let j = choose|j: int| 0 <= j < changes@.len() && (#[trigger] changes@[j]).0 == defs[c].identity;
                assert(came_from(defs, changes@[j]));
                let c2 = choose|c2: int| #[trigger] counts(defs, c2) && defs[c2].identity == changes@[j].0 && changes@[j].1@ == classified(defs[c2]@).0;
                crate::order::lemma_counts_unique(defs, c, c2);
                assert(worthy.contains(x));
            }
            if rippled(defs, refs, ripples, x) {
                let d = choose|d: int| #[trigger] reached_at(hurts(defs), refs, ripples as int, x, d);
                assert(reached@.contains((x, d as u32)));
                let j = choose|j: int| 0 <= j < reached@.len() && reached@[j] == (x, d as u32);
                assert(reached@[j].0 == x);
            }
        }
    }
    out
}

/// Two definitions answering best to one name are the same identity.
proof fn lemma_called_unique(defs: Seq<model::Definition>, name: LocatorView, i: int, j: int)
    requires
        answers_best_to(defs, i, name),
        answers_best_to(defs, j, name),
    ensures
        defs[i].identity == defs[j].identity,
{
    assert(defs[j].identity.0 <= defs[i].identity.0);
    assert(defs[i].identity.0 <= defs[j].identity.0);
}

/// What a name stands for.
fn lookup_called(defs: &Vec<model::Definition>, name: &Locator) -> (r: Option<Identity>)
    ensures
        r == called(defs@, name@),
{
    let mut best: Option<usize> = None;
    for i in 0..defs.len()
        invariant
            best matches Some(b) ==> b < i && answers_to(defs@, b as int, name@),
            best matches Some(b) ==> forall|k: int|
                0 <= k < i && #[trigger] answers_to(defs@, k, name@) ==> defs@[k].identity.0 <= defs@[b as int].identity.0,
            best is None ==> forall|k: int| 0 <= k < i ==> !#[trigger] answers_to(defs@, k, name@),
    {
        if crate::order::counts_exec(defs, i) && defs[i].sides.latest().locator.same_as(name) {
            match best {
                Some(b) => {
                    if defs[b].identity.0 < defs[i].identity.0 {
                        best = Some(i);
                    }
                },
                None => {
                    best = Some(i);
                },
            }
        }
    }
    match best {
        Some(b) => {
            proof {
                assert(answers_best_to(defs@, b as int, name@));
                let c = choose|c: int| #[trigger] answers_best_to(defs@, c, name@);
                lemma_called_unique(defs@, name@, b as int, c);
            }
            Some(defs[b].identity)
        },
        None => {
            proof {
                if exists|c: int| #[trigger] answers_best_to(defs@, c, name@) {
                    let c = choose|c: int| #[trigger] answers_best_to(defs@, c, name@);
                    assert(answers_to(defs@, c, name@));
                }
            }
            None
        },
    }
}

/// What the newest occurrence of `x` says it is written inside.
fn named_parent_of(defs: &Vec<model::Definition>, x: Identity) -> (r: Option<Identity>)
    ensures
        r == named_parent(defs@, x),
{
    match crate::order::find_entry(defs, x) {
        Some(i) => match &defs[i].sides.latest().parent {
            Some(name) => lookup_called(defs, name),
            None => None,
        },
        None => None,
    }
}

/// What `x` is written inside, leaving out a container that leads back to it.
fn parent_of(defs: &Vec<model::Definition>, x: Identity) -> (r: Option<Identity>)
    ensures
        r == parent_spec(defs@, x),
{
    match named_parent_of(defs, x) {
        None => None,
        Some(p) => {
            if p == x {
                return None;
            }
            let n = defs.len();
            let mut at = p;
            let mut fuel = n;
            let mut found = false;
            let ghost mut taken: Seq<Identity> = Seq::empty();
            while fuel > 0 && !found
                invariant
                    n == defs@.len(),
                    fuel <= n,
                    taken + named_lifts(defs@, at, fuel as nat) == named_lifts(defs@, p, n as nat),
                    found == taken.contains(x),
                decreases fuel,
            {
                match named_parent_of(defs, at) {
                    Some(q) => {
                        proof {
                            assert(named_lifts(defs@, at, fuel as nat) == seq![q] + named_lifts(defs@, q, (fuel - 1) as nat));
                            assert(taken.push(q) + named_lifts(defs@, q, (fuel - 1) as nat) =~= taken + named_lifts(defs@, at, fuel as nat));
                            assert(taken.push(q).contains(x) == (taken.contains(x) || q == x)) by {
                                if q == x {
                                    assert(taken.push(q)[taken.len() as int] == x);
                                }
                                if taken.push(q).contains(x) && q != x {
                                    let k = choose|k: int| 0 <= k < taken.push(q).len() && taken.push(q)[k] == x;
                                    assert(taken[k] == x);
                                }
                            }
                            taken = taken.push(q);
                        }
                        found = q == x;
                        at = q;
                        fuel = fuel - 1;
                    },
                    None => {
                        assert(named_lifts(defs@, at, fuel as nat) =~= Seq::<Identity>::empty());
                        assert(taken + named_lifts(defs@, at, 0) =~= taken + named_lifts(defs@, at, fuel as nat));
                        fuel = 0;
                    },
                }
            }
            proof {
                let full = named_lifts(defs@, p, n as nat);
                if found {
                    let k = choose|k: int| 0 <= k < taken.len() && taken[k] == x;
                    assert(full[k] == x);
                } else {
                    assert(fuel == 0);
                    assert(full =~= taken);
                }
            }
            if found {
                None
            } else {
                Some(p)
            }
        },
    }
}

// ---------------------------------------------------------------------------------------
// Nothing is written inside itself.

/// Following what `x` is written inside ends, within as many steps as there are
/// definitions, and never meets the same definition twice on the way.
pub open spec fn settles(defs: Seq<model::Definition>, x: Identity) -> bool {
    let chain = lifts(defs, x, (defs.len() + 1) as nat);
    &&& chain.len() <= defs.len()
    &&& (seq![x] + chain).no_duplicates()
}

proof fn lemma_lifts_within_named(defs: Seq<model::Definition>, y: Identity, f: nat)
    ensures
        lifts(defs, y, f).len() <= named_lifts(defs, y, f).len(),
        forall|k: int| 0 <= k < lifts(defs, y, f).len() ==> #[trigger] lifts(defs, y, f)[k] == named_lifts(defs, y, f)[k],
    decreases f,
{
    if f > 0 {
        match parent_spec(defs, y) {
            Some(p) => {
                lemma_lifts_within_named(defs, p, (f - 1) as nat);
                assert forall|k: int| 0 <= k < lifts(defs, y, f).len() implies #[trigger] lifts(defs, y, f)[k] == named_lifts(defs, y, f)[k] by {
                    if k > 0 {
                        assert(lifts(defs, y, f)[k] == lifts(defs, p, (f - 1) as nat)[k - 1]);
                        assert(named_lifts(defs, y, f)[k] == named_lifts(defs, p, (f - 1) as nat)[k - 1]);
                    }
                }
            },
            None => {},
        }
    }
}

proof fn lemma_named_lifts_grow(defs: Seq<model::Definition>, y: Identity, f: nat, g: nat)
    requires
        f <= g,
    ensures
        named_lifts(defs, y, f).len() <= named_lifts(defs, y, g).len(),
        forall|k: int| 0 <= k < named_lifts(defs, y, f).len() ==> #[trigger] named_lifts(defs, y, f)[k] == named_lifts(defs, y, g)[k],
    decreases f,
{
    if f > 0 {
        match named_parent(defs, y) {
            Some(p) => {
                lemma_named_lifts_grow(defs, p, (f - 1) as nat, (g - 1) as nat);
                assert forall|k: int| 0 <= k < named_lifts(defs, y, f).len() implies #[trigger] named_lifts(defs, y, f)[k] == named_lifts(defs, y, g)[k] by {
                    if k > 0 {
                        assert(named_lifts(defs, y, f)[k] == named_lifts(defs, p, (f - 1) as nat)[k - 1]);
                        assert(named_lifts(defs, y, g)[k] == named_lifts(defs, p, (g - 1) as nat)[k - 1]);
                    }
                }
            },
            None => {},
        }
    }
}

proof fn lemma_not_above_itself(defs: Seq<model::Definition>, x: Identity, f: nat)
    requires
        f <= defs.len() + 1,
    ensures
        !lifts(defs, x, f).contains(x),
{
    if f > 0 {
        match parent_spec(defs, x) {
            Some(p) => {
                let rest = lifts(defs, p, (f - 1) as nat);
                assert(lifts(defs, x, f) == seq![p] + rest);
                if rest.contains(x) {
                    let k = choose|k: int| 0 <= k < rest.len() && rest[k] == x;
                    lemma_lifts_within_named(defs, p, (f - 1) as nat);
                    assert(named_lifts(defs, p, (f - 1) as nat)[k] == x);
                    lemma_named_lifts_grow(defs, p, (f - 1) as nat, defs.len());
                    assert(named_lifts(defs, p, defs.len())[k] == x);
                    assert(named_lifts(defs, p, defs.len()).contains(x));
                }
                if lifts(defs, x, f).contains(x) {
                    let k = choose|k: int| 0 <= k < lifts(defs, x, f).len() && lifts(defs, x, f)[k] == x;
                    if k > 0 {
                        assert(rest[k - 1] == x);
                    }
                }
            },
            None => {},
        }
    }
}

proof fn lemma_lifts_skip(defs: Seq<model::Definition>, x: Identity, f: nat, i: int)
    requires
        0 <= i < lifts(defs, x, f).len(),
    ensures
        lifts(defs, x, f).skip(i + 1) == lifts(defs, lifts(defs, x, f)[i], (f - i - 1) as nat),
        i + 1 <= f,
    decreases f,
{
    let p = parent_spec(defs, x)->0;
    let rest = lifts(defs, p, (f - 1) as nat);
    assert(lifts(defs, x, f) == seq![p] + rest);
    if i == 0 {
        assert(lifts(defs, x, f).skip(1) =~= rest);
    } else {
        lemma_lifts_skip(defs, p, (f - 1) as nat, i - 1);
        assert(lifts(defs, x, f).skip(i + 1) =~= rest.skip(i));
        assert(lifts(defs, x, f)[i] == rest[i - 1]);
    }
}

proof fn lemma_lifts_known(defs: Seq<model::Definition>, x: Identity, f: nat)
    ensures
        forall|k: int| 0 <= k < lifts(defs, x, f).len() ==> defs.map_values(|d: model::Definition| d.identity).contains(#[trigger] lifts(defs, x, f)[k]),
    decreases f,
{
    let pool = defs.map_values(|d: model::Definition| d.identity);
    if f > 0 {
        match parent_spec(defs, x) {
            Some(p) => {
                lemma_lifts_known(defs, p, (f - 1) as nat);
                let name = latest(defs, x)->0.parent->0;
                let i = choose|i: int| #[trigger] answers_best_to(defs, i, name);
                assert(pool[i] == p);
                assert forall|k: int| 0 <= k < lifts(defs, x, f).len() implies pool.contains(#[trigger] lifts(defs, x, f)[k]) by {
                    if k == 0 {
                        assert(pool[i] == lifts(defs, x, f)[k]);
                    } else {
                        assert(lifts(defs, x, f)[k] == lifts(defs, p, (f - 1) as nat)[k - 1]);
                    }
                }
            },
            None => {},
        }
    }
}

/// Nothing is written inside itself: following what any definition is written inside
/// ends within as many steps as there are definitions, and meets no definition twice.
pub proof fn lemma_containment_settles(defs: Seq<model::Definition>, x: Identity)
    ensures
        settles(defs, x),
{
    let f = (defs.len() + 1) as nat;
    let chain = lifts(defs, x, f);
    let s = seq![x] + chain;
    lemma_not_above_itself(defs, x, f);
    assert forall|a: int, b: int| 0 <= a < b < s.len() implies s[a] != s[b] by {
        if a == 0 {
            assert(s[b] == chain[b - 1]);
        } else {
            let y = chain[a - 1];
            lemma_lifts_skip(defs, x, f, a - 1);
            let below = lifts(defs, y, (f - a) as nat);
            assert(chain.skip(a) == below);
            assert(s[b] == chain[b - 1]);
            assert(chain[b - 1] == chain.skip(a)[b - 1 - a]);
            lemma_not_above_itself(defs, y, (f - a) as nat);
            assert(below.contains(s[b]));
        }
    }
    assert(s.no_duplicates());
    assert(chain.no_duplicates()) by {
        assert forall|a: int, b: int| 0 <= a < b < chain.len() implies chain[a] != chain[b] by {
            assert(s[a + 1] == chain[a] && s[b + 1] == chain[b]);
        }
    }
    let pool = defs.map_values(|d: model::Definition| d.identity);
    lemma_lifts_known(defs, x, f);
    broadcast use vstd::seq_lib::seq_to_set_is_finite;
    chain.unique_seq_to_set();
    pool.lemma_cardinality_of_set();
    assert(chain.to_set().subset_of(pool.to_set()));
    vstd::set_lib::lemma_len_subset(chain.to_set(), pool.to_set());
}

/// What `x` is written inside, as the entries kept for a review say: the `parent` of the
/// entry for `x`, and nothing where there is no such entry.
pub open spec fn parent_in(out: Seq<(Identity, Definition)>, x: Identity) -> Option<Identity> {
    if exists|k: int| 0 <= k < out.len() && (#[trigger] out[k]).0 == x {
        out[choose|k: int| 0 <= k < out.len() && (#[trigger] out[k]).0 == x].1.parent
    } else {
        None
    }
}

/// What following `parent` from `x` through the kept entries meets, nearest first, for at
/// most `fuel` steps.
pub open spec fn climb(out: Seq<(Identity, Definition)>, x: Identity, fuel: nat) -> Seq<Identity>
    decreases fuel,
{
    if fuel == 0 {
        Seq::empty()
    } else {
        match parent_in(out, x) {
            Some(p) => seq![p] + climb(out, p, (fuel - 1) as nat),
            None => Seq::empty(),
        }
    }
}

/// With less fuel, the containers above `x` are the first of those with more; and once
/// they stop short of the fuel, more fuel finds no more.
proof fn lemma_lifts_fuel(defs: Seq<model::Definition>, x: Identity, g: nat, f: nat)
    requires
        g <= f,
    ensures
        lifts(defs, x, g).len() <= lifts(defs, x, f).len(),
        forall|k: int| 0 <= k < lifts(defs, x, g).len() ==> #[trigger] lifts(defs, x, g)[k] == lifts(defs, x, f)[k],
        lifts(defs, x, g).len() < g ==> lifts(defs, x, f) == lifts(defs, x, g),
    decreases g,
{
    if g > 0 {
        match parent_spec(defs, x) {
            Some(p) => {
                lemma_lifts_fuel(defs, p, (g - 1) as nat, (f - 1) as nat);
                assert forall|k: int| 0 <= k < lifts(defs, x, g).len() implies #[trigger] lifts(defs, x, g)[k] == lifts(defs, x, f)[k] by {
                    if k > 0 {
                        assert(lifts(defs, x, g)[k] == lifts(defs, p, (g - 1) as nat)[k - 1]);
                        assert(lifts(defs, x, f)[k] == lifts(defs, p, (f - 1) as nat)[k - 1]);
                    }
                }
            },
            None => {},
        }
    }
}

/// Following the kept entries' `parent` meets the containers above `x`, in order, and
/// stops no later than they do.
proof fn lemma_climb_lifts(
    defs: Seq<model::Definition>,
    refs: Seq<Reference>,
    ripples: u32,
    out: Seq<(Identity, Definition)>,
    x: Identity,
    fuel: nat,
)
    requires
        forall|k: int| 0 <= k < out.len() ==> kept_as(defs, refs, ripples, (#[trigger] out[k]).0, out[k].1),
    ensures
        climb(out, x, fuel).len() <= lifts(defs, x, fuel).len(),
        forall|k: int| 0 <= k < climb(out, x, fuel).len() ==> #[trigger] climb(out, x, fuel)[k] == lifts(defs, x, fuel)[k],
    decreases fuel,
{
    if fuel > 0 {
        match parent_in(out, x) {
            Some(p) => {
                let k = choose|k: int| 0 <= k < out.len() && (#[trigger] out[k]).0 == x;
                assert(kept_as(defs, refs, ripples, out[k].0, out[k].1));
                assert(parent_spec(defs, x) == Some(p));
                lemma_climb_lifts(defs, refs, ripples, out, p, (fuel - 1) as nat);
                assert forall|j: int| 0 <= j < climb(out, x, fuel).len() implies #[trigger] climb(out, x, fuel)[j] == lifts(defs, x, fuel)[j] by {
                    if j > 0 {
                        assert(climb(out, x, fuel)[j] == climb(out, p, (fuel - 1) as nat)[j - 1]);
                        assert(lifts(defs, x, fuel)[j] == lifts(defs, p, (fuel - 1) as nat)[j - 1]);
                    }
                }
            },
            None => {},
        }
    }
}

/// Containment never goes in circles in a review: following what each kept definition is
/// written inside, from entry to entry, meets no definition twice, `x` included, and ends
/// within as many steps as there are definitions, however far it is followed.
pub proof fn lemma_kept_containment_ends(
    defs: Seq<model::Definition>,
    refs: Seq<Reference>,
    ripples: u32,
    out: Seq<(Identity, Definition)>,
    x: Identity,
    fuel: nat,
)
    requires
        forall|k: int| 0 <= k < out.len() ==> kept_as(defs, refs, ripples, (#[trigger] out[k]).0, out[k].1),
    ensures
        (seq![x] + climb(out, x, fuel)).no_duplicates(),
        climb(out, x, fuel).len() <= defs.len(),
{
    let big = (defs.len() + 1) as nat;
    lemma_containment_settles(defs, x);
    lemma_climb_lifts(defs, refs, ripples, out, x, fuel);
    let c = climb(out, x, fuel);
    let l = lifts(defs, x, big);
    if fuel <= big {
        lemma_lifts_fuel(defs, x, fuel, big);
    } else {
        lemma_lifts_fuel(defs, x, big, fuel);
    }
    assert(c.len() <= l.len());
    assert forall|k: int| 0 <= k < c.len() implies #[trigger] c[k] == l[k] by {
        assert(c[k] == lifts(defs, x, fuel)[k]);
    }
    let s = seq![x] + c;
    let t = seq![x] + l;
    assert forall|a: int, b: int| 0 <= a < b < s.len() implies s[a] != s[b] by {
        assert(s[a] == t[a]);
        assert(s[b] == t[b]);
    }
}

/// What the reading names is what is worth reading: a step for every definition whose own
/// change is worth reading or that a change reached, and for nothing else, each once.
proof fn lemma_reading_is_read(
    ms: Seq<Identity>,
    edges: Seq<Edge>,
    defs: Seq<model::Definition>,
    of: Seq<(Identity, Vec<String>)>,
    steps: Seq<Step>,
    cost: Cost,
    refs: Seq<Reference>,
    ripples: u32,
)
    requires
        is_reading(ms, edges, defs, of, steps, cost),
        forall|x: Identity| #[trigger] ms.contains(x) <==> in_read(defs, refs, ripples, x),
    ensures
        forall|x: Identity|
            #[trigger] in_read(defs, refs, ripples, x) <==> exists|i: int| 0 <= i < steps.len() && (#[trigger] steps[i]).definition == x,
        forall|i: int, j: int| 0 <= i < j < steps.len() ==> (#[trigger] steps[i]).definition != (#[trigger] steps[j]).definition,
{
    assert forall|x: Identity|
        #[trigger] in_read(defs, refs, ripples, x) <==> exists|i: int| 0 <= i < steps.len() && (#[trigger] steps[i]).definition == x by {
        if in_read(defs, refs, ripples, x) {
            assert(ms.contains(x));
            let c = choose|c: int| 0 <= c < ms.len() && ms[c] == x;
            assert(read_in(ms, steps, c));
            let i = choose|i: int| 0 <= i < steps.len() && (#[trigger] steps[i]).definition == ms[c];
            assert(steps[i].definition == x);
        }
        if exists|i: int| 0 <= i < steps.len() && (#[trigger] steps[i]).definition == x {
            let i = choose|i: int| 0 <= i < steps.len() && (#[trigger] steps[i]).definition == x;
            let c = place(ms, steps[i].definition);
            assert(ms[c] == steps[i].definition);
            assert(done_after(ms, steps, i).len() == ms.len());
            assert(0 <= c < ms.len());
            assert(ms[c] == x);
            assert(ms.contains(x));
        }
    }
}

/// Everything worth reading plus every container around it, in order of identity, so a
/// box is never drawn around something whose container isn't here.
fn shown_list(defs: &Vec<model::Definition>, read: &Vec<Identity>) -> (r: Vec<Identity>)
    ensures
        ascending(r@),
        forall|y: Identity|
            #[trigger] r@.contains(y) <==> exists|k: int| 0 <= k < read@.len() && (y == (#[trigger] read@[k]) || lifts(defs@, read@[k], defs@.len()).contains(y)),
{
    let n = defs.len();
    let mut out: Vec<Identity> = Vec::new();
    for k in 0..read.len()
        invariant
            n == defs@.len(),
            ascending(out@),
            forall|y: Identity|
                #[trigger] out@.contains(y) <==> exists|j: int| 0 <= j < k && (y == (#[trigger] read@[j]) || lifts(defs@, read@[j], n as nat).contains(y)),
    {
        let r = read[k];
        let ghost was = out@;
        add_id(&mut out, r);
        let mut at = r;
        let mut fuel = n;
        let ghost mut taken: Seq<Identity> = Seq::empty();
        loop
            invariant
                n == defs@.len(),
                ascending(out@),
                fuel <= n,
                taken + lifts(defs@, at, fuel as nat) == lifts(defs@, r, n as nat),
                forall|y: Identity| #[trigger] out@.contains(y) <==> (was.contains(y) || y == r || taken.contains(y)),
            ensures
                forall|y: Identity| #[trigger] out@.contains(y) <==> (was.contains(y) || y == r || lifts(defs@, r, n as nat).contains(y)),
            decreases fuel,
        {
            if fuel == 0 {
                assert(taken =~= lifts(defs@, r, n as nat));
                break;
            }
            match parent_of(defs, at) {
                Some(p) => {
                    let ghost before = out@;
                    add_id(&mut out, p);
                    proof {
                        let t2 = taken.push(p);
                        assert(t2 + lifts(defs@, p, (fuel - 1) as nat) =~= taken + lifts(defs@, at, fuel as nat));
                        assert forall|y: Identity| #[trigger] out@.contains(y) <==> (was.contains(y) || y == r || t2.contains(y)) by {
                            crate::review::lemma_vec_push_contains(taken, p, y);
                        }
                        taken = t2;
                    }
                    at = p;
                    fuel = fuel - 1;
                },
                None => {
                    assert(taken =~= lifts(defs@, r, n as nat));
                    break;
                },
            }
        }
        proof {
            assert forall|y: Identity|
                #[trigger] out@.contains(y) <==> exists|j: int| 0 <= j < k + 1 && (y == (#[trigger] read@[j]) || lifts(defs@, read@[j], n as nat).contains(y)) by {
                if exists|j: int| 0 <= j < k + 1 && (y == (#[trigger] read@[j]) || lifts(defs@, read@[j], n as nat).contains(y)) {
                    let j = choose|j: int| 0 <= j < k + 1 && (y == (#[trigger] read@[j]) || lifts(defs@, read@[j], n as nat).contains(y));
                    if j < k {
                        assert(was.contains(y));
                    }
                }
                if was.contains(y) {
                    let j = choose|j: int| 0 <= j < k && (y == (#[trigger] read@[j]) || lifts(defs@, read@[j], n as nat).contains(y));
                }
            }
        }
    }
    out
}


/// What the review keeps of `x`: what it holds and what it is, what happened to it, how
/// far out a change reached it, and what it is written inside.
pub open spec fn kept_as(defs: Seq<model::Definition>, refs: Seq<Reference>, ripples: u32, x: Identity, d: Definition) -> bool {
    match entry(defs, x) {
        Some(i) => {
            &&& d.role == defs[i].sides@.latest().role
            &&& d.sides@ == defs[i].sides@
            &&& d.change@ == classified(defs[i]@).0
            &&& d.mark == classified(defs[i]@).0.mark(rippled(defs, refs, ripples, x))
            &&& (d.reached matches Some(k) ==> reached_at(hurts(defs), refs, ripples as int, x, k as int))
            &&& (d.reached is None ==> !rippled(defs, refs, ripples, x))
            &&& d.parent == parent_spec(defs, x)
        },
        None => false,
    }
}

/// Entries for different definitions that count are no more than the definitions.
proof fn lemma_few_kept(defs: Seq<model::Definition>, out: Seq<(Identity, Definition)>)
    requires
        ascending(crate::shape::keys_of(out)),
        forall|j: int| 0 <= j < out.len() ==> entry(defs, (#[trigger] out[j]).0) is Some,
    ensures
        out.len() <= defs.len(),
{
    let keys = crate::shape::keys_of(out);
    let pool = defs.map_values(|d: model::Definition| d.identity);
    assert forall|j: int| 0 <= j < keys.len() implies pool.contains(#[trigger] keys[j]) by {
        assert(entry(defs, out[j].0) is Some);
        let c = choose|c: int| #[trigger] counts(defs, c) && defs[c].identity == out[j].0;
        assert(pool[c] == keys[j]);
    }
    assert(keys.no_duplicates()) by {
        assert forall|a: int, b: int| 0 <= a < keys.len() && 0 <= b < keys.len() && a != b implies keys[a] != keys[b] by {
            if a < b {
                assert(keys[a].0 < keys[b].0);
            } else {
                assert(keys[b].0 < keys[a].0);
            }
        }
    }
    lemma_bounded(keys, pool);
}

/// How far out a change reached `x`, if it did.
fn distance(reached: &Vec<(Identity, u32)>, x: Identity) -> (r: Option<u32>)
    ensures
        r matches Some(d) ==> reached@.contains((x, d)),
        r is None ==> forall|d: u32| !reached@.contains((x, d)),
{
    for k in 0..reached.len()
        invariant
            forall|j: int| 0 <= j < k ==> (#[trigger] reached@[j]).0 != x,
    {
        if reached[k].0 == x {
            assert(reached@[k as int] == (x, reached@[k as int].1));
            return Some(reached[k].1);
        }
    }
    None
}

/// Every definition drawn that was handed over, as the review keeps it, in order of identity.
fn keep(
    defs: &Vec<model::Definition>,
    shown: &Vec<Identity>,
    reached: &Vec<(Identity, u32)>,
    Ghost(refs): Ghost<Seq<Reference>>,
    Ghost(ripples): Ghost<u32>,
) -> (r: Vec<(Identity, Definition)>)
    requires
        ascending(shown@),
        forall|k: int| 0 <= k < reached@.len() ==> reached_at(hurts(defs@), refs, ripples as int, (#[trigger] reached@[k]).0, reached@[k].1 as int),
        forall|x: Identity, d: int| #[trigger] reached_at(hurts(defs@), refs, ripples as int, x, d) ==> reached@.contains((x, d as u32)),
    ensures
        ascending(crate::shape::keys_of(r@)),
        forall|k: int| 0 <= k < r@.len() ==> shown@.contains((#[trigger] r@[k]).0) && kept_as(defs@, refs, ripples, r@[k].0, r@[k].1),
        forall|x: Identity| shown@.contains(x) && entry(defs@, x) is Some ==> #[trigger] crate::shape::keys_of(r@).contains(x),
        r@.len() <= defs@.len(),
{
    let mut out: Vec<(Identity, Definition)> = Vec::new();
    for k in 0..shown.len()
        invariant
            ascending(shown@),
            forall|j: int| 0 <= j < reached@.len() ==> reached_at(hurts(defs@), refs, ripples as int, (#[trigger] reached@[j]).0, reached@[j].1 as int),
            forall|x: Identity, d: int| #[trigger] reached_at(hurts(defs@), refs, ripples as int, x, d) ==> reached@.contains((x, d as u32)),
            forall|j: int| 0 <= j < out@.len() ==> shown@.contains((#[trigger] out@[j]).0) && kept_as(defs@, refs, ripples, out@[j].0, out@[j].1),
            forall|j: int| 0 <= j < out@.len() ==> entry(defs@, (#[trigger] out@[j]).0) is Some,
            forall|m: int| 0 <= m < k && entry(defs@, #[trigger] shown@[m]) is Some ==> crate::shape::keys_of(out@).contains(shown@[m]),
            ascending(crate::shape::keys_of(out@)),
            forall|j: int, y: int| 0 <= j < out@.len() && k <= y < shown@.len() ==> (#[trigger] out@[j]).0.0 < (#[trigger] shown@[y]).0,
    {
        let x = shown[k];
        match crate::order::find_entry(defs, x) {
            Some(i) => {
                let it = &defs[i];
                let (change, _) = classify(it);
                let away = distance(reached, x);
                proof {
                    if away is None {
                        if rippled(defs@, refs, ripples, x) {
                            let d = choose|d: int| #[trigger] reached_at(hurts(defs@), refs, ripples as int, x, d);
                            assert(reached@.contains((x, d as u32)));
                        }
                    } else {
                        let d = away->0;
                        let j = choose|j: int| 0 <= j < reached@.len() && reached@[j] == (x, d);
                        assert(reached_at(hurts(defs@), refs, ripples as int, x, d as int));
                    }
                }
                let mark = change.mark(away.is_some());
                let one = Definition {
                    role: it.sides.latest().role,
                    sides: it.sides.duplicate(),
                    change,
                    reached: away,
                    mark,
                    parent: parent_of(defs, x),
                };
                let ghost was = out@;
                out.push((x, one));
                proof {
                    assert(shown@[k as int] == x);
                    assert forall|j: int| 0 <= j < out@.len() implies shown@.contains((#[trigger] out@[j]).0) && kept_as(defs@, refs, ripples, out@[j].0, out@[j].1) by {
                        if j < was.len() {
                            assert(out@[j] == was[j]);
                        }
                    }
                    assert forall|j: int| 0 <= j < out@.len() implies entry(defs@, (#[trigger] out@[j]).0) is Some by {
                        if j < was.len() {
                            assert(out@[j] == was[j]);
                        }
                    }
                    assert forall|m: int| 0 <= m < k + 1 && entry(defs@, #[trigger] shown@[m]) is Some implies crate::shape::keys_of(out@).contains(shown@[m]) by {
                        if m < k {
                            let j = choose|j: int| 0 <= j < was.len() && crate::shape::keys_of(was)[j] == shown@[m];
                            assert(crate::shape::keys_of(out@)[j] == shown@[m]);
                        } else {
                            assert(crate::shape::keys_of(out@)[was.len() as int] == shown@[m]);
                        }
                    }
                    assert forall|a: int, b: int| 0 <= a < b < out@.len() implies crate::shape::keys_of(out@)[a].0 < crate::shape::keys_of(out@)[b].0 by {
                        if b < was.len() {
                            assert(out@[a] == was[a] && out@[b] == was[b]);
                            assert(crate::shape::keys_of(was)[a].0 < crate::shape::keys_of(was)[b].0);
                        } else {
                            assert(out@[a] == was[a]);
                            assert(was[a].0.0 < shown@[k as int].0);
                        }
                    }
                    assert forall|j: int, y: int| 0 <= j < out@.len() && k + 1 <= y < shown@.len() implies (#[trigger] out@[j]).0.0 < (#[trigger] shown@[y]).0 by {
                        assert(shown@[k as int].0 < shown@[y].0);
                        if j < was.len() {
                            assert(out@[j] == was[j]);
                            assert(was[j].0.0 < shown@[y].0);
                        }
                    }
                }
            },
            None => {
                proof {
                    assert forall|m: int| 0 <= m < k + 1 && entry(defs@, #[trigger] shown@[m]) is Some implies crate::shape::keys_of(out@).contains(shown@[m]) by {
                        if m == k {
                            assert(shown@[m] == x);
                        }
                    }
                    assert forall|j: int, y: int| 0 <= j < out@.len() && k + 1 <= y < shown@.len() implies (#[trigger] out@[j]).0.0 < (#[trigger] shown@[y]).0 by {
                        assert(out@[j].0.0 < shown@[k as int].0);
                        assert(shown@[k as int].0 < shown@[y].0);
                    }
                }
            },
        }
    }
    proof {
        assert forall|x: Identity| shown@.contains(x) && entry(defs@, x) is Some implies #[trigger] crate::shape::keys_of(out@).contains(x) by {
            let m = choose|m: int| 0 <= m < shown@.len() && shown@[m] == x;
        }
        lemma_few_kept(defs@, out@);
    }
    out
}


// ---------------------------------------------------------------------------------------
// The review.

/// Everything one review of a repository comes to.
#[derive(Debug)]
pub struct Review {
    /// The commit's title, when the adapter knows one. A directory has no commit message.
    pub title: Option<String>,
    /// Every definition drawn, in order of identity.
    pub definitions: Vec<(Identity, Definition)>,
    /// What to read, in order. Whatever a step names is worth reading; everything else in
    /// `definitions` is here to be drawn around it.
    pub reading: Vec<Step>,
    pub edges: Vec<Edge>,
    /// Everything drawn, as it nests and stacks, so the reading and the page can't disagree.
    pub groups: Vec<Group>,
    /// What a reader calls the grouping: "package", "crate".
    pub grouping: Option<String>,
    /// How far this review was told to follow a change outward.
    pub ripples: u32,
    pub cost: Cost,
    pub warnings: Vec<Warning>,
}

/// Our own findings, in the order they are worded: what we were handed, then each
/// lopsided compiler description, then each name in a contract nothing could place.
pub open spec fn findings(defs: Seq<model::Definition>, refs: Seq<Reference>, found: Seq<Diagnostic>) -> Seq<DiagnosticView> {
    crate::diagnostic::diagnostic_views(found) + lopsided_all(defs) + unbound(refs)
}

/// Findings, worded.
pub open spec fn worded(d: Seq<DiagnosticView>, defs: Seq<model::Definition>) -> Seq<WarningView> {
    d.map_values(|one: DiagnosticView| told_spec(one, defs))
}

/// A warning as the review keeps it: about a definition only where that definition is
/// drawn, so nothing a reader is pointed at is missing from the review.
pub open spec fn anchored(w: WarningView, keys: Seq<Identity>) -> WarningView {
    match w.about {
        Some(x) => if keys.contains(x) { w } else { WarningView { about: None, ..w } },
        None => w,
    }
}

/// Warnings as the review keeps them.
pub open spec fn anchored_all(ws: Seq<WarningView>, keys: Seq<Identity>) -> Seq<WarningView> {
    ws.map_values(|w: WarningView| anchored(w, keys))
}

/// Whether a definition is among those kept.
fn is_kept(kept: &Vec<(Identity, Definition)>, x: Identity) -> (r: bool)
    ensures
        r == crate::shape::keys_of(kept@).contains(x),
{
    for i in 0..kept.len()
        invariant
            forall|j: int| 0 <= j < i ==> kept@[j].0 != x,
    {
        if kept[i].0 == x {
            assert(crate::shape::keys_of(kept@)[i as int] == x);
            return true;
        }
    }
    proof {
        if crate::shape::keys_of(kept@).contains(x) {
            let j = choose|j: int| 0 <= j < crate::shape::keys_of(kept@).len() && crate::shape::keys_of(kept@)[j] == x;
            assert(kept@[j].0 == x);
        }
    }
    false
}

/// Points each warning only at a definition that is drawn.
fn anchor(warnings: &mut Vec<Warning>, kept: &Vec<(Identity, Definition)>)
    ensures
        warning_views(final(warnings)@) == anchored_all(warning_views(old(warnings)@), crate::shape::keys_of(kept@)),
{
    let ghost start = warning_views(warnings@);
    let n = warnings.len();
    for i in 0..n
        invariant
            n == warnings@.len(),
            start.len() == n,
            forall|j: int| 0 <= j < i ==> (#[trigger] warning_views(warnings@)[j]) == anchored(start[j], crate::shape::keys_of(kept@)),
            forall|j: int| i <= j < n ==> (#[trigger] warning_views(warnings@)[j]) == start[j],
    {
        assert(warning_views(warnings@)[i as int] == start[i as int]);
        match warnings[i].about {
            Some(x) => {
                if !is_kept(kept, x) {
                    let ghost was = warning_views(warnings@);
                    warnings[i].about = None;
                    assert forall|j: int| 0 <= j < n && j != i implies #[trigger] warning_views(warnings@)[j] == was[j] by {}
                }
            },
            None => {},
        }
    }
    assert(warning_views(warnings@) =~= anchored_all(start, crate::shape::keys_of(kept@)));
}

/// Words each of a list of findings onto the end of a list of warnings.
fn tell_all(warnings: &mut Vec<Warning>, found: &Vec<Diagnostic>, definitions: &Vec<model::Definition>)
    ensures
        warning_views(final(warnings)@) == warning_views(old(warnings)@) + worded(
            crate::diagnostic::diagnostic_views(found@),
            definitions@,
        ),
{
    let ghost start = warning_views(warnings@);
    for k in 0..found.len()
        invariant
            warning_views(warnings@) == start + worded(crate::diagnostic::diagnostic_views(found@.subrange(0, k as int)), definitions@),
    {
        let ghost was = warnings@;
        warnings.push(told(&found[k], definitions));
        proof {
            assert(crate::diagnostic::diagnostic_views(found@.subrange(0, k + 1)) =~= crate::diagnostic::diagnostic_views(found@.subrange(0, k as int)).push(found@[k as int]@));
            assert(warning_views(warnings@) =~= warning_views(was).push(warnings@.last()@));
            assert(worded(crate::diagnostic::diagnostic_views(found@.subrange(0, k + 1)), definitions@) =~= worded(crate::diagnostic::diagnostic_views(found@.subrange(0, k as int)), definitions@).push(told_spec(found@[k as int]@, definitions@)));
        }
    }
    assert(found@.subrange(0, found@.len() as int) =~= found@);
}

/// Reviews a change: what happened to each definition, what a change reached, what to read
/// and in what order, what to draw around it and how, and every reason the review might be
/// wrong. `notes` are the adapters' warnings, already worded; `found` is what else was
/// noticed, worded here where the definitions are still to hand.
pub fn review(
    definitions: Vec<model::Definition>,
    references: &Vec<Reference>,
    ripples: u32,
    grouping: &Grouping,
    notes: Vec<Warning>,
    found: Vec<Diagnostic>,
    title: Option<String>,
) -> (r: Review)
    requires
        definitions@.len() < u32::MAX - 1,
    ensures
        r.title == title,
        r.ripples == ripples,
        grouping.name@.len() == 0 ==> r.grouping is None,
        grouping.name@.len() > 0 ==> (r.grouping matches Some(g) && g@ == grouping.name@),
        warning_views(r.warnings@) == anchored_all(
            warning_views(notes@) + worded(findings(definitions@, references@, found@), definitions@),
            crate::shape::keys_of(r.definitions@),
        ),
        forall|k: int|
            0 <= k < r.warnings@.len() ==> ((#[trigger] r.warnings@[k]).about matches Some(x) ==> crate::shape::keys_of(r.definitions@).contains(x)),
        ascending(crate::shape::keys_of(r.definitions@)),
        forall|k: int|
            0 <= k < r.definitions@.len() ==> drawn(definitions@, references@, ripples, (#[trigger] r.definitions@[k]).0) && kept_as(
                definitions@,
                references@,
                ripples,
                r.definitions@[k].0,
                r.definitions@[k].1,
            ),
        forall|x: Identity|
            drawn(definitions@, references@, ripples, x) && entry(definitions@, x) is Some ==> #[trigger] crate::shape::keys_of(r.definitions@).contains(x),
        forall|k: int| 0 <= k < r.definitions@.len() ==> settles(definitions@, (#[trigger] r.definitions@[k]).0),
        forall|x: Identity|
            #[trigger] in_read(definitions@, references@, ripples, x) <==> exists|i: int|
                0 <= i < r.reading@.len() && (#[trigger] r.reading@[i]).definition == x,
        forall|i: int, j: int|
            0 <= i < j < r.reading@.len() ==> (#[trigger] r.reading@[i]).definition != (#[trigger] r.reading@[j]).definition,
        crate::shape::laid_out(r.definitions@, grouping.of@, r.edges@, r.reading@, r.groups@),
        exists|shown: Seq<Identity>|
            #[trigger] edges_over(references@, shown, r.edges@) && ascending(shown) && forall|y: Identity| #[trigger] shown.contains(y) <==> drawn(definitions@, references@, ripples, y),
        exists|read: Seq<Identity>|
            #[trigger] is_reading(read, r.edges@, definitions@, grouping.of@, r.reading@, r.cost) && ascending(read) && forall|x: Identity|
                #[trigger] read.contains(x) <==> in_read(definitions@, references@, ripples, x),
{
    let ghost defs = definitions@;
    let ghost refs = references@;
    let (changes, lopsided) = classify_all(&definitions);
    let (reached, unbound_found) = affected(&changes, references, ripples);
    proof {
        lemma_counted_breaks(defs, changes@);
    }

    let mut warnings = notes;
    tell_all(&mut warnings, &found, &definitions);
    tell_all(&mut warnings, &lopsided, &definitions);
    tell_all(&mut warnings, &unbound_found, &definitions);
    proof {
        let a = crate::diagnostic::diagnostic_views(found@);
        let b = lopsided_all(defs);
        let c = unbound(refs);
        assert(worded(a + b + c, defs) =~= worded(a, defs) + worded(b, defs) + worded(c, defs));
    }

    let read = read_list(&changes, &reached, Ghost(defs), Ghost(refs), Ghost(ripples));
    let shown = shown_list(&definitions, &read);
    proof {
        assert forall|y: Identity| #[trigger] shown@.contains(y) <==> drawn(defs, refs, ripples, y) by {
            if shown@.contains(y) {
                let k = choose|k: int| 0 <= k < read@.len() && (y == (#[trigger] read@[k]) || lifts(defs, read@[k], defs.len()).contains(y));
                assert(read@.contains(read@[k]));
                assert(in_read(defs, refs, ripples, read@[k]));
            }
            if drawn(defs, refs, ripples, y) {
                let x = choose|x: Identity| #[trigger] in_read(defs, refs, ripples, x) && (y == x || lifts(defs, x, defs.len()).contains(y));
                assert(read@.contains(x));
                let k = choose|k: int| 0 <= k < read@.len() && read@[k] == x;
                assert(y == read@[k] || lifts(defs, read@[k], defs.len()).contains(y));
            }
        }
    }
    let edges = project(&shown, references);
    let kept = keep(&definitions, &shown, &reached, Ghost(refs), Ghost(ripples));
    let ghost before_anchor = warning_views(warnings@);
    anchor(&mut warnings, &kept);
    proof {
        assert forall|k: int| 0 <= k < warnings@.len() implies ((#[trigger] warnings@[k]).about matches Some(x) ==> crate::shape::keys_of(kept@).contains(x)) by {
            assert(warning_views(warnings@)[k] == warnings@[k]@);
            assert(warning_views(warnings@) == anchored_all(before_anchor, crate::shape::keys_of(kept@)));
            assert(warning_views(warnings@).len() == before_anchor.len());
            assert(anchored_all(before_anchor, crate::shape::keys_of(kept@))[k] == anchored(before_anchor[k], crate::shape::keys_of(kept@)));
        }
    }
    let ordering = order(&read, &edges, &definitions, grouping);
    let groups = {
        let shape = Shape::new(&kept, grouping);
        shape.groups(&edges, &ordering.steps)
    };
    let named = if grouping.name.as_str().is_empty() { None } else { Some(grouping.name.clone()) };
    proof {
        assert forall|x: Identity|
            drawn(defs, refs, ripples, x) && entry(defs, x) is Some implies #[trigger] crate::shape::keys_of(kept@).contains(x) by {
            assert(shown@.contains(x));
        }
        assert forall|k: int| 0 <= k < kept@.len() implies drawn(defs, refs, ripples, (#[trigger] kept@[k]).0) by {
            assert(shown@.contains(kept@[k].0));
        }
        assert(edges_over(refs, shown@, edges@));
        assert(is_reading(read@, edges@, defs, grouping.of@, ordering.steps@, ordering.cost));
    }
    let r = Review {
        title,
        definitions: kept,
        reading: ordering.steps,
        edges,
        groups,
        grouping: named,
        ripples,
        cost: ordering.cost,
        warnings,
    };
    proof {
        assert(edges_over(references@, shown@, r.edges@));
        assert(forall|y: Identity| #[trigger] shown@.contains(y) <==> drawn(definitions@, references@, ripples, y));
        assert(is_reading(read@, r.edges@, definitions@, grouping.of@, r.reading@, r.cost));
        assert(forall|x: Identity| #[trigger] read@.contains(x) <==> in_read(definitions@, references@, ripples, x));
        assert forall|k: int| 0 <= k < r.definitions@.len() implies settles(definitions@, (#[trigger] r.definitions@[k]).0) by {
            lemma_containment_settles(definitions@, r.definitions@[k].0);
        }
        lemma_reading_is_read(read@, r.edges@, definitions@, grouping.of@, r.reading@, r.cost, references@, ripples);
    }
    r
}

} // verus!
