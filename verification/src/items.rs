//! Finding the definitions in a parsed Rust file, and where each of their parts sits.

use crate::lines::Lines;
use crate::model::{copy_strings, strings_eq, Locator, LocatorView, Part};
use crate::syntax::{item_view, items_view, ItemKind, RustItem, RustItemView};
use crate::text::{owned, views};
use vstd::prelude::*;
use vstd::string::StringSliceAdditionalSpecFns;

verus! {

/// A stretch of the source, as byte offsets.
pub type Stretch = (usize, usize);

/// One definition found in a file: where it sits in the module tree, what it is called,
/// and the stretches of source each of its parts covers. Several stretches to a part,
/// because a module's imports sit wherever the language allows them.
pub struct Found {
    pub scope: Vec<String>,
    pub name: String,
    /// Where the name itself sits, which is where a language server has to be asked about it.
    pub name_at: Stretch,
    pub kind: String,
    /// Each part a definition has, in the order contract, body, docs; a part that covers
    /// nothing is left out.
    pub parts: Vec<(Part, Vec<Stretch>)>,
}

/// A definition found, as a value.
pub struct FoundView {
    pub scope: Seq<Seq<char>>,
    pub name: Seq<char>,
    pub name_at: Stretch,
    pub kind: Seq<char>,
    pub parts: Seq<(Part, Seq<Stretch>)>,
}

/// A part and its stretches, as values.
pub open spec fn part_views(p: Seq<(Part, Vec<Stretch>)>) -> Seq<(Part, Seq<Stretch>)> {
    p.map_values(|e: (Part, Vec<Stretch>)| (e.0, e.1@))
}

impl View for Found {
    type V = FoundView;

    open spec fn view(&self) -> FoundView {
        FoundView {
            scope: views(self.scope@),
            name: self.name@,
            name_at: self.name_at,
            kind: self.kind@,
            parts: part_views(self.parts@),
        }
    }
}

/// Definitions found, as values.
pub open spec fn found_views(f: Seq<Found>) -> Seq<FoundView> {
    f.map_values(|x: Found| x@)
}

// ---------------------------------------------------------------------------------------
// Parts.

/// The parts a definition has, from its three lists of stretches, leaving out the ones
/// that cover nothing. A type alias has no body, and most things have no prose.
pub open spec fn parts_spec(contract: Seq<Stretch>, body: Seq<Stretch>, docs: Seq<Stretch>) -> Seq<(Part, Seq<Stretch>)> {
    (if contract.len() > 0 { seq![(Part::Contract, contract)] } else { Seq::empty() })
        + (if body.len() > 0 { seq![(Part::Body, body)] } else { Seq::empty() })
        + (if docs.len() > 0 { seq![(Part::Docs, docs)] } else { Seq::empty() })
}

/// The stretches of one part, none where the definition lacks it.
pub open spec fn part_of(parts: Seq<(Part, Seq<Stretch>)>, part: Part) -> Seq<Stretch>
    decreases parts.len(),
{
    if parts.len() == 0 {
        Seq::empty()
    } else if parts[0].0 == part {
        parts[0].1
    } else {
        part_of(parts.drop_first(), part)
    }
}

fn parts(contract: Vec<Stretch>, body: Vec<Stretch>, docs: Vec<Stretch>) -> (r: Vec<(Part, Vec<Stretch>)>)
    ensures
        part_views(r@) == parts_spec(contract@, body@, docs@),
{
    let ghost (c, b, d) = (contract@, body@, docs@);
    let mut r: Vec<(Part, Vec<Stretch>)> = Vec::new();
    if contract.len() > 0 {
        r.push((Part::Contract, contract));
    }
    let ghost r1 = part_views(r@);
    assert(r1 =~= (if c.len() > 0 { seq![(Part::Contract, c)] } else { Seq::empty() }));
    if body.len() > 0 {
        r.push((Part::Body, body));
    }
    let ghost r2 = part_views(r@);
    assert(r2 =~= r1 + (if b.len() > 0 { seq![(Part::Body, b)] } else { Seq::empty() }));
    if docs.len() > 0 {
        r.push((Part::Docs, docs));
    }
    assert(part_views(r@) =~= r2 + (if d.len() > 0 { seq![(Part::Docs, d)] } else { Seq::empty() }));
    r
}

/// The stretches of one part.
fn part_list(parts: &Vec<(Part, Vec<Stretch>)>, part: Part) -> (r: Vec<Stretch>)
    ensures
        r@ == part_of(part_views(parts@), part),
{
    assert(part_views(parts@).skip(0) =~= part_views(parts@));
    let mut i: usize = 0;
    while i < parts.len()
        invariant
            i <= parts@.len(),
            part_of(part_views(parts@), part) == part_of(part_views(parts@).skip(i as int), part),
        decreases parts@.len() - i,
    {
        let ghost rest = part_views(parts@).skip(i as int);
        assert(rest.drop_first() =~= part_views(parts@).skip(i + 1));
        if parts[i].0 == part {
            return copy_stretches(&parts[i].1);
        }
        i = i + 1;
    }
    Vec::new()
}

fn copy_stretches(s: &Vec<Stretch>) -> (r: Vec<Stretch>)
    ensures
        r@ == s@,
{
    let mut r: Vec<Stretch> = Vec::new();
    for i in 0..s.len()
        invariant
            r@ == s@.take(i as int),
    {
        r.push(s[i]);
        assert(r@ =~= s@.take(i + 1));
    }
    assert(s@.take(s@.len() as int) =~= s@);
    r
}

// ---------------------------------------------------------------------------------------
// Prose and declarations.

/// The doc comments among some attributes, as one stretch from the first to the last:
/// `///` lines are one comment as far as a reader is concerned. An `#[derive]` belongs to
/// the declaration, not the prose.
pub open spec fn doc_bounds(attrs: Seq<(bool, Stretch)>) -> Option<Stretch>
    decreases attrs.len(),
{
    if attrs.len() == 0 {
        None
    } else {
        let rest = doc_bounds(attrs.drop_last());
        let a = attrs.last();
        if !a.0 {
            rest
        } else {
            match rest {
                Some(b) => Some((if a.1.0 < b.0 { a.1.0 } else { b.0 }, if a.1.1 > b.1 { a.1.1 } else { b.1 })),
                None => Some(a.1),
            }
        }
    }
}

/// The prose written on something: its doc comments as one stretch, or none.
pub open spec fn docs_spec(attrs: Seq<(bool, Stretch)>) -> Seq<Stretch> {
    match doc_bounds(attrs) {
        Some(b) => seq![b],
        None => Seq::empty(),
    }
}

/// The doc comments' stretch runs from the smallest start to the largest end among them.
proof fn lemma_doc_bounds(attrs: Seq<(bool, Stretch)>)
    ensures
        doc_bounds(attrs) is Some <==> exists|i: int| 0 <= i < attrs.len() && (#[trigger] attrs[i]).0,
        doc_bounds(attrs) matches Some(b) ==> {
            &&& forall|i: int| 0 <= i < attrs.len() && (#[trigger] attrs[i]).0 ==> b.0 <= attrs[i].1.0 && attrs[i].1.1 <= b.1
            &&& exists|i: int| 0 <= i < attrs.len() && (#[trigger] attrs[i]).0 && attrs[i].1.0 == b.0
            &&& exists|i: int| 0 <= i < attrs.len() && (#[trigger] attrs[i]).0 && attrs[i].1.1 == b.1
        },
    decreases attrs.len(),
{
    if attrs.len() > 0 {
        let init = attrs.drop_last();
        lemma_doc_bounds(init);
        let n = attrs.len() - 1;
        assert forall|i: int| 0 <= i < n implies #[trigger] attrs[i] == init[i] by {}
        if exists|i: int| 0 <= i < init.len() && (#[trigger] init[i]).0 {
            let i = choose|i: int| 0 <= i < init.len() && (#[trigger] init[i]).0;
            assert(attrs[i].0);
        }
        if let Some(b) = doc_bounds(init) {
            let i = choose|i: int| 0 <= i < init.len() && (#[trigger] init[i]).0 && init[i].1.0 == b.0;
            let j = choose|i: int| 0 <= i < init.len() && (#[trigger] init[i]).0 && init[i].1.1 == b.1;
            assert(attrs[i] == init[i] && attrs[j] == init[j]);
        }
        if attrs[n].0 {
            assert(attrs[n] == attrs.last());
        }
    }
}

/// A thing's prose is one stretch when it has any doc comment and none otherwise, and that
/// stretch holds every doc comment, from the first one's start to the last one's end:
/// runs of `///` lines are joined up.
pub proof fn lemma_docs_hold_every_doc(attrs: Seq<(bool, Stretch)>)
    ensures
        docs_spec(attrs).len() == (if exists|i: int| 0 <= i < attrs.len() && (#[trigger] attrs[i]).0 { 1int } else { 0int }),
        forall|i: int|
            0 <= i < attrs.len() && (#[trigger] attrs[i]).0 ==> docs_spec(attrs)[0].0 <= attrs[i].1.0 && attrs[i].1.1 <= docs_spec(attrs)[0].1,
        docs_spec(attrs).len() == 1 ==> exists|i: int| 0 <= i < attrs.len() && (#[trigger] attrs[i]).0 && attrs[i].1.0 == docs_spec(attrs)[0].0,
        docs_spec(attrs).len() == 1 ==> exists|i: int| 0 <= i < attrs.len() && (#[trigger] attrs[i]).0 && attrs[i].1.1 == docs_spec(attrs)[0].1,
{
    lemma_doc_bounds(attrs);
}

fn docs(attrs: &Vec<(bool, Stretch)>) -> (r: Vec<Stretch>)
    ensures
        r@ == docs_spec(attrs@),
{
    let mut bounds: Option<Stretch> = None;
    for i in 0..attrs.len()
        invariant
            bounds == doc_bounds(attrs@.take(i as int)),
    {
        assert(attrs@.take(i + 1).drop_last() =~= attrs@.take(i as int));
        let a = attrs[i];
        if a.0 {
            bounds = match bounds {
                Some(b) => Some((if a.1.0 < b.0 { a.1.0 } else { b.0 }, if a.1.1 > b.1 { a.1.1 } else { b.1 })),
                None => Some(a.1),
            };
        }
    }
    assert(attrs@.take(attrs@.len() as int) =~= attrs@);
    match bounds {
        Some(b) => vec![b],
        None => Vec::new(),
    }
}

/// The furthest end among some stretches, `start` where there are none.
pub open spec fn furthest(prose: Seq<Stretch>, start: usize) -> usize
    decreases prose.len(),
{
    if prose.len() == 0 {
        start
    } else {
        let rest = furthest(prose.drop_last(), start);
        if prose.last().1 > rest { prose.last().1 } else { rest }
    }
}

/// What a caller can see: the whole of an item but its prose and its workings. Taken from
/// where the item starts, so `pub` and any attribute above the prose belong to it; then
/// from the end of the prose up to where the workings begin.
pub open spec fn declared_spec(outer: Stretch, prose: Seq<Stretch>, until: usize) -> Seq<Stretch> {
    let head = if prose.len() > 0 && prose[0].0 > outer.0 { seq![(outer.0, prose[0].0)] } else { Seq::empty() };
    let after = furthest(prose, outer.0);
    head + if after < until { seq![(after, until)] } else { Seq::empty() }
}

fn declared(outer: Stretch, prose: &Vec<Stretch>, until: usize) -> (r: Vec<Stretch>)
    ensures
        r@ == declared_spec(outer, prose@, until),
{
    let mut r: Vec<Stretch> = Vec::new();
    if prose.len() > 0 && prose[0].0 > outer.0 {
        r.push((outer.0, prose[0].0));
    }
    let mut after = outer.0;
    for i in 0..prose.len()
        invariant
            after == furthest(prose@.take(i as int), outer.0),
    {
        assert(prose@.take(i + 1).drop_last() =~= prose@.take(i as int));
        if prose[i].1 > after {
            after = prose[i].1;
        }
    }
    assert(prose@.take(prose@.len() as int) =~= prose@);
    let ghost head = r@;
    if after < until {
        r.push((after, until));
    }
    assert(r@ =~= declared_spec(outer, prose@, until)) by {
        assert(head =~= (if prose@.len() > 0 && prose@[0].0 > outer.0 { seq![(outer.0, prose@[0].0)] } else { Seq::<Stretch>::empty() }));
    }
    r
}

// ---------------------------------------------------------------------------------------
// One item.

/// How a kind of item is called in a review.
pub open spec fn kind_text(kind: ItemKind) -> Seq<char> {
    match kind {
        ItemKind::Fn => seq!['f', 'n'],
        ItemKind::Struct => seq!['s', 't', 'r', 'u', 'c', 't'],
        ItemKind::Enum => seq!['e', 'n', 'u', 'm'],
        ItemKind::Union => seq!['u', 'n', 'i', 'o', 'n'],
        ItemKind::Type => seq!['t', 'y', 'p', 'e'],
        ItemKind::Const => seq!['c', 'o', 'n', 's', 't'],
        ItemKind::Static => seq!['s', 't', 'a', 't', 'i', 'c'],
        ItemKind::Macro => seq!['m', 'a', 'c', 'r', 'o'],
        ItemKind::Trait => seq!['t', 'r', 'a', 'i', 't'],
        ItemKind::TraitFn => seq!['t', 'r', 'a', 'i', 't', ' ', 'f', 'n'],
        ItemKind::Impl => seq!['i', 'm', 'p', 'l'],
        ItemKind::Method => seq!['m', 'e', 't', 'h', 'o', 'd'],
        ItemKind::AssocConst => seq!['a', 's', 's', 'o', 'c', ' ', 'c', 'o', 'n', 's', 't'],
        ItemKind::Mod => seq!['m', 'o', 'd', 'u', 'l', 'e'],
        ItemKind::Use => seq!['u', 's', 'e'],
        ItemKind::ExternCrate => seq!['e', 'x', 't', 'e', 'r', 'n', ' ', 'c', 'r', 'a', 't', 'e'],
        ItemKind::Other => Seq::empty(),
    }
}

fn kind_name(kind: ItemKind) -> (r: String)
    ensures
        r@ == kind_text(kind),
{
    let s: &str = match kind {
        ItemKind::Fn => "fn",
        ItemKind::Struct => "struct",
        ItemKind::Enum => "enum",
        ItemKind::Union => "union",
        ItemKind::Type => "type",
        ItemKind::Const => "const",
        ItemKind::Static => "static",
        ItemKind::Macro => "macro",
        ItemKind::Trait => "trait",
        ItemKind::TraitFn => "trait fn",
        ItemKind::Impl => "impl",
        ItemKind::Method => "method",
        ItemKind::AssocConst => "assoc const",
        ItemKind::Mod => "module",
        ItemKind::Use => "use",
        ItemKind::ExternCrate => "extern crate",
        ItemKind::Other => "",
    };
    proof {
        reveal_strlit("fn");
        reveal_strlit("struct");
        reveal_strlit("enum");
        reveal_strlit("union");
        reveal_strlit("type");
        reveal_strlit("const");
        reveal_strlit("static");
        reveal_strlit("macro");
        reveal_strlit("trait");
        reveal_strlit("trait fn");
        reveal_strlit("impl");
        reveal_strlit("method");
        reveal_strlit("assoc const");
        reveal_strlit("module");
        reveal_strlit("use");
        reveal_strlit("extern crate");
        reveal_strlit("");
    }
    let r = owned(s);
    assert(r@ =~= kind_text(kind));
    r
}

/// A name as a value, nothing where none is written.
pub open spec fn name_text(name: Option<Seq<char>>) -> Seq<char> {
    match name {
        Some(n) => n,
        None => Seq::empty(),
    }
}

/// Something with a signature and, usually, a body behind it. The parts are butted up
/// against each other, so the line ending between a doc comment and the signature belongs
/// to the declaration rather than to nothing.
pub open spec fn callable_spec(v: RustItemView, scope: Seq<Seq<char>>) -> FoundView {
    let prose = docs_spec(v.attrs);
    let until = match v.body {
        Some(b) => b.0,
        None => v.whole.1,
    };
    FoundView {
        scope,
        name: name_text(v.name),
        name_at: v.name_at,
        kind: kind_text(v.kind),
        parts: parts_spec(
            declared_spec(v.whole, prose, until),
            match v.body {
                Some(b) => seq![b],
                None => Seq::empty(),
            },
            prose,
        ),
    }
}

/// A definition with nothing hidden, like a struct: all of it is the declaration.
pub open spec fn whole_spec(v: RustItemView, scope: Seq<Seq<char>>) -> FoundView {
    let prose = docs_spec(v.attrs);
    FoundView {
        scope,
        name: name_text(v.name),
        name_at: v.name_at,
        kind: kind_text(v.kind),
        parts: parts_spec(declared_spec(v.whole, prose, v.whole.1), Seq::empty(), prose),
    }
}

fn text_of(name: &Option<String>) -> (r: String)
    ensures
        r@ == name_text(crate::syntax::opt_text(*name)),
{
    match name {
        Some(n) => n.clone(),
        None => String::new(),
    }
}

fn callable(item: &RustItem, scope: &Vec<String>) -> (r: Found)
    ensures
        r@ == callable_spec(item@, views(scope@)),
{
    let prose = docs(&item.attrs);
    let until = match item.body {
        Some(b) => b.0,
        None => item.whole.1,
    };
    let contract = declared(item.whole, &prose, until);
    let body = match item.body {
        Some(b) => vec![b],
        None => Vec::new(),
    };
    proof {
        match item.body {
            Some(b) => assert(body@ =~= seq![b]),
            None => assert(body@ =~= Seq::<Stretch>::empty()),
        }
    }
    let v = Found {
        scope: copy_strings(scope),
        name: text_of(&item.name),
        name_at: item.name_at,
        kind: kind_name(item.kind),
        parts: parts(contract, body, prose),
    };
    assert(item@.attrs == item.attrs@ && item@.body == item.body && item@.whole == item.whole);
    assert(v@.parts == callable_spec(item@, views(scope@)).parts);
    assert(v@.scope == views(scope@));
    v
}

fn whole(item: &RustItem, scope: &Vec<String>) -> (r: Found)
    ensures
        r@ == whole_spec(item@, views(scope@)),
{
    let prose = docs(&item.attrs);
    let contract = declared(item.whole, &prose, item.whole.1);
    Found {
        scope: copy_strings(scope),
        name: text_of(&item.name),
        name_at: item.name_at,
        kind: kind_name(item.kind),
        parts: parts(contract, Vec::new(), prose),
    }
}

/// A constant in an implementation block: its name is what callers see, its value is the
/// workings.
pub open spec fn constant_spec(v: RustItemView, scope: Seq<Seq<char>>) -> FoundView {
    FoundView {
        scope,
        name: name_text(v.name),
        name_at: v.name_at,
        kind: kind_text(v.kind),
        parts: parts_spec(
            seq![v.name_at],
            match v.body {
                Some(b) => seq![b],
                None => Seq::empty(),
            },
            docs_spec(v.attrs),
        ),
    }
}

fn constant(item: &RustItem, scope: &Vec<String>) -> (r: Found)
    ensures
        r@ == constant_spec(item@, views(scope@)),
{
    let body = match item.body {
        Some(b) => vec![b],
        None => Vec::new(),
    };
    proof {
        match item.body {
            Some(b) => assert(body@ =~= seq![b]),
            None => assert(body@ =~= Seq::<Stretch>::empty()),
        }
    }
    let contract = vec![item.name_at];
    assert(contract@ =~= seq![item.name_at]);
    let v = Found {
        scope: copy_strings(scope),
        name: text_of(&item.name),
        name_at: item.name_at,
        kind: kind_name(item.kind),
        parts: parts(contract, body, docs(&item.attrs)),
    };
    assert(item@.attrs == item.attrs@ && item@.body == item.body);
    v
}

/// A trait as a definition: its name is its declaration, its members are definitions of
/// their own.
pub open spec fn trait_spec(v: RustItemView, scope: Seq<Seq<char>>) -> FoundView {
    FoundView {
        scope,
        name: name_text(v.name),
        name_at: v.name_at,
        kind: kind_text(v.kind),
        parts: parts_spec(seq![v.name_at], Seq::empty(), docs_spec(v.attrs)),
    }
}

fn trait_head(item: &RustItem, scope: &Vec<String>) -> (r: Found)
    ensures
        r@ == trait_spec(item@, views(scope@)),
{
    let contract = vec![item.name_at];
    assert(contract@ =~= seq![item.name_at]);
    let v = Found {
        scope: copy_strings(scope),
        name: text_of(&item.name),
        name_at: item.name_at,
        kind: kind_name(item.kind),
        parts: parts(contract, Vec::new(), docs(&item.attrs)),
    };
    assert(item@.attrs == item.attrs@);
    v
}

/// What an implementation block implements, the way Rust writes it when it has to say
/// which of two it means: `Money as Display`. A type written as a path goes by its last
/// name, `?` where the path is empty; any other type as it is written.
pub open spec fn implementing_spec(v: RustItemView) -> Seq<char> {
    let subject = match v.self_path {
        Some(segs) => if segs.len() > 0 { segs.last() } else { seq!['?'] },
        None => v.self_text,
    };
    match v.trait_path {
        Some(t) => if t.len() > 0 { subject + seq![' ', 'a', 's', ' '] + t.last() } else { subject },
        None => subject,
    }
}

fn last_of(segs: &Vec<String>) -> (r: String)
    requires
        segs@.len() > 0,
    ensures
        r@ == texts_last(segs@),
{
    segs[segs.len() - 1].clone()
}

/// The last of some texts, as a value.
pub open spec fn texts_last(segs: Seq<String>) -> Seq<char> {
    segs.last()@
}

fn implementing(item: &RustItem) -> (r: String)
    ensures
        r@ == implementing_spec(item@),
{
    let mut subject = match &item.self_path {
        Some(segs) => if segs.len() > 0 {
            last_of(segs)
        } else {
            let q = "?";
            proof {
                reveal_strlit("?");
            }
            owned(q)
        },
        None => item.self_text.clone(),
    };
    proof {
        match &item.self_path {
            Some(segs) => {
                if segs@.len() > 0 {
                    assert(crate::syntax::texts(segs@).last() == segs@.last()@);
                } else {
                    assert(subject@ =~= seq!['?']);
                }
            },
            None => {},
        }
    }
    let ghost first = subject@;
    match &item.trait_path {
        Some(t) => if t.len() > 0 {
            let sep = " as ";
            proof {
                reveal_strlit(" as ");
                assert(crate::syntax::texts(t@).last() == t@.last()@);
            }
            subject.append(sep);
            subject.append(t[t.len() - 1].as_str());
            assert(subject@ =~= first + seq![' ', 'a', 's', ' '] + t@.last()@);
        },
        None => {},
    }
    subject
}

/// Everything but the last byte's worth: the closing brace of something that ends at `end`.
pub open spec fn brace(end: usize) -> Stretch {
    (if end >= 1 { (end - 1) as usize } else { 0 }, end)
}

/// An implementation block as a definition: a claim about a type that callers rely on.
/// It claims its header, from `impl` to the type or the `where` clause, and its closing
/// brace; what is between the braces has definitions of its own. Prose above it reaches
/// the `impl` keyword.
pub open spec fn implementation_spec(v: RustItemView, scope: Seq<Seq<char>>) -> FoundView {
    let header = v.opening.0;
    let signed = match v.bounds {
        Some(b) => b,
        None => v.name_at,
    };
    let told = docs_spec(v.attrs);
    FoundView {
        scope,
        name: seq!['i', 'm', 'p', 'l', ' '] + implementing_spec(v),
        name_at: v.name_at,
        kind: kind_text(v.kind),
        parts: parts_spec(
            seq![(header, signed.1), brace(v.whole.1)],
            Seq::empty(),
            if told.len() > 0 { seq![(told[0].0, header)] } else { Seq::empty() },
        ),
    }
}

fn implementation(item: &RustItem, scope: &Vec<String>) -> (r: Found)
    ensures
        r@ == implementation_spec(item@, views(scope@)),
{
    let header = item.opening.0;
    let signed = match item.bounds {
        Some(b) => b,
        None => item.name_at,
    };
    let told = docs(&item.attrs);
    let end = item.whole.1;
    let closing = (if end >= 1 { end - 1 } else { 0 }, end);
    let contract = vec![(header, signed.1), closing];
    assert(contract@ =~= seq![(header, signed.1), brace(end)]);
    let prose = if told.len() > 0 { vec![(told[0].0, header)] } else { Vec::new() };
    proof {
        if told@.len() > 0 {
            assert(prose@ =~= seq![(told@[0].0, header)]);
        } else {
            assert(prose@ =~= Seq::<Stretch>::empty());
        }
    }
    let mut name = String::new();
    let lead = "impl ";
    proof {
        reveal_strlit("impl ");
    }
    name.append(lead);
    let what = implementing(item);
    name.append(what.as_str());
    assert(name@ =~= seq!['i', 'm', 'p', 'l', ' '] + implementing_spec(item@));
    let v = Found {
        scope: copy_strings(scope),
        name,
        name_at: item.name_at,
        kind: kind_name(item.kind),
        parts: parts(contract, Vec::new(), prose),
    };
    assert(item@.attrs == item.attrs@ && item@.bounds == item.bounds && item@.opening == item.opening);
    v
}

// ---------------------------------------------------------------------------------------
// A module's own definition.

/// Whether an item says what a module brings in or passes on: a `use`, an `extern crate`,
/// or a `mod` declaration (making one public publishes what is inside it).
pub open spec fn is_decl(v: RustItemView) -> bool {
    v.kind == ItemKind::Use || v.kind == ItemKind::ExternCrate || v.kind == ItemKind::Mod
}

/// The stretch a declaration covers: for an inline module only its header, since what is
/// inside has its own definitions and its own module.
pub open spec fn decl_span(v: RustItemView) -> Stretch {
    if v.kind == ItemKind::Mod && v.inline { (v.whole.0, v.name_at.1) } else { v.whole }
}

/// The declarations among some items: where each sits in the list, whether it is public,
/// and its stretch.
pub open spec fn decls(items: Seq<RustItemView>) -> Seq<(usize, bool, Stretch)>
    decreases items.len(),
{
    if items.len() == 0 {
        Seq::empty()
    } else {
        decls(items.drop_last()) + if is_decl(items.last()) {
            seq![((items.len() - 1) as usize, items.last().public, decl_span(items.last()))]
        } else {
            Seq::empty()
        }
    }
}

/// A declaration's stretch, reaching the next one where the next item in the list is a
/// declaration too: a run of them is one stretch of the file, so the line ending between
/// two belongs to the first rather than to nothing. Only a run: anything else in between
/// is somebody else's.
pub open spec fn reach(found: Seq<(usize, bool, Stretch)>, k: int) -> Stretch {
    if k + 1 < found.len() && found[k + 1].0 == found[k].0 + 1 && found[k + 1].2.0 > found[k].2.1 {
        (found[k].2.0, found[k + 1].2.0)
    } else {
        found[k].2
    }
}

/// The reached stretches of the first `n` declarations that are public, or that are not.
pub open spec fn picked(found: Seq<(usize, bool, Stretch)>, public: bool, n: int) -> Seq<Stretch>
    decreases n,
{
    if n <= 0 {
        Seq::empty()
    } else {
        picked(found, public, n - 1) + if found[n - 1].1 == public { seq![reach(found, n - 1)] } else { Seq::empty() }
    }
}

/// What a module says about what it brings in and passes on: the public declarations,
/// which are contract, and the private ones, which are workings.
pub open spec fn imports_spec(items: Seq<RustItemView>) -> (Seq<Stretch>, Seq<Stretch>) {
    let found = decls(items);
    (picked(found, true, found.len() as int), picked(found, false, found.len() as int))
}

fn imports(items: &Vec<RustItem>) -> (r: (Vec<Stretch>, Vec<Stretch>))
    ensures
        (r.0@, r.1@) == imports_spec(items_view(items@)),
{
    let ghost all = items_view(items@);
    let mut found: Vec<(usize, bool, Stretch)> = Vec::new();
    for at in 0..items.len()
        invariant
            all == items_view(items@),
            found@ == decls(all.take(at as int)),
    {
        let ghost upto = all.take(at + 1);
        assert(upto.drop_last() =~= all.take(at as int));
        assert(upto.last() == items@[at as int]@);
        let item = &items[at];
        let is = match item.kind {
            ItemKind::Use | ItemKind::ExternCrate | ItemKind::Mod => true,
            _ => false,
        };
        if is {
            let span = match item.kind {
                ItemKind::Mod => if item.inline { (item.whole.0, item.name_at.1) } else { item.whole },
                _ => item.whole,
            };
            found.push((at, item.public, span));
        }
    }
    assert(all.take(items@.len() as int) =~= all);
    let n = found.len();
    let mut public: Vec<Stretch> = Vec::new();
    let mut private: Vec<Stretch> = Vec::new();
    for k in 0..n
        invariant
            n == found@.len(),
            public@ == picked(found@, true, k as int),
            private@ == picked(found@, false, k as int),
    {
        let mut span = found[k].2;
        if k + 1 < n && found[k + 1].0 >= 1 && found[k + 1].0 - 1 == found[k].0 && found[k + 1].2.0 > found[k].2.1 {
            span = (found[k].2.0, found[k + 1].2.0);
        }
        assert(span == reach(found@, k as int));
        if found[k].1 {
            public.push(span);
        } else {
            private.push(span);
        }
    }
    (public, private)
}

/// The earliest start among some stretches.
pub open spec fn first_start(s: Seq<Stretch>) -> Option<usize>
    decreases s.len(),
{
    if s.len() == 0 {
        None
    } else {
        match first_start(s.drop_last()) {
            Some(m) => Some(if s.last().0 < m { s.last().0 } else { m }),
            None => Some(s.last().0),
        }
    }
}

fn earliest(s: &Vec<Stretch>, from: Option<usize>) -> (r: Option<usize>)
    ensures
        r == match (from, first_start(s@)) {
            (Some(a), Some(b)) => Some(if b < a { b } else { a }),
            (Some(a), None) => Some(a),
            (None, b) => b,
        },
{
    let mut m = from;
    for i in 0..s.len()
        invariant
            m == match (from, first_start(s@.take(i as int))) {
                (Some(a), Some(b)) => Some(if b < a { b } else { a }),
                (Some(a), None) => Some(a),
                (None, b) => b,
            },
    {
        assert(s@.take(i + 1).drop_last() =~= s@.take(i as int));
        m = match m {
            Some(x) => Some(if s[i].0 < x { s[i].0 } else { x }),
            None => Some(s[i].0),
        };
    }
    assert(s@.take(s@.len() as int) =~= s@);
    m
}

proof fn lemma_first_start_join(a: Seq<Stretch>, b: Seq<Stretch>)
    ensures
        first_start(a + b) == match (first_start(a), first_start(b)) {
            (Some(x), Some(y)) => Some(if y < x { y } else { x }),
            (Some(x), None) => Some(x),
            (None, y) => y,
        },
    decreases b.len(),
{
    if b.len() == 0 {
        assert(a + b =~= a);
    } else {
        lemma_first_start_join(a, b.drop_last());
        assert((a + b).drop_last() =~= a + b.drop_last());
    }
}

/// The module itself, as a definition, named by the last part of its path. Without one, a
/// file's imports and its own prose would belong to nothing. Its `//!` prose is docs and
/// reaches whatever it introduces, so the blank line under it isn't a hole; `pub use` is
/// contract; a private `use` is workings. A file's module has no name written in it, so
/// its start stands in.
pub open spec fn module_spec(attrs: Seq<(bool, Stretch)>, items: Seq<RustItemView>, path: Seq<Seq<char>>, extent: Stretch) -> Option<FoundView> {
    if path.len() == 0 {
        None
    } else {
        let (contract, workings) = imports_spec(items);
        let told = docs_spec(attrs);
        let prose = match first_start(contract + workings) {
            Some(f) => if told.len() > 0 && f > told[0].1 { seq![(told[0].0, f)] } else { told },
            None => told,
        };
        Some(
            FoundView {
                scope: path.drop_last(),
                name: path.last(),
                name_at: (extent.0, extent.0),
                kind: kind_text(ItemKind::Mod),
                parts: parts_spec(contract, workings, prose),
            },
        )
    }
}

/// An optional definition as a value.
pub open spec fn opt_found(f: Option<Found>) -> Option<FoundView> {
    match f {
        Some(x) => Some(x@),
        None => None,
    }
}

/// The module at `path` as a definition, from its own attributes and its items.
pub fn module(attrs: &Vec<(bool, Stretch)>, items: &Vec<RustItem>, path: &Vec<String>, extent: Stretch) -> (r: Option<Found>)
    ensures
        opt_found(r) == module_spec(attrs@, items_view(items@), views(path@), extent),
{
    if path.len() == 0 {
        return None;
    }
    let (contract, workings) = imports(items);
    let told = docs(attrs);
    let first = earliest(&workings, earliest(&contract, None));
    proof {
        lemma_first_start_join(contract@, workings@);
    }
    let prose = match first {
        Some(f) => if told.len() > 0 && f > told[0].1 { vec![(told[0].0, f)] } else { told },
        None => told,
    };
    proof {
        match first {
            Some(f) => if docs_spec(attrs@).len() > 0 && f > docs_spec(attrs@)[0].1 {
                assert(prose@ =~= seq![(docs_spec(attrs@)[0].0, f)]);
            },
            None => {},
        }
    }
    let mut scope = copy_strings(path);
    let name = scope.pop().unwrap();
    assert(views(scope@) =~= views(path@).drop_last());
    let v = Found {
        scope,
        name,
        name_at: (extent.0, extent.0),
        kind: kind_name(ItemKind::Mod),
        parts: parts(contract, workings, prose),
    };
    Some(v)
}

// ---------------------------------------------------------------------------------------
// Stretches in order.

/// `x` put into stretches sorted by start, after every one that starts no later.
pub open spec fn insert_spec(s: Seq<Stretch>, x: Stretch) -> Seq<Stretch>
    decreases s.len(),
{
    if s.len() == 0 {
        seq![x]
    } else if s.last().0 <= x.0 {
        s.push(x)
    } else {
        insert_spec(s.drop_last(), x).push(s.last())
    }
}

/// Stretches sorted by start, keeping the order given among those that start together.
pub open spec fn sorted_spec(s: Seq<Stretch>) -> Seq<Stretch>
    decreases s.len(),
{
    if s.len() == 0 {
        Seq::empty()
    } else {
        insert_spec(sorted_spec(s.drop_last()), s.last())
    }
}

fn insert_sorted(s: Vec<Stretch>, x: Stretch) -> (r: Vec<Stretch>)
    ensures
        r@ == insert_spec(s@, x),
    decreases s@.len(),
{
    let mut s = s;
    if s.len() == 0 {
        s.push(x);
        assert(s@ =~= seq![x]);
        return s;
    }
    let ghost before = s@;
    let last = s.pop().unwrap();
    assert(s@ =~= before.drop_last());
    if last.0 <= x.0 {
        s.push(last);
        s.push(x);
        assert(s@ =~= before.push(x));
        s
    } else {
        let mut r = insert_sorted(s, x);
        r.push(last);
        r
    }
}

fn sort_stretches(v: &Vec<Stretch>) -> (r: Vec<Stretch>)
    ensures
        r@ == sorted_spec(v@),
{
    let mut out: Vec<Stretch> = Vec::new();
    for i in 0..v.len()
        invariant
            out@ == sorted_spec(v@.take(i as int)),
    {
        assert(v@.take(i + 1).drop_last() =~= v@.take(i as int));
        out = insert_sorted(out, v[i]);
    }
    assert(v@.take(v@.len() as int) =~= v@);
    out
}

// ---------------------------------------------------------------------------------------
// Merging by name.

/// Where the first definition with this scope and name sits, if any does.
pub open spec fn named_index(out: Seq<FoundView>, scope: Seq<Seq<char>>, name: Seq<char>) -> Option<int>
    decreases out.len(),
{
    if out.len() == 0 {
        None
    } else if out[0].scope == scope && out[0].name == name {
        Some(0)
    } else {
        match named_index(out.drop_first(), scope, name) {
            Some(i) => Some(i + 1),
            None => None,
        }
    }
}

/// Two definitions' parts as one: each part holds both's stretches, sorted by start.
pub open spec fn merge_parts(kept: Seq<(Part, Seq<Stretch>)>, more: Seq<(Part, Seq<Stretch>)>) -> Seq<(Part, Seq<Stretch>)> {
    parts_spec(
        sorted_spec(part_of(kept, Part::Contract) + part_of(more, Part::Contract)),
        sorted_spec(part_of(kept, Part::Body) + part_of(more, Part::Body)),
        sorted_spec(part_of(kept, Part::Docs) + part_of(more, Part::Docs)),
    )
}

/// One more definition: folded into the first one answering to the same name, or added.
pub open spec fn merge_into(out: Seq<FoundView>, one: FoundView) -> Seq<FoundView> {
    match named_index(out, one.scope, one.name) {
        Some(i) => out.update(i, FoundView { parts: merge_parts(out[i].parts, one.parts), ..out[i] }),
        None => out.push(one),
    }
}

/// Anything answering to the same name becomes one definition holding every stretch. A
/// type's methods can be split across as many `impl` blocks as somebody felt like, and
/// each is a stretch of the same thing: two definitions with one name could not be told
/// apart between snapshots.
pub open spec fn merged_spec(found: Seq<FoundView>) -> Seq<FoundView>
    decreases found.len(),
{
    if found.len() == 0 {
        Seq::empty()
    } else {
        merge_into(merged_spec(found.drop_last()), found.last())
    }
}

fn copy_found(f: &Found) -> (r: Found)
    ensures
        r@ == f@,
{
    let mut parts: Vec<(Part, Vec<Stretch>)> = Vec::new();
    for i in 0..f.parts.len()
        invariant
            parts@.len() == i,
            part_views(parts@) == part_views(f.parts@).take(i as int),
    {
        let list = copy_stretches(&f.parts[i].1);
        let p = (f.parts[i].0, list);
        let ghost was = parts@;
        parts.push(p);
        assert(parts@ == was.push(p));
        assert(part_views(parts@)[i as int] == part_views(f.parts@)[i as int]);
        assert(part_views(parts@) =~= part_views(f.parts@).take(i + 1)) by {
            assert forall|j: int| 0 <= j < i implies part_views(parts@)[j] == part_views(f.parts@)[j] by {
                assert(parts@[j] == was[j]);
                assert(part_views(was)[j] == part_views(f.parts@).take(i as int)[j]);
            }
        }
    }
    assert(part_views(f.parts@).take(f.parts@.len() as int) =~= part_views(f.parts@));
    Found { scope: copy_strings(&f.scope), name: f.name.clone(), name_at: f.name_at, kind: f.kind.clone(), parts }
}

fn find_named(out: &Vec<Found>, scope: &Vec<String>, name: &String) -> (r: Option<usize>)
    ensures
        match r {
            Some(i) => named_index(found_views(out@), views(scope@), name@) == Some(i as int) && i < out@.len(),
            None => named_index(found_views(out@), views(scope@), name@) is None,
        },
{
    let ghost all = found_views(out@);
    assert(all.skip(0) =~= all);
    let mut i: usize = 0;
    while i < out.len()
        invariant
            i <= out@.len(),
            all == found_views(out@),
            named_index(all, views(scope@), name@) == match named_index(all.skip(i as int), views(scope@), name@) {
                Some(j) => Some(j + i),
                None => None,
            },
        decreases out@.len() - i,
    {
        assert(all.skip(i as int)[0] == out@[i as int]@);
        assert(all.skip(i as int).drop_first() =~= all.skip(i + 1));
        if strings_eq(&out[i].scope, scope) && crate::text::str_eq(out[i].name.as_str(), name.as_str()) {
            return Some(i);
        }
        i = i + 1;
    }
    None
}

fn merged(found: &Vec<Found>) -> (r: Vec<Found>)
    ensures
        found_views(r@) == merged_spec(found_views(found@)),
{
    let ghost all = found_views(found@);
    let mut out: Vec<Found> = Vec::new();
    for k in 0..found.len()
        invariant
            all == found_views(found@),
            found_views(out@) == merged_spec(all.take(k as int)),
    {
        let ghost before = found_views(out@);
        assert(all.take(k + 1).drop_last() =~= all.take(k as int));
        assert(all.take(k + 1).last() == found@[k as int]@);
        let one = &found[k];
        match find_named(&out, &one.scope, &one.name) {
            Some(i) => {
                let kept = &out[i];
                let mut c = part_list(&kept.parts, Part::Contract);
                let mut c2 = part_list(&one.parts, Part::Contract);
                c.append(&mut c2);
                let mut b = part_list(&kept.parts, Part::Body);
                let mut b2 = part_list(&one.parts, Part::Body);
                b.append(&mut b2);
                let mut d = part_list(&kept.parts, Part::Docs);
                let mut d2 = part_list(&one.parts, Part::Docs);
                d.append(&mut d2);
                let joined = parts(sort_stretches(&c), sort_stretches(&b), sort_stretches(&d));
                let updated = Found {
                    scope: copy_strings(&kept.scope),
                    name: kept.name.clone(),
                    name_at: kept.name_at,
                    kind: kept.kind.clone(),
                    parts: joined,
                };
                out.set(i, updated);
                assert(found_views(out@) =~= merge_into(before, found@[k as int]@));
            },
            None => {
                out.push(copy_found(one));
                assert(found_views(out@) =~= merge_into(before, found@[k as int]@));
            },
        }
    }
    assert(all.take(found@.len() as int) =~= all);
    out
}

// ---------------------------------------------------------------------------------------
// Definitions in items.

/// A scope one level further in.
pub open spec fn nest(scope: Seq<Seq<char>>, name: Seq<char>) -> Seq<Seq<char>> {
    scope.push(name)
}

/// A trait's functions, each a definition scoped under the trait.
pub open spec fn trait_members(children: Seq<RustItemView>, inner: Seq<Seq<char>>) -> Seq<FoundView>
    decreases children.len(),
{
    if children.len() == 0 {
        Seq::empty()
    } else {
        trait_members(children.drop_last(), inner) + if children.last().kind == ItemKind::TraitFn {
            seq![callable_spec(children.last(), inner)]
        } else {
            Seq::empty()
        }
    }
}

/// An implementation's methods and constants, each a definition scoped under what it
/// implements.
pub open spec fn impl_members(children: Seq<RustItemView>, inner: Seq<Seq<char>>) -> Seq<FoundView>
    decreases children.len(),
{
    if children.len() == 0 {
        Seq::empty()
    } else {
        impl_members(children.drop_last(), inner) + if children.last().kind == ItemKind::Method {
            seq![callable_spec(children.last(), inner)]
        } else if children.last().kind == ItemKind::AssocConst {
            seq![constant_spec(children.last(), inner)]
        } else {
            Seq::empty()
        }
    }
}

/// An optional definition as a list of none or one.
pub open spec fn listed(f: Option<FoundView>) -> Seq<FoundView> {
    match f {
        Some(x) => seq![x],
        None => Seq::empty(),
    }
}

/// The definitions one item makes, scoped under `scope`: a function or a method with its
/// signature apart from its body; a struct, an enum and the like as all declaration; a
/// trait or an implementation block and then each of its members; an inline module as a
/// module of its own and then whatever it holds, merged by name. Anything else makes none.
pub open spec fn from_item_spec(v: RustItemView, scope: Seq<Seq<char>>) -> Seq<FoundView>
    decreases v,
{
    match v.kind {
        ItemKind::Fn => seq![callable_spec(v, scope)],
        ItemKind::Struct | ItemKind::Enum | ItemKind::Union | ItemKind::Type | ItemKind::Const | ItemKind::Static
        | ItemKind::Macro => seq![whole_spec(v, scope)],
        ItemKind::Trait => seq![trait_spec(v, scope)] + trait_members(v.children, nest(scope, name_text(v.name))),
        ItemKind::Impl => seq![implementation_spec(v, scope)] + impl_members(v.children, nest(scope, implementing_spec(v))),
        ItemKind::Mod => if v.inline {
            let path = nest(scope, name_text(v.name));
            listed(module_spec(v.attrs, v.children, path, v.whole)) + merged_spec(flat_spec(v.children, path))
        } else {
            Seq::empty()
        },
        _ => Seq::empty(),
    }
}

/// The definitions some items make, one item after another.
pub open spec fn flat_spec(items: Seq<RustItemView>, scope: Seq<Seq<char>>) -> Seq<FoundView>
    decreases items,
{
    if items.len() == 0 {
        Seq::empty()
    } else {
        flat_spec(items.drop_last(), scope) + from_item_spec(items.last(), scope)
    }
}

/// The definitions some items make, merged by name.
pub open spec fn find_spec(items: Seq<RustItemView>, scope: Seq<Seq<char>>) -> Seq<FoundView> {
    merged_spec(flat_spec(items, scope))
}

fn nested(scope: &Vec<String>, name: String) -> (r: Vec<String>)
    ensures
        views(r@) == nest(views(scope@), name@),
{
    let mut r = copy_strings(scope);
    r.push(name);
    assert(views(r@) =~= nest(views(scope@), name@));
    r
}

fn trait_fns(children: &Vec<RustItem>, inner: &Vec<String>) -> (r: Vec<Found>)
    ensures
        found_views(r@) == trait_members(items_view(children@), views(inner@)),
{
    let ghost all = items_view(children@);
    let mut r: Vec<Found> = Vec::new();
    for k in 0..children.len()
        invariant
            all == items_view(children@),
            found_views(r@) == trait_members(all.take(k as int), views(inner@)),
    {
        let ghost before = found_views(r@);
        assert(all.take(k + 1).drop_last() =~= all.take(k as int));
        assert(all.take(k + 1).last() == children@[k as int]@);
        if children[k].kind == ItemKind::TraitFn {
            r.push(callable(&children[k], inner));
        }
        assert(found_views(r@) =~= trait_members(all.take(k + 1), views(inner@)));
    }
    assert(all.take(children@.len() as int) =~= all);
    r
}

fn impl_fns(children: &Vec<RustItem>, inner: &Vec<String>) -> (r: Vec<Found>)
    ensures
        found_views(r@) == impl_members(items_view(children@), views(inner@)),
{
    let ghost all = items_view(children@);
    let mut r: Vec<Found> = Vec::new();
    for k in 0..children.len()
        invariant
            all == items_view(children@),
            found_views(r@) == impl_members(all.take(k as int), views(inner@)),
    {
        assert(all.take(k + 1).drop_last() =~= all.take(k as int));
        assert(all.take(k + 1).last() == children@[k as int]@);
        if children[k].kind == ItemKind::Method {
            r.push(callable(&children[k], inner));
        } else if children[k].kind == ItemKind::AssocConst {
            r.push(constant(&children[k], inner));
        }
        assert(found_views(r@) =~= impl_members(all.take(k + 1), views(inner@)));
    }
    assert(all.take(children@.len() as int) =~= all);
    r
}

/// The definitions one item makes, scoped under `scope`.
pub fn from_item(item: &RustItem, scope: &Vec<String>) -> (r: Vec<Found>)
    ensures
        found_views(r@) == from_item_spec(item@, views(scope@)),
    decreases item,
{
    assert(item@.children =~= items_view(item.children@));
    let mut r: Vec<Found> = Vec::new();
    match item.kind {
        ItemKind::Fn => {
            r.push(callable(item, scope));
        },
        ItemKind::Struct | ItemKind::Enum | ItemKind::Union | ItemKind::Type | ItemKind::Const | ItemKind::Static
        | ItemKind::Macro => {
            r.push(whole(item, scope));
        },
        ItemKind::Trait => {
            r.push(trait_head(item, scope));
            let inner = nested(scope, text_of(&item.name));
            let mut members = trait_fns(&item.children, &inner);
            r.append(&mut members);
        },
        ItemKind::Impl => {
            r.push(implementation(item, scope));
            let inner = nested(scope, implementing(item));
            let mut members = impl_fns(&item.children, &inner);
            r.append(&mut members);
        },
        ItemKind::Mod => {
            if item.inline {
                let path = nested(scope, text_of(&item.name));
                match module(&item.attrs, &item.children, &path, item.whole) {
                    Some(m) => r.push(m),
                    None => {},
                }
                proof {
                    assert(decreases_to!(item => item.children));
                }
                let all = flat(&item.children, &path);
                let mut inside = merged(&all);
                r.append(&mut inside);
            }
        },
        _ => {},
    }
    assert(found_views(r@) =~= from_item_spec(item@, views(scope@)));
    r
}

/// The definitions some items make, one item after another.
fn flat(items: &Vec<RustItem>, scope: &Vec<String>) -> (r: Vec<Found>)
    ensures
        found_views(r@) == flat_spec(items_view(items@), views(scope@)),
    decreases items,
{
    let ghost all = items_view(items@);
    let mut r: Vec<Found> = Vec::new();
    for k in 0..items.len()
        invariant
            all == items_view(items@),
            found_views(r@) == flat_spec(all.take(k as int), views(scope@)),
    {
        let ghost before = found_views(r@);
        assert(all.take(k + 1).drop_last() =~= all.take(k as int));
        assert(all.take(k + 1).last() == items@[k as int]@);
        proof {
            assert(decreases_to!(items => items@));
            assert(decreases_to!(items@ => items@[k as int]));
        }
        let mut more = from_item(&items[k], scope);
        r.append(&mut more);
        assert(found_views(r@) =~= before + from_item_spec(items@[k as int]@, views(scope@)));
    }
    assert(all.take(items@.len() as int) =~= all);
    r
}

/// Every definition some items make, merged by name.
pub fn find(items: &Vec<RustItem>, scope: &Vec<String>) -> (r: Vec<Found>)
    ensures
        found_views(r@) == find_spec(items_view(items@), views(scope@)),
        names_once(found_views(r@)),
{
    let all = flat(items, scope);
    let r = merged(&all);
    proof {
        lemma_merged_names_once(found_views(all@));
    }
    r
}

/// No two definitions answer to the same scope and name.
pub open spec fn names_once(f: Seq<FoundView>) -> bool {
    forall|a: int, b: int| 0 <= a < b < f.len() ==> !((#[trigger] f[a]).scope == (#[trigger] f[b]).scope && f[a].name == f[b].name)
}

proof fn lemma_named_index(out: Seq<FoundView>, scope: Seq<Seq<char>>, name: Seq<char>)
    ensures
        named_index(out, scope, name) is None ==> forall|i: int| 0 <= i < out.len() ==> !((#[trigger] out[i]).scope == scope && out[i].name == name),
        named_index(out, scope, name) matches Some(i) ==> 0 <= i < out.len() && out[i].scope == scope && out[i].name == name,
    decreases out.len(),
{
    if out.len() > 0 {
        lemma_named_index(out.drop_first(), scope, name);
        if named_index(out, scope, name) is None {
            assert forall|i: int| 0 <= i < out.len() implies !((#[trigger] out[i]).scope == scope && out[i].name == name) by {
                if i > 0 {
                    assert(out[i] == out.drop_first()[i - 1]);
                }
            }
        }
    }
}

/// Merging by name leaves no two definitions answering to the same scope and name.
pub proof fn lemma_merged_names_once(found: Seq<FoundView>)
    ensures
        names_once(merged_spec(found)),
    decreases found.len(),
{
    if found.len() > 0 {
        let out = merged_spec(found.drop_last());
        let one = found.last();
        lemma_merged_names_once(found.drop_last());
        lemma_named_index(out, one.scope, one.name);
        let r = merged_spec(found);
        match named_index(out, one.scope, one.name) {
            Some(i) => {
                assert forall|a: int, b: int| 0 <= a < b < r.len() implies !((#[trigger] r[a]).scope == (#[trigger] r[b]).scope && r[a].name == r[b].name) by {
                    assert(r[a].scope == out[a].scope && r[a].name == out[a].name);
                    assert(r[b].scope == out[b].scope && r[b].name == out[b].name);
                }
            },
            None => {
                assert forall|a: int, b: int| 0 <= a < b < r.len() implies !((#[trigger] r[a]).scope == (#[trigger] r[b]).scope && r[a].name == r[b].name) by {
                    if b == out.len() {
                        assert(r[a] == out[a]);
                    } else {
                        assert(r[a] == out[a] && r[b] == out[b]);
                    }
                }
            },
        }
    }
}

impl Found {
    /// Everything the definition covers: from the earliest start to the furthest end of
    /// its stretches, nothing where it has none.
    pub open spec fn extent_spec(self) -> Stretch {
        let all = self@.parts.map_values(|p: (Part, Seq<Stretch>)| p.1).flatten();
        match first_start(all) {
            Some(start) => (start, furthest(all, 0)),
            None => (0, 0),
        }
    }

    /// Everything the definition covers, used to spot mentions inside it.
    pub fn extent(&self) -> (r: Stretch)
        ensures
            r == self.extent_spec(),
    {
        let mut all: Vec<Stretch> = Vec::new();
        let ghost lists = self@.parts.map_values(|p: (Part, Seq<Stretch>)| p.1);
        for i in 0..self.parts.len()
            invariant
                lists == self@.parts.map_values(|p: (Part, Seq<Stretch>)| p.1),
                all@ == lists.take(i as int).flatten(),
        {
            let mut more = copy_stretches(&self.parts[i].1);
            all.append(&mut more);
            proof {
                assert(lists.take(i + 1) =~= lists.take(i as int).push(self.parts@[i as int].1@));
                lists.take(i as int).lemma_flatten_push(self.parts@[i as int].1@);
            }
        }
        assert(lists.take(self.parts@.len() as int) =~= lists);
        let first = earliest(&all, None);
        match first {
            Some(start) => {
                let mut end: usize = 0;
                for k in 0..all.len()
                    invariant
                        end == furthest(all@.take(k as int), 0),
                {
                    assert(all@.take(k + 1).drop_last() =~= all@.take(k as int));
                    if all[k].1 > end {
                        end = all[k].1;
                    }
                }
                assert(all@.take(all@.len() as int) =~= all@);
                (start, end)
            },
            None => (0, 0),
        }
    }

    /// Whether a language server can be asked about this by name. Nothing writes the name
    /// of a file and nothing calls an `impl`, so asking about a module or an implementation
    /// block lands on whatever happens to be nearby.
    pub fn referenceable(&self) -> (r: bool)
        ensures
            r == (self.kind@ != kind_text(ItemKind::Mod) && self.kind@ != kind_text(ItemKind::Impl)),
    {
        let module = kind_name(ItemKind::Mod);
        let block = kind_name(ItemKind::Impl);
        !crate::text::str_eq(self.kind.as_str(), module.as_str()) && !crate::text::str_eq(self.kind.as_str(), block.as_str())
    }

    /// The part that covers `at`. The declaration wins where parts overlap: it's the half a
    /// caller can see, and the question being asked is whether a caller could be broken.
    pub fn part_at(&self, at: usize) -> (r: Option<Part>)
        ensures
            r == part_at_spec(self@.parts, at),
    {
        let order = [Part::Contract, Part::Body, Part::Docs];
        let mut k: usize = 0;
        while k < 3
            invariant
                k <= 3,
                order@ == seq![Part::Contract, Part::Body, Part::Docs],
                forall|j: int| 0 <= j < k ==> !covers_at(part_of(self@.parts, #[trigger] order@[j]), at),
            decreases 3 - k,
        {
            let list = part_list(&self.parts, order[k]);
            let mut hit = false;
            for i in 0..list.len()
                invariant
                    hit == exists|j: int| 0 <= j < i && (#[trigger] list@[j]).0 <= at < list@[j].1,
            {
                if list[i].0 <= at && at < list[i].1 {
                    hit = true;
                }
            }
            if hit {
                return Some(order[k]);
            }
            k = k + 1;
        }
        None
    }
}

/// Whether one of some stretches covers `at`.
pub open spec fn covers_at(s: Seq<Stretch>, at: usize) -> bool {
    exists|j: int| 0 <= j < s.len() && (#[trigger] s[j]).0 <= at < s[j].1
}

/// The first of contract, body and docs whose stretches cover `at`.
pub open spec fn part_at_spec(parts: Seq<(Part, Seq<Stretch>)>, at: usize) -> Option<Part> {
    if covers_at(part_of(parts, Part::Contract), at) {
        Some(Part::Contract)
    } else if covers_at(part_of(parts, Part::Body), at) {
        Some(Part::Body)
    } else if covers_at(part_of(parts, Part::Docs), at) {
        Some(Part::Docs)
    } else {
        None
    }
}

/// What a file's source holds, its own module first and then whatever it defines, with
/// the module at `path`; nothing where the source does not parse.
pub open spec fn read_spec(source: Seq<char>, path: Seq<Seq<char>>) -> Option<Seq<FoundView>> {
    match crate::syntax::rust_file(source) {
        Some((attrs, items)) => Some(
            listed(module_spec(attrs, items, path, (0, vstd::utf8::encode_utf8(source).len() as usize)))
                + find_spec(items, path),
        ),
        None => None,
    }
}

/// Parses a Rust source and finds what it defines: its own module, named by `path`, and
/// then everything inside, merged by name. A source that does not parse gives nothing.
pub fn read(source: &str, path: &Vec<String>) -> (r: Option<Vec<Found>>)
    ensures
        match r {
            Some(f) => read_spec(source@, views(path@)) == Some(found_views(f@)),
            None => read_spec(source@, views(path@)) is None,
        },
{
    let parsed = crate::syntax::parse_rust(source);
    match parsed {
        Some((attrs, items)) => {
            let end = source.as_bytes().len();
            let mut r: Vec<Found> = Vec::new();
            match module(&attrs, &items, path, (0, end)) {
                Some(m) => r.push(m),
                None => {},
            }
            let mut inside = find(&items, path);
            r.append(&mut inside);
            assert(found_views(r@) =~= listed(module_spec(attrs@, items_view(items@), views(path@), (0, end)))
                + find_spec(items_view(items@), views(path@)));
            Some(r)
        },
        None => None,
    }
}


// ---------------------------------------------------------------------------------------
// Plain comments above a definition.

/// Every stretch some definitions claim, one definition after another.
pub open spec fn claimed_spec(found: Seq<FoundView>) -> Seq<std::ops::Range<usize>>
    decreases found.len(),
{
    if found.len() == 0 {
        Seq::empty()
    } else {
        claimed_spec(found.drop_last()) + found.last().parts.map_values(|p: (Part, Seq<Stretch>)| p.1).flatten().map_values(
            |r: Stretch| (std::ops::Range { start: r.0, end: r.1 }),
        )
    }
}

/// Whether every claimed stretch starts where a character does.
pub open spec fn starts_on_chars(b: Seq<u8>, claimed: Seq<std::ops::Range<usize>>) -> bool {
    forall|k: int| 0 <= k < claimed.len() ==> vstd::utf8::is_char_boundary(b, (#[trigger] claimed[k]).start as int)
}

/// A definition's parts with one more stretch of prose: added to its docs, kept in order
/// of where they start.
pub open spec fn with_prose(parts: Seq<(Part, Seq<Stretch>)>, prose: Stretch) -> Seq<(Part, Seq<Stretch>)> {
    parts_spec(part_of(parts, Part::Contract), part_of(parts, Part::Body), sorted_spec(part_of(parts, Part::Docs).push(prose)))
}

/// A definition given the plain comment written above it, where there is one: the unbroken
/// run of lines directly above it that no definition claims. Nothing sits above a file's
/// own module, so a definition that starts the file is left as it is; so is one whose
/// stretches fall inside characters.
pub open spec fn told_one(b: Seq<u8>, f: FoundView, claimed: Seq<std::ops::Range<usize>>) -> FoundView {
    let all = f.parts.map_values(|p: (Part, Seq<Stretch>)| p.1).flatten();
    match first_start(all) {
        Some(from) => {
            let own = std::ops::Range { start: from, end: furthest(all, 0) };
            if from == 0 || !vstd::utf8::is_char_boundary(b, from as int) || !starts_on_chars(b, claimed) {
                f
            } else {
                match crate::prose::preamble_spec(b, own, claimed) {
                    Some(p) => FoundView { parts: with_prose(f.parts, (p.start, p.end)), ..f },
                    None => f,
                }
            }
        },
        None => f,
    }
}

/// Gives each definition the plain comment written above it. `syn` keeps `///` but drops
/// `//` and `/* */`, so without this a change to such a comment belongs to no definition.
pub fn told(source: &str, found: &mut Vec<Found>)
    ensures
        found_views(final(found)@) == found_views(old(found)@).map_values(
            |f: FoundView| told_one(source.spec_bytes(), f, claimed_spec(found_views(old(found)@))),
        ),
{
    let ghost before = found_views(found@);
    let mut claimed: Vec<std::ops::Range<usize>> = Vec::new();
    for k in 0..found.len()
        invariant
            before == found_views(found@),
            claimed@ == claimed_spec(before.take(k as int)),
    {
        let ghost lists = found@[k as int]@.parts.map_values(|p: (Part, Seq<Stretch>)| p.1);
        let ghost c0 = claimed@;
        let m = found[k].parts.len();
        for i in 0..m
            invariant
                m == found@[k as int].parts@.len(),
                before == found_views(found@),
                k < found@.len(),
                lists == found@[k as int]@.parts.map_values(|p: (Part, Seq<Stretch>)| p.1),
                claimed@ == c0 + lists.take(i as int).flatten().map_values(|r: Stretch| (std::ops::Range { start: r.0, end: r.1 })),
        {
            let ghost c1 = claimed@;
            let w = found[k].parts[i].1.len();
            for j in 0..w
                invariant
                    w == found@[k as int].parts@[i as int].1@.len(),
                    k < found@.len(),
                    i < found@[k as int].parts@.len(),
                    claimed@ == c1 + found@[k as int].parts@[i as int].1@.take(j as int).map_values(
                        |r: Stretch| (std::ops::Range { start: r.0, end: r.1 }),
                    ),
            {
                let r = found[k].parts[i].1[j];
                claimed.push(std::ops::Range { start: r.0, end: r.1 });
                assert(found@[k as int].parts@[i as int].1@.take(j + 1) =~= found@[k as int].parts@[i as int].1@.take(j as int).push(r));
                assert(claimed@ =~= c1 + found@[k as int].parts@[i as int].1@.take(j + 1).map_values(
                    |r: Stretch| (std::ops::Range { start: r.0, end: r.1 }),
                ));
            }
            proof {
                assert(found@[k as int].parts@[i as int].1@.take(found@[k as int].parts@[i as int].1@.len() as int) =~= found@[k as int].parts@[i as int].1@);
                assert(lists[i as int] == found@[k as int].parts@[i as int].1@);
                assert(lists.take(i + 1) =~= lists.take(i as int).push(lists[i as int]));
                lists.take(i as int).lemma_flatten_push(lists[i as int]);
                assert(claimed@ =~= c0 + lists.take(i + 1).flatten().map_values(|r: Stretch| (std::ops::Range { start: r.0, end: r.1 })));
            }
        }
        proof {
            assert(lists.take(lists.len() as int) =~= lists);
            assert(before.take(k + 1).drop_last() =~= before.take(k as int));
            assert(before.take(k + 1).last() == found@[k as int]@);
        }
    }
    assert(before.take(before.len() as int) =~= before);
    let ghost all_claimed = claimed@;
    let mut ok = true;
    let c = claimed.len();
    for k in 0..c
        invariant
            c == claimed@.len(),
            ok == forall|j: int| 0 <= j < k ==> vstd::utf8::is_char_boundary(source.spec_bytes(), (#[trigger] claimed@[j]).start as int),
    {
        if !source.is_char_boundary(claimed[k].start) {
            ok = false;
        }
    }
    let n = found.len();
    for k in 0..n
        invariant
            n == found@.len(),
            before.len() == n,
            all_claimed == claimed@,
            all_claimed == claimed_spec(before),
            ok == starts_on_chars(source.spec_bytes(), all_claimed),
            forall|j: int| 0 <= j < k ==> (#[trigger] found_views(found@)[j]) == told_one(source.spec_bytes(), before[j], all_claimed),
            forall|j: int| k <= j < n ==> (#[trigger] found_views(found@)[j]) == before[j],
    {
        let ghost f0 = found@[k as int]@;
        assert(found_views(found@)[k as int] == before[k as int]);
        assert(f0 == before[k as int]);
        let (from, to) = found[k].extent();
        let ghost all = f0.parts.map_values(|p: (Part, Seq<Stretch>)| p.1).flatten();
        let mut changed = false;
        if from != 0 && ok && source.is_char_boundary(from) {
            let own = std::ops::Range { start: from, end: to };
            proof {
                assert(from as int <= source.spec_bytes().len()) by {
                    broadcast use {
                        vstd::utf8::char_is_scalar,
                        vstd::utf8::encode_utf8_valid_utf8,
                        vstd::utf8::encode_utf8_decode_utf8,
                        vstd::utf8::decode_utf8_encode_utf8,
                    };
                    assert(source.spec_bytes() == vstd::utf8::encode_utf8(source@));
                    assert(vstd::utf8::valid_utf8(source.spec_bytes()));
                    if (from as int) > source.spec_bytes().len() {
                        assert(!vstd::utf8::is_char_boundary(source.spec_bytes(), from as int));
                    }
                }
            }
            match crate::prose::preamble(source, &own, claimed.as_slice()) {
                Some(p) => {
                    let one = &found[k];
                    let c = part_list(&one.parts, Part::Contract);
                    let b = part_list(&one.parts, Part::Body);
                    let mut d = part_list(&one.parts, Part::Docs);
                    d.push((p.start, p.end));
                    let joined = parts(c, b, sort_stretches(&d));
                    let updated = Found {
                        scope: copy_strings(&one.scope),
                        name: one.name.clone(),
                        name_at: one.name_at,
                        kind: one.kind.clone(),
                        parts: joined,
                    };
                    let ghost was = found_views(found@);
                    found.set(k, updated);
                    changed = true;
                    proof {
                        assert(found_views(found@)[k as int] == told_one(source.spec_bytes(), before[k as int], all_claimed));
                        assert forall|j: int| 0 <= j < n && j != k implies #[trigger] found_views(found@)[j] == was[j] by {}
                    }
                },
                None => {},
            }
        }
        proof {
            if !changed {
                assert(found_views(found@)[k as int] == told_one(source.spec_bytes(), before[k as int], all_claimed));
            }
        }
    }
    assert(found_views(found@) =~= before.map_values(|f: FoundView| told_one(source.spec_bytes(), f, claimed_spec(before))));
}

/// What a Rust file defines, as the adapter reads it: its own module and everything inside,
/// each given the plain comment written above it. A source that does not parse gives
/// nothing.
pub fn parse(source: &str, path: &Vec<String>) -> (r: Option<Vec<Found>>)
    ensures
        match r {
            Some(f) => exists|read: Seq<FoundView>| #[trigger] read_spec(source@, views(path@)) == Some(read) && found_views(f@) == read.map_values(
                |x: FoundView| told_one(source.spec_bytes(), x, claimed_spec(read)),
            ),
            None => read_spec(source@, views(path@)) is None,
        },
{
    match read(source, path) {
        Some(found) => {
            let mut found = found;
            let ghost was = found_views(found@);
            told(source, &mut found);
            Some(found)
        },
        None => None,
    }
}

// ---------------------------------------------------------------------------------------
// A definition as the review reads it.

/// Only the finder knows which kinds hold others; nothing downstream knows Rust has `impl`
/// blocks.
pub open spec fn role_spec(kind: Seq<char>) -> crate::model::Role {
    if kind == kind_text(ItemKind::Mod) || kind == kind_text(ItemKind::Impl) || kind == kind_text(ItemKind::Trait) {
        crate::model::Role::Container
    } else {
        crate::model::Role::Item
    }
}

/// Whether a definition of this kind can hold others.
pub fn role_of(kind: &str) -> (r: crate::model::Role)
    ensures
        r == role_spec(kind@),
{
    let module = kind_name(ItemKind::Mod);
    let block = kind_name(ItemKind::Impl);
    let shape = kind_name(ItemKind::Trait);
    if crate::text::str_eq(kind, module.as_str()) || crate::text::str_eq(kind, block.as_str()) || crate::text::str_eq(kind, shape.as_str()) {
        crate::model::Role::Container
    } else {
        crate::model::Role::Item
    }
}

/// How much a stretch covers, nothing where it runs backwards.
pub open spec fn span_width(e: Stretch) -> int {
    if e.1 >= e.0 { e.1 - e.0 } else { 0 }
}

/// Whether definition `j` holds definition `k`: its extent is another one that covers it.
pub open spec fn holds_found(found: Seq<Found>, j: int, k: int) -> bool {
    let outer = found[j].extent_spec();
    let inner = found[k].extent_spec();
    outer != inner && outer.0 <= inner.0 && outer.1 >= inner.1
}

/// The smallest definition that holds definition `k`, the first of those equally small.
/// Read off spans rather than scope names: a method's scope names its type, not the
/// `impl` block it sits in.
pub open spec fn holding_spec(found: Seq<Found>, k: int) -> Option<int> {
    if exists|j: int| 0 <= j < found.len() && #[trigger] holds_found(found, j, k) {
        Some(
            choose|j: int|
                0 <= j < found.len() && #[trigger] holds_found(found, j, k) && (forall|i: int|
                    0 <= i < found.len() && holds_found(found, i, k) ==> span_width(found[j].extent_spec()) <= #[trigger] span_width(
                        found[i].extent_spec(),
                    )) && (forall|i: int|
                    0 <= i < j && holds_found(found, i, k) ==> span_width(found[j].extent_spec()) < #[trigger] span_width(
                        found[i].extent_spec(),
                    )),
        )
    } else {
        None
    }
}

/// The definition that holds definition `k`.
pub fn holding(found: &Vec<Found>, k: usize) -> (r: Option<usize>)
    requires
        k < found@.len(),
    ensures
        match r {
            Some(j) => holding_spec(found@, k as int) == Some(j as int) && j < found@.len(),
            None => holding_spec(found@, k as int) is None,
        },
{
    let inner = found[k].extent();
    let mut best: Option<(usize, usize)> = None;
    for j in 0..found.len()
        invariant
            k < found@.len(),
            inner == found@[k as int].extent_spec(),
            best matches Some((b, w)) ==> b < j && holds_found(found@, b as int, k as int) && w == span_width(found@[b as int].extent_spec())
                && (forall|i: int| 0 <= i < j && holds_found(found@, i, k as int) ==> w <= #[trigger] span_width(found@[i].extent_spec()))
                && (forall|i: int| 0 <= i < b && holds_found(found@, i, k as int) ==> w < #[trigger] span_width(found@[i].extent_spec())),
            best is None ==> forall|i: int| 0 <= i < j ==> !#[trigger] holds_found(found@, i, k as int),
    {
        let outer = found[j].extent();
        if !(outer.0 == inner.0 && outer.1 == inner.1) && outer.0 <= inner.0 && outer.1 >= inner.1 {
            let w = if outer.1 >= outer.0 { outer.1 - outer.0 } else { 0 };
            match best {
                Some((_, bw)) => {
                    if w < bw {
                        best = Some((j, w));
                    }
                },
                None => {
                    best = Some((j, w));
                },
            }
        }
    }
    match best {
        Some((b, _)) => {
            proof {
                let c = choose|c: int|
                    0 <= c < found@.len() && #[trigger] holds_found(found@, c, k as int) && (forall|i: int|
                        0 <= i < found@.len() && holds_found(found@, i, k as int) ==> span_width(found@[c].extent_spec()) <= #[trigger] span_width(
                            found@[i].extent_spec(),
                        )) && (forall|i: int|
                        0 <= i < c && holds_found(found@, i, k as int) ==> span_width(found@[c].extent_spec()) < #[trigger] span_width(
                            found@[i].extent_spec(),
                        ));
                if c < b {
                    assert(span_width(found@[b as int].extent_spec()) < span_width(found@[c].extent_spec()));
                } else if c > b {
                    assert(span_width(found@[c].extent_spec()) < span_width(found@[b as int].extent_spec()));
                }
            }
            Some(b)
        },
        None => None,
    }
}

/// The stretches of a part as ranges.
pub open spec fn ranges_of(s: Seq<Stretch>) -> Seq<std::ops::Range<usize>> {
    s.map_values(|r: Stretch| (std::ops::Range { start: r.0, end: r.1 }))
}

/// A part of a definition as pieces of the file: none where the definition lacks it.
pub open spec fn part_read(ps: Option<Vec<crate::model::Piece>>, t: Seq<char>, path: Seq<char>, s: Seq<Stretch>) -> bool {
    if s.len() == 0 {
        ps is None
    } else {
        ps matches Some(v) && crate::opened::pieces_of(v@, t, path, ranges_of(s))
    }
}

/// Whether every stretch of a definition can be cut out of the file's text.
pub open spec fn cuttable_all(t: Seq<char>, f: FoundView) -> bool {
    forall|p: int, q: int| 0 <= p < f.parts.len() && 0 <= q < f.parts[p].1.len() ==> crate::opened::cuttable(
        t,
        std::ops::Range { start: (#[trigger] f.parts[p].1[q]).0, end: f.parts[p].1[q].1 },
    )
}

/// Whether an occurrence is what definition `k` of a file reads as: named by its scope and
/// name, a container where its kind holds others, written inside the definition that holds
/// it, with the compiler's view of it where a hover gave one, and each part cut out of the
/// file.
pub open spec fn read_as(o: crate::model::Occurrence, t: Seq<char>, path: Seq<char>, found: Seq<Found>, k: int, contracts: Seq<(Locator, String)>) -> bool {
    let f = found[k]@;
    let at = LocatorView { scope: f.scope, name: f.name };
    &&& o.locator@ == at
    &&& o.role == role_spec(f.kind)
    &&& crate::model::opt_locator(o.parent) == match holding_spec(found, k) {
        Some(j) => Some(LocatorView { scope: found[j]@.scope, name: found[j]@.name }),
        None => None,
    }
    &&& o.kind@ == f.kind
    &&& o.file@ == path
    &&& crate::model::opt_text(o.contract_from_compiler) == crate::opened::contract_for(contracts, at)
    &&& part_read(o.parts.contract, t, path, part_of(f.parts, Part::Contract))
    &&& part_read(o.parts.body, t, path, part_of(f.parts, Part::Body))
    &&& part_read(o.parts.docs, t, path, part_of(f.parts, Part::Docs))
}

fn locator_of(f: &Found) -> (r: Locator)
    ensures
        r@ == (LocatorView { scope: f@.scope, name: f@.name }),
{
    Locator { scope: copy_strings(&f.scope), name: f.name.clone() }
}

fn part_pieces(lines: &Lines, path: &str, s: &Vec<Stretch>) -> (r: Option<Vec<crate::model::Piece>>)
    requires
        lines.wf(),
        vstd::utf8::encode_utf8(lines@).len() < u32::MAX,
        forall|q: int| 0 <= q < s@.len() ==> crate::opened::cuttable(lines@, std::ops::Range { start: (#[trigger] s@[q]).0, end: s@[q].1 }),
    ensures
        part_read(r, lines@, path@, s@),
{
    if s.len() == 0 {
        return None;
    }
    let mut rs: Vec<std::ops::Range<usize>> = Vec::new();
    for q in 0..s.len()
        invariant
            rs@ == ranges_of(s@.take(q as int)),
    {
        rs.push(std::ops::Range { start: s[q].0, end: s[q].1 });
        assert(rs@ =~= ranges_of(s@.take(q + 1)));
    }
    assert(s@.take(s@.len() as int) =~= s@);
    Some(crate::opened::pieces(lines, path, &rs))
}

fn cuttable_exec(lines: &Lines, r: Stretch) -> (ok: bool)
    requires
        lines.wf(),
    ensures
        ok == crate::opened::cuttable(lines@, std::ops::Range { start: r.0, end: r.1 }),
{
    let t = lines.text();
    proof {
        broadcast use {
            vstd::utf8::char_is_scalar,
            vstd::utf8::encode_utf8_valid_utf8,
            vstd::utf8::encode_utf8_decode_utf8,
            vstd::utf8::decode_utf8_encode_utf8,
        };
        assert(t.spec_bytes() == vstd::utf8::encode_utf8(lines@));
        assert(vstd::utf8::valid_utf8(t.spec_bytes()));
        if vstd::utf8::is_char_boundary(t.spec_bytes(), r.1 as int) {
            assert(r.1 <= t.spec_bytes().len());
        }
        if vstd::utf8::is_char_boundary(t.spec_bytes(), r.0 as int) {
            assert(r.0 <= t.spec_bytes().len());
        }
    }
    r.0 <= r.1 && t.is_char_boundary(r.0) && t.is_char_boundary(r.1)
}

/// What definition `k` of the file at `path` reads as; nothing where one of its stretches
/// can't be cut out of the text, or the file is too long to place pieces in.
pub fn occurrence(lines: &Lines, path: &str, found: &Vec<Found>, k: usize, contracts: &Vec<(Locator, String)>) -> (r: Option<crate::model::Occurrence>)
    requires
        lines.wf(),
        k < found@.len(),
    ensures
        r is Some <==> vstd::utf8::encode_utf8(lines@).len() < u32::MAX && cuttable_all(lines@, found@[k as int]@),
        r matches Some(o) ==> read_as(o, lines@, path@, found@, k as int, contracts@),
{
    let f = &found[k];
    if lines.text().as_bytes().len() >= 0xffff_ffff {
        return None;
    }
    let ghost fv = f@;
    assert(fv == found@[k as int]@);
    for p in 0..f.parts.len()
        invariant
            lines.wf(),
            fv == f@,
            k < found@.len(),
            fv == found@[k as int]@,
            forall|pp: int, q: int| 0 <= pp < p && 0 <= q < fv.parts[pp].1.len() ==> crate::opened::cuttable(
                lines@,
                std::ops::Range { start: (#[trigger] fv.parts[pp].1[q]).0, end: fv.parts[pp].1[q].1 },
            ),
    {
        let w = f.parts[p].1.len();
        for q in 0..w
            invariant
                lines.wf(),
                fv == f@,
                k < found@.len(),
                fv == found@[k as int]@,
                p < fv.parts.len(),
                w == fv.parts[p as int].1.len(),
                forall|pp: int, qq: int| 0 <= pp < p && 0 <= qq < fv.parts[pp].1.len() ==> crate::opened::cuttable(
                    lines@,
                    std::ops::Range { start: (#[trigger] fv.parts[pp].1[qq]).0, end: fv.parts[pp].1[qq].1 },
                ),
                forall|qq: int| 0 <= qq < q ==> crate::opened::cuttable(
                    lines@,
                    std::ops::Range { start: (#[trigger] fv.parts[p as int].1[qq]).0, end: fv.parts[p as int].1[qq].1 },
                ),
        {
            assert(fv.parts[p as int].1[q as int] == f.parts@[p as int].1@[q as int]);
            let st = f.parts[p].1[q];
            if !cuttable_exec(lines, st) {
                assert(found@[k as int]@ == fv);
                assert(fv.parts[p as int].1[q as int] == st);
                assert(found@[k as int]@.parts[p as int].1[q as int] == st);
                assert(!crate::opened::cuttable(
                    lines@,
                    std::ops::Range { start: found@[k as int]@.parts[p as int].1[q as int].0, end: found@[k as int]@.parts[p as int].1[q as int].1 },
                ));
                assert(!cuttable_all(lines@, found@[k as int]@));
                return None;
            }
        }
    }
    let c = part_list(&f.parts, Part::Contract);
    let b = part_list(&f.parts, Part::Body);
    let d = part_list(&f.parts, Part::Docs);
    proof {
        lemma_part_of_within(fv.parts, Part::Contract);
        lemma_part_of_within(fv.parts, Part::Body);
        lemma_part_of_within(fv.parts, Part::Docs);
    }
    let locator = locator_of(f);
    let parent = match holding(found, k) {
        Some(j) => Some(locator_of(&found[j])),
        None => None,
    };
    let contract_from_compiler = crate::opened::find_contract(contracts, &locator);
    let o = crate::model::Occurrence {
        locator,
        role: role_of(f.kind.as_str()),
        parent,
        kind: f.kind.clone(),
        file: owned(path),
        parts: crate::model::Parts {
            contract: part_pieces(lines, path, &c),
            body: part_pieces(lines, path, &b),
            docs: part_pieces(lines, path, &d),
        },
        contract_from_compiler,
    };
    Some(o)
}

proof fn lemma_part_of_within(parts: Seq<(Part, Seq<Stretch>)>, part: Part)
    ensures
        exists|p: int| 0 <= p < parts.len() && parts[p].1 == part_of(parts, part) || part_of(parts, part).len() == 0,
    decreases parts.len(),
{
    if parts.len() > 0 && parts[0].0 != part {
        lemma_part_of_within(parts.drop_first(), part);
        if part_of(parts, part).len() > 0 {
            let p = choose|p: int| 0 <= p < parts.drop_first().len() && parts.drop_first()[p].1 == part_of(parts.drop_first(), part);
            assert(parts[p + 1].1 == part_of(parts, part));
        }
    }
}

} // verus!
