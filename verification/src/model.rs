//! The vocabulary a review is built from: parts, pieces, locators, occurrences, sides.

use crate::text::{joined, owned, seq_lt, str_eq, str_lt, views};
use vstd::prelude::*;

verus! {

/// The pieces a definition's text is split into. A part can be missing when it doesn't
/// apply, like a type alias that has no body.
#[derive(Debug, Clone, Copy, PartialEq, Eq, Structural, PartialOrd, Ord, Hash)]
pub enum Part {
    /// The contract. Changing it can break callers.
    Contract,
    /// Internal. Changing it can't break callers.
    Body,
    /// Written for callers, but changing it can't break them.
    Docs,
}

/// Where a stretch of text sits in its file, in bytes.
#[derive(Debug, Clone, Copy, PartialEq, Eq, Structural)]
pub struct Span {
    pub start: u32,
    pub end: u32,
}

/// One stretch of source belonging to a part.
///
/// A part is made of these rather than being one of them, because the source a part
/// covers isn't always in one stretch: a module's imports can sit anywhere, and a C
/// function can be declared at the top of a file and again further down.
#[derive(Debug, Clone, PartialEq, Eq)]
pub struct Piece {
    pub text: String,
    pub span: Span,
    /// Which line of the file this starts on, counting from one.
    pub line: u32,
    /// Which file this stretch is in. Always said, even when it's the definition's own.
    pub file: String,
}

/// Where a definition lives in one snapshot. The name is kept apart from the scope
/// because renaming breaks callers and moving doesn't.
#[derive(Debug, Clone, PartialEq, Eq, PartialOrd, Ord, Hash)]
pub struct Locator {
    pub scope: Vec<String>,
    pub name: String,
}

/// Whether a definition can hold others: a container is drawn as a box, what it holds
/// as the things in it.
#[derive(Debug, Clone, Copy, PartialEq, Eq, Structural)]
pub enum Role {
    /// Read on its own, holds nothing.
    Item,
    /// Can hold other definitions. May still change, and still be worth reading.
    Container,
}

impl Default for Role {
    fn default() -> (r: Role)
        ensures
            r == Role::Item,
    {
        Role::Item
    }
}

/// A definition's text, split into its parts. Each part that applies holds its pieces in
/// the order they appear, which is the order a reader would meet them.
#[derive(Debug, Clone, PartialEq, Eq)]
pub struct Parts {
    pub contract: Option<Vec<Piece>>,
    pub body: Option<Vec<Piece>>,
    pub docs: Option<Vec<Piece>>,
}

/// A definition as it exists in one snapshot.
#[derive(Debug, Clone, PartialEq, Eq)]
pub struct Occurrence {
    pub locator: Locator,
    /// Whether this holds other definitions.
    pub role: Role,
    /// What it's written inside, in the language's own structure. `None` at the root.
    pub parent: Option<Locator>,
    /// What the extractor calls this, like "function" or "test". Display only.
    pub kind: String,
    /// Where the definition lives.
    pub file: String,
    /// The source, split up for the reader.
    pub parts: Parts,
    /// How the definition looks from outside, according to the compiler. When present on
    /// both sides it is compared alongside the written contract.
    pub contract_from_compiler: Option<String>,
}

/// Handed out by matching. Means nothing on its own.
#[derive(Debug, Clone, Copy, PartialEq, Eq, Structural, PartialOrd, Ord, Hash)]
pub struct Identity(pub u32);

/// Which snapshots a definition showed up in.
#[derive(Debug, Clone, PartialEq, Eq)]
pub enum Sides {
    Added(Occurrence),
    Removed(Occurrence),
    Kept { before: Occurrence, after: Occurrence },
}

/// One definition across both snapshots.
#[derive(Debug, Clone, PartialEq, Eq)]
pub struct Definition {
    pub identity: Identity,
    pub sides: Sides,
}

/// A locator as text: its scope and name.
pub struct LocatorView {
    pub scope: Seq<Seq<char>>,
    pub name: Seq<char>,
}

impl View for Locator {
    type V = LocatorView;

    open spec fn view(&self) -> LocatorView {
        LocatorView { scope: views(self.scope@), name: self.name@ }
    }
}

/// The view of an optional locator.
pub open spec fn opt_locator(l: Option<Locator>) -> Option<LocatorView> {
    match l {
        Some(l) => Some(l@),
        None => None,
    }
}

/// The view of an optional text.
pub open spec fn opt_text(t: Option<String>) -> Option<Seq<char>> {
    match t {
        Some(t) => Some(t@),
        None => None,
    }
}

/// The view of an optional list of pieces.
pub open spec fn opt_pieces(p: Option<Vec<Piece>>) -> Option<Seq<Piece>> {
    match p {
        Some(p) => Some(p@),
        None => None,
    }
}

/// Each part's pieces, where the part applies.
pub struct PartsView {
    pub contract: Option<Seq<Piece>>,
    pub body: Option<Seq<Piece>>,
    pub docs: Option<Seq<Piece>>,
}

impl PartsView {
    pub open spec fn slot(self, part: Part) -> Option<Seq<Piece>> {
        match part {
            Part::Contract => self.contract,
            Part::Body => self.body,
            Part::Docs => self.docs,
        }
    }
}

impl View for Parts {
    type V = PartsView;

    open spec fn view(&self) -> PartsView {
        PartsView {
            contract: opt_pieces(self.contract),
            body: opt_pieces(self.body),
            docs: opt_pieces(self.docs),
        }
    }
}

/// An occurrence, with every list seen as a sequence.
pub struct OccurrenceView {
    pub locator: LocatorView,
    pub role: Role,
    pub parent: Option<LocatorView>,
    pub kind: Seq<char>,
    pub file: Seq<char>,
    pub parts: PartsView,
    pub contract_from_compiler: Option<Seq<char>>,
}

impl View for Occurrence {
    type V = OccurrenceView;

    open spec fn view(&self) -> OccurrenceView {
        OccurrenceView {
            locator: self.locator@,
            role: self.role,
            parent: opt_locator(self.parent),
            kind: self.kind@,
            file: self.file@,
            parts: self.parts@,
            contract_from_compiler: opt_text(self.contract_from_compiler),
        }
    }
}

/// Which snapshots a definition showed up in, as views.
pub enum SidesView {
    Added(OccurrenceView),
    Removed(OccurrenceView),
    Kept { before: OccurrenceView, after: OccurrenceView },
}

impl View for Sides {
    type V = SidesView;

    open spec fn view(&self) -> SidesView {
        match self {
            Sides::Added(o) => SidesView::Added(o@),
            Sides::Removed(o) => SidesView::Removed(o@),
            Sides::Kept { before, after } => SidesView::Kept { before: before@, after: after@ },
        }
    }
}

impl SidesView {
    pub open spec fn before(self) -> Option<OccurrenceView> {
        match self {
            SidesView::Added(_) => None,
            SidesView::Removed(o) => Some(o),
            SidesView::Kept { before, .. } => Some(before),
        }
    }

    pub open spec fn after(self) -> Option<OccurrenceView> {
        match self {
            SidesView::Removed(_) => None,
            SidesView::Added(o) => Some(o),
            SidesView::Kept { after, .. } => Some(after),
        }
    }

    pub open spec fn latest(self) -> OccurrenceView {
        match self {
            SidesView::Added(o) => o,
            SidesView::Removed(o) => o,
            SidesView::Kept { after, .. } => after,
        }
    }
}

/// One definition across both snapshots, as views.
pub struct DefinitionView {
    pub identity: Identity,
    pub sides: SidesView,
}

impl View for Definition {
    type V = DefinitionView;

    open spec fn view(&self) -> DefinitionView {
        DefinitionView { identity: self.identity, sides: self.sides@ }
    }
}

/// The line break pieces are joined with.
pub open spec fn newline() -> Seq<char> {
    seq!['\n']
}

/// The texts of some pieces.
pub open spec fn texts(pieces: Seq<Piece>) -> Seq<Seq<char>> {
    pieces.map_values(|piece: Piece| piece.text@)
}

/// The files some pieces sit in.
pub open spec fn piece_files(pieces: Seq<Piece>) -> Set<Seq<char>> {
    Set::new(|f: Seq<char>| exists|i: int| 0 <= i < pieces.len() && pieces[i].file@ == f)
}

/// Every element sorts before the next.
pub open spec fn strictly_sorted(s: Seq<Seq<char>>) -> bool {
    forall|i: int, j: int| 0 <= i < j < s.len() ==> seq_lt(s[i], s[j])
}

impl Piece {
    /// A copy of this piece.
    pub fn duplicate(&self) -> (r: Piece)
        ensures
            r == *self,
    {
        Piece { text: self.text.clone(), span: self.span, line: self.line, file: self.file.clone() }
    }
}

/// A copy of a list of pieces.
pub fn copy_pieces(pieces: &Vec<Piece>) -> (r: Vec<Piece>)
    ensures
        r@ == pieces@,
{
    let mut r: Vec<Piece> = Vec::new();
    for i in 0..pieces.len()
        invariant
            r@ == pieces@.subrange(0, i as int),
    {
        r.push(pieces[i].duplicate());
        assert(pieces@.subrange(0, i + 1) =~= pieces@.subrange(0, i as int).push(pieces@[i as int]));
    }
    assert(pieces@.subrange(0, pieces@.len() as int) =~= pieces@);
    r
}

/// A copy of a list of texts.
pub fn copy_strings(texts: &Vec<String>) -> (r: Vec<String>)
    ensures
        r@ == texts@,
{
    let mut r: Vec<String> = Vec::new();
    for i in 0..texts.len()
        invariant
            r@ == texts@.subrange(0, i as int),
    {
        r.push(texts[i].clone());
        assert(texts@.subrange(0, i + 1) =~= texts@.subrange(0, i as int).push(texts@[i as int]));
    }
    assert(texts@.subrange(0, texts@.len() as int) =~= texts@);
    r
}

/// Whether two lists of texts read the same, text for text.
pub fn strings_eq(a: &Vec<String>, b: &Vec<String>) -> (r: bool)
    ensures
        r == (views(a@) == views(b@)),
{
    if a.len() != b.len() {
        assert(views(a@).len() != views(b@).len());
        return false;
    }
    for i in 0..a.len()
        invariant
            a@.len() == b@.len(),
            forall|k: int| 0 <= k < i ==> a@[k]@ == b@[k]@,
    {
        if !str_eq(a[i].as_str(), b[i].as_str()) {
            assert(views(a@)[i as int] != views(b@)[i as int]);
            return false;
        }
    }
    assert(views(a@) =~= views(b@));
    true
}

impl Locator {
    /// A copy of this locator.
    pub fn duplicate(&self) -> (r: Locator)
        ensures
            r@ == self@,
    {
        Locator { scope: copy_strings(&self.scope), name: self.name.clone() }
    }

    /// Whether two locators name the same place.
    pub fn same_as(&self, other: &Locator) -> (r: bool)
        ensures
            r == (self@ == other@),
    {
        str_eq(self.name.as_str(), other.name.as_str()) && strings_eq(&self.scope, &other.scope)
    }

    /// The locator written out: its scope and name, joined by `::`.
    pub fn written(&self) -> (r: String)
        ensures
            r@ == joined(views(self.scope@).push(self.name@), seq![':', ':']),
    {
        let mut path = copy_strings(&self.scope);
        path.push(self.name.clone());
        assert(views(path@) =~= views(self.scope@).push(self.name@));
        let sep = "::";
        proof {
            reveal_strlit("::");
            assert(sep@ =~= seq![':', ':']);
        }
        crate::text::join(&path, sep)
    }
}

/// A copy of an optional locator.
pub fn copy_locator(l: &Option<Locator>) -> (r: Option<Locator>)
    ensures
        opt_locator(r) == opt_locator(*l),
{
    match l {
        Some(l) => Some(l.duplicate()),
        None => None,
    }
}

impl Parts {
    /// What one part holds, if it applies.
    pub open spec fn slot(&self, part: Part) -> Option<Vec<Piece>> {
        match part {
            Part::Contract => self.contract,
            Part::Body => self.body,
            Part::Docs => self.docs,
        }
    }

    /// No parts at all.
    pub fn new() -> (r: Parts)
        ensures
            forall|p: Part| #[trigger] r.slot(p) is None,
    {
        Parts { contract: None, body: None, docs: None }
    }

    /// A part's pieces, if it applies.
    pub fn get(&self, part: Part) -> (r: Option<&Vec<Piece>>)
        ensures
            r matches Some(v) ==> self.slot(part) == Some(*v),
            r is None <==> self.slot(part) is None,
    {
        match part {
            Part::Contract => self.contract.as_ref(),
            Part::Body => self.body.as_ref(),
            Part::Docs => self.docs.as_ref(),
        }
    }

    /// A part's pieces, to change in place.
    pub fn get_mut(&mut self, part: Part) -> (r: Option<&mut Vec<Piece>>)
        ensures
            old(self).slot(part) is None ==> r is None && *final(self) == *old(self),
            old(self).slot(part) matches Some(v) ==> r matches Some(m) && *m == v,
            r matches Some(m) ==> final(self).slot(part) == Some(*final(m)),
            forall|p: Part| p != part ==> #[trigger] final(self).slot(p) == old(self).slot(p),
    {
        match part {
            Part::Contract => self.contract.as_mut(),
            Part::Body => self.body.as_mut(),
            Part::Docs => self.docs.as_mut(),
        }
    }

    /// Sets a part's pieces, replacing whatever it held.
    pub fn insert(&mut self, part: Part, pieces: Vec<Piece>)
        ensures
            final(self).slot(part) == Some(pieces),
            forall|p: Part| p != part ==> #[trigger] final(self).slot(p) == old(self).slot(p),
    {
        match part {
            Part::Contract => self.contract = Some(pieces),
            Part::Body => self.body = Some(pieces),
            Part::Docs => self.docs = Some(pieces),
        }
    }

    /// The parts that apply, in order.
    pub fn keys(&self) -> (r: Vec<Part>)
        ensures
            r@ == present_parts(*self),
    {
        let mut r: Vec<Part> = Vec::new();
        if self.contract.is_some() {
            r.push(Part::Contract);
        }
        if self.body.is_some() {
            r.push(Part::Body);
        }
        if self.docs.is_some() {
            r.push(Part::Docs);
        }
        r
    }

    /// A copy of these parts.
    pub fn duplicate(&self) -> (r: Parts)
        ensures
            r@ == self@,
    {
        Parts {
            contract: match &self.contract {
                Some(v) => Some(copy_pieces(v)),
                None => None,
            },
            body: match &self.body {
                Some(v) => Some(copy_pieces(v)),
                None => None,
            },
            docs: match &self.docs {
                Some(v) => Some(copy_pieces(v)),
                None => None,
            },
        }
    }
}

/// The parts that apply, in order.
pub open spec fn present_parts(parts: Parts) -> Seq<Part> {
    let a: Seq<Part> = if parts.contract is Some { seq![Part::Contract] } else { seq![] };
    let b: Seq<Part> = if parts.body is Some { seq![Part::Body] } else { seq![] };
    let c: Seq<Part> = if parts.docs is Some { seq![Part::Docs] } else { seq![] };
    a + b + c
}

/// A part's text, its pieces run together with a line break between each.
pub open spec fn text_of(o: OccurrenceView, part: Part) -> Option<Seq<char>> {
    match o.parts.slot(part) {
        Some(pieces) => Some(joined(texts(pieces), newline())),
        None => None,
    }
}

/// The files a part is spread across.
pub open spec fn file_set(o: OccurrenceView, part: Part) -> Set<Seq<char>> {
    match o.parts.slot(part) {
        Some(pieces) => piece_files(pieces),
        None => Set::empty(),
    }
}

/// Two strictly sorted lists holding the same texts are the same list.
pub proof fn lemma_sorted_same_set(a: Seq<Seq<char>>, b: Seq<Seq<char>>)
    requires
        strictly_sorted(a),
        strictly_sorted(b),
        a.to_set() == b.to_set(),
    ensures
        a == b,
    decreases a.len(),
{
    if a.len() == 0 {
        if b.len() > 0 {
            assert(b.to_set().contains(b[0]));
        }
        assert(a =~= b);
    } else if b.len() == 0 {
        assert(a.to_set().contains(a[0]));
    } else {
        // The smallest of each is the same.
        assert(a.to_set().contains(a[0]));
        assert(b.to_set().contains(b[0]));
        let i = choose|i: int| 0 <= i < b.len() && b[i] == a[0];
        let j = choose|j: int| 0 <= j < a.len() && a[j] == b[0];
        if i > 0 {
            assert(seq_lt(b[0], b[i]));
            if j > 0 {
                assert(seq_lt(a[0], a[j]));
                crate::text::lemma_lt_asymmetric(a[0], b[0]);
            } else {
                crate::text::lemma_lt_irreflexive(a[0]);
            }
        }
        assert(a[0] == b[0]);
        let (ta, tb) = (a.drop_first(), b.drop_first());
        assert forall|x: Seq<char>| ta.to_set().contains(x) implies tb.to_set().contains(x) by {
            let k = choose|k: int| 0 <= k < ta.len() && ta[k] == x;
            assert(a[k + 1] == x);
            assert(a.to_set().contains(x));
            let m = choose|m: int| 0 <= m < b.len() && b[m] == x;
            if m == 0 {
                assert(seq_lt(a[0], a[k + 1]));
                crate::text::lemma_lt_irreflexive(x);
            }
            assert(tb[m - 1] == x);
        }
        assert forall|x: Seq<char>| tb.to_set().contains(x) implies ta.to_set().contains(x) by {
            let k = choose|k: int| 0 <= k < tb.len() && tb[k] == x;
            assert(b[k + 1] == x);
            assert(b.to_set().contains(x));
            let m = choose|m: int| 0 <= m < a.len() && a[m] == x;
            if m == 0 {
                assert(seq_lt(b[0], b[k + 1]));
                crate::text::lemma_lt_irreflexive(x);
            }
            assert(ta[m - 1] == x);
        }
        assert(ta.to_set() =~= tb.to_set());
        lemma_sorted_same_set(ta, tb);
        assert(a =~= seq![a[0]] + ta);
        assert(b =~= seq![b[0]] + tb);
    }
}

/// Adds a text to a strictly sorted list, where it isn't there already.
fn insert_sorted(out: &mut Vec<String>, f: &String)
    requires
        strictly_sorted(views(old(out)@)),
    ensures
        strictly_sorted(views(final(out)@)),
        views(final(out)@).to_set() == views(old(out)@).to_set().insert(f@),
{
    let ghost before = views(out@);
    let mut i: usize = 0;
    while i < out.len() && str_lt(out[i].as_str(), f.as_str())
        invariant
            i <= out@.len(),
            views(out@) == before,
            forall|k: int| 0 <= k < i ==> seq_lt(#[trigger] before[k], f@),
        decreases out@.len() - i,
    {
        i = i + 1;
    }
    if i < out.len() && str_eq(out[i].as_str(), f.as_str()) {
        assert(before[i as int] == f@);
        assert(before.to_set().contains(f@));
        assert(before.to_set().insert(f@) =~= before.to_set());
        return;
    }
    proof {
        if i < before.len() {
            crate::text::lemma_lt_total(before[i as int], f@);
        }
    }
    out.insert(i, f.clone());
    proof {
        let now = views(out@);
        assert(now =~= before.insert(i as int, f@));
        assert forall|a: int, b: int| 0 <= a < b < now.len() implies seq_lt(now[a], now[b]) by {
            if b < i {
            } else if a < i && b == i {
            } else if a < i {
                assert(now[b] == before[b - 1]);
                if i < before.len() {
                    if b - 1 > i {
                        crate::text::lemma_lt_transitive(f@, before[i as int], before[b - 1]);
                    }
                    crate::text::lemma_lt_transitive(now[a], f@, now[b]);
                }
            } else if a == i {
                assert(now[b] == before[b - 1]);
                if b - 1 > i {
                    crate::text::lemma_lt_transitive(f@, before[i as int], before[b - 1]);
                }
            } else {
                assert(now[a] == before[a - 1]);
                assert(now[b] == before[b - 1]);
            }
        }
        assert forall|x: Seq<char>| now.to_set().contains(x) <==> before.to_set().insert(f@).contains(x) by {
            if now.to_set().contains(x) {
                let k = choose|k: int| 0 <= k < now.len() && now[k] == x;
                if k < i {
                    assert(before[k] == x);
                } else if k > i {
                    assert(before[k - 1] == x);
                }
            }
            if before.to_set().contains(x) {
                let k = choose|k: int| 0 <= k < before.len() && before[k] == x;
                if k < i {
                    assert(now[k] == x);
                } else {
                    assert(now[k + 1] == x);
                }
            }
            if x == f@ {
                assert(now[i as int] == x);
            }
        }
        assert(now.to_set() =~= before.to_set().insert(f@));
    }
}

impl Occurrence {
    /// The part's text, its pieces run together. What a reader would see if the stretches
    /// were laid end to end, and what comparing two sides comes down to.
    pub fn text_of(&self, part: Part) -> (r: Option<String>)
        ensures
            r matches Some(t) ==> text_of(self@, part) == Some(t@),
            r is None <==> text_of(self@, part) is None,
    {
        match self.parts.get(part) {
            None => None,
            Some(pieces) => {
                let mut words: Vec<String> = Vec::new();
                for i in 0..pieces.len()
                    invariant
                        words@.len() == i,
                        forall|k: int| 0 <= k < i ==> #[trigger] words@[k]@ == pieces@[k].text@,
                {
                    words.push(pieces[i].text.clone());
                }
                assert(views(words@) =~= texts(pieces@));
                let sep = "\n";
                proof {
                    reveal_strlit("\n");
                    assert(sep@ =~= newline());
                }
                Some(crate::text::join(&words, sep))
            },
        }
    }

    /// Which files a part is spread across, each once, in order. More than one only where
    /// a language lets a definition be split, the way C puts a declaration in a header.
    pub fn files_of(&self, part: Part) -> (r: Vec<String>)
        ensures
            strictly_sorted(views(r@)),
            views(r@).to_set() == file_set(self@, part),
    {
        let mut out: Vec<String> = Vec::new();
        match self.parts.get(part) {
            None => {
                assert(views(out@).to_set() =~= Set::empty());
            },
            Some(pieces) => {
                for i in 0..pieces.len()
                    invariant
                        strictly_sorted(views(out@)),
                        views(out@).to_set() == piece_files(pieces@.subrange(0, i as int)),
                {
                    let ghost was = piece_files(pieces@.subrange(0, i as int));
                    insert_sorted(&mut out, &pieces[i].file);
                    proof {
                        let now = piece_files(pieces@.subrange(0, i + 1));
                        assert forall|x: Seq<char>| now.contains(x) <==> was.insert(pieces@[i as int].file@).contains(x) by {
                            if now.contains(x) {
                                let k = choose|k: int| 0 <= k < i + 1 && #[trigger] pieces@.subrange(0, i + 1)[k].file@ == x;
                                if k < i {
                                    assert(pieces@.subrange(0, i as int)[k] == pieces@[k]);
                                }
                            }
                            if was.contains(x) {
                                let k = choose|k: int| 0 <= k < i && #[trigger] pieces@.subrange(0, i as int)[k].file@ == x;
                                assert(pieces@.subrange(0, i + 1)[k] == pieces@[k]);
                            }
                            if x == pieces@[i as int].file@ {
                                assert(pieces@.subrange(0, i + 1)[i as int] == pieces@[i as int]);
                            }
                        }
                        assert(now =~= was.insert(pieces@[i as int].file@));
                    }
                }
                assert(pieces@.subrange(0, pieces@.len() as int) =~= pieces@);
            },
        }
        out
    }

    /// A copy of this occurrence.
    pub fn duplicate(&self) -> (r: Occurrence)
        ensures
            r@ == self@,
    {
        Occurrence {
            locator: self.locator.duplicate(),
            role: self.role,
            parent: copy_locator(&self.parent),
            kind: self.kind.clone(),
            file: self.file.clone(),
            parts: self.parts.duplicate(),
            contract_from_compiler: match &self.contract_from_compiler {
                Some(c) => Some(c.clone()),
                None => None,
            },
        }
    }
}

impl Sides {
    pub open spec fn before_spec(&self) -> Option<Occurrence> {
        match self {
            Sides::Added(_) => None,
            Sides::Removed(occ) => Some(*occ),
            Sides::Kept { before, .. } => Some(*before),
        }
    }

    pub open spec fn after_spec(&self) -> Option<Occurrence> {
        match self {
            Sides::Removed(_) => None,
            Sides::Added(occ) => Some(*occ),
            Sides::Kept { after, .. } => Some(*after),
        }
    }

    pub open spec fn latest_spec(&self) -> Occurrence {
        match self {
            Sides::Added(occ) => *occ,
            Sides::Removed(occ) => *occ,
            Sides::Kept { after, .. } => *after,
        }
    }

    /// The occurrence in the before snapshot, if it was there.
    pub fn before(&self) -> (r: Option<&Occurrence>)
        ensures
            r matches Some(o) ==> self.before_spec() == Some(*o),
            r is None <==> self.before_spec() is None,
    {
        match self {
            Sides::Added(_) => None,
            Sides::Removed(occ) => Some(occ),
            Sides::Kept { before, .. } => Some(before),
        }
    }

    /// The occurrence in the after snapshot, if it is there.
    pub fn after(&self) -> (r: Option<&Occurrence>)
        ensures
            r matches Some(o) ==> self.after_spec() == Some(*o),
            r is None <==> self.after_spec() is None,
    {
        match self {
            Sides::Removed(_) => None,
            Sides::Added(occ) => Some(occ),
            Sides::Kept { after, .. } => Some(after),
        }
    }

    /// The newest version we have, for anything that just needs a name to show.
    pub fn latest(&self) -> (r: &Occurrence)
        ensures
            *r == self.latest_spec(),
    {
        match self {
            Sides::Added(occ) => occ,
            Sides::Removed(occ) => occ,
            Sides::Kept { after, .. } => after,
        }
    }

    /// A copy of these sides.
    pub fn duplicate(&self) -> (r: Sides)
        ensures
            r@ == self@,
    {
        match self {
            Sides::Added(o) => Sides::Added(o.duplicate()),
            Sides::Removed(o) => Sides::Removed(o.duplicate()),
            Sides::Kept { before, after } => Sides::Kept { before: before.duplicate(), after: after.duplicate() },
        }
    }
}

impl Definition {
    /// A copy of this definition.
    pub fn duplicate(&self) -> (r: Definition)
        ensures
            r@ == self@,
    {
        Definition { identity: self.identity, sides: self.sides.duplicate() }
    }
}

/// A part's pieces, or none where the part doesn't apply.
pub open spec fn pieces_or_none(p: Option<Seq<Piece>>) -> Seq<Piece> {
    match p {
        Some(s) => s,
        None => Seq::empty(),
    }
}

/// Every piece of a definition, part by part.
pub open spec fn all_pieces(o: OccurrenceView) -> Seq<Piece> {
    pieces_or_none(o.parts.contract) + pieces_or_none(o.parts.body) + pieces_or_none(o.parts.docs)
}

/// Piece `a` comes before piece `b` once pieces are put in order of file, then of where
/// they start, those that tie keeping the order they were listed in.
pub open spec fn file_sooner(ps: Seq<Piece>, a: int, b: int) -> bool {
    ||| seq_lt(ps[a].file@, ps[b].file@)
    ||| ps[a].file@ == ps[b].file@ && ps[a].span.start < ps[b].span.start
    ||| ps[a].file@ == ps[b].file@ && ps[a].span.start == ps[b].span.start && a < b
}

/// Place `j` is somewhere in `order`.
pub open spec fn placed(order: Seq<usize>, j: int) -> bool {
    exists|k: int| 0 <= k < order.len() && #[trigger] order[k] == j
}

/// `order` lists every place of `ps` once, in order of file, then of where each starts.
pub open spec fn by_file(ps: Seq<Piece>, order: Seq<usize>) -> bool {
    &&& order.len() == ps.len()
    &&& forall|k: int| 0 <= k < order.len() ==> (#[trigger] order[k]) < ps.len()
    &&& forall|k: int, l: int| 0 <= k < l < order.len() ==> file_sooner(ps, #[trigger] order[k] as int, #[trigger] order[l] as int)
    &&& forall|j: int| 0 <= j < ps.len() ==> #[trigger] placed(order, j)
}

proof fn lemma_file_sooner_strict(ps: Seq<Piece>, a: int, b: int)
    ensures
        !file_sooner(ps, a, a),
        file_sooner(ps, a, b) ==> !file_sooner(ps, b, a),
{
    crate::text::lemma_lt_irreflexive(ps[a].file@);
    crate::text::lemma_lt_asymmetric(ps[a].file@, ps[b].file@);
    if ps[a].file@ == ps[b].file@ {
        crate::text::lemma_lt_irreflexive(ps[b].file@);
    }
}

proof fn lemma_by_file_agree(ps: Seq<Piece>, o1: Seq<usize>, o2: Seq<usize>, k: int)
    requires
        by_file(ps, o1),
        by_file(ps, o2),
        0 <= k <= o1.len(),
    ensures
        forall|j: int| 0 <= j < k ==> o1[j] == o2[j],
    decreases k,
{
    if k > 0 {
        lemma_by_file_agree(ps, o1, o2, k - 1);
        let i = k - 1;
        let a = o1[i] as int;
        let b = o2[i] as int;
        if a != b {
            assert(placed(o1, b));
            let p = choose|x: int| 0 <= x < o1.len() && #[trigger] o1[x] == b;
            assert(placed(o2, a));
            let q = choose|x: int| 0 <= x < o2.len() && #[trigger] o2[x] == a;
            lemma_file_sooner_strict(ps, a, b);
            lemma_file_sooner_strict(ps, b, b);
            lemma_file_sooner_strict(ps, a, a);
            if p < i {
                assert(o2[p] == b);
                assert(file_sooner(ps, o2[p] as int, o2[i] as int));
            }
            if q < i {
                assert(o1[q] == a);
                assert(file_sooner(ps, o1[q] as int, o1[i] as int));
            }
            assert(file_sooner(ps, o1[i] as int, o1[p] as int));
            assert(file_sooner(ps, o2[i] as int, o2[q] as int));
        }
    }
}

/// There is one way to put pieces in order of file: the order is fully decided.
pub proof fn lemma_by_file_unique(ps: Seq<Piece>, o1: Seq<usize>, o2: Seq<usize>)
    requires
        by_file(ps, o1),
        by_file(ps, o2),
    ensures
        o1 == o2,
{
    lemma_by_file_agree(ps, o1, o2, o1.len() as int);
    assert(o1 =~= o2);
}

/// The places of some pieces, in order of file, then of where each starts.
fn order_by_file(ps: &Vec<Piece>) -> (order: Vec<usize>)
    ensures
        by_file(ps@, order@),
{
    let n = ps.len();
    let mut order: Vec<usize> = Vec::new();
    for t in 0..n
        invariant
            n == ps@.len(),
            order@.len() == t,
            forall|k: int| 0 <= k < order@.len() ==> (#[trigger] order@[k]) < t,
            forall|k: int, l: int| 0 <= k < l < order@.len() ==> file_sooner(ps@, #[trigger] order@[k] as int, #[trigger] order@[l] as int),
            forall|j: int| 0 <= j < t ==> #[trigger] placed(order@, j),
    {
        let mut p: usize = 0;
        while p < order.len() && (str_lt(ps[order[p]].file.as_str(), ps[t].file.as_str()) || (str_eq(
            ps[order[p]].file.as_str(),
            ps[t].file.as_str(),
        ) && ps[order[p]].span.start <= ps[t].span.start))
            invariant
                n == ps@.len(),
                t < n,
                p <= order@.len(),
                forall|k: int| 0 <= k < order@.len() ==> (#[trigger] order@[k]) < t,
                forall|k: int| 0 <= k < p ==> file_sooner(ps@, (#[trigger] order@[k]) as int, t as int),
            decreases order@.len() - p,
        {
            p = p + 1;
        }
        let ghost was = order@;
        proof {
            if p < was.len() {
                let q = was[p as int] as int;
                crate::text::lemma_lt_total(ps@[q].file@, ps@[t as int].file@);
                assert(file_sooner(ps@, t as int, q));
            }
        }
        order.insert(p, t);
        proof {
            was.insert_ensures(p as int, t);
            assert forall|k: int| 0 <= k < order@.len() implies (#[trigger] order@[k]) < t + 1 by {
                if k < p {
                    assert(order@[k] == was[k]);
                } else if k > p {
                    assert(order@[k] == was[k - 1]);
                }
            }
            assert forall|k: int, l: int| 0 <= k < l < order@.len() implies file_sooner(ps@, #[trigger] order@[k] as int, #[trigger] order@[l] as int) by {
                if l < p {
                    assert(order@[k] == was[k] && order@[l] == was[l]);
                } else if l == p {
                    assert(order@[k] == was[k]);
                } else if k > p {
                    assert(order@[k] == was[k - 1] && order@[l] == was[l - 1]);
                } else if k == p {
                    assert(order@[l] == was[l - 1]);
                    if l - 1 > p {
                        let a = t as int;
                        let b = was[p as int] as int;
                        let c = was[l - 1] as int;
                        assert(file_sooner(ps@, b, c));
                        if seq_lt(ps@[a].file@, ps@[b].file@) && seq_lt(ps@[b].file@, ps@[c].file@) {
                            crate::text::lemma_lt_transitive(ps@[a].file@, ps@[b].file@, ps@[c].file@);
                        }
                    }
                } else {
                    assert(order@[k] == was[k] && order@[l] == was[l - 1]);
                    if l - 1 > p {
                        let a = was[k] as int;
                        let b = t as int;
                        let c = was[l - 1] as int;
                        assert(file_sooner(ps@, a, was[p as int] as int));
                        assert(file_sooner(ps@, was[p as int] as int, c));
                        let m = was[p as int] as int;
                        if seq_lt(ps@[a].file@, ps@[m].file@) && seq_lt(ps@[m].file@, ps@[c].file@) {
                            crate::text::lemma_lt_transitive(ps@[a].file@, ps@[m].file@, ps@[c].file@);
                        }
                    } else {
                        let a = was[k] as int;
                        let m = was[p as int] as int;
                        if seq_lt(ps@[a].file@, ps@[m].file@) {
                        }
                    }
                }
            }
            assert forall|j: int| 0 <= j < t + 1 implies #[trigger] placed(order@, j) by {
                if j == t {
                    assert(order@[p as int] == j);
                } else {
                    assert(placed(was, j));
                    let k = choose|k: int| 0 <= k < was.len() && #[trigger] was[k] == j;
                    if k < p {
                        assert(order@[k] == j);
                    } else {
                        assert(order@[k + 1] == j);
                    }
                }
            }
        }
    }
    order
}

impl Occurrence {
    /// Every piece of every part, in order of the file each sits in, then of where each
    /// starts, those that tie keeping the order of their parts.
    pub fn pieces(&self) -> (r: Vec<Piece>)
        ensures
            exists|order: Seq<usize>| #[trigger] by_file(all_pieces(self@), order) && r@ == order.map_values(|k: usize| all_pieces(self@)[k as int]),
    {
        let mut ps: Vec<Piece> = Vec::new();
        match &self.parts.contract {
            Some(v) => {
                let mut more = copy_pieces(v);
                ps.append(&mut more);
            },
            None => {},
        }
        match &self.parts.body {
            Some(v) => {
                let mut more = copy_pieces(v);
                ps.append(&mut more);
            },
            None => {},
        }
        match &self.parts.docs {
            Some(v) => {
                let mut more = copy_pieces(v);
                ps.append(&mut more);
            },
            None => {},
        }
        assert(ps@ =~= all_pieces(self@));
        let order = order_by_file(&ps);
        let mut r: Vec<Piece> = Vec::new();
        for k in 0..order.len()
            invariant
                by_file(ps@, order@),
                r@ == order@.subrange(0, k as int).map_values(|x: usize| ps@[x as int]),
        {
            r.push(ps[order[k]].duplicate());
            assert(order@.subrange(0, k + 1).map_values(|x: usize| ps@[x as int]) =~= order@.subrange(0, k as int).map_values(|x: usize| ps@[x as int]).push(ps@[order@[k as int] as int]));
        }
        assert(order@.subrange(0, order@.len() as int) =~= order@);
        r
    }
}

} // verus!
