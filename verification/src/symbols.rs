//! Turns a language server's document symbols into definitions. A server doesn't say which
//! part of a symbol is contract and which is body; that is guessed from the symbol's kind.

use crate::lines::{lands, offset_spec, Lines};
use crate::lsp::{holds, holds_spec, kind_of, kind_spec};
use crate::model::{copy_locator, copy_strings, opt_locator, Locator, LocatorView, Part};
use crate::text::{chars_of, owned, views};
use std::ops::Range;
use vstd::prelude::*;
use vstd::utf8::{encode_utf8, is_continuation_byte};

verus! {

/// Where something sits, as a server says it: a line and a UTF-16 column at each end, the
/// numbers as they came over the wire.
#[derive(Debug, Clone, Copy, PartialEq, Eq, Structural)]
pub struct Stretch {
    pub start_line: u64,
    pub start_character: u64,
    pub end_line: u64,
    pub end_character: u64,
}

/// One document symbol as a server reports it. A field the server left out, or sent in a
/// shape that can't be read, is `None`; a symbol with no children has none.
#[derive(Debug)]
pub struct Reported {
    pub name: Option<String>,
    /// The protocol's number for its kind, nought when none was given.
    pub kind: u64,
    /// The whole of it, in the nested form.
    pub range: Option<Stretch>,
    /// The whole of it, in the flat form, where the range hangs off a location.
    pub location_range: Option<Stretch>,
    /// Where the name itself sits.
    pub selection: Option<Stretch>,
    pub children: Vec<Reported>,
}

/// One definition a server reported.
#[derive(Debug)]
pub struct Symbol {
    pub name: String,
    /// Enclosing symbol names, outermost first. A method carries its class.
    pub scope: Vec<String>,
    /// The name a break travels by: the file's path folded in ahead of `scope`.
    pub locator: Locator,
    pub kind: &'static str,
    pub whole: Range<usize>,
    /// Where the name itself sits, which is where the server has to be asked about it.
    pub name_at: Range<usize>,
    /// The signature, when the kind is one that has a body to be told apart from.
    pub signature: Option<Range<usize>>,
    /// What this is written inside. `None` at the top of a file; the file's own module
    /// takes those.
    pub parent: Option<Locator>,
}

/// A symbol, every text seen as characters.
pub struct SymbolView {
    pub name: Seq<char>,
    pub scope: Seq<Seq<char>>,
    pub locator: LocatorView,
    pub kind: Seq<char>,
    pub whole: Range<usize>,
    pub name_at: Range<usize>,
    pub signature: Option<Range<usize>>,
    pub parent: Option<LocatorView>,
}

impl View for Symbol {
    type V = SymbolView;

    open spec fn view(&self) -> SymbolView {
        SymbolView {
            name: self.name@,
            scope: views(self.scope@),
            locator: self.locator@,
            kind: self.kind@,
            whole: self.whole,
            name_at: self.name_at,
            signature: self.signature,
            parent: opt_locator(self.parent),
        }
    }
}

/// Whether a symbol's stretch and name begin, and its stretch ends, where characters of a
/// text begin (or at its end).
pub open spec fn placed_in(t: Seq<char>, s: SymbolView) -> bool {
    lands(t, s.whole.start as int) && lands(t, s.whole.end as int) && lands(t, s.name_at.start as int)
}

/// Whether every symbol of a list is placed in a text.
pub open spec fn all_placed(t: Seq<char>, s: Seq<SymbolView>) -> bool {
    forall|i: int| 0 <= i < s.len() ==> placed_in(t, #[trigger] s[i])
}

/// The views of a list of symbols.
pub open spec fn symbol_views(s: Seq<Symbol>) -> Seq<SymbolView> {
    s.map_values(|one: Symbol| one@)
}

/// What callers can see: the signature for anything with a body, else the lot.
pub open spec fn declaration_spec(s: SymbolView) -> Range<usize> {
    match s.signature {
        Some(sig) => sig,
        None => s.whole,
    }
}

/// What follows the signature, when there is anything.
pub open spec fn body_spec(s: SymbolView) -> Option<Range<usize>> {
    match s.signature {
        Some(sig) => if sig.end < s.whole.end {
            Some(Range { start: sig.end, end: s.whole.end })
        } else {
            None
        },
        None => None,
    }
}

/// Whether a byte lies in a stretch.
pub open spec fn within(r: Range<usize>, at: int) -> bool {
    r.start <= at < r.end
}

/// Which part a byte belongs to. The declaration wins where parts overlap, since it's the
/// half a caller can see.
pub open spec fn part_at_spec(s: SymbolView, at: int) -> Option<Part> {
    if within(declaration_spec(s), at) {
        Some(Part::Contract)
    } else if body_spec(s) matches Some(b) && within(b, at) {
        Some(Part::Body)
    } else {
        None
    }
}

impl Symbol {
    /// What callers can see. For anything with a body that's the signature, and for
    /// everything else it's the lot.
    pub fn declaration(&self) -> (r: Range<usize>)
        ensures
            r == declaration_spec(self@),
    {
        match &self.signature {
            Some(sig) => Range { start: sig.start, end: sig.end },
            None => Range { start: self.whole.start, end: self.whole.end },
        }
    }

    pub fn body(&self) -> (r: Option<Range<usize>>)
        ensures
            r == body_spec(self@),
    {
        match &self.signature {
            Some(sig) => if sig.end < self.whole.end {
                Some(Range { start: sig.end, end: self.whole.end })
            } else {
                None
            },
            None => None,
        }
    }

    /// Which part a byte belongs to; the declaration wins where parts overlap.
    pub fn part_at(&self, at: usize) -> (r: Option<Part>)
        ensures
            r == part_at_spec(self@, at as int),
    {
        let declared = self.declaration();
        if declared.start <= at && at < declared.end {
            return Some(Part::Contract);
        }
        match self.body() {
            Some(b) => if b.start <= at && at < b.end {
                Some(Part::Body)
            } else {
                None
            },
            None => None,
        }
    }
}

// ---------------------------------------------------------------------------------------
// Reading what a server reported.

/// Whether this is a named thing rather than one a server labelled itself, like
/// `lazyRouter() callback` or `<anonymous>`. Spaces are fine: `impl Display for Money` is a
/// real name.
pub open spec fn nameable_spec(name: Seq<char>) -> bool {
    name.len() > 0 && name[0] != '<' && !name.contains('(') && !name.contains(')')
}

/// Only things that are called have workings to hide. A type, a field or a constant is all
/// contract.
pub open spec fn splits_spec(kind: Seq<char>) -> bool {
    kind == "function"@ || kind == "method"@ || kind == "constructor"@
}

/// Where the first `{` is among some bytes.
pub open spec fn first_brace(b: Seq<u8>, from: int, to: int) -> Option<int>
    decreases to - from,
{
    if from >= to {
        None
    } else if b[from] == 0x7Bu8 {
        Some(from)
    } else {
        first_brace(b, from + 1, to)
    }
}

/// The signature: from the start of the whole up to the brace that opens the body, looking
/// only past the name. For a language without braces there's none, and the whole
/// definition stays contract, which over-reports rather than under-reports. Where the name
/// ends inside a character, or past the end, there's none either.
pub open spec fn signature_spec(b: Seq<u8>, whole: Range<usize>, name_at: Range<usize>) -> Option<Range<usize>> {
    let after = if name_at.end > whole.start { name_at.end - whole.start } else { 0 };
    let from = whole.start + after;
    if from > whole.end || (from < whole.end && is_continuation_byte(b[from])) {
        None
    } else {
        match first_brace(b, from, whole.end as int) {
            Some(brace) => Some(Range { start: whole.start, end: brace as usize }),
            None => None,
        }
    }
}

/// The first `{` found from `from` on is the one with none before it.
proof fn lemma_first_brace_at(b: Seq<u8>, from: int, to: int, brace: int)
    requires
        from <= brace < to,
        b[brace] == 0x7Bu8,
        forall|j: int| from <= j < brace ==> b[j] != 0x7Bu8,
    ensures
        first_brace(b, from, to) == Some(brace),
    decreases brace - from,
{
    if from < brace {
        lemma_first_brace_at(b, from + 1, to, brace);
    }
}

/// Whatever is called — a function, a method or a constructor, in the protocol's numbers
/// 12, 6 and 9 — has its workings split from its signature: where a `{` follows the name
/// inside the symbol, the signature runs from the symbol's start up to the first such `{`,
/// so an edit inside the block is an edit to the body and not to the contract.
pub proof fn lemma_called_things_split(
    t: Seq<char>,
    r: Reported,
    name: Seq<char>,
    whole: Range<usize>,
    file_scope: Seq<Seq<char>>,
    scope: Seq<Seq<char>>,
    parent: Option<LocatorView>,
    brace: int,
)
    requires
        r.kind == 6 || r.kind == 9 || r.kind == 12,
        whole.end <= encode_utf8(t).len(),
        whole.start < symbol_of(t, r, name, whole, file_scope, scope, parent).name_at.end <= brace < whole.end,
        encode_utf8(t)[brace] == 0x7Bu8,
        forall|j: int|
            symbol_of(t, r, name, whole, file_scope, scope, parent).name_at.end <= j < brace ==> encode_utf8(t)[j] != 0x7Bu8,
        !is_continuation_byte(encode_utf8(t)[symbol_of(t, r, name, whole, file_scope, scope, parent).name_at.end as int]),
    ensures
        symbol_of(t, r, name, whole, file_scope, scope, parent).signature == Some(Range { start: whole.start, end: brace as usize }),
{
    let s = symbol_of(t, r, name, whole, file_scope, scope, parent);
    let b = encode_utf8(t);
    assert(splits_spec(kind_spec(r.kind)));
    lemma_first_brace_at(b, s.name_at.end as int, whole.end as int, brace);
}

/// The bytes a reported stretch covers in a text, when its start comes no later than its
/// end. Each number is cut to the protocol's 32 bits, as `as u32` does.
pub open spec fn span_spec(t: Seq<char>, s: Stretch) -> Option<Range<usize>> {
    let start = offset_spec(t, (s.start_line as u32) as int, (s.start_character as u32) as nat);
    let end = offset_spec(t, (s.end_line as u32) as int, (s.end_character as u32) as nat);
    if start <= end {
        Some(Range { start: start as usize, end: end as usize })
    } else {
        None
    }
}

/// A stretch that may be missing, as bytes.
pub open spec fn span_of(t: Seq<char>, s: Option<Stretch>) -> Option<Range<usize>> {
    match s {
        Some(s) => span_spec(t, s),
        None => None,
    }
}

/// The whole of a reported symbol: its range, or failing that its location's.
pub open spec fn whole_of(t: Seq<char>, r: Reported) -> Option<Range<usize>> {
    match span_of(t, r.range) {
        Some(w) => Some(w),
        None => span_of(t, r.location_range),
    }
}

/// The symbol a reported one reads as, given where it was found.
pub open spec fn symbol_of(
    t: Seq<char>,
    r: Reported,
    name: Seq<char>,
    whole: Range<usize>,
    file_scope: Seq<Seq<char>>,
    scope: Seq<Seq<char>>,
    parent: Option<LocatorView>,
) -> SymbolView {
    let name_at = match span_of(t, r.selection) {
        Some(n) => n,
        None => whole,
    };
    let kind = kind_spec(r.kind);
    SymbolView {
        name,
        scope,
        locator: LocatorView { scope: file_scope + scope, name },
        kind,
        whole,
        name_at,
        signature: if splits_spec(kind) { signature_spec(encode_utf8(t), whole, name_at) } else { None },
        parent,
    }
}

/// The reported tree flattened, each symbol followed by what it holds where it holds
/// definitions of its own. Unnamed symbols and those with no readable range are left out,
/// with whatever they hold.
pub open spec fn collected(
    list: Seq<Reported>,
    t: Seq<char>,
    file_scope: Seq<Seq<char>>,
    scope: Seq<Seq<char>>,
    parent: Option<LocatorView>,
) -> Seq<SymbolView>
    decreases list,
{
    if list.len() == 0 {
        Seq::empty()
    } else {
        collected(list.drop_last(), t, file_scope, scope, parent) + collected_one(list.last(), t, file_scope, scope, parent)
    }
}

/// One reported symbol and, where it holds definitions, what it holds.
pub open spec fn collected_one(
    r: Reported,
    t: Seq<char>,
    file_scope: Seq<Seq<char>>,
    scope: Seq<Seq<char>>,
    parent: Option<LocatorView>,
) -> Seq<SymbolView>
    decreases r,
{
    match r.name {
        None => Seq::empty(),
        Some(name) => if !nameable_spec(name@) {
            Seq::empty()
        } else {
            match whole_of(t, r) {
                None => Seq::empty(),
                Some(whole) => {
                    let me = symbol_of(t, r, name@, whole, file_scope, scope, parent);
                    if holds_spec(me.kind) {
                        seq![me] + collected(
                            r.children@,
                            t,
                            file_scope,
                            scope.push(name@),
                            Some(LocatorView { scope, name: name@ }),
                        )
                    } else {
                        seq![me]
                    }
                },
            }
        },
    }
}

/// Whether a name is one a reader could find again.
fn nameable(name: &str) -> (r: bool)
    ensures
        r == nameable_spec(name@),
{
    let cs = chars_of(name);
    if cs.len() == 0 || cs[0] == '<' {
        return false;
    }
    for i in 0..cs.len()
        invariant
            cs@ == name@,
            forall|j: int| 0 <= j < i ==> cs@[j] != '(' && cs@[j] != ')',
    {
        if cs[i] == '(' || cs[i] == ')' {
            assert(name@.contains(cs@[i as int]));
            return false;
        }
    }
    assert(!name@.contains('(') && !name@.contains(')')) by {
        if name@.contains('(') {
            let j = choose|j: int| 0 <= j < name@.len() && name@[j] == '(';
            assert(cs@[j] == '(');
        }
        if name@.contains(')') {
            let j = choose|j: int| 0 <= j < name@.len() && name@[j] == ')';
            assert(cs@[j] == ')');
        }
    }
    true
}

/// Whether this kind of thing has a body to tell apart from its signature.
fn splits(kind: &str) -> (r: bool)
    ensures
        r == splits_spec(kind@),
{
    crate::text::str_eq(kind, "function") || crate::text::str_eq(kind, "method") || crate::text::str_eq(kind, "constructor")
}

/// The signature: up to the brace that opens the body, looking only past the name.
fn signature(whole: &Range<usize>, name_at: &Range<usize>, lines: &Lines) -> (r: Option<Range<usize>>)
    requires
        whole.start <= whole.end,
        lands(lines@, whole.end as int),
    ensures
        r == signature_spec(encode_utf8(lines@), *whole, *name_at),
{
    let b = lines.text().as_bytes();
    let ghost bytes = encode_utf8(lines@);
    assert(b@ == bytes);
    let after = if name_at.end > whole.start { name_at.end - whole.start } else { 0 };
    let from = whole.start + after;
    if from > whole.end {
        return None;
    }
    if from < whole.end && 0x80u8 <= b[from] && b[from] <= 0xBFu8 {
        return None;
    }
    let mut k = from;
    assert(signature_spec(bytes, *whole, *name_at) == match first_brace(bytes, from as int, whole.end as int) {
        Some(brace) => Some(Range { start: whole.start, end: brace as usize }),
        None => None,
    });
    while k < whole.end
        invariant
            signature_spec(bytes, *whole, *name_at) == match first_brace(bytes, from as int, whole.end as int) {
                Some(brace) => Some(Range { start: whole.start, end: brace as usize }),
                None => None,
            },
            bytes == encode_utf8(lines@),
            b@ == bytes,
            whole.end <= bytes.len(),
            from <= k <= whole.end,
            first_brace(bytes, from as int, whole.end as int) == first_brace(bytes, k as int, whole.end as int),
        decreases whole.end - k,
    {
        if b[k] == 0x7Bu8 {
            assert(bytes[k as int] == 0x7Bu8);
            assert(first_brace(bytes, k as int, whole.end as int) == Some(k as int));

            return Some(Range { start: whole.start, end: k });
        }
        k = k + 1;
    }
    None
}

/// The bytes a reported stretch covers.
fn span(s: &Option<Stretch>, lines: &Lines) -> (r: Option<Range<usize>>)
    requires
        lines.wf(),
    ensures
        r == span_of(lines@, *s),
        r matches Some(w) ==> w.start <= w.end && lands(lines@, w.start as int) && lands(lines@, w.end as int),
{
    match s {
        None => None,
        Some(s) => {
            let start = lines.offset(s.start_line as u32, s.start_character as u32);
            let end = lines.offset(s.end_line as u32, s.end_character as u32);
            if start <= end {
                Some(Range { start, end })
            } else {
                None
            }
        },
    }
}

/// The whole of a reported symbol.
fn whole_of_exec(r: &Reported, lines: &Lines) -> (w: Option<Range<usize>>)
    requires
        lines.wf(),
    ensures
        w == whole_of(lines@, *r),
        w matches Some(w) ==> w.start <= w.end && lands(lines@, w.start as int) && lands(lines@, w.end as int),
{
    match span(&r.range, lines) {
        Some(w) => Some(w),
        None => span(&r.location_range, lines),
    }
}

/// Two lists of names one after the other.
fn chained(a: &Vec<String>, b: &Vec<String>) -> (r: Vec<String>)
    ensures
        views(r@) == views(a@) + views(b@),
{
    let mut r = copy_strings(a);
    let ghost start = views(r@);
    for i in 0..b.len()
        invariant
            start == views(a@),
            views(r@) == start + views(b@).take(i as int),
    {
        let ghost before = views(r@);
        r.push(owned(b[i].as_str()));
        assert(views(r@) =~= before.push(b@[i as int]@));
        assert(views(b@).take(i + 1) =~= views(b@).take(i as int).push(b@[i as int]@));
    }
    assert(views(b@).take(b@.len() as int) =~= views(b@));
    r
}

/// Adds the reported symbols, and what those that hold definitions hold, in order.
fn collect(
    list: &Vec<Reported>,
    lines: &Lines,
    file_scope: &Vec<String>,
    scope: &Vec<String>,
    parent: &Option<Locator>,
    found: &mut Vec<Symbol>,
)
    requires
        lines.wf(),
        all_placed(lines@, symbol_views(old(found)@)),
    ensures
        all_placed(lines@, symbol_views(final(found)@)),
        symbol_views(final(found)@) == symbol_views(old(found)@) + collected(
            list@,
            lines@,
            views(file_scope@),
            views(scope@),
            opt_locator(*parent),
        ),
    decreases list@,
{
    let ghost fs = views(file_scope@);
    let ghost sc = views(scope@);
    let ghost par = opt_locator(*parent);
    let ghost start = symbol_views(found@);
    for i in 0..list.len()
        invariant
            lines.wf(),
            fs == views(file_scope@),
            sc == views(scope@),
            par == opt_locator(*parent),
            all_placed(lines@, symbol_views(found@)),
            symbol_views(found@) == start + collected(list@.take(i as int), lines@, fs, sc, par),
    {
        assert(list@.take(i + 1).drop_last() =~= list@.take(i as int));
        assert(list@.take(i + 1).last() == list@[i as int]);
        let ghost so_far = symbol_views(found@);
        let one = &list[i];
        match &one.name {
            None => {},
            Some(name) => {
                if nameable(name.as_str()) {
                    match whole_of_exec(one, lines) {
                        None => {},
                        Some(whole) => {
                            let name_at = match span(&one.selection, lines) {
                                Some(n) => n,
                                None => Range { start: whole.start, end: whole.end },
                            };
                            let kind = kind_of(one.kind);
                            let signature = if splits(kind) { signature(&whole, &name_at, lines) } else { None };
                            let symbol = Symbol {
                                name: owned(name.as_str()),
                                scope: copy_strings(scope),
                                locator: Locator { scope: chained(file_scope, scope), name: owned(name.as_str()) },
                                kind,
                                whole,
                                name_at,
                                signature,
                                parent: copy_locator(parent),
                            };
                            let ghost me = symbol_of(lines@, *one, name@, whole, fs, sc, par);
                            assert(symbol@ == me);
                            found.push(symbol);
                            assert(symbol_views(found@) =~= so_far.push(me));
                            assert(all_placed(lines@, symbol_views(found@))) by {
                                assert forall|k: int| 0 <= k < symbol_views(found@).len() implies placed_in(lines@, #[trigger] symbol_views(found@)[k]) by {
                                    if k < so_far.len() {
                                        assert(symbol_views(found@)[k] == so_far[k]);
                                    }
                                }
                            }
                            if holds(kind) {
                                let mut inner = copy_strings(scope);
                                inner.push(owned(name.as_str()));
                                assert(views(inner@) =~= sc.push(name@));
                                let holding = Some(Locator { scope: copy_strings(scope), name: owned(name.as_str()) });
                                let ghost mid = symbol_views(found@);
                                proof {
                                    assert(decreases_to!(list@ => list@[i as int]));
                                }
                                collect(&one.children, lines, file_scope, &inner, &holding, found);
                                assert(symbol_views(found@) =~= so_far + collected_one(*one, lines@, fs, sc, par));
                            } else {
                                assert(symbol_views(found@) =~= so_far + collected_one(*one, lines@, fs, sc, par));
                            }
                        },
                    }
                }
            },
        }
    }
    assert(list@.take(list@.len() as int) =~= list@);
}

// ---------------------------------------------------------------------------------------
// Names declared together.

/// Two symbols reported over the same stretch in the same scope: declared in one
/// statement, like `const a = 1, b = 2;`.
pub open spec fn together(s: Seq<SymbolView>, i: int, j: int) -> bool {
    s[j].scope == s[i].scope && s[j].whole == s[i].whole
}

/// Whether `j`'s name comes before `i`'s, ties going to the one listed first.
pub open spec fn named_sooner(s: Seq<SymbolView>, j: int, i: int) -> bool {
    s[j].name_at.start < s[i].name_at.start || (s[j].name_at.start == s[i].name_at.start && j < i)
}

/// Whether a symbol was declared together with another.
pub open spec fn shared(s: Seq<SymbolView>, i: int) -> bool {
    exists|j: int| 0 <= j < s.len() && j != i && #[trigger] together(s, i, j)
}

/// Whether a symbol's name comes first of those declared with it.
pub open spec fn leads(s: Seq<SymbolView>, i: int) -> bool {
    !exists|j: int| 0 <= j < s.len() && #[trigger] together(s, i, j) && named_sooner(s, j, i)
}

/// Whether `j` is the symbol whose name comes next after `i`'s among those declared with it.
pub open spec fn next_of(s: Seq<SymbolView>, i: int, j: int) -> bool {
    &&& 0 <= j < s.len()
    &&& together(s, i, j)
    &&& named_sooner(s, i, j)
    &&& forall|k: int| 0 <= k < s.len() && #[trigger] together(s, i, k) && named_sooner(s, i, k) ==> !named_sooner(s, k, j)
}

/// The stretch a symbol keeps: its own, unless declared together with others, when it runs
/// from its name to the next name, the first from the statement's start.
pub open spec fn stretch_of(s: Seq<SymbolView>, i: int) -> Range<usize> {
    if !shared(s, i) {
        s[i].whole
    } else {
        Range {
            start: if leads(s, i) { s[i].whole.start } else { s[i].name_at.start },
            end: if exists|j: int| next_of(s, i, j) {
                s[choose|j: int| next_of(s, i, j)].name_at.start
            } else {
                s[i].whole.end
            },
        }
    }
}

/// Each symbol with the stretch it keeps.
pub open spec fn apart_spec(s: Seq<SymbolView>) -> Seq<SymbolView> {
    Seq::new(s.len(), |i: int| SymbolView { whole: stretch_of(s, i), ..s[i] })
}

/// Whether `r` is the stretch symbol `k` keeps, and lands in the text.
pub open spec fn kept_stretch(t: Seq<char>, s: Seq<SymbolView>, k: int, r: Range<usize>) -> bool {
    r == stretch_of(s, k) && lands(t, r.start as int) && lands(t, r.end as int)
}

/// Whether two symbols were reported over the same stretch in the same scope.
fn declared_together(a: &Symbol, b: &Symbol) -> (r: bool)
    ensures
        r == (a@.scope == b@.scope && a@.whole == b@.whole),
{
    a.whole.start == b.whole.start && a.whole.end == b.whole.end && crate::model::strings_eq(&a.scope, &b.scope)
}

/// The stretch one symbol keeps.
fn stretch(found: &Vec<Symbol>, i: usize, Ghost(t): Ghost<Seq<char>>) -> (r: Range<usize>)
    requires
        i < found@.len(),
        all_placed(t, symbol_views(found@)),
    ensures
        r == stretch_of(symbol_views(found@), i as int),
        lands(t, r.start as int) && lands(t, r.end as int),
{
    let ghost s = symbol_views(found@);
    let n = found.len();
    let mut is_shared = false;
    let mut first = true;
    let mut next: Option<usize> = None;
    for j in 0..n
        invariant
            n == found@.len(),
            i < n,
            s == symbol_views(found@),
            is_shared == exists|k: int| 0 <= k < j && k != i && #[trigger] together(s, i as int, k),
            first == !exists|k: int| 0 <= k < j && #[trigger] together(s, i as int, k) && named_sooner(s, k, i as int),
            match next {
                None => forall|k: int| 0 <= k < j ==> !(#[trigger] together(s, i as int, k) && named_sooner(s, i as int, k)),
                Some(m) => m < j && together(s, i as int, m as int) && named_sooner(s, i as int, m as int) && forall|k: int|
                    0 <= k < j && #[trigger] together(s, i as int, k) && named_sooner(s, i as int, k) ==> !named_sooner(s, k, m as int),
            },
    {
        let with = declared_together(&found[i], &found[j]);
        assert(with == together(s, i as int, j as int));
        if with {
            if j != i {
                is_shared = true;
            }
            let (a, b) = (found[j].name_at.start, found[i].name_at.start);
            if a < b || (a == b && j < i) {
                first = false;
            }
            if b < a || (b == a && i < j) {
                next = match next {
                    None => Some(j),
                    Some(m) => {
                        let c = found[m].name_at.start;
                        if a < c || (a == c && j < m) {
                            Some(j)
                        } else {
                            Some(m)
                        }
                    },
                };
            }
        }
    }
    if !is_shared {
        return Range { start: found[i].whole.start, end: found[i].whole.end };
    }
    let start = if first { found[i].whole.start } else { found[i].name_at.start };
    let end = match next {
        Some(m) => {
            proof {
                assert(next_of(s, i as int, m as int));
                assert forall|j: int| next_of(s, i as int, j) implies j == m by {
                    assert(!named_sooner(s, j, m as int));
                    assert(!named_sooner(s, m as int, j));
                }
            }
            found[m].name_at.start
        },
        None => {
            assert(!exists|j: int| next_of(s, i as int, j));
            found[i].whole.end
        },
    };
    Range { start, end }
}

/// Symbols declared in one statement are each reported over the whole statement, so each
/// would show the same text. Each keeps its own stretch instead: from its name to the next
/// name, the first from the statement's start.
fn apart(found: Vec<Symbol>, Ghost(t): Ghost<Seq<char>>) -> (r: Vec<Symbol>)
    requires
        all_placed(t, symbol_views(found@)),
    ensures
        symbol_views(r@) == apart_spec(symbol_views(found@)),
        all_placed(t, symbol_views(r@)),
{
    let ghost s = symbol_views(found@);
    let mut stretches: Vec<Range<usize>> = Vec::new();
    for i in 0..found.len()
        invariant
            s == symbol_views(found@),
            all_placed(t, s),
            stretches@.len() == i,
            forall|k: int| 0 <= k < i ==> kept_stretch(t, s, k, #[trigger] stretches@[k]),
    {
        stretches.push(stretch(&found, i, Ghost(t)));
    }
    let mut found = found;
    let n = found.len();
    for i in 0..n
        invariant
            n == found@.len(),
            stretches@.len() == found@.len(),
            s.len() == found@.len(),
            all_placed(t, s),
            forall|k: int| 0 <= k < stretches@.len() ==> kept_stretch(t, s, k, #[trigger] stretches@[k]),
            forall|k: int| 0 <= k < i ==> (#[trigger] found@[k])@ == (SymbolView { whole: stretch_of(s, k), ..s[k] }),
            forall|k: int| i <= k < found@.len() ==> (#[trigger] found@[k])@ == s[k],
    {
        let ghost before = found@;
        let keep = Range { start: stretches[i].start, end: stretches[i].end };
        found[i].whole = keep;
        assert forall|k: int| 0 <= k < found@.len() && k != i implies found@[k] == before[k] by {}
    }
    assert(symbol_views(found@) =~= apart_spec(s));
    assert forall|k: int| 0 <= k < symbol_views(found@).len() implies placed_in(t, #[trigger] symbol_views(found@)[k]) by {
        assert(placed_in(t, s[k]));
    }
    found
}

/// Flattens the tree a server reports, keeping enclosing names as scope. `file_scope` is the
/// file's own path, folded into every symbol's locator.
pub open spec fn read_spec(list: Seq<Reported>, t: Seq<char>, file_scope: Seq<Seq<char>>) -> Seq<SymbolView> {
    apart_spec(collected(list, t, file_scope, Seq::empty(), None))
}

/// Flattens the tree a server reports, keeping enclosing names as scope. `file_scope` is the
/// file's own path, folded into every symbol's locator.
pub fn read(symbols: &Vec<Reported>, lines: &Lines, file_scope: &Vec<String>) -> (r: Vec<Symbol>)
    requires
        lines.wf(),
    ensures
        symbol_views(r@) == read_spec(symbols@, lines@, views(file_scope@)),
        all_placed(lines@, symbol_views(r@)),
{
    let mut found: Vec<Symbol> = Vec::new();
    let top: Vec<String> = Vec::new();
    assert(views(top@) =~= Seq::<Seq<char>>::empty());
    assert(symbol_views(found@) =~= Seq::<SymbolView>::empty());
    collect(symbols, lines, file_scope, &top, &None, &mut found);
    assert(symbol_views(found@) =~= collected(symbols@, lines@, views(file_scope@), Seq::empty(), None));
    apart(found, Ghost(lines@))
}

} // verus!
