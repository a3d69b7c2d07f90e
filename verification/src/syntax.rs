//! A Rust file as the definition finder reads it: what `syn` parses out of the source, held
//! as plain values. Each item keeps its kind, its name and where things sit, as byte
//! offsets into the source.

use quote::ToTokens;
use syn::spanned::Spanned;
use vstd::prelude::*;

verus! {

#[verifier::external_type_specification]
#[verifier::external_body]
pub struct ExIdent(proc_macro2::Ident);

#[verifier::external_type_specification]
#[verifier::external_body]
pub struct ExAttribute(syn::Attribute);

#[verifier::external_type_specification]
#[verifier::external_body]
pub struct ExItem(syn::Item);

#[verifier::external_type_specification]
#[verifier::external_body]
pub struct ExItemImpl(syn::ItemImpl);

#[verifier::external_type_specification]
#[verifier::external_body]
pub struct ExItemMod(syn::ItemMod);

#[verifier::external_type_specification]
#[verifier::external_body]
pub struct ExItemTrait(syn::ItemTrait);

#[verifier::external_type_specification]
#[verifier::external_body]
pub struct ExTraitItem(syn::TraitItem);

#[verifier::external_type_specification]
#[verifier::external_body]
pub struct ExImplItem(syn::ImplItem);

#[verifier::external_type_specification]
#[verifier::external_body]
pub struct ExVisibility(syn::Visibility);

/// What kind of thing an item is.
#[derive(Debug, Clone, Copy, PartialEq, Eq, Structural, Default)]
pub enum ItemKind {
    Fn,
    Struct,
    Enum,
    Union,
    Type,
    Const,
    Static,
    Macro,
    Trait,
    /// A function declared in a trait.
    TraitFn,
    Impl,
    /// A function in an implementation block.
    Method,
    /// A constant in an implementation block.
    AssocConst,
    Mod,
    Use,
    ExternCrate,
    /// Anything else: nothing is found in it.
    #[default]
    Other,
}

/// One item of a Rust file, with the spans the definition finder reads.
#[derive(Debug, Default)]
pub struct RustItem {
    pub kind: ItemKind,
    /// Its name, where it has one written: none for an `impl`, a `use` or a nameless macro.
    pub name: Option<String>,
    /// Where the name sits; for an `impl`, where the type it is about sits.
    pub name_at: (usize, usize),
    /// Everything the item covers.
    pub whole: (usize, usize),
    /// Whether it is declared `pub` outright.
    pub public: bool,
    /// Each attribute written on it, whether it is a doc comment, and where it sits.
    pub attrs: Vec<(bool, (usize, usize))>,
    /// The workings: a function's block, a constant's value.
    pub body: Option<(usize, usize)>,
    /// For an `impl`: where the `impl` keyword sits.
    pub opening: (usize, usize),
    /// For an `impl`: where its `where` clause sits, if it has one.
    pub bounds: Option<(usize, usize)>,
    /// For an `impl`: the idents of the type's path, when the type is written as a path.
    pub self_path: Option<Vec<String>>,
    /// For an `impl`: the type as `syn` prints it.
    pub self_text: String,
    /// For an `impl` of a trait: the idents of the trait's path.
    pub trait_path: Option<Vec<String>>,
    /// For a module: whether its contents are written inline.
    pub inline: bool,
    /// The items inside it: a trait's or an impl's members, an inline module's items.
    pub children: Vec<RustItem>,
}

/// An item as a value.
pub struct RustItemView {
    pub kind: ItemKind,
    pub name: Option<Seq<char>>,
    pub name_at: (usize, usize),
    pub whole: (usize, usize),
    pub public: bool,
    pub attrs: Seq<(bool, (usize, usize))>,
    pub body: Option<(usize, usize)>,
    pub opening: (usize, usize),
    pub bounds: Option<(usize, usize)>,
    pub self_path: Option<Seq<Seq<char>>>,
    pub self_text: Seq<char>,
    pub trait_path: Option<Seq<Seq<char>>>,
    pub inline: bool,
    pub children: Seq<RustItemView>,
}

/// Texts as values.
pub open spec fn texts(v: Seq<String>) -> Seq<Seq<char>> {
    v.map_values(|t: String| t@)
}

/// An optional text as a value.
pub open spec fn opt_text(t: Option<String>) -> Option<Seq<char>> {
    match t {
        Some(s) => Some(s@),
        None => None,
    }
}

/// An optional list of texts as values.
pub open spec fn opt_texts(t: Option<Vec<String>>) -> Option<Seq<Seq<char>>> {
    match t {
        Some(v) => Some(texts(v@)),
        None => None,
    }
}

/// An item as a value.
pub open spec fn item_view(i: RustItem) -> RustItemView
    decreases i,
{
    RustItemView {
        kind: i.kind,
        name: opt_text(i.name),
        name_at: i.name_at,
        whole: i.whole,
        public: i.public,
        attrs: i.attrs@,
        body: i.body,
        opening: i.opening,
        bounds: i.bounds,
        self_path: opt_texts(i.self_path),
        self_text: i.self_text@,
        trait_path: opt_texts(i.trait_path),
        inline: i.inline,
        children: Seq::new(
            i.children@.len(),
            |k: int|
                if 0 <= k < i.children@.len() {
                    proof {
                        assert(decreases_to!(i => i.children));
                        assert(decreases_to!(i.children => i.children@));
                        assert(decreases_to!(i.children@ => i.children@[k]));
                    }
                    item_view(i.children@[k])
                } else {
                    vstd::pervasive::arbitrary()
                },
        ),
    }
}

/// Items as values.
pub open spec fn items_view(s: Seq<RustItem>) -> Seq<RustItemView> {
    Seq::new(s.len(), |k: int| item_view(s[k]))
}

impl View for RustItem {
    type V = RustItemView;

    open spec fn view(&self) -> RustItemView {
        item_view(*self)
    }
}

/// A parsed file as values: the attributes written at its top, and its items.
pub open spec fn file_view(f: Option<(Vec<(bool, (usize, usize))>, Vec<RustItem>)>) -> Option<(Seq<(bool, (usize, usize))>, Seq<RustItemView>)> {
    match f {
        Some((attrs, items)) => Some((attrs@, items_view(items@))),
        None => None,
    }
}

/// What `syn::parse_file` reads out of a source text: the file's own attributes and its
/// items, or nothing when the text is not Rust it can parse.
pub uninterp spec fn rust_file(source: Seq<char>) -> Option<(Seq<(bool, (usize, usize))>, Seq<RustItemView>)>;

/// Parses a Rust source text with `syn::parse_file`, and reads each item into plain values.
/// The contract names the result; it says nothing of what `syn` makes of a given text.
#[verifier::external_body]
pub fn parse_rust(source: &str) -> (r: Option<(Vec<(bool, (usize, usize))>, Vec<RustItem>)>)
    ensures
        file_view(r) == rust_file(source@),
{
    match syn::parse_file(source) {
        Ok(file) => Some((attributes(&file.attrs), file.items.iter().map(item_of).collect())),
        Err(_) => None,
    }
}

/// A byte range as its two ends.
fn pair(range: std::ops::Range<usize>) -> (r: (usize, usize))
    ensures
        r == (range.start, range.end),
{
    (range.start, range.end)
}

/// Each attribute: whether its path is `doc` (`syn::Path::is_ident`), and its span.
#[verifier::external_body]
fn attributes(attrs: &Vec<syn::Attribute>) -> Vec<(bool, (usize, usize))> {
    attrs.iter().map(|a| (a.path().is_ident("doc"), pair(a.span().byte_range()))).collect()
}

/// Whether a visibility is written `pub` outright.
#[verifier::external_body]
fn public(vis: &syn::Visibility) -> bool {
    match vis {
        syn::Visibility::Public(_) => true,
        _ => false,
    }
}

/// An item of a kind that is named and holds nothing of its own to tell apart.
#[verifier::external_body]
fn named(kind: ItemKind, whole: std::ops::Range<usize>, ident: &proc_macro2::Ident, attrs: &Vec<syn::Attribute>) -> RustItem {
    RustItem {
        kind,
        name: Some(ident.to_string()),
        name_at: pair(ident.span().byte_range()),
        whole: pair(whole),
        attrs: attributes(attrs),
        ..RustItem::default()
    }
}

/// A function with its block, wherever it is declared.
#[verifier::external_body]
fn callable(kind: ItemKind, whole: std::ops::Range<usize>, ident: &proc_macro2::Ident, attrs: &Vec<syn::Attribute>, block: Option<std::ops::Range<usize>>) -> RustItem {
    let mut item = named(kind, whole, ident, attrs);
    item.body = block.map(pair);
    item
}

/// An item that holds nothing of its own, with only its kind, its span and whether it is
/// `pub`.
fn bare(kind: ItemKind, whole: std::ops::Range<usize>, public: bool) -> (r: RustItem)
    ensures
        r.kind == kind,
        r.whole == (whole.start, whole.end),
        r.public == public,
        r.name is None,
        r.attrs@.len() == 0,
        r.children@.len() == 0,
{
    RustItem {
        kind,
        name: None,
        name_at: (0, 0),
        whole: pair(whole),
        public,
        attrs: Vec::new(),
        body: None,
        opening: (0, 0),
        bounds: None,
        self_path: None,
        self_text: String::new(),
        trait_path: None,
        inline: false,
        children: Vec::new(),
    }
}

/// Reads one item of a file or an inline module, telling `syn::Item`'s variants apart.
#[verifier::external_body]
fn item_of(item: &syn::Item) -> RustItem {
    match item {
        syn::Item::Fn(f) => callable(ItemKind::Fn, f.span().byte_range(), &f.sig.ident, &f.attrs, Some(f.block.span().byte_range())),
        syn::Item::Struct(i) => named(ItemKind::Struct, i.span().byte_range(), &i.ident, &i.attrs),
        syn::Item::Enum(i) => named(ItemKind::Enum, i.span().byte_range(), &i.ident, &i.attrs),
        syn::Item::Union(i) => named(ItemKind::Union, i.span().byte_range(), &i.ident, &i.attrs),
        _ => item_of_more(item),
    }
}

/// Reads the items `item_of` leaves, telling `syn::Item`'s variants apart.
#[verifier::external_body]
fn item_of_more(item: &syn::Item) -> RustItem {
    match item {
        syn::Item::Type(i) => named(ItemKind::Type, i.span().byte_range(), &i.ident, &i.attrs),
        syn::Item::Const(i) => named(ItemKind::Const, i.span().byte_range(), &i.ident, &i.attrs),
        syn::Item::Static(i) => named(ItemKind::Static, i.span().byte_range(), &i.ident, &i.attrs),
        syn::Item::Trait(i) => trait_of(i),
        syn::Item::Impl(i) => impl_of(i),
        syn::Item::Mod(i) => mod_of(i),
        _ => item_of_rest(item),
    }
}

/// Reads the items `item_of_more` leaves: macros, imports, and what holds nothing found.
#[verifier::external_body]
fn item_of_rest(item: &syn::Item) -> RustItem {
    match item {
        syn::Item::Macro(i) => match &i.ident {
            Some(ident) => named(ItemKind::Macro, i.span().byte_range(), ident, &i.attrs),
            None => bare(ItemKind::Other, i.span().byte_range(), false),
        },
        syn::Item::Use(i) => bare(ItemKind::Use, i.span().byte_range(), public(&i.vis)),
        syn::Item::ExternCrate(i) => bare(ItemKind::ExternCrate, i.span().byte_range(), public(&i.vis)),
        _ => bare(ItemKind::Other, item.span().byte_range(), false),
    }
}

/// A trait, and each of its members.
#[verifier::external_body]
fn trait_of(i: &syn::ItemTrait) -> RustItem {
    let mut item = named(ItemKind::Trait, i.span().byte_range(), &i.ident, &i.attrs);
    item.children = i.items.iter().map(trait_member).collect();
    item
}

/// A trait's member, telling `syn::TraitItem`'s variants apart.
#[verifier::external_body]
fn trait_member(member: &syn::TraitItem) -> RustItem {
    match member {
        syn::TraitItem::Fn(f) => callable(ItemKind::TraitFn, f.span().byte_range(), &f.sig.ident, &f.attrs, f.default.as_ref().map(|b| b.span().byte_range())),
        _ => bare(ItemKind::Other, member.span().byte_range(), false),
    }
}

/// An implementation block: its keyword, its type, its `where` clause and its members.
#[verifier::external_body]
fn impl_of(i: &syn::ItemImpl) -> RustItem {
    let mut item = bare(ItemKind::Impl, i.span().byte_range(), false);
    item.attrs = attributes(&i.attrs);
    item.opening = pair(i.impl_token.span().byte_range());
    item.name_at = pair(i.self_ty.span().byte_range());
    item.bounds = i.generics.where_clause.as_ref().map(|w| pair(w.span().byte_range()));
    item.children = i.items.iter().map(impl_member).collect();
    impl_names(i, &mut item);
    item
}

/// What an implementation block is about: the idents of its type's path when the type is
/// written as a path, the type as `syn` prints it, and the idents of its trait's path.
#[verifier::external_body]
fn impl_names(i: &syn::ItemImpl, item: &mut RustItem) {
    item.self_path = match &*i.self_ty {
        syn::Type::Path(p) => Some(p.path.segments.iter().map(|s| s.ident.to_string()).collect()),
        _ => None,
    };
    item.self_text = i.self_ty.to_token_stream().to_string();
    item.trait_path = i.trait_.as_ref().map(|(p, _)| p.segments.iter().map(|s| s.ident.to_string()).collect());
}

/// An implementation's member, telling `syn::ImplItem`'s variants apart.
#[verifier::external_body]
fn impl_member(member: &syn::ImplItem) -> RustItem {
    match member {
        syn::ImplItem::Fn(f) => callable(ItemKind::Method, f.span().byte_range(), &f.sig.ident, &f.attrs, Some(f.block.span().byte_range())),
        syn::ImplItem::Const(c) => callable(ItemKind::AssocConst, c.span().byte_range(), &c.ident, &c.attrs, Some(c.expr.span().byte_range())),
        _ => bare(ItemKind::Other, member.span().byte_range(), false),
    }
}

/// A module declaration, with its items when they are written inline.
#[verifier::external_body]
fn mod_of(i: &syn::ItemMod) -> RustItem {
    let mut item = named(ItemKind::Mod, i.span().byte_range(), &i.ident, &i.attrs);
    item.public = public(&i.vis);
    item.inline = i.content.is_some();
    item.children = i.content.iter().flat_map(|(_, items)| items.iter().map(item_of)).collect();
    item
}

} // verus!
