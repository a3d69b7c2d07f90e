//! Where one definition mentions another, in one snapshot and across both.

use crate::model::{Identity, Locator, Part, Span};
use vstd::prelude::*;

verus! {

/// Which extractor claimed a reference, like "tsc" or "http-route". Kept around so the
/// reader can tell a compiler's answer from a guess.
#[derive(Debug, Clone, PartialEq, Eq, PartialOrd, Ord, Hash)]
pub struct ExtractorId(pub String);

/// What a mention points at. Some mentions never bind, like a dynamic call, and those are
/// kept so the reader knows nothing could be found.
#[derive(Debug, Clone, PartialEq, Eq, PartialOrd, Ord)]
pub enum Target<T> {
    Known(T),
    Unknown { symbol: String },
}

/// One spot in the source where a definition mentions another.
#[derive(Debug, Clone, PartialEq, Eq)]
pub struct Site {
    pub part: Part,
    pub span: Span,
    pub extractor: ExtractorId,
}

/// A mention found in a single snapshot. Binding a name to a declaration is a question for
/// the compiler, which only ever sees one snapshot, so this is as far as an extractor gets.
#[derive(Debug, Clone, PartialEq, Eq)]
pub struct Mention {
    pub from: Locator,
    pub to: Target<Locator>,
    pub site: Site,
}

/// The two snapshots' mentions lined up, once matching has handed out identities. An
/// empty side means the mention wasn't there, so a call that came or went reads the same
/// way as a definition that came or went.
#[derive(Debug, Clone, PartialEq, Eq)]
pub struct Reference {
    pub from: Identity,
    pub to: Target<Identity>,
    pub before: Vec<Site>,
    pub after: Vec<Site>,
}

impl Site {
    /// A copy of this site.
    pub fn duplicate(&self) -> (r: Site)
        ensures
            r == *self,
    {
        Site { part: self.part, span: self.span, extractor: ExtractorId(self.extractor.0.clone()) }
    }
}

/// A copy of a target that names an identity.
pub fn copy_target(t: &Target<Identity>) -> (r: Target<Identity>)
    ensures
        r == *t,
{
    match t {
        Target::Known(id) => Target::Known(*id),
        Target::Unknown { symbol } => Target::Unknown { symbol: symbol.clone() },
    }
}

} // verus!
