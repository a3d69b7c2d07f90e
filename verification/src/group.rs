//! Which group each definition belongs to: a box drawn around several definitions, like a
//! package, a crate or an owner. Only one grouping is in use at a time.

use crate::model::{Identity, copy_strings};
use crate::text::views;
use vstd::prelude::*;

verus! {

/// One way of grouping definitions, and where each sits in it, outermost group first.
/// An empty path means a definition is in no group.
#[derive(Debug, Clone, Default, PartialEq, Eq)]
pub struct Grouping {
    /// What a reader would call this way of grouping: "package", "owner", "layer".
    pub name: String,
    /// Each definition's path. Where one is listed twice, the first entry counts.
    pub of: Vec<(Identity, Vec<String>)>,
}

/// No definition is listed twice.
pub open spec fn keyed_once(of: Seq<(Identity, Vec<String>)>) -> bool {
    forall|a: int, b: int| 0 <= a < b < of.len() ==> (#[trigger] of[a]).0 != (#[trigger] of[b]).0
}

/// Where the first entry for `definition` sits, if there is one.
pub open spec fn first_entry(of: Seq<(Identity, Vec<String>)>, definition: Identity) -> Option<int>
    decreases of.len(),
{
    if of.len() == 0 {
        None
    } else if of[0].0 == definition {
        Some(0)
    } else {
        match first_entry(of.drop_first(), definition) {
            Some(i) => Some(i + 1),
            None => None,
        }
    }
}

/// The path a grouping gives a definition: its first entry's, or none at all.
pub open spec fn path_in(of: Seq<(Identity, Vec<String>)>, definition: Identity) -> Seq<Seq<char>> {
    match first_entry(of, definition) {
        Some(i) => views(of[i].1@),
        None => Seq::empty(),
    }
}

proof fn lemma_first_entry(of: Seq<(Identity, Vec<String>)>, definition: Identity, i: int)
    requires
        0 <= i <= of.len(),
        forall|k: int| 0 <= k < i ==> of[k].0 != definition,
    ensures
        i < of.len() && of[i].0 == definition ==> first_entry(of, definition) == Some(i),
        i == of.len() ==> first_entry(of, definition) is None,
    decreases i,
{
    if i > 0 {
        lemma_first_entry(of.drop_first(), definition, i - 1);
    }
}

impl Grouping {
    /// Where one definition sits, outermost group first.
    pub fn path_of(&self, definition: Identity) -> (r: Vec<String>)
        ensures
            views(r@) == path_in(self.of@, definition),
    {
        for i in 0..self.of.len()
            invariant
                forall|k: int| 0 <= k < i ==> self.of@[k].0 != definition,
        {
            if self.of[i].0 == definition {
                proof {
                    lemma_first_entry(self.of@, definition, i as int);
                }
                return copy_strings(&self.of[i].1);
            }
        }
        proof {
            lemma_first_entry(self.of@, definition, self.of@.len() as int);
        }
        Vec::new()
    }
}

} // verus!
