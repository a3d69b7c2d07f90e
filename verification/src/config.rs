//! How one repo wants its reviews built, as far as the library reads it: the grouping
//! and the review settings. Reading `dagger.toml` itself is the program's business.

use vstd::prelude::*;

verus! {

/// How to group the files, if they should be grouped at all.
#[derive(Debug, Clone)]
pub struct GroupingConfig {
    /// What a reader would call it: "package", "crate", "service".
    pub name: String,
    /// Files whose nearest containing directory is the group. `BUILD.bazel` for a bazel
    /// package, `Cargo.toml` for a crate, `package.json` for a workspace package. The
    /// nearest marker of any kind wins, so they still nest.
    pub markers: Vec<String>,
}

/// The settings of a review that aren't about any one adapter.
#[derive(Debug, Clone)]
pub struct ReviewConfig {
    /// Files to leave out of the review altogether, whoever would have claimed them.
    /// The one place completeness is given up on purpose, so it's worth keeping short.
    pub ignore: Vec<String>,
    /// How far past what changed to follow what depends on it, when nobody says.
    pub ripples: Option<u32>,
}

impl Default for ReviewConfig {
    fn default() -> (r: ReviewConfig)
        ensures
            r.ignore@.len() == 0,
            r.ripples is None,
    {
        ReviewConfig { ignore: Vec::new(), ripples: None }
    }
}

/// A revision on disk, whether it should be cleaned up, and the adapter's file listing.
/// No listing means the directory is walked instead.
#[derive(Debug, Clone)]
pub struct Snapshot {
    pub dir: String,
    pub temporary: bool,
    pub files: Option<Vec<String>>,
}

} // verus!
