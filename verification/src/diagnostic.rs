//! Things an adapter handed over that had to be worked around.

use crate::model::{Identity, Locator, LocatorView};
use vstd::prelude::*;

verus! {

/// Something an adapter handed us that we had to work around. We answer anyway, but the
/// answer came from worse information than it should have, and the reader deserves to
/// hear about it.
#[derive(Debug, Clone, PartialEq, Eq)]
pub enum Diagnostic {
    /// One snapshot had a compiler's view of this definition and the other didn't, so the
    /// signature as written was compared instead.
    LopsidedContract { definition: Identity },
    /// A name in this definition's contract that no binder could place.
    UnboundInContract { definition: Identity, symbol: String },
    /// An extractor reported a mention coming from a definition it never reported.
    MentionFromNowhere { from: Locator },
    /// A definition whose own pieces overlap, or run backwards.
    Tangled {
        definition: Locator,
        /// Where the trouble starts, in bytes.
        at: u32,
    },
    /// Two definitions in one snapshot answering to the same name.
    TwoOfOneName { locator: Locator, times: usize },
    /// Lines that differ between the snapshots but sit inside no definition.
    Unattributed {
        file: String,
        lines: usize,
        /// The first few, so this can be looked into rather than just counted.
        at: Vec<u32>,
    },
}

/// A diagnostic, with every list seen as a sequence.
pub enum DiagnosticView {
    LopsidedContract { definition: Identity },
    UnboundInContract { definition: Identity, symbol: Seq<char> },
    MentionFromNowhere { from: LocatorView },
    Tangled { definition: LocatorView, at: u32 },
    TwoOfOneName { locator: LocatorView, times: usize },
    Unattributed { file: Seq<char>, lines: usize, at: Seq<u32> },
}

impl View for Diagnostic {
    type V = DiagnosticView;

    open spec fn view(&self) -> DiagnosticView {
        match self {
            Diagnostic::LopsidedContract { definition } => DiagnosticView::LopsidedContract {
                definition: *definition,
            },
            Diagnostic::UnboundInContract { definition, symbol } =>
                DiagnosticView::UnboundInContract { definition: *definition, symbol: symbol@ },
            Diagnostic::MentionFromNowhere { from } => DiagnosticView::MentionFromNowhere {
                from: from@,
            },
            Diagnostic::Tangled { definition, at } => DiagnosticView::Tangled {
                definition: definition@,
                at: *at,
            },
            Diagnostic::TwoOfOneName { locator, times } => DiagnosticView::TwoOfOneName {
                locator: locator@,
                times: *times,
            },
            Diagnostic::Unattributed { file, lines, at } => DiagnosticView::Unattributed {
                file: file@,
                lines: *lines,
                at: at@,
            },
        }
    }
}

/// The views of a list of diagnostics.
pub open spec fn diagnostic_views(d: Seq<Diagnostic>) -> Seq<DiagnosticView> {
    d.map_values(|one: Diagnostic| one@)
}

impl DiagnosticView {
    /// Which definition this is about, where it's about one that has an identity.
    pub open spec fn about(self) -> Option<Identity> {
        match self {
            DiagnosticView::LopsidedContract { definition } => Some(definition),
            DiagnosticView::UnboundInContract { definition, .. } => Some(definition),
            _ => None,
        }
    }

    /// Whether this one means the review might not be showing something that changed.
    pub open spec fn hides(self) -> bool {
        !(self is LopsidedContract)
    }
}

impl Diagnostic {
    /// Which definition this is about, where it's about one that has an identity. Lines
    /// belonging to nothing are about a file, and a name reported twice is about a name
    /// that couldn't become an identity in the first place.
    pub fn about(&self) -> (r: Option<Identity>)
        ensures
            r == self@.about(),
    {
        match self {
            Diagnostic::LopsidedContract { definition } => Some(*definition),
            Diagnostic::UnboundInContract { definition, .. } => Some(*definition),
            Diagnostic::MentionFromNowhere { .. } => None,
            Diagnostic::Tangled { .. } => None,
            Diagnostic::TwoOfOneName { .. } => None,
            Diagnostic::Unattributed { .. } => None,
        }
    }

    /// Whether this one means the review might not be showing something that changed.
    /// A lopsided contract is shown, just worked out from the text rather than the
    /// compiler; every other kind can hide a change.
    pub fn hides(&self) -> (r: bool)
        ensures
            r == self@.hides(),
    {
        match self {
            Diagnostic::LopsidedContract { .. } => false,
            _ => true,
        }
    }
}

} // verus!
