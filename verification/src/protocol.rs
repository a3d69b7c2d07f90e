//! What dagger and an adapter say to each other, where it is more than data to carry:
//! the fixed wording of an adapter's progress, and the plain records a reply holds.

use crate::model::Span;
use crate::text::{decimal, number, owned};
use vstd::prelude::*;

verus! {

/// Two revisions to compare.
#[derive(Debug, Clone)]
pub struct Revisions {
    pub before: String,
    pub after: String,
    /// What the commit under review is called, when the adapter can say. Only ever a
    /// suggestion, never required.
    pub title: Option<String>,
}

/// One file that differs, and the byte ranges inside it that do. The ranges let an
/// adapter tell a touched file from a rewritten one instead of asking about everything.
#[derive(Debug, Clone)]
pub struct Changed {
    pub file: String,
    /// Where, in this file, on this side. Empty means the whole file counts.
    pub at: Vec<Span>,
}

/// Something an adapter wants the reader to know, like a file it couldn't parse. Prose
/// rather than fixed cases, because dagger can't know what a language's tooling will run into.
#[derive(Debug, Clone)]
pub struct Note {
    pub message: String,
    /// The file it's about, when it's about one.
    pub file: Option<String>,
}

/// A note as values.
pub struct NoteView {
    pub message: Seq<char>,
    pub file: Option<Seq<char>>,
}

impl View for Note {
    type V = NoteView;

    open spec fn view(&self) -> NoteView {
        NoteView {
            message: self.message@,
            file: match self.file {
                Some(f) => Some(f@),
                None => None,
            },
        }
    }
}

/// An optional note as values.
pub open spec fn opt_note_view(n: Option<Note>) -> Option<NoteView> {
    match n {
        Some(x) => Some(x@),
        None => None,
    }
}

/// What an adapter says on stderr while a reading is under way. A fixed vocabulary keeps
/// the wording the same across adapters.
#[derive(Debug, Clone, PartialEq, Eq)]
pub enum Progress {
    /// A server was started to answer what's ahead.
    StartingServer { name: String },
    /// The server is indexing before it can be trusted to answer anything.
    Indexing { name: String },
    /// How far a walk outward from what changed has gotten.
    Walked { done: usize, known: usize, opened: usize },
    /// What a reading found, with nothing left to ask.
    Finished { files: usize, definitions: usize },
}

/// How a line of progress reads.
pub open spec fn progress_text(p: Progress) -> Seq<char> {
    match p {
        Progress::StartingServer { name } => "  starting "@ + name@,
        Progress::Indexing { name } => "  waiting for "@ + name@ + " to index"@,
        Progress::Walked { done, known, opened } => "  walked "@ + decimal(done as nat) + " of "@ + decimal(known as nat)
            + " files, opened "@ + decimal(opened as nat),
        Progress::Finished { files, definitions } => "  read "@ + decimal(files as nat) + " files, found "@ + decimal(
            definitions as nat,
        ) + " definitions"@,
    }
}

impl Progress {
    /// The line an adapter writes for this.
    pub fn render(&self) -> (r: String)
        ensures
            r@ == progress_text(*self),
    {
        match self {
            Progress::StartingServer { name } => {
                let mut r = owned("  starting ");
                r.append(name.as_str());
                r
            },
            Progress::Indexing { name } => {
                let mut r = owned("  waiting for ");
                r.append(name.as_str());
                r.append(" to index");
                r
            },
            Progress::Walked { done, known, opened } => {
                let mut r = owned("  walked ");
                r.append(number(*done).as_str());
                r.append(" of ");
                r.append(number(*known).as_str());
                r.append(" files, opened ");
                r.append(number(*opened).as_str());
                r
            },
            Progress::Finished { files, definitions } => {
                let mut r = owned("  read ");
                r.append(number(*files).as_str());
                r.append(" files, found ");
                r.append(number(*definitions).as_str());
                r.append(" definitions");
                r
            },
        }
    }
}

} // verus!
