//! Failure classes of a search run and the error record they travel in.

use vstd::prelude::*;
use vstd::string::StringExecFns;

verus! {

/// The three failure classes of a search run.
#[derive(PartialEq, Eq, Structural, Clone, Copy, Debug)]
pub enum ErrorKind {
    /// The user-supplied regular expression does not compile. Fatal,
    /// surfaced before any scanning.
    Pattern,
    /// The target root cannot be traversed. Fatal.
    Directory,
    /// One file could not be read or decoded as text. Never aborts the run.
    FileRead,
}

/// The label a diagnostic prints for each failure class.
pub open spec fn kind_label(k: ErrorKind) -> Seq<char> {
    match k {
        ErrorKind::Pattern => "PatternError"@,
        ErrorKind::Directory => "DirectoryError"@,
        ErrorKind::FileRead => "FileReadError"@,
    }
}

/// An error of the search engine: a failure class and a human-readable
/// message.
#[derive(Debug, Clone, PartialEq, Eq)]
pub struct SearchError {
    pub kind: ErrorKind,
    pub message: String,
}

impl SearchError {
    /// The `<kind>: <message>` form that a diagnostic prints.
    pub fn to_text(&self) -> (r: String)
        ensures
            r@ == kind_label(self.kind) + ": "@ + self.message@,
    {
        let mut s = match self.kind {
            ErrorKind::Pattern => "PatternError".to_owned(),
            ErrorKind::Directory => "DirectoryError".to_owned(),
            ErrorKind::FileRead => "FileReadError".to_owned(),
        };
        s.append(": ");
        s.append(self.message.as_str());
        s
    }
}

} // verus!
