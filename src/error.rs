//! Why a log entry cannot be rotated.

use vstd::prelude::*;

verus! {

#[derive(Clone, Copy, Debug, PartialEq, Eq, Structural)]
pub enum ErrorKind {
    /// The path has no parent directory or no file-name component.
    MalformedPath,
    /// A member of the log family has no extension.
    MissingExtension,
    /// A member of the log family has an extension outside `log`, `0` .. `9`.
    UnknownExtension,
}

/// A fatal error, with the path or file name that caused it.
#[derive(Debug)]
pub struct RotateError {
    pub kind: ErrorKind,
    pub subject: String,
}

/// The text that opens the description of an error of kind `k`.
pub open spec fn kind_label(k: ErrorKind) -> Seq<char> {
    match k {
        ErrorKind::MalformedPath => "malformed path: "@,
        ErrorKind::MissingExtension => "file without extension: "@,
        ErrorKind::UnknownExtension => "unexpected extension found: "@,
    }
}

impl RotateError {
    /// A one-line description for diagnostics: the kind's label, then the subject.
    pub fn message(&self) -> (r: String)
        ensures
            r@ == kind_label(self.kind) + self.subject@,
    {
        let mut m = match self.kind {
            ErrorKind::MalformedPath => String::from_str("malformed path: "),
            ErrorKind::MissingExtension => String::from_str("file without extension: "),
            ErrorKind::UnknownExtension => String::from_str("unexpected extension found: "),
        };
        m.append(self.subject.as_str());
        m
    }
}

} // verus!
