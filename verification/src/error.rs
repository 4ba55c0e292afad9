//! Why a run came to an end before its output was written.

use crate::fs::FsError;
use vstd::prelude::*;

verus! {

/// A failure that ends a run.
#[derive(Debug, Clone, PartialEq, Eq)]
pub enum InlineError {
    /// The store failed on the file or directory at `path`.
    Io { path: String, cause: FsError },
    /// The installation record at `path` is no well-formed JSON text.
    Metadata { path: String, message: String },
}

impl InlineError {
    /// The text that describes the failure: the path, a colon and the cause.
    pub open spec fn text(self) -> Seq<char> {
        match self {
            InlineError::Io { path, cause } => path@ + ": "@ + cause.text(),
            InlineError::Metadata { path, message } => path@ + ": "@ + message@,
        }
    }

    /// A description of the failure that names the path.
    pub fn message(&self) -> (s: String)
        ensures
            s@ == self.text(),
    {
        match self {
            InlineError::Io { path, cause } => {
                let mut s = path.clone();
                s.append(": ");
                let text = cause.message();
                s.append(text.as_str());
                s
            },
            InlineError::Metadata { path, message } => {
                let mut s = path.clone();
                s.append(": ");
                s.append(message.as_str());
                s
            },
        }
    }
}

} // verus!
