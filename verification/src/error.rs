//! The errors of the library.

use vstd::prelude::*;

verus! {

/// Why an operation of the library failed.
#[derive(Debug)]
pub enum AuditError {
    /// A regular expression did not compile.
    Pattern { pattern: String, message: String },
    /// The content of a catalog file is malformed.
    Parse { file_path: String, message: String },
    /// The top level of a catalog file is not a table.
    RootNotTable { file_path: String },
    /// The extension of a catalog file names no supported format.
    UnsupportedExtension { extension: String },
    /// A catalog could not be written in the format of its file.
    Render { file_path: String, message: String },
}

/// What went wrong, without the words of the message.
pub enum Failure {
    Pattern { pattern: Seq<char> },
    Parse { file_path: Seq<char> },
    RootNotTable { file_path: Seq<char> },
    UnsupportedExtension { extension: Seq<char> },
    Render { file_path: Seq<char> },
}

impl DeepView for AuditError {
    type V = Failure;

    open spec fn deep_view(&self) -> Failure {
        match *self {
            AuditError::Pattern { pattern, .. } => Failure::Pattern { pattern: pattern@ },
            AuditError::Parse { file_path, .. } => Failure::Parse { file_path: file_path@ },
            AuditError::RootNotTable { file_path } => Failure::RootNotTable { file_path: file_path@ },
            AuditError::UnsupportedExtension { extension } => Failure::UnsupportedExtension {
                extension: extension@,
            },
            AuditError::Render { file_path, .. } => Failure::Render { file_path: file_path@ },
        }
    }
}

impl View for AuditError {
    type V = Failure;

    open spec fn view(&self) -> Failure {
        self.deep_view()
    }
}

} // verus!
