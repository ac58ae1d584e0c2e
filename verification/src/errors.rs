//! The error taxonomy of the library.

use vstd::prelude::*;

verus! {

/// Why an operation of the library failed.
#[derive(Debug)]
pub enum CoreError {
    /// The folder path does not exist.
    NotFound { path: String },
    /// The path exists but is not a directory.
    NotADirectory { path: String },
    /// Materialization was asked to process zero files.
    EmptyInput,
    /// An underlying read, write, create or copy failed; carries the
    /// operation, the offending path and the cause text.
    IoError { operation: String, path: String, cause: String },
}

impl CoreError {
    /// A human-readable description naming the operation and the path.
    pub fn message(&self) -> (r: String)
        ensures
            match self {
                CoreError::NotFound { path } => r@ == "Folder does not exist: "@ + path@,
                CoreError::NotADirectory { path } => r@ == "Not a directory: "@ + path@,
                CoreError::EmptyInput => r@ == "No files to process"@,
                CoreError::IoError { operation, path, cause } => r@ == operation@
                    + " failed for "@ + path@ + ": "@ + cause@,
            },
    {
        match self {
            CoreError::NotFound { path } => {
                let mut s = String::from_str("Folder does not exist: ");
                s.append(path.as_str());
                s
            },
            CoreError::NotADirectory { path } => {
                let mut s = String::from_str("Not a directory: ");
                s.append(path.as_str());
                s
            },
            CoreError::EmptyInput => String::from_str("No files to process"),
            CoreError::IoError { operation, path, cause } => {
                let mut s = operation.clone();
                s.append(" failed for ");
                s.append(path.as_str());
                s.append(": ");
                s.append(cause.as_str());
                s
            },
        }
    }
}

} // verus!
