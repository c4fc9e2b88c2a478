//! Failure taxonomy of the scaffolding core.

use vstd::prelude::*;

verus! {

/// Every failure a core operation can surface to its caller.
///
/// `BoardNotFound` and `ProjectNotFound` are caller errors (an unknown id was
/// supplied); `TemplateNotFound` is a server-side data error (a board's
/// template root is missing from disk); `FileReadError` covers a requested
/// file path that does not resolve to a readable text file inside the
/// template root, including paths that try to escape it.
#[derive(Clone, Copy, Debug, PartialEq, Eq, Structural)]
pub enum ScaffoldError {
    BoardNotFound,
    TemplateNotFound,
    ProjectNotFound,
    FileReadError,
}

impl ScaffoldError {
    /// A short human-readable description of the failure.
    pub fn message(&self) -> (r: &'static str)
        ensures
            *self == ScaffoldError::BoardNotFound ==> r@ == "board not found"@,
            *self == ScaffoldError::TemplateNotFound ==> r@ == "template path does not exist"@,
            *self == ScaffoldError::ProjectNotFound ==> r@ == "project not found"@,
            *self == ScaffoldError::FileReadError ==> r@ == "failed to read file"@,
    {
        match self {
            ScaffoldError::BoardNotFound => "board not found",
            ScaffoldError::TemplateNotFound => "template path does not exist",
            ScaffoldError::ProjectNotFound => "project not found",
            ScaffoldError::FileReadError => "failed to read file",
        }
    }
}

} // verus!
