//! The service facade's view of failures: every domain failure is mapped to
//! a boundary status, so a client can tell "retry with different input"
//! from "server needs attention". Unknown ids and rejected paths are caller
//! errors; a board whose template root is gone from disk is a server error.

use vstd::prelude::*;

use crate::errors::ScaffoldError;

verus! {

/// The boundary status for a domain failure: a not-found class code for
/// caller errors, an internal-error code for server-side data errors.
pub fn error_status(e: &ScaffoldError) -> (s: u16)
    ensures
        *e == ScaffoldError::BoardNotFound ==> s == 404,
        *e == ScaffoldError::ProjectNotFound ==> s == 404,
        *e == ScaffoldError::FileReadError ==> s == 404,
        *e == ScaffoldError::TemplateNotFound ==> s == 500,
{
    match e {
        ScaffoldError::BoardNotFound => 404,
        ScaffoldError::ProjectNotFound => 404,
        ScaffoldError::FileReadError => 404,
        ScaffoldError::TemplateNotFound => 500,
    }
}

} // verus!
