//! Server-assigned identifiers for executions.

use vstd::prelude::*;

verus! {

/// Relies on uuid::Uuid::new_v4, hyphenated text form: a freshly drawn
/// random identifier.  Nothing is promised of the value.
#[verifier::external_body]
pub(crate) fn new_exec_id() -> String {
    uuid::Uuid::new_v4().to_string()
}

} // verus!
