//! How a failed guest call is described.
use vstd::prelude::*;

use crate::event::str_eq;

verus! {

/// The description of a normal guest failure: the immediate cause, followed
/// by the underlying root cause when that differs.
pub open spec fn failure_text(message: Seq<char>, root_cause: Seq<char>) -> Seq<char> {
    if message == root_cause {
        message
    } else {
        message + "\nRoot cause: "@ + root_cause
    }
}

/// Builds the error string reported for a failure whose surface message is
/// `message` and whose innermost cause reads `root_cause`.
pub fn describe_failure(message: &str, root_cause: &str) -> (r: String)
    ensures
        r@ == failure_text(message@, root_cause@),
{
    let mut out = String::from_str(message);
    if !str_eq(message, root_cause) {
        out.append("\nRoot cause: ");
        out.append(root_cause);
    }
    out
}

} // verus!
