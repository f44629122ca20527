//! Shared diagnostics helpers for consistent message prefixes.

use vstd::prelude::*;

verus! {

use vstd::string::StringExecFns;

/// Formats an error message with the shared "ERROR " prefix.
pub fn error_message(message: &str) -> (r: String)
    ensures
        r@ == "ERROR "@ + message@,
{
    let prefix = String::from_str("ERROR ");
    prefix.concat(message)
}

} // verus!
