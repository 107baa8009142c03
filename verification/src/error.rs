//! Error values: every failure carries what was being handled and why it
//! failed.

use vstd::prelude::*;
use vstd::string::StringExecFns;

verus! {

/// What can go wrong outside of plain arithmetic (whose failures are
/// reported as absent results).
#[derive(Debug, Eq, PartialEq)]
pub enum Error {
    /// Decoding a value in `context` failed for `reason`.
    Decode { context: String, reason: String },
    /// No supported currency has the given string as its code.
    UnsupportedCurrency(String),
}

impl Error {
    /// The decode error for a CSV missing an expected row.
    pub fn csv_row_missing(row: &str) -> (r: Error)
        ensures
            r matches Error::Decode { context, reason } && context@ == "the exchange rates CSV from the ECB"@ && reason@ == "there was no "@ + row@ + " row"@,
    {
        let mut reason = String::new();
        reason.append("there was no ");
        reason.append(row);
        reason.append(" row");
        Error::Decode { context: String::from_str("the exchange rates CSV from the ECB"), reason }
    }
}

} // verus!
