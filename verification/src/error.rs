//! Errors raised while building an engine or one of its rules.

use vstd::prelude::*;
use vstd::string::StringExecFns;

verus! {

/// A failure while constructing a rule or a segmentation engine.
#[derive(Debug)]
pub enum Error {
    /// A regular expression did not compile; the payload is the compiler's
    /// reason.
    RegexError(String),
    /// A structural fault in the rule table.
    SRXError { reason: String },
}

impl Error {
    /// A human-readable description of this error.
    pub fn message(&self) -> (r: String)
        ensures
            (self matches Error::SRXError { reason } ==> r@ == "invalid SRX: "@ + reason@),
            (self matches Error::RegexError(detail) ==> r@ == ("Error constructing regex: "@
                + detail@)),
    {
        match self {
            Error::RegexError(detail) => {
                let mut s = String::from_str("Error constructing regex: ");
                s.append(detail.as_str());
                s
            },
            Error::SRXError { reason } => {
                let mut s = String::from_str("invalid SRX: ");
                s.append(reason.as_str());
                s
            },
        }
    }
}

} // verus!
