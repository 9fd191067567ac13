//! What can go wrong before and during a scan.

use vstd::prelude::*;
use vstd::string::*;
use crate::text;

verus! {

#[derive(Debug)]
pub enum CarveError {
    /// The signature database cannot be used.
    SignatureDb { detail: String },
    /// A signature names a validator that does not exist.
    UnknownValidator { id: String },
    /// The scan stopped before its end.
    Aborted { detail: String },
}

pub type Result<T> = std::result::Result<T, CarveError>;

impl CarveError {
    /// The error as text.
    pub open spec fn told(self) -> Seq<char> {
        match self {
            CarveError::SignatureDb { detail } => "signature database: "@ + detail@,
            CarveError::UnknownValidator { id } => "no validator registered for id "@
                + text::quoted(id@),
            CarveError::Aborted { detail } => "scan aborted: "@ + detail@,
        }
    }

    pub fn message(&self) -> (r: String)
        ensures
            r@ == self.told(),
    {
        match self {
            CarveError::SignatureDb { detail } => text::cat2(
                "signature database: ",
                detail.as_str(),
            ),
            CarveError::UnknownValidator { id } => text::cat2(
                "no validator registered for id ",
                text::quote(id.as_str()).as_str(),
            ),
            CarveError::Aborted { detail } => text::cat2("scan aborted: ", detail.as_str()),
        }
    }
}

} // verus!
