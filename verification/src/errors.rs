//! The error taxonomy of a tangle run.
//!
//! Every error here is fatal: a run aborts on the first one, before any
//! output is written.  Fragments whose info string is not a tangle address
//! at all are skipped silently and never reach this type.

use vstd::prelude::*;
use vstd::string::{StrSliceExecFns, StringExecFns};
use crate::position::{KeyFault, PositionError};

verus! {

/// The mathematical content of a `TangleError`.
pub enum RunFault {
    Position(KeyFault),
    Authority(Seq<char>),
    Path(Seq<char>),
    DuplicatePosition(Seq<char>),
}

/// A fatal error of a tangle run.
#[derive(Debug, Clone, PartialEq, Eq)]
pub enum TangleError {
    /// An explicit position key failed validation.
    Position(PositionError),
    /// A tangle address carries a non-empty authority segment.
    Authority(String),
    /// A tangle address is missing a valid relative destination path.
    Path(String),
    /// Two blocks for one destination share an explicit position key.
    DuplicatePosition(String),
}

impl View for TangleError {
    type V = RunFault;

    open spec fn view(&self) -> RunFault {
        match self {
            TangleError::Position(e) => RunFault::Position(e@),
            TangleError::Authority(a) => RunFault::Authority(a@),
            TangleError::Path(a) => RunFault::Path(a@),
            TangleError::DuplicatePosition(k) => RunFault::DuplicatePosition(k@),
        }
    }
}

impl TangleError {
    /// A human-readable diagnostic naming the offending key or address.
    pub fn message(&self) -> (r: String)
        ensures
            match self {
                TangleError::Position(e) => r@ == match e@ {
                    KeyFault::Empty => "Position key must not be empty"@,
                    KeyFault::InvalidCharacters(k) => "Position key '"@ + k
                        + "' must contain only lowercase letters"@,
                    KeyFault::ReservedPrefix(k) => "Position key '"@ + k
                        + "' must not start with 'm'"@,
                },
                TangleError::Authority(a) => r@ == "Tangle address '"@ + a@
                    + "' must not contain an authority"@,
                TangleError::Path(a) => r@ == "Tangle address '"@ + a@
                    + "' does not name a valid relative path"@,
                TangleError::DuplicatePosition(k) => r@ == "Duplicate position key '"@ + k@
                    + "' for the same file"@,
            },
    {
        match self {
            TangleError::Position(e) => e.message(),
            TangleError::Authority(a) => String::from_str("Tangle address '").concat(
                a.as_str(),
            ).concat("' must not contain an authority"),
            TangleError::Path(a) => String::from_str("Tangle address '").concat(a.as_str()).concat(
                "' does not name a valid relative path",
            ),
            TangleError::DuplicatePosition(k) => String::from_str(
                "Duplicate position key '",
            ).concat(k.as_str()).concat("' for the same file"),
        }
    }
}

} // verus!
