//! Failure conditions surfaced by the collections.

use vstd::prelude::*;

verus! {

/// A failure surfaced by a collection operation.
///
/// `KeyNotFound` is not represented here: an absent key is a normal outcome
/// reported through `Option`.
#[derive(Clone, Copy, Debug, PartialEq, Eq, Structural)]
pub enum Error {
    /// Stored bytes for a value could not be decoded.
    ValueDeserialization,
    /// An invariant the structure relies on does not hold in the backing
    /// store: storage corruption or a previously aborted operation.
    InconsistentState,
    /// A positional operation was given an index at or past the length.
    OutOfBounds,
    /// Range bounds are contradictory.
    InvalidRange,
}

impl Error {
    /// A short description of the failure.
    pub fn describe(&self) -> (r: &'static str)
        ensures
            r@.len() > 0,
    {
        match self {
            Error::ValueDeserialization => {
                let s = "cannot deserialize value";
                proof {
                    reveal_strlit("cannot deserialize value");
                }
                s
            },
            Error::InconsistentState => {
                let s = "collection is in an inconsistent state";
                proof {
                    reveal_strlit("collection is in an inconsistent state");
                }
                s
            },
            Error::OutOfBounds => {
                let s = "index out of bounds";
                proof {
                    reveal_strlit("index out of bounds");
                }
                s
            },
            Error::InvalidRange => {
                let s = "invalid range";
                proof {
                    reveal_strlit("invalid range");
                }
                s
            },
        }
    }
}

} // verus!
