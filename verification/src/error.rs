//! The failures that the index reports.

use vstd::prelude::*;

verus! {

#[derive(Clone, Copy, Debug, PartialEq, Eq, Structural)]
pub enum HnswError {
    /// A vector's length is not the dimension of the index.
    DimensionMismatch,
    /// The index already holds as many points as it takes.
    CapacityExceeded,
    /// A persisted stream is cut short or is no dump of an index of this
    /// kind.
    FormatError,
}

impl HnswError {
    /// A short name of the failure.
    pub fn as_str(&self) -> (s: &'static str)
        ensures
            s@ == match *self {
                HnswError::DimensionMismatch => "dimension mismatch"@,
                HnswError::CapacityExceeded => "capacity exceeded"@,
                HnswError::FormatError => "format error"@,
            },
    {
        match self {
            HnswError::DimensionMismatch => "dimension mismatch",
            HnswError::CapacityExceeded => "capacity exceeded",
            HnswError::FormatError => "format error",
        }
    }
}

} // verus!
