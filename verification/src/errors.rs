//! Error kinds of the conversion pipeline.

use vstd::prelude::*;

verus! {

/// What went wrong with one input.
///
/// `FormatError`: text does not match the expected syntactic pattern
/// (date, time, frequency) or denotes no real calendar date or clock time.
/// `RangeError`: a syntactically valid value has no mapping (a frequency
/// outside all known bands).
/// `ScopeMismatch`: the whole input is recognized as already being in ADIF
/// format, so this pipeline is not its intended consumer.
#[derive(Clone, Copy, Debug, PartialEq, Eq, Structural)]
pub enum ConvError {
    FormatError,
    RangeError,
    ScopeMismatch,
}

impl ConvError {
    /// A short name of the error kind, for reports at the boundary.
    pub fn message(&self) -> (s: String)
        ensures
            s@ == match self {
                ConvError::FormatError => "format error"@,
                ConvError::RangeError => "range error"@,
                ConvError::ScopeMismatch => "scope mismatch"@,
            },
    {
        match self {
            ConvError::FormatError => "format error".to_owned(),
            ConvError::RangeError => "range error".to_owned(),
            ConvError::ScopeMismatch => "scope mismatch".to_owned(),
        }
    }
}

} // verus!
