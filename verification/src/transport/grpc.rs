//! The transport built on `tower-grpc`: what of it the library holds.
use vstd::prelude::*;

verus! {

/// The error of the transport built on `tower-grpc`.
#[derive(Debug, Clone, Copy, PartialEq, Eq, Structural)]
pub enum Error {
    Unknown,
}

impl Error {
    /// The name of the error, as its `Debug` form spells it.
    pub fn name(&self) -> (s: &'static str)
        ensures
            s@ == "Unknown"@,
    {
        match self {
            Error::Unknown => "Unknown",
        }
    }
}

} // verus!
