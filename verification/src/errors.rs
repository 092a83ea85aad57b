//! What can go wrong in a stream or in one of the format engines.

use crate::format::ArgKind;
use vstd::prelude::*;

verus! {

/// A failure of the resource behind a sink or a source, by the status code
/// that the resource reported.
#[derive(Debug, Clone, Copy, PartialEq, Eq, Structural)]
pub struct IoError {
    pub status: u16,
}

/// Why the printing engine stopped before the end of its format.
#[derive(Debug, Clone, Copy, PartialEq, Eq, Structural)]
pub enum PrintError {
    /// The sink refused a write.
    Sink(IoError),
    /// A conversion asked for an argument of this kind and none was left.
    MissingArgument(ArgKind),
    /// A conversion asked for an argument of this kind and the next
    /// argument is of another.
    WrongArgument(ArgKind),
}

/// Turns the failure of a sink into the failure of the printing engine, and
/// leaves a success as it is.
pub fn map_error<O>(maybe: Result<O, IoError>) -> (r: Result<O, PrintError>)
    ensures
        r == match maybe {
            Ok(o) => Ok::<O, PrintError>(o),
            Err(e) => Err(PrintError::Sink(e)),
        },
{
    match maybe {
        Ok(o) => Ok(o),
        Err(e) => Err(PrintError::Sink(e)),
    }
}

} // verus!
