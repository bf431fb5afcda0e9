//! The protocol error taxonomy and its severity order.

use vstd::prelude::*;

verus! {

/// A dispatch failure.
///
/// `UndefinedHeader`: the mnemonic path did not resolve to a leaf.
/// `ModeNotSupported`: a query was requested of an event-only leaf, or an
/// event of a query-only leaf.
/// `ParameterError`: a handler found its parameters missing or malformed.
/// `DeviceError`: a handler reported a device failure, with its code.
#[derive(Clone, Copy, PartialEq, Eq, Structural, Debug)]
pub enum Error {
    UndefinedHeader,
    ModeNotSupported,
    ParameterError,
    DeviceError(i16),
}

/// The severity rank of an error; a larger rank is worse.
pub open spec fn spec_severity(e: Error) -> int {
    match e {
        Error::UndefinedHeader => 1,
        Error::ModeNotSupported => 2,
        Error::ParameterError => 3,
        Error::DeviceError(_) => 4,
    }
}

pub fn severity(e: Error) -> (r: u8)
    ensures
        r as int == spec_severity(e),
{
    match e {
        Error::UndefinedHeader => 1,
        Error::ModeNotSupported => 2,
        Error::ParameterError => 3,
        Error::DeviceError(_) => 4,
    }
}

} // verus!
