//! The error of a client or server operation, generic over the transport's error.

use vstd::prelude::*;
use crate::codec::FormatError;

verus! {

#[derive(Debug)]
pub enum Error<E> {
    /// The transport failed.
    Io(E),
    /// A frame could not be decoded, or a packet could not be encoded.
    Format(FormatError),
    /// No expected reply came within any attempt.
    Timeout,
    /// The server refused the request.
    Nak,
}

impl<E> From<FormatError> for Error<E> {
    fn from(value: FormatError) -> Self {
        Error::Format(value)
    }
}

impl<E> vstd::std_specs::convert::FromSpecImpl<FormatError> for Error<E> {
    open spec fn obeys_from_spec() -> bool {
        true
    }

    open spec fn from_spec(v: FormatError) -> Self {
        Error::Format(v)
    }
}

} // verus!
