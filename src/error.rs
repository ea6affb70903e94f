use vstd::prelude::*;

verus! {

/// Why a byte stream was rejected as a RESP request.
#[derive(Clone, Copy, Debug, PartialEq, Eq, Structural)]
pub enum ProtocolError {
    /// A multi-bulk command declared fewer than one element.
    NoCommand,
    /// An integer left the signed 64-bit range while being accumulated.
    TooLargeInteger,
    /// A carriage return inside an integer was not followed by a linefeed.
    UnexpectedLineEnding,
    /// An integer held a byte that is neither a digit nor a carriage return.
    NonDigit,
    /// An integer ran on for more than twenty bytes without a line ending.
    InvalidInteger,
    /// A size field was negative.
    NegativeSize,
    /// A fixed byte was expected and another one was found.
    UnexpectedByte { expected: u8, found: u8 },
    /// An inline command held a linefeed without a carriage return before it.
    UnexpectedLinefeed,
    /// An inline command line was empty.
    EmptyCommand,
    /// An array element started with an unknown type tag.
    InvalidArgument,
}

/// Why decoding a request stopped.
#[derive(Clone, Copy, Debug, PartialEq, Eq, Structural)]
pub enum DecodeError {
    /// The byte source ended before the request was complete.
    ConnectionClosed,
    /// The bytes do not form a request.
    Protocol(ProtocolError),
}

} // verus!
