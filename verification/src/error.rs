//! The ways in which encoding and decoding fail.

use vstd::prelude::*;
use vstd::string::*;

verus! {

/// `std::io::Error`: the failure of a sink that bytes were written to.
/// The type is made known to the verifier so that `Error` can carry such a
/// failure. Nothing is said of what is inside one, and no proof looks.
#[verifier::external_type_specification]
#[verifier::external_body]
pub struct ExIoError(std::io::Error);

/// Why an encoder or a decoder gave up.
#[derive(Debug)]
pub enum Error {
    /// The output buffer ended before the last byte of a value was written.
    BufferTooSmall,
    /// The input ended before a byte with a clear top bit was found.
    InvalidVarInt,
    /// The sink that the bytes were handed to refused them.
    IoError(std::io::Error),
}

impl Error {
    /// A sentence for people. For a sink's failure it ends in the sink's
    /// own description of it.
    pub fn message(&self) -> (text: String)
        ensures
            *self is BufferTooSmall ==> text@ == "output buffer is too small"@,
            *self is InvalidVarInt ==> text@ == "invalid var int: no terminator byte found"@,
            *self is IoError ==> "io error: "@.is_prefix_of(text@),
    {
        match self {
            Error::BufferTooSmall => String::from_str("output buffer is too small"),
            Error::InvalidVarInt => String::from_str("invalid var int: no terminator byte found"),
            Error::IoError(e) => {
                let cause: String = e.to_string();
                String::from_str("io error: ").concat(cause.as_str())
            },
        }
    }
}

/// What an attempt to write `count` encoded bytes to a sink comes to: the
/// count where the sink took them, its failure where it did not.
pub fn written(count: usize, outcome: Result<(), std::io::Error>) -> (r: Result<usize, Error>)
    ensures
        (match outcome {
            Ok(_) => r == Ok::<usize, Error>(count),
            Err(e) => r == Err::<usize, Error>(Error::IoError(e)),
        }),
{
    match outcome {
        Ok(_) => Ok(count),
        Err(e) => Err(Error::IoError(e)),
    }
}

} // verus!
