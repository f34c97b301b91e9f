//! The error taxonomy of the resolution protocol.

use vstd::prelude::*;

verus! {

/// What can go wrong during one resolution attempt.
///
/// A rejected CAPTCHA guess is not an error: it is an expected branch that
/// restarts the attempt, and only an exhausted retry budget surfaces here.
#[derive(Debug)]
pub enum Error {
    /// Transport failure, timeout, or a non-success status on a call that is
    /// expected to succeed.
    Network(String),
    /// A response whose shape does not match the protocol: the message names
    /// the field or pattern that did not match.
    Protocol(String),
    /// Image bytes that cannot be decoded as a raster image.
    Decode,
    /// The caller-supplied retry budget was used up by rejected guesses.
    Exhausted,
}

impl Error {
    /// A human-readable description of the error.
    pub fn message(&self) -> (r: String)
        ensures
            self is Network ==> r@ == self->Network_0@,
            self is Protocol ==> r@ == self->Protocol_0@,
    {
        match self {
            Error::Network(m) => m.clone(),
            Error::Protocol(m) => m.clone(),
            Error::Decode => "image bytes could not be decoded".to_owned(),
            Error::Exhausted => "retry budget exhausted by rejected captchas".to_owned(),
        }
    }
}

} // verus!
