//! The closed table of outcomes a server reports for a request.
use vstd::prelude::*;

use crate::codec::{be16, parse_u16, put_u16, read_u16};
use crate::error::DecodeError;

verus! {

/// A server-reported outcome. Each variant has one 16-bit number on the wire.
#[derive(Debug, Clone, Copy, PartialEq, Eq, Structural, Hash)]
pub enum ResponseCode {
    /// The request succeeded.
    Success,
    /// The named stream does not exist.
    StreamDoesNotExist,
    /// The subscription identifier is already in use.
    SubscriptionIdAlreadyExists,
    /// No subscription has that identifier.
    SubscriptionIdDoesNotExist,
    /// A stream of that name already exists.
    StreamAlreadyExists,
    /// The stream exists but cannot serve requests now.
    StreamNotAvailable,
    /// The authentication mechanism is not offered.
    SaslMechanismNotSupported,
    /// The credentials were refused.
    AuthenticationFailure,
    /// The authentication exchange failed.
    SaslError,
    /// The authentication exchange needs another round.
    SaslChallenge,
    /// The user may only connect from the local host.
    AuthenticationFailureLoopback,
    /// The user may not use the virtual host.
    VirtualHostAccessFailure,
    /// The server did not recognise the frame.
    UnknownFrame,
    /// The frame exceeds the negotiated maximum size.
    FrameTooLarge,
    /// The server failed internally.
    InternalError,
    /// The user may not perform the operation.
    AccessRefused,
    /// A precondition of the operation does not hold.
    PreconditionFailed,
    /// No publisher has that identifier.
    PublisherDoesNotExist,
    /// No offset is stored for the reference.
    NoOffset,
}

/// The number that stands for `c` on the wire.
#[verifier::opaque]
pub open spec fn code_number(c: ResponseCode) -> u16 {
    match c {
        ResponseCode::Success => 0x01,
        ResponseCode::StreamDoesNotExist => 0x02,
        ResponseCode::SubscriptionIdAlreadyExists => 0x03,
        ResponseCode::SubscriptionIdDoesNotExist => 0x04,
        ResponseCode::StreamAlreadyExists => 0x05,
        ResponseCode::StreamNotAvailable => 0x06,
        ResponseCode::SaslMechanismNotSupported => 0x07,
        ResponseCode::AuthenticationFailure => 0x08,
        ResponseCode::SaslError => 0x09,
        ResponseCode::SaslChallenge => 0x0a,
        ResponseCode::AuthenticationFailureLoopback => 0x0b,
        ResponseCode::VirtualHostAccessFailure => 0x0c,
        ResponseCode::UnknownFrame => 0x0d,
        ResponseCode::FrameTooLarge => 0x0e,
        ResponseCode::InternalError => 0x0f,
        ResponseCode::AccessRefused => 0x10,
        ResponseCode::PreconditionFailed => 0x11,
        ResponseCode::PublisherDoesNotExist => 0x12,
        ResponseCode::NoOffset => 0x13,
    }
}

/// The outcome that `v` stands for, if it is in the table.
#[verifier::opaque]
pub open spec fn code_of_number(v: u16) -> Option<ResponseCode> {
    match v {
        0x01 => Some(ResponseCode::Success),
        0x02 => Some(ResponseCode::StreamDoesNotExist),
        0x03 => Some(ResponseCode::SubscriptionIdAlreadyExists),
        0x04 => Some(ResponseCode::SubscriptionIdDoesNotExist),
        0x05 => Some(ResponseCode::StreamAlreadyExists),
        0x06 => Some(ResponseCode::StreamNotAvailable),
        0x07 => Some(ResponseCode::SaslMechanismNotSupported),
        0x08 => Some(ResponseCode::AuthenticationFailure),
        0x09 => Some(ResponseCode::SaslError),
        0x0a => Some(ResponseCode::SaslChallenge),
        0x0b => Some(ResponseCode::AuthenticationFailureLoopback),
        0x0c => Some(ResponseCode::VirtualHostAccessFailure),
        0x0d => Some(ResponseCode::UnknownFrame),
        0x0e => Some(ResponseCode::FrameTooLarge),
        0x0f => Some(ResponseCode::InternalError),
        0x10 => Some(ResponseCode::AccessRefused),
        0x11 => Some(ResponseCode::PreconditionFailed),
        0x12 => Some(ResponseCode::PublisherDoesNotExist),
        0x13 => Some(ResponseCode::NoOffset),
        _ => None,
    }
}

/// Reads a response code at position `p` of `b`: a number outside the table
/// is an error that carries the number.
pub open spec fn parse_code(b: Seq<u8>, p: int) -> Result<(ResponseCode, int), DecodeError> {
    match parse_u16(b, p) {
        Err(e) => Err(e),
        Ok((v, q)) => match code_of_number(v) {
            Some(c) => Ok((c, q)),
            None => Err(DecodeError::UnknownResponseCode(v)),
        },
    }
}

/// Each outcome's number leads back to that outcome.
pub proof fn lemma_code_number_inverse(c: ResponseCode)
    ensures
        code_of_number(code_number(c)) == Some(c),
{
    reveal(code_number);
    reveal(code_of_number);
}

impl ResponseCode {
    /// The number that stands for this outcome on the wire.
    pub fn number(&self) -> (r: u16)
        ensures
            r == code_number(*self),
    {
        reveal(code_number);
        match self {
            ResponseCode::Success => 0x01,
            ResponseCode::StreamDoesNotExist => 0x02,
            ResponseCode::SubscriptionIdAlreadyExists => 0x03,
            ResponseCode::SubscriptionIdDoesNotExist => 0x04,
            ResponseCode::StreamAlreadyExists => 0x05,
            ResponseCode::StreamNotAvailable => 0x06,
            ResponseCode::SaslMechanismNotSupported => 0x07,
            ResponseCode::AuthenticationFailure => 0x08,
            ResponseCode::SaslError => 0x09,
            ResponseCode::SaslChallenge => 0x0a,
            ResponseCode::AuthenticationFailureLoopback => 0x0b,
            ResponseCode::VirtualHostAccessFailure => 0x0c,
            ResponseCode::UnknownFrame => 0x0d,
            ResponseCode::FrameTooLarge => 0x0e,
            ResponseCode::InternalError => 0x0f,
            ResponseCode::AccessRefused => 0x10,
            ResponseCode::PreconditionFailed => 0x11,
            ResponseCode::PublisherDoesNotExist => 0x12,
            ResponseCode::NoOffset => 0x13,
        }
    }

    /// The outcome that `v` stands for; a number outside the table is an
    /// error, never a default outcome.
    pub fn from_number(v: u16) -> (r: Result<ResponseCode, DecodeError>)
        ensures
            match code_of_number(v) {
                Some(c) => r == Ok::<ResponseCode, DecodeError>(c),
                None => r == Err::<ResponseCode, DecodeError>(DecodeError::UnknownResponseCode(v)),
            },
    {
        reveal(code_of_number);
        match v {
            0x01 => Ok(ResponseCode::Success),
            0x02 => Ok(ResponseCode::StreamDoesNotExist),
            0x03 => Ok(ResponseCode::SubscriptionIdAlreadyExists),
            0x04 => Ok(ResponseCode::SubscriptionIdDoesNotExist),
            0x05 => Ok(ResponseCode::StreamAlreadyExists),
            0x06 => Ok(ResponseCode::StreamNotAvailable),
            0x07 => Ok(ResponseCode::SaslMechanismNotSupported),
            0x08 => Ok(ResponseCode::AuthenticationFailure),
            0x09 => Ok(ResponseCode::SaslError),
            0x0a => Ok(ResponseCode::SaslChallenge),
            0x0b => Ok(ResponseCode::AuthenticationFailureLoopback),
            0x0c => Ok(ResponseCode::VirtualHostAccessFailure),
            0x0d => Ok(ResponseCode::UnknownFrame),
            0x0e => Ok(ResponseCode::FrameTooLarge),
            0x0f => Ok(ResponseCode::InternalError),
            0x10 => Ok(ResponseCode::AccessRefused),
            0x11 => Ok(ResponseCode::PreconditionFailed),
            0x12 => Ok(ResponseCode::PublisherDoesNotExist),
            0x13 => Ok(ResponseCode::NoOffset),
            _ => Err(DecodeError::UnknownResponseCode(v)),
        }
    }

    pub fn is_ok(&self) -> (r: bool)
        ensures
            r == (*self == ResponseCode::Success),
    {
        match self {
            ResponseCode::Success => true,
            _ => false,
        }
    }

    /// Appends the outcome's number as a 16-bit big-endian field.
    pub fn encode(&self, out: &mut Vec<u8>)
        ensures
            final(out)@ == old(out)@ + be16(code_number(*self)),
    {
        put_u16(out, self.number());
    }

    /// Reads a response code at position `pos`.
    pub fn decode_at(input: &[u8], pos: usize) -> (r: Result<(ResponseCode, usize), DecodeError>)
        ensures
            match (r, parse_code(input@, pos as int)) {
                (Ok((c, q)), Ok((d, n))) => c == d && q == n,
                (Err(e), Err(f)) => e == f,
                _ => false,
            },
            r matches Ok((_, q)) ==> pos <= q <= input@.len(),
    {
        let (v, q) = read_u16(input, pos)?;
        let c = ResponseCode::from_number(v)?;
        Ok((c, q))
    }
}

} // verus!
