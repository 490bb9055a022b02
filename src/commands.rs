//! What every command shares: an exact byte form of known length, a stable
//! numeric key, and the frame that puts the key and version before the bytes.
use vstd::prelude::*;

use crate::codec::{be16, parse_u32, put_u16};
use crate::error::{DecodeError, EncodeError};
use crate::response::{parse_code, ResponseCode};
use crate::types::CorrelationId;

pub mod open;

use open::OpenResponse;

verus! {

/// Key of the command that opens a connection against a virtual host.
pub const COMMAND_OPEN: u16 = 21;

/// Protocol version written in each command frame.
pub const VERSION_1: u16 = 1;

/// A value with an exact byte form, whose length it reports before writing.
pub trait Encoder {
    /// Every field fits its length field and the whole fits a 32-bit length.
    spec fn encodable(&self) -> bool;

    /// The bytes that `encode` writes.
    spec fn wire(&self) -> Seq<u8>;

    /// The number of bytes `encode` writes, computed without writing them.
    fn encoded_size(&self) -> (r: Result<u32, EncodeError>)
        ensures
            match r {
                Ok(n) => self.encodable() && n == self.wire().len(),
                Err(e) => !self.encodable() && e == EncodeError::TooLarge,
            },
    ;

    /// Appends the byte form; on failure nothing is written.
    fn encode(&self, out: &mut Vec<u8>) -> (r: Result<(), EncodeError>)
        ensures
            match r {
                Ok(()) => self.encodable() && final(out)@ == old(out)@ + self.wire(),
                Err(e) => !self.encodable() && e == EncodeError::TooLarge && final(out)@
                    == old(out)@,
            },
    ;
}

/// A request shape, named on the wire by a stable key.
pub trait Command: Encoder {
    spec fn spec_key(&self) -> u16;

    fn key(&self) -> (r: u16)
        ensures
            r == self.spec_key(),
    ;
}

/// The byte form of a command frame: key, version, then the command's bytes.
pub open spec fn frame_wire(key: u16, payload: Seq<u8>) -> Seq<u8> {
    be16(key) + be16(VERSION_1) + payload
}

/// Appends a command frame; on failure nothing is written.
pub fn encode_command<C: Command>(cmd: &C, out: &mut Vec<u8>) -> (r: Result<(), EncodeError>)
    ensures
        match r {
            Ok(()) => cmd.encodable() && final(out)@ == old(out)@ + frame_wire(
                cmd.spec_key(),
                cmd.wire(),
            ),
            Err(e) => !cmd.encodable() && e == EncodeError::TooLarge && final(out)@ == old(out)@,
        },
{
    match cmd.encoded_size() {
        Ok(_) => {},
        Err(e) => {
            return Err(e);
        },
    }
    let ghost start = out@;
    put_u16(out, cmd.key());
    put_u16(out, VERSION_1);
    let r = cmd.encode(out);
    assert(out@ =~= start + frame_wire(cmd.spec_key(), cmd.wire()));
    r
}

/// Reads the prefix every response starts with, at position `p` of `b`: the
/// correlation identifier, then the response code.
pub open spec fn parse_response_header(b: Seq<u8>, p: int) -> Result<((u32, ResponseCode), int), DecodeError> {
    match parse_u32(b, p) {
        Err(e) => Err(e),
        Ok((id, q)) => match parse_code(b, q) {
            Err(e) => Err(e),
            Ok((code, t)) => Ok(((id, code), t)),
        },
    }
}

/// Reads the correlation identifier and response code at position `pos`,
/// and the position after them; the shape-specific payload follows there.
pub fn decode_response_header(input: &[u8], pos: usize) -> (r: Result<
    (CorrelationId, ResponseCode, usize),
    DecodeError,
>)
    ensures
        match (r, parse_response_header(input@, pos as int)) {
            (Ok((id, code, q)), Ok(((w, c), n))) => id.0 == w && code == c && q == n,
            (Err(e), Err(f)) => e == f,
            _ => false,
        },
        r matches Ok((_, _, q)) ==> pos <= q <= input@.len(),
{
    let (id, q) = CorrelationId::decode_at(input, pos)?;
    let (code, t) = ResponseCode::decode_at(input, q)?;
    Ok((id, code, t))
}

/// A decoded response, by the shape its key names.
#[derive(Debug, PartialEq, Eq)]
pub enum Response {
    Open(OpenResponse),
}

/// Decodes the payload of a response frame with the decoder that `key`
/// names; the payload must be consumed whole.
pub fn decode_response(key: u16, payload: &[u8]) -> (r: Result<Response, DecodeError>)
    ensures
        key != COMMAND_OPEN ==> r == Err::<Response, DecodeError>(
            DecodeError::UnknownCommandKey(key),
        ),
        key == COMMAND_OPEN ==> match (r, open::exact(
            open::parse_open_response(payload@, 0),
            payload@.len() as int,
        )) {
            (Ok(Response::Open(v)), Ok(w)) => v@ == w,
            (Err(e), Err(f)) => e == f,
            _ => false,
        },
{
    if key == COMMAND_OPEN {
        let v = OpenResponse::decode_frame(payload)?;
        Ok(Response::Open(v))
    } else {
        Err(DecodeError::UnknownCommandKey(key))
    }
}

} // verus!
