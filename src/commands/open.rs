//! The open command: a request that binds the connection to a virtual host,
//! and the response that answers it.
use vstd::prelude::*;

use crate::codec::{
    be16, be32, lemma_cut_split, lemma_holds_three, lemma_holds_split, lemma_text_round_trip, lemma_text_truncated,
    lemma_u16_round_trip, lemma_u32_round_trip, parse_text, parse_u32, put_text, read_text,
    text_fits, text_wire, TEXT_MAX,
};
use crate::commands::{decode_response_header, Command, Encoder, COMMAND_OPEN};
use crate::error::{DecodeError, EncodeError};
use crate::properties::{
    lemma_pairs_round_trip, lemma_pairs_truncated, lemma_pairs_wire_len, map_of, map_wire,
    pairs_fit, pairs_wire, parse_map, Properties, TextPair,
};
use crate::response::{code_number, code_of_number, parse_code, ResponseCode};
use crate::types::CorrelationId;

verus! {

/// The byte form of an open request: correlation identifier, virtual host.
pub open spec fn open_request_wire(id: u32, host: Seq<char>) -> Seq<u8> {
    be32(id) + text_wire(host)
}

/// Reads an open request at position `p` of `b`.
pub open spec fn parse_open_request(b: Seq<u8>, p: int) -> Result<((u32, Seq<char>), int), DecodeError> {
    match parse_u32(b, p) {
        Err(e) => Err(e),
        Ok((id, q)) => match parse_text(b, q) {
            Err(e) => Err(e),
            Ok((host, t)) => Ok(((id, host), t)),
        },
    }
}

/// The byte form of an open response: correlation identifier, response code,
/// then the connection properties.
pub open spec fn open_response_wire(id: u32, code: ResponseCode, ps: Seq<TextPair>) -> Seq<u8> {
    be32(id) + be16(code_number(code)) + map_wire(ps)
}

/// Reads an open response at position `p` of `b`.
pub open spec fn parse_open_response(b: Seq<u8>, p: int) -> Result<
    ((u32, ResponseCode, Map<Seq<char>, Seq<char>>), int),
    DecodeError,
> {
    match parse_u32(b, p) {
        Err(e) => Err(e),
        Ok((id, q)) => match parse_code(b, q) {
            Err(e) => Err(e),
            Ok((code, t)) => match parse_map(b, t) {
                Err(e) => Err(e),
                Ok((ps, u)) => Ok(((id, code, map_of(ps)), u)),
            },
        },
    }
}

/// A read that must end at `len`, the end of the frame payload: bytes left
/// over are an error that counts them.
pub open spec fn exact<V>(r: Result<(V, int), DecodeError>, len: int) -> Result<V, DecodeError> {
    match r {
        Err(e) => Err(e),
        Ok((v, n)) => if n == len {
            Ok(v)
        } else {
            Err(DecodeError::NotFullyConsumed((len - n) as usize))
        },
    }
}

/// Asks the server to bind the connection to a virtual host.
#[derive(Debug, PartialEq, Eq)]
pub struct OpenCommand {
    correlation_id: CorrelationId,
    virtual_host: String,
}

impl View for OpenCommand {
    type V = (u32, Seq<char>);

    closed spec fn view(&self) -> (u32, Seq<char>) {
        (self.correlation_id.0, self.virtual_host@)
    }
}

impl OpenCommand {
    pub fn new(correlation_id: CorrelationId, virtual_host: String) -> (r: Self)
        ensures
            r@ == (correlation_id.0, virtual_host@),
    {
        Self { correlation_id, virtual_host }
    }

    pub fn correlation_id(&self) -> (r: CorrelationId)
        ensures
            r.0 == self@.0,
    {
        self.correlation_id
    }

    pub fn virtual_host(&self) -> (r: &str)
        ensures
            r@ == self@.1,
    {
        self.virtual_host.as_str()
    }

    /// Reads an open request from the start of `input`; the rest of `input`
    /// is handed back.
    pub fn decode(input: &[u8]) -> (r: Result<(&[u8], OpenCommand), DecodeError>)
        ensures
            match (r, parse_open_request(input@, 0)) {
                (Ok((rest, v)), Ok((w, n))) => {
                    &&& v@ == w
                    &&& 0 <= n <= input@.len()
                    &&& rest@ == input@.subrange(n, input@.len() as int)
                },
                (Err(e), Err(f)) => e == f,
                _ => false,
            },
    {
        let (correlation_id, q) = CorrelationId::decode_at(input, 0)?;
        let (virtual_host, t) = read_text(input, q)?;
        let rest = vstd::slice::slice_subrange(input, t, input.len());
        Ok((rest, OpenCommand { correlation_id, virtual_host }))
    }
}

impl Encoder for OpenCommand {
    open spec fn encodable(&self) -> bool {
        text_fits(self@.1)
    }

    open spec fn wire(&self) -> Seq<u8> {
        open_request_wire(self@.0, self@.1)
    }

    fn encoded_size(&self) -> (r: Result<u32, EncodeError>) {
        let n = self.virtual_host.as_str().as_bytes().len();
        if n > TEXT_MAX {
            return Err(EncodeError::TooLarge);
        }
        Ok(6 + n as u32)
    }

    fn encode(&self, out: &mut Vec<u8>) -> (r: Result<(), EncodeError>) {
        let host = self.virtual_host.as_str();
        if host.as_bytes().len() > TEXT_MAX {
            return Err(EncodeError::TooLarge);
        }
        let ghost start = out@;
        self.correlation_id.encode(out);
        put_text(out, host);
        assert(out@ =~= start + self.wire());
        Ok(())
    }
}

impl Command for OpenCommand {
    open spec fn spec_key(&self) -> u16 {
        COMMAND_OPEN
    }

    fn key(&self) -> (r: u16) {
        COMMAND_OPEN
    }
}

/// The server's answer to an open request.
#[derive(Debug, PartialEq, Eq)]
pub struct OpenResponse {
    correlation_id: CorrelationId,
    code: ResponseCode,
    connection_properties: Properties,
}

impl View for OpenResponse {
    type V = (u32, ResponseCode, Map<Seq<char>, Seq<char>>);

    closed spec fn view(&self) -> (u32, ResponseCode, Map<Seq<char>, Seq<char>>) {
        (self.correlation_id.0, self.code, self.connection_properties@)
    }
}

impl OpenResponse {
    /// The connection properties in the order they are written.
    pub closed spec fn property_pairs(&self) -> Seq<TextPair> {
        self.connection_properties.pairs()
    }

    pub fn new(
        correlation_id: CorrelationId,
        code: ResponseCode,
        connection_properties: Properties,
    ) -> (r: Self)
        ensures
            r@ == (correlation_id.0, code, connection_properties@),
            r.property_pairs() == connection_properties.pairs(),
    {
        Self { correlation_id, code, connection_properties }
    }

    pub fn correlation_id(&self) -> (r: CorrelationId)
        ensures
            r.0 == self@.0,
    {
        self.correlation_id
    }

    pub fn code(&self) -> (r: ResponseCode)
        ensures
            r == self@.1,
    {
        self.code
    }

    /// Get a reference to the open response's connection properties.
    pub fn connection_properties(&self) -> (r: &Properties)
        ensures
            r@ == self@.2,
            r.pairs() == self.property_pairs(),
    {
        &self.connection_properties
    }

    /// Reads an open response from the start of `input`; the rest of `input`
    /// is handed back.
    pub fn decode(input: &[u8]) -> (r: Result<(&[u8], OpenResponse), DecodeError>)
        ensures
            match (r, parse_open_response(input@, 0)) {
                (Ok((rest, v)), Ok((w, n))) => {
                    &&& v@ == w
                    &&& 0 <= n <= input@.len()
                    &&& rest@ == input@.subrange(n, input@.len() as int)
                },
                (Err(e), Err(f)) => e == f,
                _ => false,
            },
    {
        let (correlation_id, code, t) = decode_response_header(input, 0)?;
        let (connection_properties, u) = Properties::decode_at(input, t)?;
        let rest = vstd::slice::slice_subrange(input, u, input.len());
        Ok((rest, OpenResponse { correlation_id, code, connection_properties }))
    }

    /// Reads the whole payload of a frame as an open response; bytes left
    /// over after it are an error.
    pub fn decode_frame(input: &[u8]) -> (r: Result<OpenResponse, DecodeError>)
        ensures
            match (r, exact(parse_open_response(input@, 0), input@.len() as int)) {
                (Ok(v), Ok(w)) => v@ == w,
                (Err(e), Err(f)) => e == f,
                _ => false,
            },
    {
        match OpenResponse::decode(input) {
            Err(e) => Err(e),
            Ok((rest, v)) => {
                if rest.len() != 0 {
                    Err(DecodeError::NotFullyConsumed(rest.len()))
                } else {
                    Ok(v)
                }
            },
        }
    }
}

impl Encoder for OpenResponse {
    open spec fn encodable(&self) -> bool {
        pairs_fit(self.property_pairs()) && 6 + map_wire(self.property_pairs()).len() <= u32::MAX
    }

    open spec fn wire(&self) -> Seq<u8> {
        open_response_wire(self@.0, self@.1, self.property_pairs())
    }

    fn encoded_size(&self) -> (r: Result<u32, EncodeError>) {
        match self.connection_properties.size_after(6) {
            Some(n) => Ok(n),
            None => Err(EncodeError::TooLarge),
        }
    }

    fn encode(&self, out: &mut Vec<u8>) -> (r: Result<(), EncodeError>) {
        if self.connection_properties.size_after(6).is_none() {
            return Err(EncodeError::TooLarge);
        }
        proof {
            lemma_pairs_wire_len(self.property_pairs());
        }
        let ghost start = out@;
        self.correlation_id.encode(out);
        self.code.encode(out);
        self.connection_properties.encode(out);
        assert(out@ =~= start + self.wire());
        Ok(())
    }
}

/// Reading back the bytes of an open request that can be written gives the
/// same request, and ends exactly at the end of those bytes.
pub proof fn lemma_open_request_round_trip(x: OpenCommand)
    requires
        x.encodable(),
    ensures
        parse_open_request(x.wire(), 0) == Ok::<((u32, Seq<char>), int), DecodeError>(
            (x@, x.wire().len() as int),
        ),
{
    let b = x.wire();
    assert(b.subrange(0, b.len() as int) =~= b);
    lemma_holds_split(b, 0, be32(x@.0), text_wire(x@.1));
    lemma_u32_round_trip(b, 0, x@.0);
    lemma_text_round_trip(b, 4, x@.1);
}

/// The open-response parser reads its three fields one after another.
proof fn lemma_parse_open_response_steps(
    b: Seq<u8>,
    id: u32,
    code: ResponseCode,
    ps: Seq<TextPair>,
    t: int,
)
    requires
        parse_u32(b, 0) == Ok::<(u32, int), DecodeError>((id, 4)),
        parse_code(b, 4) == Ok::<(ResponseCode, int), DecodeError>((code, 6)),
        parse_map(b, 6) == Ok::<(Seq<TextPair>, int), DecodeError>((ps, t)),
    ensures
        parse_open_response(b, 0) == Ok::<
            ((u32, ResponseCode, Map<Seq<char>, Seq<char>>), int),
            DecodeError,
        >(((id, code, map_of(ps)), t)),
{
}

/// The open-response parser reads back the bytes of the parts it is given.
proof fn lemma_response_parts_round_trip(id: u32, code: ResponseCode, ps: Seq<TextPair>)
    requires
        pairs_fit(ps),
        ps.len() <= u32::MAX,
    ensures
        parse_open_response(open_response_wire(id, code, ps), 0) == Ok::<
            ((u32, ResponseCode, Map<Seq<char>, Seq<char>>), int),
            DecodeError,
        >(((id, code, map_of(ps)), open_response_wire(id, code, ps).len() as int)),
{
    let b = open_response_wire(id, code, ps);
    let a = be32(id);
    let c = be16(code_number(code));
    let m = map_wire(ps);
    lemma_holds_three(a, c, m);
    assert(parse_u32(b, 0) == Ok::<(u32, int), DecodeError>((id, 4))) by {
        lemma_u32_round_trip(b, 0, id);
    }
    assert(parse_code(b, 4) == Ok::<(ResponseCode, int), DecodeError>((code, 6))) by {
        lemma_u16_round_trip(b, 4, code_number(code));
        crate::response::lemma_code_number_inverse(code);
    }
    assert(parse_map(b, 6) == Ok::<(Seq<TextPair>, int), DecodeError>((ps, b.len() as int))) by {
        lemma_holds_split(b, 6, be32(ps.len() as u32), pairs_wire(ps));
        lemma_u32_round_trip(b, 6, ps.len() as u32);
        lemma_pairs_round_trip(b, 10, ps);
    }
    lemma_parse_open_response_steps(b, id, code, ps, b.len() as int);
}

/// Reading back the bytes of an open response that can be written gives the
/// same response, properties compared by contents, and ends exactly at the
/// end of those bytes.
pub proof fn lemma_open_response_round_trip(x: OpenResponse)
    requires
        x.encodable(),
    ensures
        parse_open_response(x.wire(), 0) == Ok::<
            ((u32, ResponseCode, Map<Seq<char>, Seq<char>>), int),
            DecodeError,
        >((x@, x.wire().len() as int)),
{
    let ps = x.property_pairs();
    lemma_pairs_wire_len(ps);
    lemma_response_parts_round_trip(x@.0, x@.1, ps);
    assert(x@ == (x@.0, x@.1, map_of(ps)));
}

/// Reading a strict prefix of the bytes of an open request reports the input
/// incomplete.
pub proof fn lemma_open_request_truncated(x: OpenCommand, n: int)
    requires
        x.encodable(),
        0 <= n < x.wire().len(),
    ensures
        parse_open_request(x.wire().subrange(0, n), 0) == Err::<((u32, Seq<char>), int), DecodeError>(
            DecodeError::Incomplete,
        ),
{
    let b = x.wire().subrange(0, n);
    assert(b.subrange(0, n) =~= x.wire().subrange(0, n));
    lemma_cut_split(b, 0, be32(x@.0), text_wire(x@.1));
    if n >= 4 {
        lemma_u32_round_trip(b, 0, x@.0);
        lemma_text_truncated(b, 4, x@.1);
    }
}

/// Reading a strict prefix of the bytes of an open response reports the
/// input incomplete.
pub proof fn lemma_open_response_truncated(x: OpenResponse, n: int)
    requires
        x.encodable(),
        0 <= n < x.wire().len(),
    ensures
        parse_open_response(x.wire().subrange(0, n), 0) == Err::<
            ((u32, ResponseCode, Map<Seq<char>, Seq<char>>), int),
            DecodeError,
        >(DecodeError::Incomplete),
{
    let b = x.wire().subrange(0, n);
    let ps = x.property_pairs();
    let a = be32(x@.0);
    let c = be16(code_number(x@.1));
    lemma_pairs_wire_len(ps);
    assert(b.subrange(0, n) =~= x.wire().subrange(0, n));
    lemma_cut_split(b, 0, a + c, map_wire(ps));
    if n < 6 {
        lemma_cut_split(b, 0, a, c);
        if n >= 4 {
            lemma_u32_round_trip(b, 0, x@.0);
        }
    } else {
        lemma_holds_split(b, 0, a, c);
        lemma_u32_round_trip(b, 0, x@.0);
        lemma_u16_round_trip(b, 4, code_number(x@.1));
        crate::response::lemma_code_number_inverse(x@.1);
        lemma_cut_split(b, 6, be32(ps.len() as u32), pairs_wire(ps));
        if n >= 10 {
            lemma_u32_round_trip(b, 6, ps.len() as u32);
            lemma_pairs_truncated(b, 10, ps);
        }
    }
}

/// The correlation identifier read from a request or a response is the
/// number written in its first four bytes.
pub proof fn lemma_identifier_fidelity(id: u32, rest: Seq<u8>)
    ensures
        parse_open_request(be32(id) + rest, 0) matches Ok((v, _)) ==> v.0 == id,
        parse_open_response(be32(id) + rest, 0) matches Ok((v, _)) ==> v.0 == id,
{
    let b = be32(id) + rest;
    assert(b.subrange(0, b.len() as int) =~= b);
    lemma_holds_split(b, 0, be32(id), rest);
    lemma_u32_round_trip(b, 0, id);
}

/// A response whose code field holds a number outside the table is read as
/// that error, carrying the number, and never as an outcome.
pub proof fn lemma_unknown_code(id: u32, v: u16, rest: Seq<u8>)
    requires
        code_of_number(v) is None,
    ensures
        parse_open_response(be32(id) + be16(v) + rest, 0) == Err::<
            ((u32, ResponseCode, Map<Seq<char>, Seq<char>>), int),
            DecodeError,
        >(DecodeError::UnknownResponseCode(v)),
{
    let b = be32(id) + be16(v) + rest;
    assert(b.subrange(0, b.len() as int) =~= b);
    lemma_holds_split(b, 0, be32(id) + be16(v), rest);
    lemma_holds_split(b, 0, be32(id), be16(v));
    lemma_u32_round_trip(b, 0, id);
    lemma_u16_round_trip(b, 4, v);
}

} // verus!
