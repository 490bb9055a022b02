//! The correlation identifier that pairs a response with its request.
use vstd::prelude::*;

use crate::codec::{be32, parse_u32, put_u32, read_u32};
use crate::error::DecodeError;

verus! {

/// Tag of an in-flight request; two identifiers are equal exactly when their
/// numbers are.
#[derive(Debug, Clone, Copy, PartialEq, Eq, Structural, Hash)]
pub struct CorrelationId(pub u32);

impl From<u32> for CorrelationId {
    fn from(v: u32) -> (r: CorrelationId)
        ensures
            r.0 == v,
    {
        CorrelationId(v)
    }
}

impl vstd::std_specs::convert::FromSpecImpl<u32> for CorrelationId {
    open spec fn obeys_from_spec() -> bool {
        true
    }

    open spec fn from_spec(v: u32) -> CorrelationId {
        CorrelationId(v)
    }
}

impl CorrelationId {
    pub fn value(&self) -> (r: u32)
        ensures
            r == self.0,
    {
        self.0
    }

    /// Appends the identifier as a 32-bit big-endian number.
    pub fn encode(&self, out: &mut Vec<u8>)
        ensures
            final(out)@ == old(out)@ + be32(self.0),
    {
        put_u32(out, self.0);
    }

    /// Reads an identifier at position `pos`.
    pub fn decode_at(input: &[u8], pos: usize) -> (r: Result<(CorrelationId, usize), DecodeError>)
        ensures
            match (r, parse_u32(input@, pos as int)) {
                (Ok((v, q)), Ok((w, n))) => v.0 == w && q == n,
                (Err(e), Err(f)) => e == f,
                _ => false,
            },
            r matches Ok((_, q)) ==> pos <= q <= input@.len(),
    {
        let (v, q) = read_u32(input, pos)?;
        Ok((CorrelationId(v), q))
    }
}

} // verus!
