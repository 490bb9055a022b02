//! Primitive wire encodings: fixed-width big-endian integers and
//! length-prefixed UTF-8 text, their byte form and the exec code that writes
//! and reads it.
use vstd::prelude::*;
use vstd::utf8::*;

use crate::error::DecodeError;

verus! {

/// The two bytes of `v`, most significant first.
pub open spec fn be16(v: u16) -> Seq<u8> {
    seq![(v / 256) as u8, (v % 256) as u8]
}

/// The four bytes of `v`, most significant first.
pub open spec fn be32(v: u32) -> Seq<u8> {
    seq![
        (v / 0x100_0000) as u8,
        ((v / 0x1_0000) % 256) as u8,
        ((v / 256) % 256) as u8,
        (v % 256) as u8,
    ]
}

/// `b` holds `w` from position `p` on.
pub open spec fn holds_at(b: Seq<u8>, p: int, w: Seq<u8>) -> bool {
    0 <= p && p + w.len() <= b.len() && b.subrange(p, p + w.len()) == w
}

/// `b` holds the start of `w` from position `p` on, and ends before `w` does.
pub open spec fn cut_at(b: Seq<u8>, p: int, w: Seq<u8>) -> bool {
    0 <= p <= b.len() < p + w.len() && b.subrange(p, b.len() as int) == w.subrange(0, b.len() - p)
}

/// Holding two byte sequences one after the other is holding each in turn.
pub proof fn lemma_holds_split(b: Seq<u8>, p: int, x: Seq<u8>, y: Seq<u8>)
    requires
        holds_at(b, p, x + y),
    ensures
        holds_at(b, p, x),
        holds_at(b, p + x.len(), y),
{
    let s = b.subrange(p, p + x.len() + y.len());
    assert(b.subrange(p, p + x.len()) =~= s.subrange(0, x.len() as int));
    assert((x + y).subrange(0, x.len() as int) =~= x);
    assert(b.subrange(p + x.len(), p + x.len() + y.len()) =~= s.subrange(
        x.len() as int,
        (x.len() + y.len()) as int,
    ));
    assert((x + y).subrange(x.len() as int, (x.len() + y.len()) as int) =~= y);
}

/// A concatenation of three byte sequences holds each in turn.
pub proof fn lemma_holds_three(x: Seq<u8>, y: Seq<u8>, z: Seq<u8>)
    ensures
        holds_at(x + y + z, 0, x),
        holds_at(x + y + z, x.len() as int, y),
        holds_at(x + y + z, (x.len() + y.len()) as int, z),
{
    let b = x + y + z;
    assert(b.subrange(0, b.len() as int) =~= b);
    lemma_holds_split(b, 0, x + y, z);
    lemma_holds_split(b, 0, x, y);
}

/// Ending inside two byte sequences one after the other is ending inside the
/// first, or holding the first and ending inside the second.
pub proof fn lemma_cut_split(b: Seq<u8>, p: int, x: Seq<u8>, y: Seq<u8>)
    requires
        cut_at(b, p, x + y),
    ensures
        b.len() < p + x.len() ==> cut_at(b, p, x),
        b.len() >= p + x.len() ==> holds_at(b, p, x) && cut_at(b, p + x.len(), y),
{
    let e = b.len() as int;
    let s = b.subrange(p, e);
    if e < p + x.len() {
        assert((x + y).subrange(0, e - p) =~= x.subrange(0, e - p));
    } else {
        assert(b.subrange(p, p + x.len()) =~= s.subrange(0, x.len() as int));
        assert(s.subrange(0, x.len() as int) =~= x);
        assert forall|i: int| 0 <= i < e - p - x.len() implies #[trigger] b.subrange(p + x.len(), e)[i]
            == y.subrange(0, e - p - x.len())[i] by {
            assert(s[x.len() + i] == (x + y).subrange(0, e - p)[x.len() + i]);
        }
        assert(b.subrange(p + x.len(), e) =~= y.subrange(0, e - p - x.len()));
    }
}

/// Reads a 16-bit field at position `p` of `b`.
pub open spec fn parse_u16(b: Seq<u8>, p: int) -> Result<(u16, int), DecodeError> {
    if 0 <= p && p + 2 <= b.len() {
        Ok(((b[p] as int * 256 + b[p + 1] as int) as u16, p + 2))
    } else {
        Err(DecodeError::Incomplete)
    }
}

/// Reads a 32-bit field at position `p` of `b`.
pub open spec fn parse_u32(b: Seq<u8>, p: int) -> Result<(u32, int), DecodeError> {
    if 0 <= p && p + 4 <= b.len() {
        Ok((
            (b[p] as int * 0x100_0000 + b[p + 1] as int * 0x1_0000 + b[p + 2] as int * 256
                + b[p + 3] as int) as u32,
            p + 4,
        ))
    } else {
        Err(DecodeError::Incomplete)
    }
}

/// Appends `v` as two big-endian bytes.
pub fn put_u16(out: &mut Vec<u8>, v: u16)
    ensures
        final(out)@ == old(out)@ + be16(v),
{
    out.push((v / 256) as u8);
    out.push((v % 256) as u8);
    assert(final(out)@ =~= old(out)@ + be16(v));
}

/// Appends `v` as four big-endian bytes.
pub fn put_u32(out: &mut Vec<u8>, v: u32)
    ensures
        final(out)@ == old(out)@ + be32(v),
{
    out.push((v / 0x100_0000) as u8);
    out.push(((v / 0x1_0000) % 256) as u8);
    out.push(((v / 256) % 256) as u8);
    out.push((v % 256) as u8);
    assert(final(out)@ =~= old(out)@ + be32(v));
}

/// Reads a 16-bit field at position `pos`, and the position after it.
pub fn read_u16(input: &[u8], pos: usize) -> (r: Result<(u16, usize), DecodeError>)
    ensures
        match (r, parse_u16(input@, pos as int)) {
            (Ok((v, q)), Ok((w, n))) => v == w && q == n,
            (Err(e), Err(f)) => e == f,
            _ => false,
        },
        r matches Ok((_, q)) ==> pos <= q <= input@.len(),
{
    if pos > input.len() || input.len() - pos < 2 {
        return Err(DecodeError::Incomplete);
    }
    let v: u16 = input[pos] as u16 * 256 + input[pos + 1] as u16;
    Ok((v, pos + 2))
}

/// Reads a 32-bit field at position `pos`, and the position after it.
pub fn read_u32(input: &[u8], pos: usize) -> (r: Result<(u32, usize), DecodeError>)
    ensures
        match (r, parse_u32(input@, pos as int)) {
            (Ok((v, q)), Ok((w, n))) => v == w && q == n,
            (Err(e), Err(f)) => e == f,
            _ => false,
        },
        r matches Ok((_, q)) ==> pos <= q <= input@.len(),
{
    if pos > input.len() || input.len() - pos < 4 {
        return Err(DecodeError::Incomplete);
    }
    let v: u32 = input[pos] as u32 * 0x100_0000 + input[pos + 1] as u32 * 0x1_0000
        + input[pos + 2] as u32 * 256 + input[pos + 3] as u32;
    Ok((v, pos + 4))
}

/// Reading back the bytes of a 16-bit value gives that value.
pub proof fn lemma_u16_round_trip(b: Seq<u8>, p: int, v: u16)
    requires
        holds_at(b, p, be16(v)),
    ensures
        parse_u16(b, p) == Ok::<(u16, int), DecodeError>((v, p + 2)),
{
    assert(b[p] == b.subrange(p, p + 2)[0]);
    assert(b[p + 1] == b.subrange(p, p + 2)[1]);
}

/// Reading back the bytes of a 32-bit value gives that value.
pub proof fn lemma_u32_round_trip(b: Seq<u8>, p: int, v: u32)
    requires
        holds_at(b, p, be32(v)),
    ensures
        parse_u32(b, p) == Ok::<(u32, int), DecodeError>((v, p + 4)),
{
    let x = v as int;
    assert(b[p] == b.subrange(p, p + 4)[0]);
    assert(b[p + 1] == b.subrange(p, p + 4)[1]);
    assert(b[p + 2] == b.subrange(p, p + 4)[2]);
    assert(b[p + 3] == b.subrange(p, p + 4)[3]);
    assert(b[p] as int == x / 0x100_0000);
    assert(b[p + 1] as int == (x / 0x1_0000) % 256);
    assert(b[p + 2] as int == (x / 256) % 256);
    assert(b[p + 3] as int == x % 256);
    assert(x == (x / 0x100_0000) * 0x100_0000 + ((x / 0x1_0000) % 256) * 0x1_0000 + ((x / 256)
        % 256) * 256 + x % 256) by (nonlinear_arith);
}

/// The largest byte length of a text: what its 16-bit length field holds.
pub const TEXT_MAX: usize = 0xFFFF;

/// A text can be written when its UTF-8 form fits its length field.
pub open spec fn text_fits(s: Seq<char>) -> bool {
    encode_utf8(s).len() <= TEXT_MAX
}

/// The byte form of a text: its UTF-8 length, then its UTF-8 bytes.
pub open spec fn text_wire(s: Seq<char>) -> Seq<u8> {
    be16(encode_utf8(s).len() as u16) + encode_utf8(s)
}

/// Reads a text at position `p` of `b`: a truncated field is incomplete,
/// and a complete one must hold well-formed UTF-8.
pub open spec fn parse_text(b: Seq<u8>, p: int) -> Result<(Seq<char>, int), DecodeError> {
    match parse_u16(b, p) {
        Err(e) => Err(e),
        Ok((n, q)) => {
            if q + n > b.len() {
                Err(DecodeError::Incomplete)
            } else if !valid_utf8(b.subrange(q, q + n)) {
                Err(DecodeError::InvalidUtf8)
            } else {
                Ok((decode_utf8(b.subrange(q, q + n)), q + n))
            }
        },
    }
}

/// Relies on std::str::from_utf8: it accepts exactly the well-formed UTF-8
/// byte sequences, and the text it returns is the one those bytes encode.
#[verifier::external_body]
fn text_from_utf8(bytes: &[u8]) -> (r: Option<String>)
    ensures
        r is Some <==> valid_utf8(bytes@),
        r matches Some(s) ==> s@ == decode_utf8(bytes@),
{
    match std::str::from_utf8(bytes) {
        Ok(s) => Some(s.to_owned()),
        Err(_) => None,
    }
}

/// Whether two texts are equal, compared by their UTF-8 bytes.
pub fn text_eq(a: &str, b: &str) -> (r: bool)
    ensures
        r == (a@ == b@),
{
    let x = a.as_bytes();
    let y = b.as_bytes();
    proof {
        encode_utf8_decode_utf8(a@);
        encode_utf8_decode_utf8(b@);
    }
    if x.len() != y.len() {
        return false;
    }
    let mut i: usize = 0;
    while i < x.len()
        invariant
            i <= x.len(),
            x.len() == y.len(),
            x@ == encode_utf8(a@),
            y@ == encode_utf8(b@),
            x@.subrange(0, i as int) == y@.subrange(0, i as int),
        decreases x.len() - i,
    {
        if x[i] != y[i] {
            assert(x@[i as int] != y@[i as int]);
            return false;
        }
        assert(x@.subrange(0, i + 1) =~= x@.subrange(0, i as int).push(x@[i as int]));
        assert(y@.subrange(0, i + 1) =~= y@.subrange(0, i as int).push(y@[i as int]));
        i += 1;
    }
    assert(x@ =~= x@.subrange(0, i as int));
    assert(y@ =~= y@.subrange(0, i as int));
    true
}

/// Appends a text: its UTF-8 length as 16 bits, then its UTF-8 bytes.
pub fn put_text(out: &mut Vec<u8>, s: &str)
    requires
        text_fits(s@),
    ensures
        final(out)@ == old(out)@ + text_wire(s@),
{
    let bytes = s.as_bytes();
    put_u16(out, bytes.len() as u16);
    out.extend_from_slice(bytes);
    assert(final(out)@ =~= old(out)@ + text_wire(s@));
}

/// Reads a text at position `pos`, and the position after it.
pub fn read_text(input: &[u8], pos: usize) -> (r: Result<(String, usize), DecodeError>)
    ensures
        match (r, parse_text(input@, pos as int)) {
            (Ok((v, q)), Ok((w, n))) => v@ == w && q == n,
            (Err(e), Err(f)) => e == f,
            _ => false,
        },
        r matches Ok((_, q)) ==> pos <= q <= input@.len(),
{
    let (n, start) = read_u16(input, pos)?;
    if input.len() - start < n as usize {
        return Err(DecodeError::Incomplete);
    }
    let end: usize = start + n as usize;
    match text_from_utf8(vstd::slice::slice_subrange(input, start, end)) {
        Some(s) => Ok((s, end)),
        None => Err(DecodeError::InvalidUtf8),
    }
}

/// Reading back the byte form of a text that fits gives that text.
pub proof fn lemma_text_round_trip(b: Seq<u8>, p: int, s: Seq<char>)
    requires
        text_fits(s),
        holds_at(b, p, text_wire(s)),
    ensures
        parse_text(b, p) == Ok::<(Seq<char>, int), DecodeError>((s, p + text_wire(s).len())),
{
    let u = encode_utf8(s);
    let w = text_wire(s);
    let sub = b.subrange(p, p + w.len());
    assert(w.subrange(0, 2) =~= be16(u.len() as u16));
    assert(w.subrange(2, w.len() as int) =~= u);
    assert(b.subrange(p, p + 2) =~= sub.subrange(0, 2));
    lemma_u16_round_trip(b, p, u.len() as u16);
    assert(b.subrange(p + 2, p + 2 + u.len()) =~= sub.subrange(2, w.len() as int));
    encode_utf8_valid_utf8(s);
    encode_utf8_decode_utf8(s);
}

/// Reading a strict prefix of the byte form of a text reports it incomplete.
pub proof fn lemma_text_truncated(b: Seq<u8>, p: int, s: Seq<char>)
    requires
        text_fits(s),
        cut_at(b, p, text_wire(s)),
    ensures
        parse_text(b, p) == Err::<(Seq<char>, int), DecodeError>(DecodeError::Incomplete),
{
    let u = encode_utf8(s);
    if p + 2 <= b.len() {
        assert(b.subrange(p, p + 2) =~= b.subrange(p, b.len() as int).subrange(0, 2));
        assert(b.subrange(p, p + 2) =~= text_wire(s).subrange(0, 2));
        assert(text_wire(s).subrange(0, 2) =~= be16(u.len() as u16));
        lemma_u16_round_trip(b, p, u.len() as u16);
    }
}

} // verus!
