use vstd::prelude::*;

verus! {

/// Why a value could not be written.
#[derive(Debug, Clone, Copy, PartialEq, Eq, Structural)]
pub enum EncodeError {
    /// A text is longer than its 16-bit length field can express, or the
    /// whole encoding is longer than a 32-bit frame length can express.
    TooLarge,
}

/// Why a byte sequence could not be read as a value.
#[derive(Debug, Clone, Copy, PartialEq, Eq, Structural)]
pub enum DecodeError {
    /// The input ends before a field of declared width is complete.
    Incomplete,
    /// A text field does not hold well-formed UTF-8.
    InvalidUtf8,
    /// A response-code field holds a value outside the known table.
    UnknownResponseCode(u16),
    /// A frame carries a command key that no decoder is registered for.
    UnknownCommandKey(u16),
    /// A frame payload was decoded and this many bytes were left over.
    NotFullyConsumed(usize),
}

} // verus!
