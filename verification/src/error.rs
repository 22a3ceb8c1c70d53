//! Failure vocabulary shared by the cursor, the scalar codecs and the
//! decode/encode engines.

use vstd::prelude::*;

verus! {

use crate::protobuf::WireType;

/// Why a decode call failed (or, for `EOF`, ended cleanly).
#[derive(Debug, Clone, Copy, PartialEq, Eq)]
pub enum DecodeError {
    /// A varint carried more than 64 significant bits.
    OverFlow64Bit,
    /// Reserved for a 32-bit-bounded varint path.
    OverFlow32Bit,
    /// A tag's low three bits name no wire type (6 or 7).
    UnknownWireType(u64),
    /// The wire type is a deprecated group marker.
    DeprecatedWireType(WireType),
    /// A fixed-size or length-prefixed read needed more bytes than remained.
    UnexpectedEof,
    /// The cursor was exhausted exactly at a tag boundary: the normal,
    /// non-error termination signal for a message.
    EOF,
    /// A field's payload failed to decode; the underlying cause is not kept.
    Error,
}

impl DecodeError {
    /// A short human-readable name for the error kind.
    pub fn describe(&self) -> (s: &'static str)
        ensures
            s@ == self.spec_describe(),
    {
        match self {
            DecodeError::OverFlow64Bit => "overflow 64bit",
            DecodeError::OverFlow32Bit => "overflow 32bit",
            DecodeError::UnknownWireType(_) => "unknown wire type",
            DecodeError::DeprecatedWireType(_) => "deprecated wire type",
            DecodeError::UnexpectedEof => "unexpected EOF",
            DecodeError::EOF => "EOF",
            DecodeError::Error => "unknown error",
        }
    }

    /// What `describe` returns for each kind.
    pub open spec fn spec_describe(self) -> Seq<char> {
        match self {
            DecodeError::OverFlow64Bit => "overflow 64bit"@,
            DecodeError::OverFlow32Bit => "overflow 32bit"@,
            DecodeError::UnknownWireType(_) => "unknown wire type"@,
            DecodeError::DeprecatedWireType(_) => "deprecated wire type"@,
            DecodeError::UnexpectedEof => "unexpected EOF"@,
            DecodeError::EOF => "EOF"@,
            DecodeError::Error => "unknown error"@,
        }
    }
}

/// Why an encode call failed.
#[derive(Debug, Clone, Copy, PartialEq, Eq)]
pub enum EncodeError {
    /// The value tree has no wire representation: a repeated list with
    /// mixed element variants, or a repeated list nested inside another.
    DataError,
}

/// Replace whatever error a result carries with the given one.
pub fn convert_error<T, E>(result: Result<T, DecodeError>, err: E) -> (r: Result<T, E>)
    ensures
        match result {
            Ok(t) => r matches Ok(rt) && rt == t,
            Err(_) => r matches Err(re) && re == err,
        },
{
    match result {
        Ok(t) => Ok(t),
        Err(_) => Err(err),
    }
}

} // verus!
