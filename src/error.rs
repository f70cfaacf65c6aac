//! The errors of decoding and encoding.
use vstd::prelude::*;
use crate::term::{Atom, BigInteger, Reference, Term, TermV};
use vstd::utf8::encode_utf8;
use crate::wire::{enc_big, EncodeFault};

verus! {

/// The kind of an I/O failure.
#[derive(Clone, Copy, PartialEq, Eq, Debug)]
pub enum IoErrorKind {
    /// The input ended before the term did.
    UnexpectedEof,
    /// The input holds bytes that no term can be made of.
    InvalidData,
    /// Any other failure.
    Other,
}

/// An I/O failure: its kind and a message.
#[derive(Clone, PartialEq, Eq, Debug)]
pub struct IoError {
    pub kind: IoErrorKind,
    pub message: String,
}

/// Errors which can occur when decoding a term.
#[derive(Debug)]
pub enum DecodeError {
    /// I/O error.
    Io(IoError),
    /// Unsupported format version.
    UnsupportedVersion { version: u8 },
    /// Unknown tag.
    UnknownTag { tag: u8 },
    /// Unexpected type.
    UnexpectedType { value: Term, expected: String },
    /// Out of range: `value` is not within `min..=max`.
    OutOfRange { value: i32, min: i32, max: i32 },
    /// Non-finite float.
    NonFiniteFloat,
}

/// The mathematical view of a decoding error.
pub enum DecodeErrorV {
    Io(IoErrorKind),
    UnsupportedVersion(u8),
    UnknownTag(u8),
    UnexpectedType(TermV, Seq<char>),
    OutOfRange(i32, i32, i32),
    NonFiniteFloat,
}

impl View for DecodeError {
    type V = DecodeErrorV;

    open spec fn view(&self) -> DecodeErrorV {
        match self {
            DecodeError::Io(e) => DecodeErrorV::Io(e.kind),
            DecodeError::UnsupportedVersion { version } => DecodeErrorV::UnsupportedVersion(*version),
            DecodeError::UnknownTag { tag } => DecodeErrorV::UnknownTag(*tag),
            DecodeError::UnexpectedType { value, expected } => DecodeErrorV::UnexpectedType(
                value@,
                expected@,
            ),
            DecodeError::OutOfRange { value, min, max } => DecodeErrorV::OutOfRange(*value, *min, *max),
            DecodeError::NonFiniteFloat => DecodeErrorV::NonFiniteFloat,
        }
    }
}

/// Errors which can occur when encoding a term.
#[derive(Debug)]
pub enum EncodeError {
    /// I/O error; also a length that its wire field cannot hold.
    Io(IoError),
    /// Too long atom name.
    TooLongAtomName(Atom),
    /// Too large integer value.
    TooLargeInteger(BigInteger),
    /// Too large reference ID.
    TooLargeReferenceId(Reference),
}

impl EncodeError {
    /// The refused value that the error carries is one that cannot be encoded: an atom
    /// name longer than 65535 bytes, a magnitude longer than `u32::MAX` bytes, a reference
    /// with more than 65535 id words.
    pub open spec fn carries_cause(&self) -> bool {
        match self {
            EncodeError::Io(_) => true,
            EncodeError::TooLongAtomName(a) => encode_utf8(a.name@).len() > 0xFFFF,
            EncodeError::TooLargeInteger(b) => enc_big(b.negative, b.magnitude@) is Err,
            EncodeError::TooLargeReferenceId(r) => r.id@.len() > 0xFFFF,
        }
    }

    /// Which failure this is.
    pub open spec fn fault(&self) -> EncodeFault {
        match self {
            EncodeError::Io(_) => EncodeFault::Unrepresentable,
            EncodeError::TooLongAtomName(_) => EncodeFault::TooLongAtomName,
            EncodeError::TooLargeInteger(_) => EncodeFault::TooLargeInteger,
            EncodeError::TooLargeReferenceId(_) => EncodeFault::TooLargeReferenceId,
        }
    }
}

/// An `InvalidData` failure with the given message.
pub fn invalid_data_error<T>(message: String) -> (r: Result<T, IoError>)
    ensures
        r matches Err(e) && e.kind == IoErrorKind::InvalidData && e.message@ == message@,
{
    Err(IoError { kind: IoErrorKind::InvalidData, message })
}

/// An `Other` failure with the given message.
pub fn other_error<T>(message: String) -> (r: Result<T, IoError>)
    ensures
        r matches Err(e) && e.kind == IoErrorKind::Other && e.message@ == message@,
{
    Err(IoError { kind: IoErrorKind::Other, message })
}

} // verus!
