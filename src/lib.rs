//! Encoding and decoding of the Erlang External Term Format.
//!
//! A message is the version byte 131 followed by one term. [`Term::decode`] reads one
//! from the start of a byte sequence, [`Term::encode`] writes one; both are proved
//! against the wire format stated in `wire` (what the encoder writes) and `parse`
//! (what the decoder reads). The encoder always picks the newest and most compact tag.
use vstd::prelude::*;

pub mod term;
pub mod wire;
pub mod error;
pub mod encode;
pub mod parse;
pub mod decode;
pub mod equal;
pub mod inflate;
pub mod convert;
pub mod pattern;
pub mod laws;

pub use crate::decode::{
    latin1_bytes_to_string, term_into_atom, term_into_fix_integer, term_into_pid,
    term_into_ranged_integer, Decoder,
};
pub use crate::convert::{AsOption, TryAsRef};
pub use crate::encode::Encoder;
pub use crate::error::{
    invalid_data_error, other_error, DecodeError, EncodeError, IoError, IoErrorKind,
};
pub use crate::term::{
    Atom, BigInteger, BitBinary, Binary, ExternalFun, FixInteger, Float, ImproperList,
    InternalFun, List, Pid, Port, Reference, Term, TermMap, Tuple,
};

verus! {

} // verus!
