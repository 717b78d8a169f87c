//! RLP (Recursive Length Prefix): a canonical binary encoding of byte strings
//! and nested lists, with an encoder and a strict decoder whose behaviour is
//! stated over a mathematical model of the format.

use vstd::prelude::*;

pub mod decode;
pub mod encode;
pub mod error;
pub mod length;

pub use decode::{decode, Decode};
pub use encode::{encode, Encode};
pub use error::Error;

verus! {

/// The default ceiling on the payload length that the decoder accepts.
/// It guards against resource exhaustion on malformed input.
pub const MAX_LENGTH: usize = 0x0fff_ffff;

} // verus!
