//! Audio encoders for AirPlay 2.

use vstd::prelude::*;

verus! {

/// Why encoding failed.
#[derive(Debug)]
pub enum EncodeError {
    NotImplemented,
}

/// An encoder from interleaved 16-bit PCM to a compressed byte stream.
pub trait Encoder {
    /// Encodes `pcm`, appending the encoded bytes to `out`.
    fn encode(&mut self, pcm: &[i16], out: &mut Vec<u8>) -> Result<(), EncodeError>;
}

} // verus!
