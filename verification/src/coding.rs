//! The coding contract: byte-stream encoders and decoders.

use vstd::prelude::*;

verus! {

/// Trait for coding byte streams.
pub trait Code {
    fn encode(&mut self, source: &[u8]) -> Result<Vec<u8>, CodeError>;

    fn decode(&mut self, source: &[u8]) -> Result<Vec<u8>, CodeError>;
}

/// An enum representing possible errors during coding.
#[derive(Debug, PartialEq, Eq, Structural)]
pub enum CodeError {
    /// The coder's byte source ended too early.
    IoError,
}

} // verus!
