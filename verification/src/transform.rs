//! Reversible byte-stream transformations.
//!
//! Every transformation in this crate can be undone: the original order of
//! the data is reproduced by the `reverse` operation of the `Transform`
//! trait.

use vstd::prelude::*;

verus! {

/// Trait for calculating transformations on byte level.
pub trait Transform {
    fn transform(&mut self, source: &[u8]) -> Result<Vec<u8>, TransformError>;

    fn reverse(&mut self, source: &[u8]) -> Result<Vec<u8>, TransformError>;
}

/// An enum representing possible errors during transformation.
#[derive(Debug, PartialEq, Eq, Structural)]
pub enum TransformError {
    /// Buffer is empty.
    EmptyBufferError,
    /// Buffer is too large for a block transform.
    OversizedBuffer,
    /// Symbol is not found in the working table.
    SymbolNotFound(u8),
    /// A reverse pass was started without its side-channel index.
    MissingIndex,
    /// A reverse pass met a byte with no recorded position.
    MissingMapping(u8),
    /// A reverse pass asked for an occurrence a byte does not have.
    MissingCountMap(u8, usize),
}

} // verus!
