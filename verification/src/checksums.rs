//! Checksums over byte streams: Adler-32 and CRC-32.
//!
//! Both checksums are incremental: `update` consumes a slice of bytes and
//! `checksum` reads the value accumulated so far without resetting it.

use vstd::prelude::*;

verus! {

/// Errors during checksum calculation.
#[derive(Debug)]
pub enum ChecksumError {
    /// The final checksum can not be calculated.
    NoChecksum,
    /// Error during updating of the checksum.
    UpdateError,
}

/// Trait for calculating checksums from binary data.
pub trait Checksum {
    fn update(&mut self, data: &[u8]) -> Option<usize>;

    fn checksum(&self) -> Result<u32, ChecksumError>;
}

/// The Adler-32 modulus: the largest prime below `2^16`.
pub const ADLER_MODULUS: u32 = 65521;

/// One Adler-32 step: both running sums are reduced modulo 65521 after
/// absorbing a byte.
pub open spec fn adler_step(st: (int, int), byte: u8) -> (int, int) {
    (((st.0 + byte) % 65521), ((st.1 + st.0 + byte) % 65521))
}

/// The Adler-32 state reached from state `st` after absorbing `data`.
pub open spec fn adler_from(st: (int, int), data: Seq<u8>) -> (int, int)
    decreases data.len(),
{
    if data.len() == 0 {
        st
    } else {
        adler_step(adler_from(st, data.drop_last()), data.last())
    }
}

/// The Adler-32 checksum of `data`: high half the aggregated sum, low half
/// the plain sum, both from the initial state `(1, 0)`.
pub open spec fn adler32_of(data: Seq<u8>) -> int {
    adler_from((1, 0), data).1 * 0x10000 + adler_from((1, 0), data).0
}

/// Adler-32 checksum state: plain sum `a` and aggregated sum `b`.
#[derive(Debug)]
pub struct Adler32 {
    pub a: u16,
    pub b: u16,
}

impl Adler32 {
    /// Both sums are always reduced modulo 65521.
    pub open spec fn wf(&self) -> bool {
        self.a < 65521 && self.b < 65521
    }

    /// The mathematical state of the accumulator.
    pub open spec fn state(&self) -> (int, int) {
        (self.a as int, self.b as int)
    }

    /// Generate a new Adler32 struct.
    pub fn new() -> (r: Self)
        ensures
            r.wf(),
            r.state() == (1int, 0int),
    {
        Adler32 { a: 1, b: 0 }
    }
}

impl Default for Adler32 {
    fn default() -> (r: Self)
        ensures
            r.wf(),
            r.state() == (1int, 0int),
    {
        Adler32::new()
    }
}

impl Adler32 {
    /// Absorb `data`, folding every byte into both sums; reports how many
    /// bytes were consumed.
    pub fn update(&mut self, data: &[u8]) -> (r: Option<usize>)
        requires
            old(self).wf(),
        ensures
            final(self).wf(),
            final(self).state() == adler_from(old(self).state(), data@),
            r == Some(data@.len() as usize),
    {
        let ghost st0 = self.state();
        for i in 0..data.len()
            invariant
                self.wf(),
                self.state() == adler_from(st0, data@.take(i as int)),
        {
            let byte = data[i];
            let na = ((self.a as u32) + (byte as u32)) % ADLER_MODULUS;
            let nb = ((self.b as u32) + (self.a as u32) + (byte as u32)) % ADLER_MODULUS;
            self.a = na as u16;
            self.b = nb as u16;
            proof {
                assert(data@.take(i + 1).drop_last() =~= data@.take(i as int));
                assert(data@.take(i + 1).last() == data@[i as int]);
            }
        }
        proof {
            assert(data@.take(data@.len() as int) =~= data@);
        }
        Some(data.len())
    }

    /// The Adler-32 value accumulated so far; does not reset the state.
    pub fn checksum(&self) -> (r: Result<u32, ChecksumError>)
        requires
            self.wf(),
        ensures
            r == Ok::<u32, ChecksumError>((self.state().1 * 0x10000 + self.state().0) as u32),
    {
        let result: u32 = (self.b as u32) * 0x10000 + (self.a as u32);
        Ok(result)
    }
}

impl Checksum for Adler32 {
    fn update(&mut self, data: &[u8]) -> Option<usize> {
        if self.a >= ADLER_MODULUS as u16 || self.b >= ADLER_MODULUS as u16 {
            return None;
        }
        Adler32::update(self, data)
    }

    fn checksum(&self) -> Result<u32, ChecksumError> {
        if self.a >= ADLER_MODULUS as u16 || self.b >= ADLER_MODULUS as u16 {
            return Err(ChecksumError::NoChecksum);
        }
        Adler32::checksum(self)
    }
}

/// Absorbing a concatenation equals absorbing both parts in turn: the
/// incremental update of either checksum agrees with the one-shot update.
pub proof fn lemma_adler_concat(st: (int, int), x: Seq<u8>, y: Seq<u8>)
    ensures
        adler_from(st, x + y) == adler_from(adler_from(st, x), y),
    decreases y.len(),
{
    if y.len() == 0 {
        assert(x + y =~= x);
    } else {
        lemma_adler_concat(st, x, y.drop_last());
        assert((x + y).drop_last() =~= x + y.drop_last());
        assert((x + y).last() == y.last());
    }
}

} // verus!
