//! CRC-32 checksum over the IEEE 802.3 (reflected) polynomial.
//!
//! The table-driven computation itself is done by the `crc` crate; this
//! module gives its digest a mathematical reading: `crc32_of` names the
//! checksum of a byte sequence, and every digest operation is described in
//! terms of that name.

use vstd::prelude::*;
use crate::checksums::{Checksum, ChecksumError};

verus! {

/// The CRC-32 (IEEE, reflected) checksum of a byte sequence. The value is
/// a function of the bytes alone; `crc::crc32::update` computes it.
pub uninterp spec fn crc32_of(data: Seq<u8>) -> u32;

/// The 32-bit value held by a digest of the `crc` crate.
pub uninterp spec fn digest_val(d: crc::crc32::Digest) -> u32;

/// Whether a digest of the `crc` crate was built over the IEEE polynomial
/// with initial value zero.
pub uninterp spec fn digest_is_ieee(d: crc::crc32::Digest) -> bool;

/// Relies on crc::crc32::Digest being an ordinary type: declared so that a
/// digest can stand in fields and signatures; its inside stays opaque.
#[verifier::external_type_specification]
#[verifier::external_body]
pub struct ExDigest(crc::crc32::Digest);

/// Relies on crc::crc32::Digest::new: a fresh IEEE digest holds the value
/// zero, which is the CRC-32 of the empty byte sequence.
#[verifier::external_body]
fn crc_digest_new() -> (d: crc::crc32::Digest)
    ensures
        digest_is_ieee(d),
        digest_val(d) == 0u32,
        digest_val(d) == crc32_of(Seq::<u8>::empty()),
{
    crc::crc32::Digest::new(crc::crc32::IEEE)
}

/// Relies on crc::crc32::Hasher32::write for Digest: feeding more bytes
/// continues the checksum, so a digest holding the CRC-32 of some prefix
/// afterwards holds the CRC-32 of that prefix extended by `data`.
#[verifier::external_body]
fn crc_digest_write(d: &mut crc::crc32::Digest, data: &[u8])
    ensures
        digest_is_ieee(*old(d)) ==> digest_is_ieee(*final(d)),
        digest_is_ieee(*old(d)) ==> forall|prefix: Seq<u8>|
            digest_val(*old(d)) == #[trigger] crc32_of(prefix) ==> digest_val(*final(d))
                == crc32_of(prefix + data@),
{
    crc::crc32::Hasher32::write(d, data)
}

/// Relies on crc::crc32::Hasher32::sum32 for Digest: returns the digest's
/// current value without changing it.
#[verifier::external_body]
fn crc_digest_sum(d: &crc::crc32::Digest) -> (r: u32)
    ensures
        r == digest_val(*d),
{
    crc::crc32::Hasher32::sum32(d)
}

/// CRC32 struct holding the inner digest of the `crc` crate together with
/// the bytes it has absorbed.
pub struct CRC32 {
    pub a: crc::crc32::Digest,
    pub processed: Ghost<Seq<u8>>,
}

impl CRC32 {
    /// The digest always holds the CRC-32 of exactly the absorbed bytes.
    pub open spec fn wf(&self) -> bool {
        digest_is_ieee(self.a) && digest_val(self.a) == crc32_of(self.processed@)
    }

    /// The bytes absorbed so far.
    pub open spec fn bytes(&self) -> Seq<u8> {
        self.processed@
    }

    /// Generate a new CRC32 struct over the IEEE polynomial.
    pub fn new() -> (r: Self)
        ensures
            r.wf(),
            r.bytes() == Seq::<u8>::empty(),
    {
        CRC32 { a: crc_digest_new(), processed: Ghost(Seq::empty()) }
    }
}

impl Default for CRC32 {
    fn default() -> (r: Self)
        ensures
            r.wf(),
            r.bytes() == Seq::<u8>::empty(),
    {
        CRC32::new()
    }
}

impl CRC32 {
    /// Absorb `data` into the running checksum; reports how many bytes were
    /// consumed.
    pub fn update(&mut self, data: &[u8]) -> (r: Option<usize>)
        requires
            old(self).wf(),
        ensures
            final(self).wf(),
            final(self).bytes() == old(self).bytes() + data@,
            r == Some(data@.len() as usize),
    {
        crc_digest_write(&mut self.a, data);
        proof {
            self.processed@ = self.processed@ + data@;
        }
        Some(data.len())
    }

    /// The CRC-32 of all bytes absorbed so far; does not reset the state.
    pub fn checksum(&self) -> (r: Result<u32, ChecksumError>)
        requires
            self.wf(),
        ensures
            r == Ok::<u32, ChecksumError>(crc32_of(self.bytes())),
    {
        Ok(crc_digest_sum(&self.a))
    }
}

/// The CRC-32 (IEEE) of a whole buffer in one call.
pub fn crc32_of_bytes(data: &[u8]) -> (r: u32)
    ensures
        r == crc32_of(data@),
{
    let mut c = CRC32::new();
    let _ = CRC32::update(&mut c, data);
    proof {
        assert(c.bytes() =~= data@);
    }
    let r = CRC32::checksum(&c);
    r.unwrap()
}

impl Checksum for CRC32 {
    fn update(&mut self, data: &[u8]) -> Option<usize> {
        crc_digest_write(&mut self.a, data);
        proof {
            self.processed@ = self.processed@ + data@;
        }
        Some(data.len())
    }

    fn checksum(&self) -> Result<u32, ChecksumError> {
        Ok(crc_digest_sum(&self.a))
    }
}

} // verus!
