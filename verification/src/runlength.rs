//! Run-length transformation.
//!
//! A single reserved marker byte encodes repetition: a byte equal to the
//! previous one is emitted as the marker, a literal marker byte escapes as
//! the previous byte, and every other byte is emitted as itself.

use vstd::prelude::*;
use crate::transform::{Transform, TransformError};

verus! {

/// The reserved marker byte standing for "same as the previous byte".
pub const RUN_BYTE_CODE: u8 = 0;

/// The byte emitted by the forward pass for input `byte` when the previous
/// input byte was `cur` (`None` at the very start of a stream). The state
/// after the step is always `Some(byte)`.
pub open spec fn rle_transform_byte(cur: Option<u8>, byte: u8) -> u8 {
    if cur is Some && cur->0 == byte {
        RUN_BYTE_CODE
    } else if cur is Some && byte == RUN_BYTE_CODE {
        cur->0
    } else {
        byte
    }
}

/// The forward transformation of `s`, starting from previous byte `cur`.
pub open spec fn rle_transform_seq(cur: Option<u8>, s: Seq<u8>) -> Seq<u8>
    decreases s.len(),
{
    if s.len() == 0 {
        Seq::empty()
    } else {
        seq![rle_transform_byte(cur, s[0])] + rle_transform_seq(Some(s[0]), s.skip(1))
    }
}

/// The byte reconstructed by the reverse pass from input `byte` when the
/// previously reconstructed byte was `cur` and `started` says whether the
/// pass has already produced a byte. The state after the step is always
/// `(Some(reconstructed), true)`.
pub open spec fn rle_reverse_byte(cur: Option<u8>, started: bool, byte: u8) -> u8 {
    if cur is Some && byte == RUN_BYTE_CODE && started {
        cur->0
    } else if cur is Some && byte == cur->0 && started {
        RUN_BYTE_CODE
    } else {
        byte
    }
}

/// The reverse transformation of `s`, starting from previously reconstructed
/// byte `cur`.
pub open spec fn rle_reverse_seq(cur: Option<u8>, started: bool, s: Seq<u8>) -> Seq<u8>
    decreases s.len(),
{
    if s.len() == 0 {
        Seq::empty()
    } else {
        let o = rle_reverse_byte(cur, started, s[0]);
        seq![o] + rle_reverse_seq(Some(o), true, s.skip(1))
    }
}

/// Run-length state: the previous byte and a flag guarding the first byte of
/// a reverse pass.
#[derive(Debug)]
pub struct RunLength {
    pub current: Option<u8>,
    pub reverse_started: bool,
}

impl RunLength {
    /// A fresh state: no previous byte, no reverse pass started.
    pub fn new() -> (r: Self)
        ensures
            r.current is None,
            !r.reverse_started,
    {
        RunLength { current: None, reverse_started: false }
    }
}

impl Default for RunLength {
    fn default() -> (r: Self)
        ensures
            r.current is None,
            !r.reverse_started,
    {
        RunLength::new()
    }
}

impl RunLength {
    /// Forward run-length pass over `source`. Rejects an empty input; on a
    /// non-empty input, returns exactly the run-length coding of `source`
    /// continued from the previous byte held in the state.
    pub fn transform(&mut self, source: &[u8]) -> (r: Result<Vec<u8>, TransformError>)
        ensures
            source@.len() == 0 ==> r == Err::<Vec<u8>, TransformError>(
                TransformError::EmptyBufferError,
            ) && *final(self) == *old(self),
            source@.len() > 0 ==> {
                &&& r is Ok
                &&& r->Ok_0@ == rle_transform_seq(old(self).current, source@)
                &&& final(self).current == Some(source@.last())
                &&& !final(self).reverse_started
            },
    {
        if source.len() == 0 {
            return Err(TransformError::EmptyBufferError);
        }
        let ghost c0 = self.current;
        let mut result: Vec<u8> = Vec::new();
        proof {
            assert(source@.skip(0) =~= source@);
            assert(result@ + rle_transform_seq(c0, source@) =~= rle_transform_seq(c0, source@));
        }
        for i in 0..source.len()
            invariant
                result@ + rle_transform_seq(self.current, source@.skip(i as int))
                    == rle_transform_seq(c0, source@),
                i > 0 ==> self.current == Some(source@[i - 1]),
                i == 0 ==> self.current == c0,
        {
            let byte = source[i];
            proof {
                assert(source@.skip(i as int)[0] == source@[i as int]);
                assert(source@.skip(i as int).skip(1) =~= source@.skip(i + 1));
            }
            if self.current.is_some() && self.current.unwrap() == byte {
                result.push(RUN_BYTE_CODE);
            } else if self.current.is_some() && RUN_BYTE_CODE == byte {
                result.push(self.current.unwrap());
                self.current = Some(byte);
            } else {
                result.push(byte);
                self.current = Some(byte);
            }
            proof {
                if self.current != Some(byte) {
                    // only the first branch leaves the state alone, and there
                    // the previous byte already equals the input byte
                    assert(self.current == Some(byte));
                }
            }
        }
        proof {
            assert(source@.skip(source@.len() as int) =~= Seq::<u8>::empty());
            assert(result@ + Seq::<u8>::empty() =~= result@);
        }
        self.reverse_started = false;
        Ok(result)
    }

    /// Reverse run-length pass over `source`. Rejects an empty input; on a
    /// non-empty input, returns exactly the reverse coding of `source`
    /// continued from the state.
    pub fn reverse(&mut self, source: &[u8]) -> (r: Result<Vec<u8>, TransformError>)
        ensures
            source@.len() == 0 ==> r == Err::<Vec<u8>, TransformError>(
                TransformError::EmptyBufferError,
            ) && *final(self) == *old(self),
            source@.len() > 0 ==> {
                &&& r is Ok
                &&& r->Ok_0@ == rle_reverse_seq(
                    old(self).current,
                    old(self).reverse_started,
                    source@,
                )
                &&& final(self).current == Some(r->Ok_0@.last())
                &&& final(self).reverse_started
            },
    {
        if source.len() == 0 {
            return Err(TransformError::EmptyBufferError);
        }
        let ghost c0 = self.current;
        let ghost st0 = self.reverse_started;
        let mut result: Vec<u8> = Vec::new();
        proof {
            assert(source@.skip(0) =~= source@);
            assert(result@ + rle_reverse_seq(c0, st0, source@) =~= rle_reverse_seq(c0, st0, source@));
        }
        for i in 0..source.len()
            invariant
                result@ + rle_reverse_seq(self.current, self.reverse_started, source@.skip(i as int))
                    == rle_reverse_seq(c0, st0, source@),
                i > 0 ==> self.current == Some(result@.last()) && self.reverse_started
                    && result@.len() == i,
                i == 0 ==> self.current == c0 && self.reverse_started == st0 && result@.len() == 0,
        {
            let byte = source[i];
            proof {
                assert(source@.skip(i as int)[0] == source@[i as int]);
                assert(source@.skip(i as int).skip(1) =~= source@.skip(i + 1));
            }
            if self.current.is_some() && byte == RUN_BYTE_CODE && self.reverse_started {
                result.push(self.current.unwrap());
                self.reverse_started = true;
            } else if self.current.is_some() && byte == self.current.unwrap()
                && self.reverse_started {
                result.push(RUN_BYTE_CODE);
                self.current = Some(RUN_BYTE_CODE);
                self.reverse_started = true;
            } else {
                result.push(byte);
                self.current = Some(byte);
                self.reverse_started = true;
            }
        }
        proof {
            assert(source@.skip(source@.len() as int) =~= Seq::<u8>::empty());
            assert(result@ + Seq::<u8>::empty() =~= result@);
        }
        Ok(result)
    }
}

impl Transform for RunLength {
    fn transform(&mut self, source: &[u8]) -> Result<Vec<u8>, TransformError> {
        RunLength::transform(self, source)
    }

    fn reverse(&mut self, source: &[u8]) -> Result<Vec<u8>, TransformError> {
        RunLength::reverse(self, source)
    }
}

/// After the first byte, matching states reverse each forward step exactly:
/// reversing the coding of `x` continued from previous byte `p` yields `x`
/// again, provided the reverse pass also starts from `p` and is already
/// under way.
proof fn lemma_rle_round_trip_step(p: u8, x: Seq<u8>)
    ensures
        rle_reverse_seq(Some(p), true, rle_transform_seq(Some(p), x)) == x,
    decreases x.len(),
{
    if x.len() == 0 {
        assert(rle_reverse_seq(Some(p), true, rle_transform_seq(Some(p), x)) =~= x);
    } else {
        let t = rle_transform_seq(Some(p), x);
        let o = rle_transform_byte(Some(p), x[0]);
        assert(t[0] == o);
        assert(t.skip(1) =~= rle_transform_seq(Some(x[0]), x.skip(1)));
        assert(rle_reverse_byte(Some(p), true, o) == x[0]);
        lemma_rle_round_trip_step(x[0], x.skip(1));
        assert(rle_reverse_seq(Some(p), true, t) =~= x);
    }
}

/// Round trip: reversing the forward run-length coding of a fresh pass
/// restores the input. The reverse pass may hold any leftover previous byte,
/// as long as it has not yet produced a byte of its own.
pub proof fn lemma_rle_round_trip(cr: Option<u8>, x: Seq<u8>)
    ensures
        rle_reverse_seq(cr, false, rle_transform_seq(None, x)) == x,
{
    if x.len() == 0 {
        assert(rle_reverse_seq(cr, false, rle_transform_seq(None, x)) =~= x);
    } else {
        let t = rle_transform_seq(None, x);
        let o = rle_transform_byte(None, x[0]);
        assert(t[0] == o);
        assert(t.skip(1) =~= rle_transform_seq(Some(x[0]), x.skip(1)));
        assert(o == x[0]);
        assert(rle_reverse_byte(cr, false, o) == o);
        lemma_rle_round_trip_step(x[0], x.skip(1));
        assert(rle_reverse_seq(cr, false, t) =~= x);
    }
}

} // verus!
