//! Bit-exact 32-bit carry-less range coder.
//!
//! The encoder keeps an interval `[low, low + rng)` of 32-bit integers and
//! narrows it per symbol in proportion to the symbol's share of the model's
//! total weight; whenever the interval drops below a threshold its top byte
//! is settled and emitted. A carry that overflows `low` propagates into the
//! bytes already emitted. The decoder mirrors the same interval arithmetic,
//! reading bytes instead of writing them.

use vstd::prelude::*;
use crate::statistics::{prefix_sum, range_sum, key_index, Statistics, StatisticsError,
    lemma_range_sum_split, lemma_range_sum_nonneg_from};
use crate::fenwick::Fenwick;
use crate::fenwick_map::SymbolMap;
use crate::coding::CodeError;

verus! {

/// Width of the coder's interval registers.
pub const INTERVAL_BITS: u32 = 32;

/// Bits settled per emitted byte.
pub const OUTPUT_BITS: u32 = 8;

/// Interval bits that stay unsettled while coding.
pub const EXCESS_BITS_IN_INTERVAL: u32 = 24;

/// Renormalization threshold: one above the largest unsettled interval.
pub const RANGE_THRESHOLD: u32 = 0x0100_0000;

/// Mask of the settled top byte of the interval.
pub const MASK: u32 = 0xFF00_0000;

/// One carry into an emitted byte stream: the trailing run of `0xFF` bytes
/// wraps to zero and the byte before it grows by one. A carry off the front
/// of the stream is dropped.
pub open spec fn carry_bytes(out: Seq<u8>) -> Seq<u8>
    decreases out.len(),
{
    if out.len() == 0 {
        out
    } else if out.last() == 255 {
        carry_bytes(out.drop_last()).push(0)
    } else {
        out.drop_last().push((out.last() + 1) as u8)
    }
}

/// Encoder renormalization: while the interval is narrower than the
/// threshold, emit its top byte and shift both registers up by one byte.
pub open spec fn renorm(low: int, rng: int, out: Seq<u8>) -> (int, int, Seq<u8>)
    decreases (if rng < 1 || rng >= 0x0100_0000 {
        0int
    } else {
        0x0100_0000 - rng
    }),
{
    if rng < 1 || rng >= 0x0100_0000 {
        (low, rng, out)
    } else {
        renorm((low * 256) % 0x1_0000_0000, rng * 256, out.push((low / 0x0100_0000) as u8))
    }
}

/// One encoder step: narrow the interval to the symbol's share, propagate a
/// carry into the emitted bytes if `low` wrapped, and renormalize. The top
/// symbol absorbs the division remainder.
pub open spec fn encode_step(low: int, rng: int, cl: int, ch: int, total: int, out: Seq<u8>) -> (
    int,
    int,
    Seq<u8>,
) {
    let unit = rng / total;
    let sum = low + cl * unit;
    let out1 = if sum > 0xFFFF_FFFF {
        carry_bytes(out)
    } else {
        out
    };
    let low1 = sum % 0x1_0000_0000;
    let rng1 = if ch < total {
        (ch - cl) * unit
    } else {
        rng - cl * unit
    };
    renorm(low1, rng1, out1)
}

/// Decoder renormalization: while the interval is narrower than the
/// threshold, pull the next byte into the code register and shift both up.
pub open spec fn decode_renorm(value: int, rng: int, pos: int, data: Seq<u8>) -> (int, int, int)
    decreases (if rng < 1 || rng >= 0x0100_0000 {
        0int
    } else {
        0x0100_0000 - rng
    }),
{
    if rng < 1 || rng >= 0x0100_0000 || pos < 0 || pos >= data.len() {
        (value, rng, pos)
    } else {
        decode_renorm((value * 256 + data[pos]) % 0x1_0000_0000, rng * 256, pos + 1, data)
    }
}

/// The number of bytes a renormalization from `rng` consumes or emits.
pub open spec fn shifts_needed(rng: int) -> int {
    if rng >= 0x0100_0000 {
        0
    } else if rng >= 0x1_0000 {
        1
    } else if rng >= 0x100 {
        2
    } else {
        3
    }
}

/// The decoder's clamped cumulative target for a code offset.
pub open spec fn clamp_cum(code: int, unit: int, total: int) -> int {
    if code / unit > total - 1 {
        total - 1
    } else {
        code / unit
    }
}

/// The decoder's next interval width for a symbol with bounds `[l, h)`.
pub open spec fn dec_rng1(rng: int, unit: int, l: int, h: int, total: int) -> int {
    if h < total {
        (h - l) * unit
    } else {
        rng - l * unit
    }
}

/// A 32-bit big-endian value read from four bytes.
pub open spec fn be32(b: Seq<u8>) -> int {
    b[0] * 0x0100_0000 + b[1] * 0x1_0000 + b[2] * 0x100 + b[3]
}

/// Four bytes encode a 32-bit value uniquely: each byte is pinned by the
/// value.
proof fn lemma_be32_digits(w: Seq<u8>, x: int)
    requires
        w.len() == 4,
        be32(w) == x,
    ensures
        w[0] == x / 0x0100_0000,
        w[1] == (x / 0x1_0000) % 256,
        w[2] == (x / 0x100) % 256,
        w[3] == x % 256,
{
    let r0 = w[1] * 0x1_0000 + w[2] * 0x100 + w[3];
    vstd::arithmetic::div_mod::lemma_fundamental_div_mod_converse(x, 0x0100_0000, w[0] as int, r0);
    let q1 = w[0] * 0x100 + w[1];
    let r1 = w[2] * 0x100 + w[3];
    vstd::arithmetic::div_mod::lemma_fundamental_div_mod_converse(x, 0x1_0000, q1, r1);
    vstd::arithmetic::div_mod::lemma_fundamental_div_mod_converse(q1, 0x100, w[0] as int, w[1] as int);
    let q2 = w[0] * 0x1_0000 + w[1] * 0x100 + w[2];
    vstd::arithmetic::div_mod::lemma_fundamental_div_mod_converse(x, 0x100, q2, w[3] as int);
    vstd::arithmetic::div_mod::lemma_fundamental_div_mod_converse(q2, 0x100, w[0] * 0x100 + w[1], w[2] as int);
}

/// Renormalization appends to its byte sink: the registers do not depend on
/// what was already emitted.
proof fn lemma_renorm_out(low: int, rng: int, out: Seq<u8>)
    ensures
        ({
            let st = renorm(low, rng, out);
            let se = renorm(low, rng, Seq::empty());
            st.0 == se.0 && st.1 == se.1 && st.2 == out + se.2
        }),
    decreases (if rng < 1 || rng >= 0x0100_0000 {
        0int
    } else {
        0x0100_0000 - rng
    }),
{
    let se = renorm(low, rng, Seq::empty());
    if rng < 1 || rng >= 0x0100_0000 {
        assert(out + Seq::<u8>::empty() =~= out);
    } else {
        let b0 = (low / 0x0100_0000) as u8;
        let low2 = (low * 256) % 0x1_0000_0000;
        let rng2 = rng * 256;
        lemma_renorm_out(low2, rng2, out.push(b0));
        lemma_renorm_out(low2, rng2, seq![b0]);
        let e2 = renorm(low2, rng2, Seq::empty()).2;
        assert(out.push(b0) + e2 =~= out + (seq![b0] + e2));
    }
}

/// The first four bytes of what a renormalization emits, extended by the
/// big-endian flush of its final register, encode the register it started
/// from: shifting bytes out does not lose them, it only moves them from the
/// register to the stream.
proof fn lemma_renorm_stream(low: int, rng: int, fl: Seq<u8>)
    requires
        0 <= low < 0x1_0000_0000,
        1 <= rng,
        fl.len() == 4,
        be32(fl) == renorm(low, rng, Seq::empty()).0,
    ensures
        ({
            let st = renorm(low, rng, Seq::empty());
            let stream = st.2 + fl;
            stream.len() >= 4 && be32(stream.take(4)) == low
        }),
    decreases (if rng >= 0x0100_0000 {
        0int
    } else {
        0x0100_0000 - rng
    }),
{
    let st = renorm(low, rng, Seq::empty());
    let stream = st.2 + fl;
    if rng >= 0x0100_0000 {
        assert(stream =~= fl);
        assert(stream.take(4) =~= fl);
    } else {
        let b0 = (low / 0x0100_0000) as u8;
        let m = low % 0x0100_0000;
        let low2 = (low * 256) % 0x1_0000_0000;
        let rng2 = rng * 256;
        vstd::arithmetic::div_mod::lemma_fundamental_div_mod(low, 0x0100_0000);
        vstd::arithmetic::div_mod::lemma_mod_bound(low, 0x0100_0000);
        assert(low == (low / 0x0100_0000) * 0x0100_0000 + m);
        assert(low / 0x0100_0000 < 0x100) by {
            if low / 0x0100_0000 >= 0x100 {
                assert((low / 0x0100_0000) * 0x0100_0000 >= 0x100 * 0x0100_0000)
                    by (nonlinear_arith)
                    requires
                        low / 0x0100_0000 >= 0x100,
                ;
            }
        }
        assert(b0 == low / 0x0100_0000);
        // the shifted register drops exactly the emitted byte
        assert(low * 256 == (low / 0x0100_0000) * 0x1_0000_0000 + m * 256) by (nonlinear_arith)
            requires
                low == (low / 0x0100_0000) * 0x0100_0000 + m,
        ;
        vstd::arithmetic::div_mod::lemma_fundamental_div_mod_converse(
            low * 256,
            0x1_0000_0000,
            low / 0x0100_0000,
            m * 256,
        );
        assert(low2 == m * 256);
        lemma_renorm_out(low2, rng2, seq![b0]);
        let inner = renorm(low2, rng2, Seq::empty());
        assert(st.0 == inner.0 && st.2 == seq![b0] + inner.2);
        lemma_renorm_stream(low2, rng2, fl);
        let istream = inner.2 + fl;
        assert(be32(istream.take(4)) == low2);
        lemma_be32_digits(istream.take(4), low2);
        assert(stream =~= seq![b0] + istream);
        assert(stream.take(4) =~= seq![b0] + istream.take(3));
        assert(stream.take(4)[0] == b0);
        assert(stream.take(4)[1] == istream[0] && stream.take(4)[2] == istream[1] && stream.take(
            4,
        )[3] == istream[2]);
        assert(istream.take(4)[0] == istream[0] && istream.take(4)[1] == istream[1]
            && istream.take(4)[2] == istream[2]);
        // read the three leading digits of the shifted register
        vstd::arithmetic::div_mod::lemma_fundamental_div_mod(m, 0x1_0000);
        vstd::arithmetic::div_mod::lemma_mod_bound(m, 0x1_0000);
        let mh = m / 0x1_0000;
        let ml = m % 0x1_0000;
        assert(m * 256 == mh * 0x0100_0000 + ml * 256) by (nonlinear_arith)
            requires
                m == mh * 0x1_0000 + ml,
        ;
        vstd::arithmetic::div_mod::lemma_fundamental_div_mod_converse(
            m * 256,
            0x0100_0000,
            mh,
            ml * 256,
        );
        assert(low2 / 0x0100_0000 == mh);
        vstd::arithmetic::div_mod::lemma_fundamental_div_mod(ml, 0x100);
        vstd::arithmetic::div_mod::lemma_mod_bound(ml, 0x100);
        let m1 = ml / 0x100;
        let m0 = ml % 0x100;
        assert(m * 256 == (mh * 0x100 + m1) * 0x1_0000 + m0 * 256) by (nonlinear_arith)
            requires
                m == mh * 0x1_0000 + ml && ml == m1 * 0x100 + m0,
        ;
        vstd::arithmetic::div_mod::lemma_fundamental_div_mod_converse(
            m * 256,
            0x1_0000,
            mh * 0x100 + m1,
            m0 * 256,
        );
        vstd::arithmetic::div_mod::lemma_fundamental_div_mod_converse(
            mh * 0x100 + m1,
            0x100,
            mh,
            m1,
        );
        assert((low2 / 0x1_0000) % 256 == m1);
        assert(m * 256 == (mh * 0x1_0000 + m1 * 0x100 + m0) * 0x100 + 0) by (nonlinear_arith)
            requires
                m == mh * 0x1_0000 + m1 * 0x100 + m0,
        ;
        vstd::arithmetic::div_mod::lemma_fundamental_div_mod_converse(
            m * 256,
            0x100,
            mh * 0x1_0000 + m1 * 0x100 + m0,
            0,
        );
        vstd::arithmetic::div_mod::lemma_fundamental_div_mod_converse(
            mh * 0x1_0000 + m1 * 0x100 + m0,
            0x100,
            mh * 0x100 + m1,
            m0,
        );
        assert((low2 / 0x100) % 256 == m0);
        // reassemble: emitted byte on top of the three digits is the register
        assert(be32(stream.take(4)) == b0 * 0x0100_0000 + mh * 0x1_0000 + m1 * 0x100 + m0);
        assert(b0 * 0x0100_0000 + m == low);
    }
}

/// Interval arithmetic facts for one coding step: with `unit = rng / total`,
/// every cumulative bound scales into the interval, and both ways of taking
/// a symbol's share leave at least one unit of width.
pub proof fn lemma_interval_math(rng: int, total: int, l: int, h: int)
    requires
        1 <= total <= rng,
        0 <= l < h <= total,
    ensures
        ({
            let unit = rng / total;
            &&& 1 <= unit
            &&& l * unit <= rng - unit
            &&& h * unit <= rng
            &&& unit <= (h - l) * unit <= rng
            &&& unit <= rng - l * unit
        }),
{
    let unit = rng / total;
    let rem = rng % total;
    vstd::arithmetic::div_mod::lemma_fundamental_div_mod(rng, total);
    vstd::arithmetic::div_mod::lemma_mod_bound(rng, total);
    assert(rng == total * unit + rem);
    assert(unit >= 1) by (nonlinear_arith)
        requires
            rng == total * unit + rem && rng >= total && 0 <= rem < total && total >= 1,
    ;
    assert(l * unit <= (total - 1) * unit && (total - 1) * unit + unit == total * unit)
        by (nonlinear_arith)
        requires
            0 <= l <= total - 1 && unit >= 1,
    ;
    assert(h * unit <= total * unit) by (nonlinear_arith)
        requires
            h <= total && unit >= 1,
    ;
    assert(total * unit <= rng);
    assert(unit <= (h - l) * unit && (h - l) * unit <= total * unit) by (nonlinear_arith)
        requires
            1 <= h - l && h - l <= total && unit >= 1,
    ;
}

/// The heart of the statistics round trip: when the decoder's code offset
/// lies in the interval the encoder gave a symbol, the clamped cumulative
/// target falls inside that symbol's bounds, so the decoder recovers the
/// same symbol from the same model.
pub proof fn lemma_range_coder_sync(rng: int, total: int, l: int, h: int, code: int)
    requires
        1 <= total <= rng,
        0 <= l < h <= total,
        l * (rng / total) <= code,
        code < (if h < total {
            h * (rng / total)
        } else {
            rng
        }),
    ensures
        l <= clamp_cum(code, rng / total, total) < h,
{
    let unit = rng / total;
    lemma_interval_math(rng, total, l, h);
    let cum0 = code / unit;
    vstd::arithmetic::div_mod::lemma_fundamental_div_mod(code, unit);
    vstd::arithmetic::div_mod::lemma_mod_bound(code, unit);
    assert(code == unit * cum0 + code % unit);
    assert(cum0 >= l) by (nonlinear_arith)
        requires
            code == unit * cum0 + code % unit && l * unit <= code && 0 <= code % unit < unit && unit
                >= 1,
    ;
    if h < total {
        assert(cum0 < h) by (nonlinear_arith)
            requires
                code == unit * cum0 + code % unit && code < h * unit && 0 <= code % unit && unit
                    >= 1,
        ;
    } else {
        assert(cum0 <= total - 1 ==> clamp_cum(code, unit, total) == cum0);
    }
}

/// First-symbol synchronization through the real byte stream: encode one
/// symbol from the fresh coder, flush, and the first four stream bytes prime
/// a code register whose clamped cumulative target falls inside that
/// symbol's bounds. This is exactly the decoder's first step — `Decoder::new`
/// reads those four bytes big-endian, and `decode` clamps the register by
/// the same unit — so a fresh decoder over the emitted stream, holding the
/// same initial model, recovers the first encoded symbol.
pub proof fn lemma_first_symbol_sync(l: int, h: int, t: int, fl: Seq<u8>)
    requires
        0 <= l < h <= t,
        1 <= t <= RANGE_THRESHOLD as int,
        fl.len() == 4,
        be32(fl) == encode_step(0, 0xFFFF_FFFF, l, h, t, Seq::empty()).0,
    ensures
        ({
            let st = encode_step(0, 0xFFFF_FFFF, l, h, t, Seq::empty());
            let stream = st.2 + fl;
            let unit = 0xFFFF_FFFFint / t;
            &&& stream.len() >= 4
            &&& be32(stream.take(4)) == l * unit
            &&& l <= clamp_cum(be32(stream.take(4)), unit, t) < h
        }),
{
    let rng = 0xFFFF_FFFFint;
    lemma_interval_math(rng, t, l, h);
    let unit = rng / t;
    // the first symbol starts from a zero register, so no carry is possible
    let sum = 0 + l * unit;
    assert(0 <= sum && sum <= rng);
    vstd::arithmetic::div_mod::lemma_small_mod(sum as nat, 0x1_0000_0000nat);
    let low1 = sum;
    let rng1 = if h < t {
        (h - l) * unit
    } else {
        rng - l * unit
    };
    assert(1 <= rng1);
    let st = encode_step(0, rng, l, h, t, Seq::empty());
    assert(st == renorm(low1, rng1, Seq::empty()));
    lemma_renorm_stream(low1, rng1, fl);
    assert(h < t ==> l * unit + (h - l) * unit == h * unit) by (nonlinear_arith);
    lemma_range_coder_sync(rng, t, l, h, l * unit);
}

/// Range coder state: the lower bound and the width of the current interval.
#[derive(Debug)]
pub struct RangeCoder {
    pub low: u32,
    pub rng: u32,
}

impl Default for RangeCoder {
    fn default() -> (r: Self)
        ensures
            r.low == 0,
            r.rng == 0xFFFF_FFFFu32,
    {
        RangeCoder::new()
    }
}

impl RangeCoder {
    /// Create a new range coder over the full interval.
    pub fn new() -> (r: Self)
        ensures
            r.low == 0,
            r.rng == 0xFFFF_FFFFu32,
    {
        RangeCoder { low: 0, rng: 0xFFFF_FFFF }
    }

    /// Reset to the full interval.
    pub fn reset(&mut self)
        ensures
            final(self).low == 0,
            final(self).rng == 0xFFFF_FFFFu32,
    {
        self.low = 0;
        self.rng = 0xFFFF_FFFF;
    }

    /// Calculate the next `low` and `rng` values for a symbol with
    /// cumulative bounds `[low, high)` out of `total`, before any carry or
    /// renormalization.
    pub fn next_interval(&self, low: u32, high: u32, total: u32) -> (r: (u32, u32))
        requires
            1 <= total <= self.rng,
            low < high,
            high <= total,
            self.low + low * (self.rng as int / total as int) <= u32::MAX,
        ensures
            r.0 == self.low + low * (self.rng as int / total as int),
            r.1 as int == dec_rng1(
                self.rng as int,
                self.rng as int / total as int,
                low as int,
                high as int,
                total as int,
            ),
    {
        proof {
            lemma_interval_math(self.rng as int, total as int, low as int, high as int);
        }
        let unit = self.rng / total;
        let new_low = self.low + low * unit;
        let new_rng = if high < total {
            (high - low) * unit
        } else {
            self.rng - low * unit
        };
        (new_low, new_rng)
    }

    /// Apply one carry to the bytes already emitted.
    fn carry_into(out: &mut Vec<u8>)
        ensures
            final(out)@ == carry_bytes(old(out)@),
            final(out)@.len() == old(out)@.len(),
    {
        let ghost o0 = out@;
        let mut i = out.len();
        proof {
            assert(o0 == old(out)@);
            assert(o0.take(i as int) =~= o0);
            assert(carry_bytes(o0.take(i as int)) + out@.skip(i as int) =~= carry_bytes(o0));
        }
        while i > 0
            invariant
                o0 == old(out)@,
                i <= out@.len(),
                out@.len() == o0.len(),
                out@.take(i as int) == o0.take(i as int),
                carry_bytes(o0) == carry_bytes(o0.take(i as int)) + out@.skip(i as int),
            decreases i,
        {
            let b = out[i - 1];
            let ghost pre = out@;
            proof {
                assert(o0.take(i as int).last() == o0[i - 1]);
                assert(o0.take(i as int).drop_last() =~= o0.take(i - 1));
                assert(pre[i - 1] == o0[i - 1]);
                assert(b == o0[i - 1]);
            }
            if b == 255 {
                out[i - 1] = 0;
                proof {
                    assert(carry_bytes(o0.take(i as int)) == carry_bytes(o0.take(i - 1)).push(0));
                    assert(out@.skip(i - 1) =~= seq![0u8] + pre.skip(i as int));
                    assert(carry_bytes(o0.take(i - 1)) + (seq![0u8] + pre.skip(i as int))
                        =~= (carry_bytes(o0.take(i - 1)).push(0u8)) + pre.skip(i as int));
                    assert(out@.take(i - 1) =~= o0.take(i - 1));
                }
                i = i - 1;
            } else {
                out[i - 1] = b + 1;
                proof {
                    let ti = o0.take(i as int);
                    assert(ti.len() == i as int);
                    assert(ti.last() == b);
                    assert(carry_bytes(ti) == ti.drop_last().push((ti.last() + 1) as u8));
                    assert(ti.drop_last() =~= o0.take(i - 1));
                    assert(out@.take(i as int) =~= o0.take(i - 1).push((b + 1) as u8));
                    assert(out@.skip(i as int) =~= pre.skip(i as int));
                    assert(carry_bytes(ti) == out@.take(i as int));
                    assert(out@ =~= out@.take(i as int) + out@.skip(i as int));
                    assert(carry_bytes(o0) == carry_bytes(ti) + pre.skip(i as int));
                    assert(out@ == carry_bytes(o0));
                }
                return ;
            }
        }
        proof {
            assert(o0.take(0) =~= Seq::<u8>::empty());
            assert(carry_bytes(Seq::<u8>::empty()) + out@.skip(0) =~= out@);
        }
    }

    /// Narrow the interval to the symbol's share and renormalize, emitting
    /// settled bytes into `out`; returns how many bytes were emitted.
    pub fn update(&mut self, low: u32, high: u32, total: u32, out: &mut Vec<u8>) -> (count: usize)
        requires
            1 <= total <= RANGE_THRESHOLD,
            low < high,
            high <= total,
            old(self).rng >= RANGE_THRESHOLD,
        ensures
            ({
                let st = encode_step(
                    old(self).low as int,
                    old(self).rng as int,
                    low as int,
                    high as int,
                    total as int,
                    old(out)@,
                );
                final(self).low as int == st.0 && final(self).rng as int == st.1 && final(out)@
                    == st.2
            }),
            final(self).rng >= RANGE_THRESHOLD,
            final(out)@.len() == old(out)@.len() + count,
    {
        proof {
            lemma_interval_math(self.rng as int, total as int, low as int, high as int);
        }
        let unit = self.rng / total;
        let lo0: u32 = self.low;
        let prod: u64 = (low as u64) * (unit as u64);
        let sum: u64 = (lo0 as u64) + prod;
        if sum > 0xFFFF_FFFFu64 {
            Self::carry_into(out);
        }
        let low1: u32 = #[verifier::truncate] (sum as u32);
        proof {
            assert(low1 as int == sum as int % 0x1_0000_0000) by (bit_vector)
                requires
                    low1 == (sum as u32),
            ;
        }
        let rng1: u32 = if high < total {
            (high - low) * unit
        } else {
            self.rng - low * unit
        };
        self.low = low1;
        self.rng = rng1;
        let ghost target = renorm(self.low as int, self.rng as int, out@);
        let ghost out_base = out@.len() as int;
        let mut count: usize = 0;
        while self.rng < RANGE_THRESHOLD
            invariant
                self.rng >= 1,
                renorm(self.low as int, self.rng as int, out@) == target,
                out@.len() == out_base + count,
                count + shifts_needed(self.rng as int) <= 3,
            decreases shifts_needed(self.rng as int),
        {
            let lo: u32 = self.low;
            let rg: u32 = self.rng;
            let b: u8 = #[verifier::truncate] ((lo >> 24) as u8);
            let lo2: u32 = lo << 8;
            let rg2: u32 = rg << 8;
            proof {
                assert(b as int == lo as int / 0x0100_0000) by (bit_vector)
                    requires
                        b == (lo >> 24) as u8,
                ;
                assert(lo2 as int == (lo as int * 256) % 0x1_0000_0000) by (bit_vector)
                    requires
                        lo2 == lo << 8,
                ;
                assert(rg2 as int == rg as int * 256) by (bit_vector)
                    requires
                        rg2 == rg << 8 && rg < 0x0100_0000u32,
                ;
            }
            out.push(b);
            self.low = lo2;
            self.rng = rg2;
            count = count + 1;
        }
        count
    }

    /// Finish coding: emit the four bytes of `low` in big-endian order.
    pub fn finish(&mut self, out: &mut Vec<u8>) -> (count: usize)
        ensures
            count == 4,
            *final(self) == *old(self),
            final(out)@.len() == old(out)@.len() + 4,
            final(out)@.take(old(out)@.len() as int) == old(out)@,
            be32(final(out)@.skip(old(out)@.len() as int)) == old(self).low as int,
    {
        let x = self.low;
        let b0: u8 = (x / 0x0100_0000) as u8;
        let b1: u8 = ((x / 0x1_0000) % 256) as u8;
        let b2: u8 = ((x / 0x100) % 256) as u8;
        let b3: u8 = (x % 256) as u8;
        out.push(b0);
        out.push(b1);
        out.push(b2);
        out.push(b3);
        proof {
            let xi = x as int;
            vstd::arithmetic::div_mod::lemma_fundamental_div_mod(xi, 0x100);
            vstd::arithmetic::div_mod::lemma_fundamental_div_mod(xi / 0x100, 0x100);
            vstd::arithmetic::div_mod::lemma_fundamental_div_mod(xi / 0x1_0000, 0x100);
            vstd::arithmetic::div_mod::lemma_div_denominator(xi, 0x100, 0x100);
            vstd::arithmetic::div_mod::lemma_div_denominator(xi, 0x1_0000, 0x100);
            assert(final(out)@.take(old(out)@.len() as int) =~= old(out)@);
            assert(final(out)@.skip(old(out)@.len() as int) =~= seq![b0, b1, b2, b3]);
            vstd::arithmetic::div_mod::lemma_mod_bound(xi, 0x100);
            vstd::arithmetic::div_mod::lemma_mod_bound(xi / 0x100, 0x100);
            vstd::arithmetic::div_mod::lemma_mod_bound(xi / 0x1_0000, 0x100);
        }
        4
    }

    /// The truncated cumulative position of a code value inside the current
    /// interval.
    pub fn get_index(&self, code: u32, total: u32) -> (r: u32)
        requires
            self.low <= code,
            code - self.low <= self.rng,
            self.rng >= 1,
            total >= 1,
        ensures
            r as int == ((code - self.low) * total as int) / self.rng as int,
    {
        let diff: u64 = (code - self.low) as u64;
        proof {
            assert((diff as int) * (total as int) < 0x1_0000_0000_0000_0000) by (nonlinear_arith)
                requires
                    diff <= 0xFFFF_FFFFu64 && total <= 0xFFFF_FFFFu32,
            ;
        }
        let wide: u64 = diff * (total as u64);
        let q: u64 = wide / (self.rng as u64);
        proof {
            let d = diff as int;
            let t = total as int;
            let rg = self.rng as int;
            assert(d * t <= rg * t) by (nonlinear_arith)
                requires
                    d <= rg && t >= 0,
            ;
            vstd::arithmetic::div_mod::lemma_fundamental_div_mod(d * t, rg);
            vstd::arithmetic::div_mod::lemma_mod_bound(d * t, rg);
            assert((d * t) / rg <= t) by (nonlinear_arith)
                requires
                    d * t == rg * ((d * t) / rg) + (d * t) % rg && 0 <= (d * t) % rg && d * t <= rg
                        * t && rg >= 1 && t >= 0,
            ;
        }
        q as u32
    }
}

/// The value register after reading `count` bytes into its low end.
pub open spec fn fill_spec(value: int, data: Seq<u8>, pos: int, count: int) -> int
    decreases count,
{
    if count <= 0 || pos < 0 || pos >= data.len() {
        value
    } else {
        fill_spec((value * 256 + data[pos]) % 0x1_0000_0000, data, pos + 1, count - 1)
    }
}

/// Range encoder: a range coder writing its settled bytes to an owned sink.
pub struct Encoder {
    pub inner: Vec<u8>,
    pub coder: RangeCoder,
}

impl Encoder {
    /// Create an encoder over the sink `w`.
    pub fn new(w: Vec<u8>) -> (r: Self)
        ensures
            r.inner@ == w@,
            r.coder.low == 0,
            r.coder.rng == 0xFFFF_FFFFu32,
    {
        Encoder { inner: w, coder: RangeCoder::default() }
    }

    /// Encode one symbol against the statistics model `ctx`: the symbol's
    /// cumulative bounds are taken before the model is updated, then the
    /// coder narrows its interval and emits any settled bytes to the sink.
    /// An unknown symbol is refused and changes nothing.
    pub fn drink<S: Statistics>(&mut self, symbol: &S::Symbol, ctx: &mut S) -> (r: Result<
        usize,
        StatisticsError,
    >)
        requires
            old(ctx).wf(),
            old(ctx).can_update(),
            forall|i: int| 1 <= i < old(ctx).counts().len() ==> old(ctx).counts()[i] >= 1,
            old(ctx).counts().len() >= 2,
            prefix_sum(old(ctx).counts(), old(ctx).counts().len() - 1) <= RANGE_THRESHOLD as int,
            old(self).coder.rng >= RANGE_THRESHOLD,
        ensures
            final(self).coder.rng >= RANGE_THRESHOLD,
            ({
                let key = S::key_of_sym(*symbol);
                let cs = old(ctx).counts();
                let n = cs.len() - 1;
                let total = prefix_sum(cs, n);
                let ix = key_index(old(ctx).keys(), key) + 1;
                match r {
                    Ok(count) => {
                        &&& old(ctx).keys().contains(key)
                        &&& final(ctx).keys() == old(ctx).keys()
                        &&& final(ctx).counts() == cs.update(ix, cs[ix] + old(ctx).inc_spec())
                        &&& ({
                            let st = encode_step(
                                old(self).coder.low as int,
                                old(self).coder.rng as int,
                                prefix_sum(cs, ix - 1),
                                prefix_sum(cs, ix),
                                total,
                                old(self).inner@,
                            );
                            final(self).coder.low as int == st.0 && final(self).coder.rng as int
                                == st.1 && final(self).inner@ == st.2
                        })
                        &&& final(self).inner@.len() == old(self).inner@.len() + count
                    },
                    Err(e) => {
                        &&& e == StatisticsError::UnknownSymbolError
                        &&& !old(ctx).keys().contains(key)
                        &&& *final(self) == *old(self)
                        &&& *final(ctx) == *old(ctx)
                    },
                }
            }),
    {
        let bounds = ctx.get_freq_bounds(symbol);
        match bounds {
            Ok((l, h, t)) => {
                proof {
                    ctx.lemma_wf_shape();
                    let cs = ctx.counts();
                    let n = cs.len() - 1;
                    let key = S::key_of_sym(*symbol);
                    let ix = key_index(ctx.keys(), key) + 1;
                    let w = choose|w: int| 0 <= w < ctx.keys().len() && ctx.keys()[w] == key;
                    assert(1 <= ix <= n);
                    assert(range_sum(cs, 0, ix) == range_sum(cs, 0, ix - 1) + cs[ix]);
                    lemma_range_sum_split(cs, 0, ix, n);
                    lemma_range_sum_nonneg_from(cs, ix, n);
                    lemma_range_sum_nonneg_from(cs, 0, ix - 1);
                    assert(cs[ix] >= 1);
                }
                let count = self.coder.update(l as u32, h as u32, t as u32, &mut self.inner);
                let upd = ctx.update_freq_count(symbol);
                proof {
                    assert(upd is Ok);
                }
                Ok(count)
            },
            Err(_) => Err(StatisticsError::UnknownSymbolError),
        }
    }

    /// Finish coding: flush the four bytes of `low` to the sink.
    pub fn finish(&mut self) -> (r: Result<usize, CodeError>)
        ensures
            r == Ok::<usize, CodeError>(4usize),
            final(self).coder == old(self).coder,
            final(self).inner@.len() == old(self).inner@.len() + 4,
            final(self).inner@.take(old(self).inner@.len() as int) == old(self).inner@,
            be32(final(self).inner@.skip(old(self).inner@.len() as int)) == old(
                self,
            ).coder.low as int,
    {
        let n = self.coder.finish(&mut self.inner);
        Ok(n)
    }

    /// Get a reference to the sink.
    pub fn get_ref(&self) -> (r: &Vec<u8>)
        ensures
            r == &self.inner,
    {
        &self.inner
    }

    /// Get a mutable reference to the sink.
    pub fn get_mut(&mut self) -> (r: &mut Vec<u8>)
        ensures
            final(self).inner == *final(r),
            final(self).coder == old(self).coder,
    {
        &mut self.inner
    }

    /// Take the sink out of the encoder.
    pub fn into_inner(self) -> (r: Vec<u8>)
        ensures
            r == self.inner,
    {
        self.inner
    }

    /// Get a reference to the inner range coder.
    pub fn get_ref_coder(&self) -> (r: &RangeCoder)
        ensures
            r == &self.coder,
    {
        &self.coder
    }

    /// Get a mutable reference to the inner range coder.
    pub fn get_mut_coder(&mut self) -> (r: &mut RangeCoder)
        ensures
            final(self).coder == *final(r),
            final(self).inner == old(self).inner,
    {
        &mut self.coder
    }

    /// Take the inner range coder out of the encoder.
    pub fn get_coder(self) -> (r: RangeCoder)
        ensures
            r == self.coder,
    {
        self.coder
    }
}

/// Range decoder: a range coder reading its bytes from an owned source.
pub struct Decoder {
    pub inner: Vec<u8>,
    pub coder: RangeCoder,
    pub value: u32,
    pub bytecount: usize,
    pub pos: usize,
}

impl Decoder {
    /// Create a decoder over the source `r`, whose body is expected to hold
    /// `bytes` coded bytes; the first four source bytes prime the code
    /// register, big-endian.
    pub fn new(r: Vec<u8>, bytes: usize) -> (d: Self)
        requires
            r@.len() >= 4,
        ensures
            d.inner@ == r@,
            d.pos == 4,
            d.bytecount == bytes,
            d.coder.low == 0,
            d.coder.rng == 0xFFFF_FFFFu32,
            d.value as int == be32(r@),
    {
        let value: u32 = (r[0] as u32) * 0x0100_0000 + (r[1] as u32) * 0x1_0000 + (r[2] as u32)
            * 0x100 + (r[3] as u32);
        Decoder { inner: r, coder: RangeCoder::new(), value, bytecount: bytes, pos: 4 }
    }

    /// Shift `count` source bytes into the low end of the code register.
    pub fn fill(&mut self, count: usize)
        requires
            old(self).pos + count <= old(self).inner@.len(),
        ensures
            final(self).value as int == fill_spec(
                old(self).value as int,
                old(self).inner@,
                old(self).pos as int,
                count as int,
            ),
            final(self).pos == old(self).pos + count,
            final(self).inner == old(self).inner,
            final(self).coder == old(self).coder,
            final(self).bytecount == old(self).bytecount,
    {
        let ghost data = self.inner@;
        let ghost target = fill_spec(self.value as int, data, self.pos as int, count as int);
        let mut c = count;
        while c > 0
            invariant
                self.inner == old(self).inner,
                data == self.inner@,
                self.pos + c <= self.inner@.len(),
                fill_spec(self.value as int, data, self.pos as int, c as int) == target,
                self.coder == old(self).coder,
                self.bytecount == old(self).bytecount,
                self.pos == old(self).pos + (count - c),
            decreases c,
        {
            let b = self.inner[self.pos];
            let vc: u32 = self.value;
            let v64: u64 = (vc as u64) * 256 + (b as u64);
            let v1: u32 = #[verifier::truncate] (v64 as u32);
            proof {
                assert(v1 as int == ((vc as u64) * 256 + (b as u64)) as int % 0x1_0000_0000)
                    by (bit_vector)
                    requires
                        v1 == (((vc as u64) * 256 + (b as u64)) as u32),
                ;
            }
            self.value = v1;
            let p = self.pos;
            let lim = self.inner.len();
            proof {
                assert(p < lim);
            }
            self.pos = p + 1;
            c = c - 1;
        }
    }

    /// Decode one symbol against the statistics model `ctx`: the clamped
    /// cumulative target of the code register picks the symbol whose bounds
    /// enclose it on the current model, the interval narrows exactly as the
    /// encoder's did, bytes are pulled in while it renormalizes, and only
    /// then is the model updated. A source too short to renormalize is
    /// refused and changes nothing.
    pub fn decode<M: SymbolMap>(&mut self, ctx: &mut Fenwick<M>) -> (r: Result<M::Input, CodeError>)
        requires
            old(ctx).swf(),
            old(ctx).supdate_ok(),
            forall|i: int| 1 <= i < old(ctx).scounts().len() ==> old(ctx).scounts()[i] >= 1,
            old(ctx).scounts().len() >= 2,
            prefix_sum(old(ctx).scounts(), old(ctx).scounts().len() - 1) <= RANGE_THRESHOLD as int,
            old(self).coder.rng >= RANGE_THRESHOLD,
            old(self).pos <= old(self).inner@.len(),
        ensures
            final(self).coder.rng >= RANGE_THRESHOLD,
            final(self).pos <= final(self).inner@.len(),
            final(self).inner == old(self).inner,
            final(self).bytecount == old(self).bytecount,
            final(self).coder.low == old(self).coder.low,
            final(ctx).swf(),
            ({
                let cs = old(ctx).scounts();
                let n = cs.len() - 1;
                let total = prefix_sum(cs, n);
                let unit = old(self).coder.rng as int / total;
                let cum = clamp_cum(old(self).value as int, unit, total);
                match r {
                    Ok(sym) => exists|ix: int|
                        #![trigger prefix_sum(cs, ix)]
                        {
                            &&& 0 <= ix < n
                            &&& prefix_sum(cs, ix) <= cum < prefix_sum(cs, ix + 1)
                            &&& M::key_of(sym) == old(ctx).skeys()[ix]
                            &&& final(ctx).skeys() == old(ctx).skeys()
                            &&& final(ctx).scounts() == cs.update(
                                ix + 1,
                                cs[ix + 1] + old(ctx).inc as int,
                            )
                            &&& ({
                                let l = prefix_sum(cs, ix);
                                let h = prefix_sum(cs, ix + 1);
                                let rng1 = dec_rng1(
                                    old(self).coder.rng as int,
                                    unit,
                                    l,
                                    h,
                                    total,
                                );
                                let st = decode_renorm(
                                    old(self).value - l * unit,
                                    rng1,
                                    old(self).pos as int,
                                    old(self).inner@,
                                );
                                &&& old(self).pos + shifts_needed(rng1) <= old(self).inner@.len()
                                &&& final(self).value as int == st.0
                                &&& final(self).coder.rng as int == st.1
                                &&& final(self).pos as int == st.2
                            })
                        },
                    Err(e) => {
                        &&& e == CodeError::IoError
                        &&& *final(self) == *old(self)
                        &&& *final(ctx) == *old(ctx)
                        &&& exists|ix: int|
                            #![trigger prefix_sum(cs, ix)]
                            {
                                &&& 0 <= ix < n
                                &&& prefix_sum(cs, ix) <= cum < prefix_sum(cs, ix + 1)
                                &&& old(self).pos + shifts_needed(
                                    dec_rng1(
                                        old(self).coder.rng as int,
                                        unit,
                                        prefix_sum(cs, ix),
                                        prefix_sum(cs, ix + 1),
                                        total,
                                    ),
                                ) > old(self).inner@.len()
                            }
                    },
                }
            }),
    {
        let ghost cs = ctx.scounts();
        let ghost n0 = cs.len() - 1;
        proof {
            crate::fenwick::lemma_tree_prefix_sum(ctx.freqs(), ctx.freqs().len() - 1);
            lemma_range_sum_split(cs, 0, 1, n0);
            lemma_range_sum_nonneg_from(cs, 1, n0);
            assert(range_sum(cs, 0, 1) == range_sum(cs, 0, 0) + cs[1]);
        }
        let total_us = ctx.get_total();
        let total: u32 = total_us as u32;
        let rng0: u32 = self.coder.rng;
        let val0: u32 = self.value;
        proof {
            lemma_interval_math(rng0 as int, total as int, 0, 1);
        }
        let unit: u32 = rng0 / total;
        let cumraw: u32 = val0 / unit;
        let cum: u32 = if cumraw > total - 1 {
            total - 1
        } else {
            cumraw
        };
        proof {
            assert(cum as int == clamp_cum(val0 as int, unit as int, total as int));
        }
        let ix = ctx.descend(cum as usize);
        let l_us = ctx.get_h_freq(ix);
        let h_us = ctx.get_h_freq(ix + 1);
        proof {
            assert(range_sum(cs, 0, ix + 1) == range_sum(cs, 0, ix as int) + cs[ix + 1]);
            lemma_range_sum_split(cs, 0, ix + 1, n0);
            lemma_range_sum_nonneg_from(cs, ix + 1, n0);
            lemma_range_sum_nonneg_from(cs, 0, ix as int);
            assert(cs[ix + 1] >= 1);
        }
        let l: u32 = l_us as u32;
        let h: u32 = h_us as u32;
        proof {
            lemma_interval_math(rng0 as int, total as int, l as int, h as int);
            // the symbol's scaled lower bound cannot pass the code register
            let ui = unit as int;
            vstd::arithmetic::div_mod::lemma_fundamental_div_mod(val0 as int, ui);
            vstd::arithmetic::div_mod::lemma_mod_bound(val0 as int, ui);
            assert((l as int) * ui <= val0 as int) by (nonlinear_arith)
                requires
                    val0 as int == ui * (val0 as int / ui) + (val0 as int) % ui && 0 <= (val0 as int)
                        % ui && l as int <= val0 as int / ui && ui >= 1,
            ;
        }
        let value1: u32 = val0 - l * unit;
        let rng1: u32 = if h < total {
            (h - l) * unit
        } else {
            rng0 - l * unit
        };
        let need: usize = if rng1 >= RANGE_THRESHOLD {
            0
        } else if rng1 >= 0x1_0000 {
            1
        } else if rng1 >= 0x100 {
            2
        } else {
            3
        };
        if need > self.inner.len() - self.pos {
            proof {
                // the matched interval is the witness: too few bytes remain
                // for the renormalization its width demands
                assert(prefix_sum(cs, ix as int) <= cum as int && (cum as int) < prefix_sum(
                    cs,
                    ix + 1,
                ));
                assert(rng1 as int == dec_rng1(
                    rng0 as int,
                    unit as int,
                    prefix_sum(cs, ix as int),
                    prefix_sum(cs, ix + 1),
                    total as int,
                ));
                assert(need == shifts_needed(rng1 as int));
            }
            return Err(CodeError::IoError);
        }
        self.value = value1;
        self.coder.rng = rng1;
        let ghost dtarget = decode_renorm(
            self.value as int,
            self.coder.rng as int,
            self.pos as int,
            self.inner@,
        );
        while self.coder.rng < RANGE_THRESHOLD
            invariant
                self.coder.rng >= 1,
                self.pos + shifts_needed(self.coder.rng as int) <= self.inner@.len(),
                decode_renorm(self.value as int, self.coder.rng as int, self.pos as int, self.inner@)
                    == dtarget,
                self.inner == old(self).inner,
                self.coder.low == old(self).coder.low,
                self.bytecount == old(self).bytecount,
            decreases shifts_needed(self.coder.rng as int),
        {
            let b = self.inner[self.pos];
            let vc: u32 = self.value;
            let v64: u64 = (vc as u64) * 256 + (b as u64);
            let v1: u32 = #[verifier::truncate] (v64 as u32);
            proof {
                assert(v1 as int == ((vc as u64) * 256 + (b as u64)) as int % 0x1_0000_0000)
                    by (bit_vector)
                    requires
                        v1 == (((vc as u64) * 256 + (b as u64)) as u32),
                ;
            }
            let rg: u32 = self.coder.rng;
            let rg2: u32 = rg << 8;
            proof {
                assert(rg2 as int == rg as int * 256) by (bit_vector)
                    requires
                        rg2 == rg << 8 && rg < 0x0100_0000u32,
                ;
            }
            self.value = v1;
            self.coder.rng = rg2;
            let p = self.pos;
            let lim = self.inner.len();
            proof {
                assert(p < lim);
            }
            self.pos = p + 1;
        }
        let sym = ctx.map.symbol_owned_at(ix + 1);
        proof {
            ctx.map.lemma_wf_distinct();
            assert(ctx.skeys().contains(M::key_of(sym))) by {
                assert(ctx.skeys()[ix as int] == M::key_of(sym));
            }
            crate::fenwick_map::lemma_key_index_unique(ctx.skeys(), M::key_of(sym), ix as int);
        }
        let upd = ctx.update_freq_count(&sym);
        proof {
            assert(upd is Ok);
            assert(prefix_sum(cs, ix as int) <= cum as int && (cum as int) < prefix_sum(cs, ix + 1));
        }
        Ok(sym)
    }
}

} // verus!
