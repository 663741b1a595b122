//! The statistics contract of the arithmetic coder.
//!
//! A statistics model maintains one cumulative frequency per symbol. Symbols
//! are mapped to dense indices `1..=N`; index 0 is a sentinel whose count is
//! always zero. The model of a statistics engine is the sequence `counts` of
//! per-index weights together with the sequence `keys` of symbol values in
//! index order; every operation is specified over prefix sums of `counts`.

use vstd::prelude::*;

verus! {

/// The sum of `c[lo + 1 ..= hi]`.
pub open spec fn range_sum(c: Seq<int>, lo: int, hi: int) -> int
    decreases hi - lo,
{
    if lo >= hi {
        0
    } else {
        range_sum(c, lo, hi - 1) + c[hi]
    }
}

/// The sum of `c[1 ..= i]`: the cumulative frequency below index `i + 1`.
pub open spec fn prefix_sum(c: Seq<int>, i: int) -> int {
    range_sum(c, 0, i)
}

/// The position of `key` in `keys`; unique when keys are distinct. The
/// symbol at position `k` carries index `k + 1`.
pub open spec fn key_index<K>(keys: Seq<K>, key: K) -> int {
    choose|i: int| 0 <= i < keys.len() && keys[i] == key
}

/// Splitting a sum at a midpoint.
pub proof fn lemma_range_sum_split(c: Seq<int>, lo: int, mid: int, hi: int)
    requires
        lo <= mid <= hi,
    ensures
        range_sum(c, lo, hi) == range_sum(c, lo, mid) + range_sum(c, mid, hi),
    decreases hi - mid,
{
    if mid < hi {
        lemma_range_sum_split(c, lo, mid, hi - 1);
    }
}

/// A sum over positions at or above 1 is nonnegative when all weights from
/// position 1 on are.
pub proof fn lemma_range_sum_nonneg_from(c: Seq<int>, lo: int, hi: int)
    requires
        0 <= lo,
        hi < c.len(),
        forall|i: int| 1 <= i < c.len() ==> c[i] >= 0,
    ensures
        range_sum(c, lo, hi) >= 0,
    decreases hi - lo,
{
    if lo < hi {
        assert(c[hi] >= 0);
        lemma_range_sum_nonneg_from(c, lo, hi - 1);
        assert(range_sum(c, lo, hi) == range_sum(c, lo, hi - 1) + c[hi]);
    } else {
        assert(range_sum(c, lo, hi) == 0);
    }
}

/// The largest total weight a model may hold; chosen with headroom below
/// `2^31 - 1` so that every cumulative frequency stays below `2^31` even
/// right after a normalization.
pub const MAX_TOTAL_COUNT: usize = 0x7FFF_FE00;

/// The largest number of distinct symbols a model may hold.
pub const MAX_ALPHABET: usize = 0x0FFF_FFFF;

/// One step of the statistics fold: a seen symbol gains `inc` weight, an
/// unseen one is installed with weight 1.
pub open spec fn stats_feed_step<K>(keys: Seq<K>, counts: Seq<int>, inc: int, key: K) -> (
    Seq<K>,
    Seq<int>,
) {
    if keys.contains(key) {
        let ix = key_index(keys, key) + 1;
        (keys, counts.update(ix, counts[ix] + inc))
    } else {
        (keys.push(key), counts.push(1))
    }
}

/// The statistics model after observing `syms` in order.
pub open spec fn stats_feed<K>(keys: Seq<K>, counts: Seq<int>, inc: int, syms: Seq<K>) -> (
    Seq<K>,
    Seq<int>,
)
    decreases syms.len(),
{
    if syms.len() == 0 {
        (keys, counts)
    } else {
        let st = stats_feed_step(keys, counts, inc, syms[0]);
        stats_feed(st.0, st.1, inc, syms.skip(1))
    }
}

/// The number of occurrences of `key` in `syms`.
pub open spec fn occ_count<K>(syms: Seq<K>, key: K) -> int
    decreases syms.len(),
{
    if syms.len() == 0 {
        0
    } else {
        (if syms[0] == key {
            1int
        } else {
            0int
        }) + occ_count(syms.skip(1), key)
    }
}

/// Distinctness of a key sequence.
pub open spec fn all_distinct<K>(keys: Seq<K>) -> bool {
    forall|i: int, j: int| 0 <= i < j < keys.len() ==> keys[i] != keys[j]
}

/// Feeding observes counts exactly: starting from a model whose keys are
/// distinct and updating by one per symbol, every index ends up with its
/// starting weight plus the number of occurrences of its key among the fed
/// symbols; newly seen keys are appended in order of first appearance and
/// end up with exactly their occurrence count.
pub proof fn lemma_feed_observed_counts<K>(keys: Seq<K>, counts: Seq<int>, syms: Seq<K>)
    requires
        all_distinct(keys),
        counts.len() == keys.len() + 1,
    ensures
        ({
            let folded = stats_feed(keys, counts, 1, syms);
            let k2 = folded.0;
            let c2 = folded.1;
            &&& c2.len() == k2.len() + 1
            &&& k2.len() >= keys.len()
            &&& all_distinct(k2)
            &&& forall|j: int| 0 <= j < keys.len() ==> k2[j] == keys[j]
            &&& forall|j: int|
                1 <= j < c2.len() ==> c2[j] == (if j < counts.len() {
                    counts[j]
                } else {
                    0int
                }) + occ_count(syms, k2[j - 1])
        }),
    decreases syms.len(),
{
    let folded = stats_feed(keys, counts, 1, syms);
    let k2 = folded.0;
    let c2 = folded.1;
    if syms.len() == 0 {
        assert forall|j: int|
            1 <= j < c2.len() implies c2[j] == (if j < counts.len() {
            counts[j]
        } else {
            0int
        }) + occ_count(syms, k2[j - 1]) by {
            assert(occ_count(syms, k2[j - 1]) == 0);
        }
    } else {
        let key = syms[0];
        let rest = syms.skip(1);
        let st = stats_feed_step(keys, counts, 1, key);
        let k1 = st.0;
        let c1 = st.1;
        if keys.contains(key) {
            let ix = key_index(keys, key) + 1;
            assert(0 <= ix - 1 < keys.len() && keys[ix - 1] == key);
            lemma_feed_observed_counts(keys, c1, rest);
            assert forall|j: int|
                1 <= j < c2.len() implies c2[j] == (if j < counts.len() {
                counts[j]
            } else {
                0int
            }) + occ_count(syms, k2[j - 1]) by {
                assert(c2[j] == (if j < c1.len() {
                    c1[j]
                } else {
                    0int
                }) + occ_count(rest, k2[j - 1]));
                if j < counts.len() {
                    assert(k2[j - 1] == keys[j - 1]);
                    if j == ix {
                        assert(c1[j] == counts[j] + 1);
                        assert(k2[j - 1] == key);
                    } else {
                        assert(c1[j] == counts[j]);
                        // distinct keys make the indexed key differ from the fed one
                        assert(keys[j - 1] != key);
                    }
                } else {
                    // a key first seen later cannot be the fed one
                    if k2[j - 1] == key {
                        assert(k2[ix - 1] == keys[ix - 1]);
                        assert(k2[ix - 1] == k2[j - 1]);
                    }
                }
            }
        } else {
            assert(k1 =~= keys.push(key));
            assert(c1 =~= counts.push(1));
            assert forall|i: int, j: int| 0 <= i < j < k1.len() implies k1[i] != k1[j] by {
                if j == keys.len() {
                    if keys[i] == key {
                        assert(keys.contains(key));
                    }
                }
            }
            lemma_feed_observed_counts(k1, c1, rest);
            assert forall|j: int| 0 <= j < keys.len() implies k2[j] == keys[j] by {
                assert(k2[j] == k1[j]);
                assert(k1[j] == keys[j]);
            }
            assert forall|j: int|
                1 <= j < c2.len() implies c2[j] == (if j < counts.len() {
                counts[j]
            } else {
                0int
            }) + occ_count(syms, k2[j - 1]) by {
                assert(c2[j] == (if j < c1.len() {
                    c1[j]
                } else {
                    0int
                }) + occ_count(rest, k2[j - 1]));
                if j < counts.len() {
                    assert(k2[j - 1] == keys[j - 1]);
                    if keys[j - 1] == key {
                        assert(keys.contains(key));
                    }
                } else if j == counts.len() {
                    // the newly installed key: one occurrence now, plus the rest
                    assert(k2[j - 1] == k1[j - 1]);
                    assert(k2[j - 1] == key);
                    assert(c1[j] == 1);
                } else {
                    // keys first seen later differ from the fed one
                    if k2[j - 1] == key {
                        assert(all_distinct(k2));
                        assert(k2[keys.len() as int] == k1[keys.len() as int]);
                        assert(k2[keys.len() as int] == key);
                    }
                }
            }
        }
    }
}

/// With nonnegative weights, at most one index's cumulative interval holds a
/// given target, so a decoder that finds the target's interval on the same
/// model recovers exactly the symbol the encoder coded.
pub proof fn lemma_matched_index_unique(cs: Seq<int>, cum: int, i1: int, i2: int)
    requires
        forall|i: int| 1 <= i < cs.len() ==> cs[i] >= 0,
        1 <= i1 < cs.len(),
        1 <= i2 < cs.len(),
        prefix_sum(cs, i1 - 1) <= cum < prefix_sum(cs, i1),
        prefix_sum(cs, i2 - 1) <= cum < prefix_sum(cs, i2),
    ensures
        i1 == i2,
{
    if i1 < i2 {
        lemma_range_sum_split(cs, 0, i1, i2 - 1);
        lemma_range_sum_nonneg_from(cs, i1, i2 - 1);
    } else if i2 < i1 {
        lemma_range_sum_split(cs, 0, i2, i1 - 1);
        lemma_range_sum_nonneg_from(cs, i2, i1 - 1);
    }
}

/// An enum representing possible errors during statistics queries.
#[derive(Debug, PartialEq, Eq, Structural)]
pub enum StatisticsError {
    /// Symbol not found in the statistics.
    UnknownSymbolError,
    /// Error while updating the statistics.
    UpdateError,
}

/// An adaptive order-0 statistics model for a range coder.
///
/// `keys` lists the mathematical value of every symbol seen so far, in order
/// of first appearance; the symbol at position `k` has index `k + 1`.
/// `counts` holds one weight per index (position 0 is the sentinel and stays
/// zero). A symbol's cumulative interval is
/// `[prefix_sum(counts, ix - 1), prefix_sum(counts, ix))`.
pub trait Statistics: Sized {
    type Symbol;

    type SymbolKey;

    /// The mathematical value of a symbol.
    spec fn key_of_sym(s: Self::Symbol) -> Self::SymbolKey;

    /// Symbols seen so far, by index.
    spec fn keys(&self) -> Seq<Self::SymbolKey>;

    /// The weight of each index; entry 0 is the sentinel.
    spec fn counts(&self) -> Seq<int>;

    /// The additive weight of one update.
    spec fn inc_spec(&self) -> int;

    /// The model's internal invariant.
    spec fn wf(&self) -> bool;

    /// Whether one more update fits without overflowing the frequency caps.
    spec fn can_update(&self) -> bool;

    /// A well-formed model has one weight per symbol plus the sentinel,
    /// whose weight is zero.
    proof fn lemma_wf_shape(&self)
        requires
            self.wf(),
        ensures
            self.counts().len() == self.keys().len() + 1,
            self.counts()[0] == 0,
    ;

    /// The cumulative interval of `symbol` and the model's total weight:
    /// `(prefix_sum(ix - 1), prefix_sum(ix), total)` for the symbol's index
    /// `ix`; an unknown symbol is refused.
    fn get_freq_bounds(&self, symbol: &Self::Symbol) -> (r: Result<
        (usize, usize, usize),
        StatisticsError,
    >)
        requires
            self.wf(),
        ensures
            ({
                let key = Self::key_of_sym(*symbol);
                let ix = key_index(self.keys(), key) + 1;
                match r {
                    Ok(b) => self.keys().contains(key) && b.0 == prefix_sum(self.counts(), ix - 1)
                        && b.1 == prefix_sum(self.counts(), ix) && b.2 == prefix_sum(
                        self.counts(),
                        self.counts().len() - 1,
                    ),
                    Err(e) => e == StatisticsError::UnknownSymbolError && !self.keys().contains(
                        key,
                    ),
                }
            }),
    ;

    /// Add one weight to `symbol`, installing it with weight 1 on first
    /// sight.
    fn update_freq_count(&mut self, symbol: &Self::Symbol) -> (r: Result<(), StatisticsError>)
        requires
            old(self).wf(),
            old(self).can_update(),
        ensures
            final(self).wf(),
            r is Ok,
            final(self).inc_spec() == old(self).inc_spec(),
            ({
                let key = Self::key_of_sym(*symbol);
                if old(self).keys().contains(key) {
                    let ix = key_index(old(self).keys(), key) + 1;
                    final(self).keys() == old(self).keys() && final(self).counts() == old(
                        self,
                    ).counts().update(ix, old(self).counts()[ix] + old(self).inc_spec())
                } else {
                    final(self).keys() == old(self).keys().push(key) && final(self).counts() == old(
                        self,
                    ).counts().push(1)
                }
            }),
    ;

    /// The symbol at the matched index for a cumulative target: the largest
    /// index whose cumulative frequency does not exceed `target`. Exact when
    /// the counts are nonnegative; a target at or above the total weight, or
    /// below the first index's cumulative frequency, is refused.
    fn get_symbol(&self, target: usize) -> (r: Result<&Self::Symbol, StatisticsError>)
        requires
            self.wf(),
        ensures
            (forall|i: int| 1 <= i < self.counts().len() ==> self.counts()[i] >= 0) ==> {
                let n = self.counts().len() - 1;
                if target < prefix_sum(self.counts(), n) {
                    match r {
                        Ok(s) => exists|ix: int|
                            #![trigger prefix_sum(self.counts(), ix)]
                            1 <= ix <= n && prefix_sum(self.counts(), ix) <= target && (ix == n
                                || target < prefix_sum(self.counts(), ix + 1)) && Self::key_of_sym(
                                *s,
                            ) == self.keys()[ix - 1],
                        Err(e) => e == StatisticsError::UnknownSymbolError && target < prefix_sum(
                            self.counts(),
                            1,
                        ),
                    }
                } else {
                    r == Err::<&Self::Symbol, StatisticsError>(StatisticsError::UnknownSymbolError)
                }
            },
    ;

    /// The total weight observed so far.
    fn get_total(&self) -> (r: usize)
        requires
            self.wf(),
        ensures
            r == prefix_sum(self.counts(), self.counts().len() - 1),
    ;

    /// Update the model once per symbol of `data`, in order.
    fn feed(&mut self, data: &[Self::Symbol]) -> (r: Result<(), StatisticsError>)
        requires
            old(self).wf(),
            prefix_sum(old(self).counts(), old(self).counts().len() - 1) + data@.len() * old(
                self,
            ).inc_spec() <= MAX_TOTAL_COUNT,
            old(self).keys().len() + data@.len() <= MAX_ALPHABET,
            old(self).inc_spec() >= 1,
        ensures
            final(self).wf(),
            r is Ok,
            final(self).inc_spec() == old(self).inc_spec(),
            ({
                let folded = stats_feed(
                    old(self).keys(),
                    old(self).counts(),
                    old(self).inc_spec(),
                    data@.map_values(|s: Self::Symbol| Self::key_of_sym(s)),
                );
                final(self).keys() == folded.0 && final(self).counts() == folded.1
            }),
    ;
}

} // verus!
