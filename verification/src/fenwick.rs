//! Fenwick tree structure for implicit O(log n) cumulative frequency counts.
//!
//! The tree is an implicit array `freq` over positions `0..=N`, position 0
//! always zero. Position `i` holds the sum of the per-index weights over
//! `(i - lsb(i), i]`, where `lsb` is the least significant set bit, so both
//! a cumulative count and a point update walk O(log n) positions.

use vstd::prelude::*;
use crate::statistics::{
    range_sum, prefix_sum, key_index, stats_feed, stats_feed_step, Statistics, StatisticsError,
    MAX_TOTAL_COUNT, MAX_ALPHABET,
};
use crate::fenwick_map::{SymbolMap, Cartographer};

verus! {

/// The least significant set bit of `i`; 0 for arguments at or below 0.
pub open spec fn lsb(i: int) -> int
    decreases i,
{
    if i <= 0 {
        0
    } else if i % 2 == 1 {
        1
    } else {
        2 * lsb(i / 2)
    }
}

/// The least significant set bit of a positive number lies between 1 and the
/// number itself.
pub proof fn lemma_lsb_range(i: int)
    requires
        i >= 1,
    ensures
        1 <= lsb(i) <= i,
    decreases i,
{
    if i % 2 != 1 {
        lemma_lsb_range(i / 2);
    }
}

/// Adding less than the least significant bit does not disturb it: the sum's
/// least significant bit is that of the addend.
proof fn lemma_lsb_add_small(p: int, r: int)
    requires
        p >= 1,
        0 < r < lsb(p),
    ensures
        lsb(p + r) == lsb(r),
    decreases p,
{
    lemma_lsb_range(p);
    if p % 2 == 1 {
        // lsb(p) == 1 leaves no room for r
        assert(false);
    } else {
        if r % 2 == 1 {
            assert((p + r) % 2 == 1);
        } else {
            assert(r >= 2);
            assert(r / 2 < lsb(p / 2));
            lemma_lsb_add_small(p / 2, r / 2);
            assert((p + r) / 2 == p / 2 + r / 2);
            assert(lsb(p + r) == 2 * lsb(p / 2 + r / 2));
        }
    }
}

/// Adding the least significant bit at least doubles it.
proof fn lemma_lsb_add_self(p: int)
    requires
        p >= 1,
    ensures
        lsb(p + lsb(p)) >= 2 * lsb(p),
    decreases p,
{
    if p % 2 == 1 {
        assert(lsb(p) == 1);
        assert((p + 1) % 2 == 0);
        assert(lsb(p + 1) == 2 * lsb((p + 1) / 2));
        lemma_lsb_range((p + 1) / 2);
    } else {
        lemma_lsb_add_self(p / 2);
        assert(lsb(p) == 2 * lsb(p / 2));
        assert((p + lsb(p)) % 2 == 0);
        assert((p + lsb(p)) / 2 == p / 2 + lsb(p / 2));
        assert(lsb(p + lsb(p)) == 2 * lsb(p / 2 + lsb(p / 2)));
    }
}

/// A power of two dividing `k * s` divides its least significant bit.
proof fn lemma_lsb_multiple(k: int, s: int)
    requires
        k >= 1,
        s >= 1,
        lsb(s) == s,
    ensures
        lsb(k * s) >= s,
    decreases s,
{
    if s == 1 {
        lemma_lsb_range(k * s);
        assert(k * s >= 1) by (nonlinear_arith)
            requires
                k >= 1 && s >= 1,
        ;
    } else {
        assert(s % 2 == 0);
        assert(lsb(s) == 2 * lsb(s / 2));
        assert(lsb(s / 2) == s / 2);
        assert(k * s == 2 * (k * (s / 2))) by (nonlinear_arith)
            requires
                s % 2 == 0,
        ;
        assert(k * (s / 2) >= 1) by (nonlinear_arith)
            requires
                k >= 1 && s / 2 >= 1,
        ;
        lemma_lsb_multiple(k, s / 2);
        assert((k * s) % 2 == 0) by (nonlinear_arith)
            requires
                k * s == 2 * (k * (s / 2)),
        ;
        assert((k * s) / 2 == k * (s / 2)) by (nonlinear_arith)
            requires
                k * s == 2 * (k * (s / 2)),
        ;
        assert(lsb(k * s) == 2 * lsb(k * (s / 2)));
    }
}

/// Whether the tree position `i` covers the index `j`: position `i` holds the
/// sum of the weights over `(i - lsb(i), i]`.
pub open spec fn covers(i: int, j: int) -> bool {
    i - lsb(i) < j <= i
}

/// Walking from a covering position to the next: `p + lsb(p)` covers `j`
/// again, and no position in between does.
proof fn lemma_covers_next(p: int, j: int)
    requires
        1 <= j <= p,
        covers(p, j),
    ensures
        covers(p + lsb(p), j),
        forall|q: int| p < q < p + lsb(p) ==> !covers(q, j),
{
    lemma_lsb_range(p);
    lemma_lsb_add_self(p);
    assert forall|q: int| p < q < p + lsb(p) implies !covers(q, j) by {
        let r = q - p;
        lemma_lsb_add_small(p, r);
        lemma_lsb_range(r);
        assert(q - lsb(q) == p + (r - lsb(r)));
    }
}

/// The cumulative count at position `i`: the sum of the tree entries along
/// the walk `i`, `i - lsb(i)`, ... down to 0.
pub open spec fn tree_prefix(freq: Seq<int>, i: int) -> int
    decreases i,
    via tree_prefix_decreases
{
    if i <= 0 {
        0
    } else {
        freq[i] + tree_prefix(freq, i - lsb(i))
    }
}

#[via_fn]
proof fn tree_prefix_decreases(freq: Seq<int>, i: int) {
    if i > 0 {
        lemma_lsb_range(i);
    }
}

/// The per-index weights that a tree array stands for: differences of
/// consecutive cumulative counts; entry 0 is the sentinel.
pub open spec fn tree_counts(freq: Seq<int>) -> Seq<int> {
    Seq::new(
        freq.len(),
        |i: int|
            if i <= 0 {
                0
            } else {
                tree_prefix(freq, i) - tree_prefix(freq, i - 1)
            },
    )
}

/// The prefix sum of the derived weights is the cumulative count of the walk.
pub proof fn lemma_tree_prefix_sum(freq: Seq<int>, i: int)
    requires
        0 <= i < freq.len(),
    ensures
        prefix_sum(tree_counts(freq), i) == tree_prefix(freq, i),
    decreases i,
{
    if i > 0 {
        lemma_tree_prefix_sum(freq, i - 1);
        assert(range_sum(tree_counts(freq), 0, i) == range_sum(tree_counts(freq), 0, i - 1)
            + tree_counts(freq)[i]);
    } else {
        lemma_lsb_range(1);
        assert(range_sum(tree_counts(freq), 0, 0) == 0);
    }
}

/// A sum of derived weights telescopes to a difference of cumulative counts.
pub proof fn lemma_tree_range_sum(freq: Seq<int>, a: int, b: int)
    requires
        0 <= a <= b < freq.len(),
    ensures
        range_sum(tree_counts(freq), a, b) == tree_prefix(freq, b) - tree_prefix(freq, a),
    decreases b - a,
{
    if a < b {
        lemma_tree_range_sum(freq, a, b - 1);
    }
}

/// Every tree entry is the sum of the derived weights over the range it
/// covers.
pub proof fn lemma_tree_node(freq: Seq<int>, i: int)
    requires
        1 <= i < freq.len(),
    ensures
        freq[i] == range_sum(tree_counts(freq), i - lsb(i), i),
{
    lemma_lsb_range(i);
    lemma_tree_range_sum(freq, i - lsb(i), i);
    assert(tree_prefix(freq, i) == freq[i] + tree_prefix(freq, i - lsb(i)));
}

/// Cumulative counts are nonnegative when the tree entries are.
pub proof fn lemma_tree_prefix_nonneg(freq: Seq<int>, i: int)
    requires
        i < freq.len(),
        forall|k: int| 0 <= k < freq.len() ==> freq[k] >= 0,
    ensures
        tree_prefix(freq, i) >= 0,
    decreases i,
{
    if i > 0 {
        lemma_lsb_range(i);
        lemma_tree_prefix_nonneg(freq, i - lsb(i));
        assert(tree_prefix(freq, i) == freq[i] + tree_prefix(freq, i - lsb(i)));
    } else {
        assert(tree_prefix(freq, i) == 0);
    }
}

/// The least significant set bit of a positive number, found by stripping
/// factors of two.
fn low_bit(num: usize) -> (r: usize)
    requires
        num >= 1,
    ensures
        r as int == lsb(num as int),
{
    let mut step: usize = 1;
    let mut cur: usize = num;
    while cur % 2 == 0
        invariant
            1 <= cur,
            1 <= step,
            step * cur == num,
            lsb(num as int) == step * lsb(cur as int),
        decreases cur,
    {
        let ghost step0 = step as int;
        let ghost cur0 = cur as int;
        proof {
            assert(step0 * 2 <= num as int) by (nonlinear_arith)
                requires
                    step0 * cur0 == num as int && cur0 >= 2 && step0 >= 1,
            ;
        }
        cur = cur / 2;
        step = step * 2;
        proof {
            assert(step as int * cur as int == num as int) by (nonlinear_arith)
                requires
                    step0 * cur0 == num as int && cur0 % 2 == 0 && step as int == 2 * step0 && cur
                        as int == cur0 / 2,
            ;
            assert(lsb(cur0) == 2 * lsb(cur0 / 2));
            assert(step0 * (2 * lsb(cur0 / 2)) == (2 * step0) * lsb(cur0 / 2))
                by (nonlinear_arith);
        }
    }
    proof {
        assert(lsb(cur as int) == 1);
        assert(step as int * 1 == step as int) by (nonlinear_arith);
    }
    step
}

/// Backwards step of the cumulative walk: drop the least significant bit.
pub fn backward(num: usize) -> (r: usize)
    requires
        num >= 1,
    ensures
        r as int == num - lsb(num as int),
{
    let l = low_bit(num);
    proof {
        lemma_lsb_range(num as int);
    }
    num - l
}

/// Forward step of the update walk: add the least significant bit.
pub fn forward(num: usize) -> (r: usize)
    requires
        num >= 1,
        num + lsb(num as int) <= usize::MAX,
    ensures
        r as int == num + lsb(num as int),
{
    let l = low_bit(num);
    num + l
}

/// The least significant bit of an odd multiple of a power of two is that
/// power of two.
proof fn lemma_lsb_odd_multiple(k: int, s: int)
    requires
        k >= 1,
        k % 2 == 1,
        s >= 1,
        lsb(s) == s,
    ensures
        lsb(k * s) == s,
    decreases s,
{
    if s == 1 {
        assert(k * s == k) by (nonlinear_arith)
            requires
                s == 1,
        ;
    } else {
        assert(s % 2 == 0);
        assert(lsb(s / 2) == s / 2);
        assert(k * s == 2 * (k * (s / 2))) by (nonlinear_arith)
            requires
                s % 2 == 0,
        ;
        assert(k * (s / 2) >= 1) by (nonlinear_arith)
            requires
                k >= 1 && s / 2 >= 1,
        ;
        lemma_lsb_odd_multiple(k, s / 2);
        assert((k * s) % 2 == 0) by (nonlinear_arith)
            requires
                k * s == 2 * (k * (s / 2)),
        ;
        assert((k * s) / 2 == k * (s / 2)) by (nonlinear_arith)
            requires
                k * s == 2 * (k * (s / 2)),
        ;
        assert(lsb(k * s) == 2 * lsb(k * (s / 2)));
    }
}

/// The least significant bit of `(2k - 1) * s` is `s`, for a power of two
/// `s`: stepping one `s` back from an even multiple lands on an odd one.
proof fn lemma_lsb_sub(k: int, s: int)
    requires
        k >= 1,
        s >= 1,
        lsb(s) == s,
    ensures
        lsb(2 * k * s - s) == s,
{
    assert(2 * k * s - s == (2 * k - 1) * s) by (nonlinear_arith);
    lemma_lsb_odd_multiple(2 * k - 1, s);
}

/// After adding `inc` to every covering position of `j`, each cumulative
/// count at or beyond `j` grows by exactly `inc` and the others are
/// untouched.
proof fn lemma_tp_after_update(f0: Seq<int>, f1: Seq<int>, j: int, inc: int, i: int)
    requires
        f0.len() == f1.len(),
        1 <= j < f0.len(),
        forall|k: int|
            1 <= k < f0.len() ==> f1[k] == f0[k] + (if covers(k, j) {
                inc
            } else {
                0int
            }),
        0 <= i < f0.len(),
    ensures
        tree_prefix(f1, i) == tree_prefix(f0, i) + if j <= i {
            inc
        } else {
            0int
        },
    decreases i,
{
    if i == 0 {
        assert(tree_prefix(f1, 0) == 0);
        assert(tree_prefix(f0, 0) == 0);
    } else {
        lemma_lsb_range(i);
        let prev = i - lsb(i);
        lemma_tp_after_update(f0, f1, j, inc, prev);
        assert(tree_prefix(f1, i) == f1[i] + tree_prefix(f1, prev));
        assert(tree_prefix(f0, i) == f0[i] + tree_prefix(f0, prev));
        if j <= prev {
            assert(!covers(i, j));
        } else if j <= i {
            assert(covers(i, j));
        } else {
            assert(!covers(i, j));
        }
    }
}

/// Appending an entry leaves the cumulative counts of earlier positions
/// unchanged.
proof fn lemma_tp_push(f0: Seq<int>, v: int, i: int)
    requires
        0 <= i < f0.len(),
    ensures
        tree_prefix(f0.push(v), i) == tree_prefix(f0, i),
    decreases i,
{
    if i > 0 {
        lemma_lsb_range(i);
        lemma_tp_push(f0, v, i - lsb(i));
        assert(f0.push(v)[i] == f0[i]);
        assert(tree_prefix(f0.push(v), i) == f0.push(v)[i] + tree_prefix(f0.push(v), i - lsb(i)));
        assert(tree_prefix(f0, i) == f0[i] + tree_prefix(f0, i - lsb(i)));
    }
}

/// Fenwick tree statistics: the implicit tree over per-index weights,
/// the additive weight of one update, and the mapper that owns the alphabet.
#[derive(Debug)]
pub struct Fenwick<M> {
    pub freq: Vec<usize>,
    pub inc: usize,
    pub map: M,
}

impl<M: SymbolMap> Fenwick<M> {
    /// The tree entries as mathematical integers.
    pub open spec fn freqs(&self) -> Seq<int> {
        self.freq@.map_values(|x: usize| x as int)
    }

    /// The keys of the alphabet, in index order.
    pub open spec fn skeys(&self) -> Seq<M::Key> {
        self.map.keys()
    }

    /// The per-index weights the tree stands for.
    pub open spec fn scounts(&self) -> Seq<int> {
        tree_counts(self.freqs())
    }

    /// The total weight observed.
    pub open spec fn stotal(&self) -> int {
        tree_prefix(self.freqs(), self.freqs().len() - 1)
    }

    /// The tree's invariant: position 0 is zero, there is one position per
    /// symbol plus the sentinel, and every cumulative count stays within a
    /// small margin of the total, which itself stays below the cap.
    pub open spec fn swf(&self) -> bool {
        &&& self.map.wf()
        &&& self.inc >= 1
        &&& self.freq@.len() == self.skeys().len() + 1
        &&& self.freqs()[0] == 0
        &&& self.freq@.len() <= MAX_ALPHABET + 1
        &&& self.stotal() <= MAX_TOTAL_COUNT
        &&& forall|i: int|
            0 <= i < self.freq@.len() ==> #[trigger] tree_prefix(self.freqs(), i) <= self.stotal()
                + 256
    }

    /// Whether one more update fits under the caps.
    pub open spec fn supdate_ok(&self) -> bool {
        self.stotal() + self.inc <= MAX_TOTAL_COUNT && self.skeys().len() < MAX_ALPHABET
    }

    /// Generate a new Fenwick tree over an empty alphabet.
    pub fn new() -> (r: Self)
        ensures
            r.swf(),
            r.skeys() == Seq::<M::Key>::empty(),
            r.scounts() == seq![0int],
            r.inc == 1,
            r.freq@ == seq![0usize],
    {
        // position 0 must always hold zero
        let mut freq: Vec<usize> = Vec::new();
        freq.push(0);
        let r = Fenwick { freq, inc: 1, map: M::new() };
        proof {
            assert(r.freq@ =~= seq![0usize]);
            assert(r.freqs() =~= seq![0int]);
            assert(r.scounts() =~= seq![0int]);
            assert(tree_prefix(r.freqs(), 0) == 0);
        }
        r
    }

    /// Get a reference to the inner frequency counts.
    pub fn get_ref(&self) -> (r: &Vec<usize>)
        ensures
            r@ == self.freq@,
    {
        &self.freq
    }

    /// Get a reference to the symbol mapper.
    pub fn get_map(&self) -> (r: &M)
        ensures
            r == &self.map,
    {
        &self.map
    }

    /// The cumulative count of all indices up to and including `ix`.
    pub fn get_h_freq(&self, ix: usize) -> (r: usize)
        requires
            self.swf(),
            ix < self.freq@.len(),
        ensures
            r as int == tree_prefix(self.freqs(), ix as int),
            r as int == prefix_sum(self.scounts(), ix as int),
    {
        let ghost f = self.freqs();
        let ghost ix0 = ix as int;
        proof {
            assert(forall|k: int| 0 <= k < f.len() ==> f[k] >= 0);
        }
        let mut ix = ix;
        let mut result: usize = 0;
        while ix != 0
            invariant
                self.swf(),
                f == self.freqs(),
                0 <= ix < f.len(),
                0 <= ix0 < f.len(),
                result as int == tree_prefix(f, ix0) - tree_prefix(f, ix as int),
                forall|k: int| 0 <= k < f.len() ==> f[k] >= 0,
            decreases ix,
        {
            proof {
                lemma_lsb_range(ix as int);
                lemma_tree_prefix_nonneg(f, ix as int - lsb(ix as int));
                assert(tree_prefix(f, ix as int) == f[ix as int] + tree_prefix(
                    f,
                    ix as int - lsb(ix as int),
                ));
            }
            result = result + self.freq[ix];
            ix = backward(ix);
        }
        proof {
            assert(tree_prefix(f, 0) == 0);
            lemma_tree_prefix_sum(f, ix0);
        }
        result
    }

    /// The total weight observed so far.
    pub fn get_total(&self) -> (r: usize)
        requires
            self.swf(),
        ensures
            r as int == self.stotal(),
            r as int == prefix_sum(self.scounts(), self.scounts().len() - 1),
    {
        self.get_h_freq(self.freq.len() - 1)
    }

    /// The cumulative interval of `symbol` together with the total weight.
    pub fn get_freq_bounds(&self, symbol: &M::Input) -> (r: Result<
        (usize, usize, usize),
        StatisticsError,
    >)
        requires
            self.swf(),
        ensures
            ({
                let key = M::key_of(*symbol);
                let ix = key_index(self.skeys(), key) + 1;
                match r {
                    Ok(b) => self.skeys().contains(key) && b.0 == prefix_sum(self.scounts(), ix - 1)
                        && b.1 == prefix_sum(self.scounts(), ix) && b.2 == prefix_sum(
                        self.scounts(),
                        self.scounts().len() - 1,
                    ),
                    Err(e) => e == StatisticsError::UnknownSymbolError && !self.skeys().contains(
                        key,
                    ),
                }
            }),
    {
        match self.map.get_index_of(symbol) {
            Some(ix) => {
                proof {
                    self.map.lemma_wf_distinct();
                    crate::fenwick_map::lemma_key_index_unique(
                        self.skeys(),
                        M::key_of(*symbol),
                        ix - 1,
                    );
                }
                let lower = self.get_h_freq(ix - 1);
                let higher = self.get_h_freq(ix);
                let total = self.get_total();
                Ok((lower, higher, total))
            },
            None => Err(StatisticsError::UnknownSymbolError),
        }
    }
}

impl<M: SymbolMap> Fenwick<M> {
    /// Add the update weight to the seen index `j`, walking the update path.
    fn add_at(&mut self, j: usize)
        requires
            old(self).swf(),
            1 <= j < old(self).freq@.len(),
            old(self).stotal() + old(self).inc <= MAX_TOTAL_COUNT,
        ensures
            final(self).swf(),
            final(self).map == old(self).map,
            final(self).inc == old(self).inc,
            final(self).freq@.len() == old(self).freq@.len(),
            final(self).scounts() == old(self).scounts().update(
                j as int,
                old(self).scounts()[j as int] + old(self).inc,
            ),
            final(self).stotal() == old(self).stotal() + old(self).inc,
    {
        let ghost f0 = self.freqs();
        let ghost j0 = j as int;
        let ghost inc0 = self.inc as int;
        let ghost total0 = self.stotal();
        proof {
            assert(forall|k: int| 0 <= k < f0.len() ==> f0[k] >= 0);
            lemma_lsb_range(j0);
        }
        let len = self.freq.len();
        let mut ix = j;
        while ix < len
            invariant
                len == self.freq@.len(),
                self.freq@.len() == f0.len(),
                self.map == old(self).map,
                self.inc == old(self).inc,
                inc0 == self.inc as int,
                1 <= j0 <= ix,
                ix < len ==> covers(ix as int, j0),
                forall|i: int|
                    0 <= i < f0.len() ==> self.freqs()[i] == f0[i] + (if covers(i, j0) && i < ix {
                        inc0
                    } else {
                        0int
                    }),
                forall|k: int| 0 <= k < f0.len() ==> f0[k] >= 0,
                f0.len() <= MAX_ALPHABET + 1,
                total0 <= MAX_TOTAL_COUNT - inc0,
                forall|i: int|
                    0 <= i < f0.len() ==> #[trigger] tree_prefix(f0, i) <= total0 + 256,
            decreases 2 * len - ix,
        {
            let ghost fcur = self.freqs();
            proof {
                lemma_lsb_range(ix as int);
                lemma_tree_prefix_nonneg(f0, ix as int - lsb(ix as int));
                assert(tree_prefix(f0, ix as int) == f0[ix as int] + tree_prefix(
                    f0,
                    ix as int - lsb(ix as int),
                ));
                assert(self.freqs()[ix as int] == f0[ix as int]);
                assert(self.freq@[ix as int] as int + inc0 <= total0 + 256 + inc0);
            }
            let v = self.freq[ix];
            self.freq[ix] = v + self.inc;
            proof {
                assert forall|i: int|
                    0 <= i < f0.len() implies self.freqs()[i] == f0[i] + (if covers(i, j0) && i < ix
                    + lsb(ix as int) {
                    inc0
                } else {
                    0int
                }) by {
                    if i == ix as int {
                        assert(covers(i, j0));
                    } else if (ix as int) < i && i < ix as int + lsb(ix as int) {
                        lemma_covers_next(ix as int, j0);
                        assert(!covers(i, j0));
                    }
                }
                lemma_covers_next(ix as int, j0);
            }
            ix = forward(ix);
        }
        proof {
            assert forall|i: int|
                0 <= i < f0.len() implies self.freqs()[i] == f0[i] + (if covers(i, j0) {
                inc0
            } else {
                0int
            }) by {
                if covers(i, j0) {
                    assert(i <= ix as int);
                    assert(i < f0.len() <= ix as int);
                }
            }
            let f1 = self.freqs();
            assert forall|i: int| 0 <= i < f0.len() implies tree_prefix(f1, i) == tree_prefix(f0, i)
                + (if j0 <= i {
                inc0
            } else {
                0int
            }) by {
                lemma_tp_after_update(f0, f1, j0, inc0, i);
            }
            assert(self.scounts() =~= old(self).scounts().update(
                j0,
                old(self).scounts()[j0] + inc0,
            ));
            assert(tree_prefix(f1, f1.len() - 1) == total0 + inc0);
        }
    }

    /// Install a new symbol: assign it the next index and append the tree
    /// entry that keeps the layout, which is one more than the sum of the
    /// entries its range swallows.
    fn install_symbol(&mut self, symbol: &M::Input)
        requires
            old(self).swf(),
            old(self).supdate_ok(),
            !old(self).skeys().contains(M::key_of(*symbol)),
        ensures
            final(self).swf(),
            final(self).inc == old(self).inc,
            final(self).skeys() == old(self).skeys().push(M::key_of(*symbol)),
            final(self).scounts() == old(self).scounts().push(1),
            final(self).stotal() == old(self).stotal() + 1,
    {
        let ghost f0 = self.freqs();
        let ghost total0 = self.stotal();
        proof {
            assert(forall|k: int| 0 <= k < f0.len() ==> f0[k] >= 0);
        }
        let n = self.map.install(symbol);
        proof {
            assert(n == self.freq@.len());
        }
        let ghost n0 = n as int;
        let mut sum: usize = 1;
        let mut step: usize = 1;
        let ghost mut kk: int = n0;
        proof {
            assert(kk * 1 == n0) by (nonlinear_arith)
                requires
                    kk == n0,
            ;
            lemma_tree_prefix_nonneg(f0, n0 - 1);
        }
        while n % (2 * step) == 0
            invariant
                1 <= step <= n,
                n == n0,
                n0 == f0.len(),
                1 <= n0 <= MAX_ALPHABET + 1,
                lsb(step as int) == step as int,
                kk >= 1,
                kk * step as int == n0,
                f0 == self.freqs(),
                sum as int == 1 + tree_prefix(f0, n0 - 1) - tree_prefix(f0, n0 - step as int),
                forall|k: int| 0 <= k < f0.len() ==> f0[k] >= 0,
                forall|i: int|
                    0 <= i < f0.len() ==> #[trigger] tree_prefix(f0, i) <= total0 + 256,
                total0 <= MAX_TOTAL_COUNT,
            decreases kk,
        {
            let ghost step0 = step as int;
            proof {
                // the divisor is even, so the cofactor is even and the next
                // position back has this step as its least significant bit
                assert(n0 % (2 * step0) == 0);
                let q = n0 / (2 * step0);
                vstd::arithmetic::div_mod::lemma_fundamental_div_mod(n0, 2 * step0);
                assert(n0 == q * (2 * step0)) by (nonlinear_arith)
                    requires
                        n0 == (2 * step0) * q + n0 % (2 * step0) && n0 % (2 * step0) == 0,
                ;
                assert(q >= 1) by (nonlinear_arith)
                    requires
                        n0 == q * (2 * step0) && n0 >= 1 && step0 >= 1,
                ;
                lemma_lsb_sub(q, step0);
                assert(2 * q * step0 - step0 == n0 - step0) by (nonlinear_arith)
                    requires
                        n0 == q * (2 * step0),
                ;
                assert(lsb(n0 - step0) == step0);
                assert(n0 - 2 * step0 >= 0) by (nonlinear_arith)
                    requires
                        n0 == q * (2 * step0) && q >= 1 && step0 >= 1,
                ;
                assert(tree_prefix(f0, n0 - step0) == f0[n0 - step0] + tree_prefix(
                    f0,
                    n0 - 2 * step0,
                ));
                lemma_tree_prefix_nonneg(f0, n0 - 2 * step0);
                // the running sum stays within the caps
                assert(sum as int + f0[n0 - step0] <= 1 + total0 + 256);
                // the cofactor halves for the next round
                assert(kk == 2 * q) by (nonlinear_arith)
                    requires
                        kk * step0 == n0 && n0 == q * (2 * step0) && step0 >= 1,
                ;
                kk = q;
                assert(kk * (2 * step0) == n0) by (nonlinear_arith)
                    requires
                        n0 == q * (2 * step0) && kk == q,
                ;
                assert(2 * step0 <= n0) by (nonlinear_arith)
                    requires
                        kk * (2 * step0) == n0 && kk >= 1 && step0 >= 1,
                ;
            }
            sum = sum + self.freq[n - step];
            step = step * 2;
            proof {
                assert(lsb(step as int) == 2 * lsb(step0)) by {
                    assert(step as int == 2 * step0);
                }
            }
        }
        proof {
            // the loop ended on an odd cofactor, so the step is the least
            // significant bit of the new position
            let step0 = step as int;
            if kk % 2 == 0 {
                let h = kk / 2;
                assert(kk == 2 * h);
                assert(n0 == h * (2 * step0)) by (nonlinear_arith)
                    requires
                        kk * step0 == n0 && kk == 2 * h,
                ;
                assert(n0 % (2 * step0) == 0) by (nonlinear_arith)
                    requires
                        n0 == h * (2 * step0) && step0 >= 1,
                ;
            }
            assert(kk % 2 == 1);
            lemma_lsb_odd_multiple(kk, step0);
            assert(lsb(n0) == step0);
        }
        self.freq.push(sum);
        proof {
            let f1 = self.freqs();
            let step0 = step as int;
            assert(f1 =~= f0.push(sum as int));
            assert forall|i: int| 0 <= i < n0 implies tree_prefix(f1, i) == tree_prefix(f0, i) by {
                lemma_tp_push(f0, sum as int, i);
            }
            assert(f1[n0] == sum as int);
            assert(lsb(n0) == step0);
            assert(tree_prefix(f1, n0) == f1[n0] + tree_prefix(f1, n0 - step0));
            assert(tree_prefix(f1, n0) == 1 + tree_prefix(f0, n0 - 1));
            assert(self.scounts() =~= old(self).scounts().push(1));
            assert(self.stotal() == total0 + 1);
            assert forall|i: int|
                0 <= i < f1.len() implies #[trigger] tree_prefix(f1, i) <= self.stotal() + 256 by {
                if i < n0 {
                    assert(tree_prefix(f1, i) == tree_prefix(f0, i));
                }
            }
        }
    }

    /// Add one weight to `symbol`, installing it with weight 1 on first
    /// sight.
    pub fn update_freq_count(&mut self, symbol: &M::Input) -> (r: Result<(), StatisticsError>)
        requires
            old(self).swf(),
            old(self).supdate_ok(),
        ensures
            final(self).swf(),
            r is Ok,
            final(self).inc == old(self).inc,
            final(self).stotal() <= old(self).stotal() + old(self).inc,
            final(self).stotal() == old(self).stotal() + (if old(self).skeys().contains(
                M::key_of(*symbol),
            ) {
                old(self).inc as int
            } else {
                1int
            }),
            ({
                let key = M::key_of(*symbol);
                if old(self).skeys().contains(key) {
                    let ix = key_index(old(self).skeys(), key) + 1;
                    final(self).skeys() == old(self).skeys() && final(self).scounts() == old(
                        self,
                    ).scounts().update(ix, old(self).scounts()[ix] + old(self).inc)
                } else {
                    final(self).skeys() == old(self).skeys().push(key) && final(self).scounts()
                        == old(self).scounts().push(1)
                }
            }),
    {
        match self.map.get_index_of(symbol) {
            Some(ix) => {
                proof {
                    self.map.lemma_wf_distinct();
                    crate::fenwick_map::lemma_key_index_unique(
                        self.skeys(),
                        M::key_of(*symbol),
                        ix - 1,
                    );
                }
                self.add_at(ix);
                Ok(())
            },
            None => {
                self.install_symbol(symbol);
                Ok(())
            },
        }
    }
}

/// The number of positions on the cumulative walk from `i` down to 0.
pub open spec fn path_len(i: int) -> int
    decreases i,
    via path_len_decreases
{
    if i <= 0 {
        0
    } else {
        1 + path_len(i - lsb(i))
    }
}

#[via_fn]
proof fn path_len_decreases(i: int) {
    if i > 0 {
        lemma_lsb_range(i);
    }
}

/// The number of set bits of `i`.
pub open spec fn popcount(i: int) -> int
    decreases i,
{
    if i <= 0 {
        0
    } else {
        i % 2 + popcount(i / 2)
    }
}

/// Powers of two.
pub open spec fn pw2(k: int) -> int
    decreases k,
{
    if k <= 0 {
        1
    } else {
        2 * pw2(k - 1)
    }
}

proof fn lemma_popcount_bound(i: int, k: int)
    requires
        0 <= i < pw2(k),
        k >= 0,
    ensures
        popcount(i) <= k,
    decreases k,
{
    if k == 0 {
    } else if i > 0 {
        lemma_popcount_bound(i / 2, k - 1);
    }
}

proof fn lemma_popcount_lsb(i: int)
    requires
        i >= 1,
    ensures
        popcount(i - lsb(i)) == popcount(i) - 1,
    decreases i,
{
    if i % 2 == 1 {
        assert(i - 1 == 2 * ((i - 1) / 2));
        assert((i - 1) / 2 == i / 2);
        if i > 1 {
            assert(popcount(i - 1) == popcount((i - 1) / 2));
        }
    } else {
        let h = i / 2;
        lemma_popcount_lsb(h);
        assert(lsb(i) == 2 * lsb(h));
        assert(i - lsb(i) == 2 * (h - lsb(h)));
        lemma_lsb_range(h);
        if h - lsb(h) > 0 {
            assert(popcount(2 * (h - lsb(h))) == popcount(h - lsb(h)));
        } else {
            assert(popcount(0) == 0);
        }
        assert(popcount(i) == popcount(h));
    }
}

proof fn lemma_path_len_popcount(i: int)
    ensures
        path_len(i) == popcount(i),
    decreases i,
{
    if i > 0 {
        lemma_lsb_range(i);
        lemma_popcount_lsb(i);
        lemma_path_len_popcount(i - lsb(i));
    }
}

/// Every walk inside the tree has at most 29 positions, because the alphabet
/// cap keeps positions at or below `2^28`.
proof fn lemma_path_len_small(i: int)
    requires
        0 <= i <= MAX_ALPHABET + 1,
    ensures
        0 <= path_len(i) <= 29,
{
    assert(pw2(29) == 0x20000000) by {
        reveal_with_fuel(pw2, 31);
    }
    lemma_popcount_bound(i, 29);
    lemma_path_len_popcount(i);
    assert(popcount(i) >= 0) by {
        lemma_path_len_nonneg_helper(i);
    }
}

proof fn lemma_path_len_nonneg_helper(i: int)
    ensures
        popcount(i) >= 0,
    decreases i,
{
    if i > 0 {
        lemma_path_len_nonneg_helper(i / 2);
    }
}

/// One halved tree entry: entries above one are halved, entries at one stay.
pub open spec fn norm_entry(x: int) -> int {
    if x == 1 {
        1
    } else {
        x / 2
    }
}

/// Halving every entry roughly halves each cumulative count: twice the new
/// count differs from the old one by at most two positions' rounding per
/// walk step.
proof fn lemma_tp_norm(f0: Seq<int>, f1: Seq<int>, i: int)
    requires
        f0.len() == f1.len(),
        forall|k: int| 0 <= k < f0.len() ==> f1[k] == norm_entry(#[trigger] f0[k]),
        forall|k: int| 0 <= k < f0.len() ==> f0[k] >= 0,
        0 <= i < f0.len(),
    ensures
        2 * tree_prefix(f1, i) <= tree_prefix(f0, i) + 2 * path_len(i),
        2 * tree_prefix(f1, i) >= tree_prefix(f0, i) - path_len(i),
    decreases i,
{
    if i > 0 {
        lemma_lsb_range(i);
        lemma_tp_norm(f0, f1, i - lsb(i));
        assert(tree_prefix(f1, i) == f1[i] + tree_prefix(f1, i - lsb(i)));
        assert(tree_prefix(f0, i) == f0[i] + tree_prefix(f0, i - lsb(i)));
        assert(2 * f1[i] <= f0[i] + 2);
        assert(2 * f1[i] >= f0[i] - 1);
    }
}

impl<M: SymbolMap> Fenwick<M> {
    /// Normalize the frequency counts when the total approaches the cap:
    /// every tree entry is halved, with a floor of one for entries that were
    /// at one.
    pub fn normalize(&mut self)
        requires
            old(self).swf(),
        ensures
            final(self).swf(),
            final(self).map == old(self).map,
            final(self).inc == old(self).inc,
            final(self).freq@.len() == old(self).freq@.len(),
            forall|i: int|
                0 <= i < old(self).freq@.len() ==> final(self).freqs()[i] == norm_entry(
                    #[trigger] old(self).freqs()[i],
                ),
    {
        let ghost f0 = self.freqs();
        let ghost total0 = self.stotal();
        let len = self.freq.len();
        for i in 0..len
            invariant
                len == self.freq@.len(),
                self.freq@.len() == f0.len(),
                self.map == old(self).map,
                self.inc == old(self).inc,
                forall|k: int| 0 <= k < i ==> self.freqs()[k] == norm_entry(#[trigger] f0[k]),
                forall|k: int| i <= k < f0.len() ==> self.freqs()[k] == f0[k],
        {
            let f = self.freq[i];
            let v = if f == 1 {
                1
            } else {
                f / 2
            };
            self.freq[i] = v;
        }
        proof {
            let f1 = self.freqs();
            assert(forall|k: int| 0 <= k < f0.len() ==> f0[k] >= 0);
            let n = f0.len() - 1;
            lemma_tp_norm(f0, f1, n);
            lemma_path_len_small(n);
            assert forall|i: int|
                0 <= i < f1.len() implies #[trigger] tree_prefix(f1, i) <= tree_prefix(f1, n)
                + 256 by {
                lemma_tp_norm(f0, f1, i);
                lemma_path_len_small(i);
                assert(tree_prefix(f0, i) <= total0 + 256);
            }
            assert(2 * tree_prefix(f1, n) <= total0 + 58);
            assert(tree_prefix(f1, n) <= MAX_TOTAL_COUNT);
        }
    }

    /// The matched index for a cumulative target: the index whose cumulative
    /// count is the largest that does not exceed the target, found by a
    /// binary descent from the highest power of two not above the alphabet
    /// size.
    pub(crate) fn descend(&self, target: usize) -> (ix: usize)
        requires
            self.swf(),
            target < prefix_sum(self.scounts(), self.scounts().len() - 1),
        ensures
            ix < self.scounts().len() - 1,
            prefix_sum(self.scounts(), ix as int) <= target,
            target < prefix_sum(self.scounts(), ix as int + 1),
    {
        let ghost f = self.freqs();
        let n = self.freq.len() - 1;
        proof {
            lemma_tree_prefix_sum(f, n as int);
        }
        let total = self.get_total();
        proof {
            assert(forall|k: int| 0 <= k < f.len() ==> f[k] >= 0);
            lemma_tree_prefix_nonneg(f, n as int);
            assert(n >= 1) by {
                if n == 0 {
                    assert(tree_prefix(f, 0) == 0);
                }
            }
        }
        let mut mid: usize = 1;
        while 2 * mid <= n
            invariant
                1 <= mid <= n,
                n < self.freq@.len() == f.len(),
                f.len() <= MAX_ALPHABET + 1,
                lsb(mid as int) == mid as int,
            decreases n - mid,
        {
            proof {
                assert(lsb(2 * mid as int) == 2 * lsb(mid as int));
            }
            mid = 2 * mid;
        }
        let mut ix: usize = 0;
        let mut t = target;
        proof {
            assert(tree_prefix(f, 0) == 0);
        }
        while mid > 0
            invariant
                self.swf(),
                f == self.freqs(),
                n as int == f.len() - 1,
                1 <= n,
                ix + mid <= 2 * n,
                ix <= n,
                mid == 0 || lsb(mid as int) == mid as int,
                mid > 0 ==> ix as int % (2 * mid as int) == 0,
                tree_prefix(f, ix as int) <= target,
                t as int == target - tree_prefix(f, ix as int),
                mid > 0 ==> (ix + 2 * mid > n || tree_prefix(f, ix as int + 2 * mid as int)
                    > target),
                mid == 0 ==> (ix == n || tree_prefix(f, ix as int + 1) > target),
            decreases mid,
        {
            let nmid = ix + mid;
            let ghost ix0 = ix as int;
            let ghost mid0 = mid as int;
            proof {
                // the entry at `ix + mid` covers exactly `(ix, ix + mid]`
                if nmid <= n {
                    if ix == 0 {
                        assert(lsb(nmid as int) == mid0);
                    } else {
                        assert(lsb(2 * mid0) == 2 * lsb(mid0));
                        let q = ix0 / (2 * mid0);
                        vstd::arithmetic::div_mod::lemma_fundamental_div_mod(ix0, 2 * mid0);
                        assert(ix0 == q * (2 * mid0)) by (nonlinear_arith)
                            requires
                                ix0 == (2 * mid0) * q + ix0 % (2 * mid0) && ix0 % (2 * mid0) == 0,
                        ;
                        assert(q >= 1) by (nonlinear_arith)
                            requires
                                ix0 == q * (2 * mid0) && ix0 >= 1 && mid0 >= 1,
                        ;
                        lemma_lsb_multiple(q, 2 * mid0);
                        lemma_lsb_add_small(ix0, mid0);
                        assert(lsb(nmid as int) == mid0);
                    }
                    assert(tree_prefix(f, nmid as int) == f[nmid as int] + tree_prefix(f, ix0));
                }
            }
            if nmid <= n {
                let v = self.freq[nmid];
                if v <= t {
                    t = t - v;
                    ix = nmid;
                }
            }
            proof {
                // divisibility carries down to the halved stride
                if mid0 >= 2 {
                    let q = ix0 / (2 * mid0);
                    vstd::arithmetic::div_mod::lemma_fundamental_div_mod(ix0, 2 * mid0);
                    assert(ix0 == q * (2 * mid0)) by (nonlinear_arith)
                        requires
                            ix0 == (2 * mid0) * q + ix0 % (2 * mid0) && ix0 % (2 * mid0) == 0,
                    ;
                    assert(ix0 == (2 * q) * mid0) by (nonlinear_arith)
                        requires
                            ix0 == q * (2 * mid0),
                    ;
                    vstd::arithmetic::div_mod::lemma_mod_multiples_basic(2 * q, mid0);
                    assert(ix0 % mid0 == 0);
                    if ix as int == ix0 + mid0 {
                        assert(ix as int % mid0 == 0) by (nonlinear_arith)
                            requires
                                ix0 % mid0 == 0 && ix as int == ix0 + mid0 && mid0 >= 1,
                        ;
                    }
                    assert(lsb(mid0) == 2 * lsb(mid0 / 2));
                }
            }
            mid = mid / 2;
        }
        proof {
            assert(ix < n) by {
                if ix == n {
                    assert(tree_prefix(f, n as int) <= target);
                }
            }
            lemma_tree_prefix_sum(f, ix as int);
            lemma_tree_prefix_sum(f, ix as int + 1);
        }
        ix
    }

    /// The symbol at the matched index for a cumulative target; a target at
    /// or above the total weight, or below the first cumulative count, is
    /// refused.
    pub fn get_symbol(&self, target: usize) -> (r: Result<&M::Input, StatisticsError>)
        requires
            self.swf(),
        ensures
            ({
                let n = self.scounts().len() - 1;
                if target < prefix_sum(self.scounts(), n) {
                    match r {
                        Ok(s) => exists|ix: int|
                            #![trigger prefix_sum(self.scounts(), ix)]
                            1 <= ix <= n && prefix_sum(self.scounts(), ix) <= target && (ix == n
                                || target < prefix_sum(self.scounts(), ix + 1)) && M::key_of(*s)
                                == self.skeys()[ix - 1],
                        Err(e) => e == StatisticsError::UnknownSymbolError && target < prefix_sum(
                            self.scounts(),
                            1,
                        ),
                    }
                } else {
                    r == Err::<&M::Input, StatisticsError>(StatisticsError::UnknownSymbolError)
                }
            }),
    {
        let ghost f = self.freqs();
        let n = self.freq.len() - 1;
        proof {
            lemma_tree_prefix_sum(f, n as int);
        }
        let total = self.get_total();
        if target >= total {
            return Err(StatisticsError::UnknownSymbolError);
        }
        let ix = self.descend(target);
        match self.map.get_symbol_at(ix) {
            Some(s) => Ok(s),
            None => Err(StatisticsError::UnknownSymbolError),
        }
    }
}

/// The sum of a sequence of counts.
pub open spec fn usum(s: Seq<usize>) -> int
    decreases s.len(),
{
    if s.len() == 0 {
        0
    } else {
        usum(s.drop_last()) + s.last()
    }
}

proof fn lemma_usum_take_step(s: Seq<usize>, i: int)
    requires
        0 <= i < s.len(),
    ensures
        usum(s.take(i + 1)) == usum(s.take(i)) + s[i],
{
    assert(s.take(i + 1).drop_last() =~= s.take(i));
    assert(s.take(i + 1).last() == s[i]);
}

proof fn lemma_usum_take_le(s: Seq<usize>, k: int)
    requires
        0 <= k <= s.len(),
    ensures
        usum(s.take(k)) <= usum(s),
    decreases s.len() - k,
{
    if k == s.len() {
        assert(s.take(k) =~= s);
    } else {
        lemma_usum_take_step(s, k);
        lemma_usum_take_le(s, k + 1);
    }
}

impl<M: SymbolMap> Fenwick<M> {
    /// Update the model once per symbol of `data`, in order.
    pub fn feed(&mut self, data: &[M::Input]) -> (r: Result<(), StatisticsError>)
        requires
            old(self).swf(),
            old(self).stotal() + data@.len() * old(self).inc <= MAX_TOTAL_COUNT,
            old(self).skeys().len() + data@.len() <= MAX_ALPHABET,
        ensures
            final(self).swf(),
            r is Ok,
            final(self).inc == old(self).inc,
            ({
                let folded = stats_feed(
                    old(self).skeys(),
                    old(self).scounts(),
                    old(self).inc as int,
                    data@.map_values(|s: M::Input| M::key_of(s)),
                );
                final(self).skeys() == folded.0 && final(self).scounts() == folded.1
            }),
    {
        let ghost ks = data@.map_values(|s: M::Input| M::key_of(s));
        let ghost k0 = self.skeys();
        let ghost c0 = self.scounts();
        let ghost inc0 = self.inc as int;
        proof {
            assert(ks.skip(0) =~= ks);
        }
        for i in 0..data.len()
            invariant
                self.swf(),
                self.inc == old(self).inc,
                inc0 == self.inc as int,
                ks.len() == data@.len(),
                forall|k: int| 0 <= k < ks.len() ==> ks[k] == M::key_of(#[trigger] data@[k]),
                stats_feed(self.skeys(), self.scounts(), inc0, ks.skip(i as int)) == stats_feed(
                    k0,
                    c0,
                    inc0,
                    ks,
                ),
                self.stotal() + (data@.len() - i) * inc0 <= MAX_TOTAL_COUNT,
                self.skeys().len() + (data@.len() - i) <= MAX_ALPHABET,
        {
            let ghost keys_pre = self.skeys();
            let ghost counts_pre = self.scounts();
            let ghost rem = data@.len() - i;
            proof {
                assert(rem * inc0 >= inc0) by (nonlinear_arith)
                    requires
                        rem >= 1 && inc0 >= 1,
                ;
            }
            let _ = self.update_freq_count(&data[i]);
            proof {
                assert(ks.skip(i as int)[0] == ks[i as int]);
                assert(ks.skip(i as int).skip(1) =~= ks.skip(i + 1));
                assert((self.skeys(), self.scounts()) == stats_feed_step(
                    keys_pre,
                    counts_pre,
                    inc0,
                    ks[i as int],
                ));
                assert(rem * inc0 == inc0 + (rem - 1) * inc0) by (nonlinear_arith);
            }
        }
        proof {
            assert(ks.skip(data@.len() as int) =~= Seq::<M::Key>::empty());
        }
        Ok(())
    }

    /// Build a tree by feeding each symbol as often as its frequency says.
    fn from_frequencies(frequencies: &Vec<usize>, symbols: &Vec<M::Input>) -> (r: Self)
        requires
            frequencies@.len() == symbols@.len(),
            forall|i: int| 0 <= i < frequencies@.len() ==> #[trigger] frequencies@[i] >= 1,
            forall|i: int, j: int|
                0 <= i < j < symbols@.len() ==> M::key_of(symbols@[i]) != M::key_of(symbols@[j]),
            usum(frequencies@) <= MAX_TOTAL_COUNT,
            symbols@.len() < MAX_ALPHABET,
        ensures
            r.swf(),
            r.inc == 1,
            r.skeys() == symbols@.map_values(|s: M::Input| M::key_of(s)),
            r.scounts() == seq![0int] + frequencies@.map_values(|x: usize| x as int),
    {
        let ghost keys_all = symbols@.map_values(|s: M::Input| M::key_of(s));
        let ghost f_all = frequencies@.map_values(|x: usize| x as int);
        let mut r = Fenwick::<M>::new();
        proof {
            assert(r.skeys() =~= keys_all.take(0));
            assert(r.scounts() =~= seq![0int] + f_all.take(0));
            assert(usum(frequencies@.take(0)) == 0);
        }
        let n = symbols.len();
        for i in 0..n
            invariant
                n == symbols@.len(),
                frequencies@.len() == symbols@.len(),
                keys_all == symbols@.map_values(|s: M::Input| M::key_of(s)),
                f_all == frequencies@.map_values(|x: usize| x as int),
                forall|k: int| 0 <= k < frequencies@.len() ==> #[trigger] frequencies@[k] >= 1,
                forall|k1: int, k2: int|
                    0 <= k1 < k2 < keys_all.len() ==> keys_all[k1] != keys_all[k2],
                usum(frequencies@) <= MAX_TOTAL_COUNT,
                symbols@.len() < MAX_ALPHABET,
                r.swf(),
                r.inc == 1,
                r.skeys() == keys_all.take(i as int),
                r.scounts() == seq![0int] + f_all.take(i as int),
                r.stotal() == usum(frequencies@.take(i as int)),
            decreases n - i,
        {
            let count = frequencies[i];
            let ghost base_keys = keys_all.take(i as int);
            let ghost base_counts = seq![0int] + f_all.take(i as int);
            let ghost key_i = keys_all[i as int];
            proof {
                if base_keys.contains(key_i) {
                    let w = choose|w: int| 0 <= w < base_keys.len() && base_keys[w] == key_i;
                    assert(keys_all[w] == keys_all[i as int]);
                }
                lemma_usum_take_step(frequencies@, i as int);
                lemma_usum_take_le(frequencies@, i + 1);
            }
            for j in 0..count
                invariant
                    n == symbols@.len(),
                    frequencies@.len() == symbols@.len(),
                    0 <= i < n,
                    count == frequencies@[i as int],
                    keys_all == symbols@.map_values(|s: M::Input| M::key_of(s)),
                    f_all == frequencies@.map_values(|x: usize| x as int),
                    key_i == keys_all[i as int],
                    base_keys == keys_all.take(i as int),
                    base_counts == seq![0int] + f_all.take(i as int),
                    !base_keys.contains(key_i),
                    forall|k1: int, k2: int|
                        0 <= k1 < k2 < keys_all.len() ==> keys_all[k1] != keys_all[k2],
                    usum(frequencies@.take(i as int)) + count <= usum(frequencies@),
                    usum(frequencies@) <= MAX_TOTAL_COUNT,
                    symbols@.len() < MAX_ALPHABET,
                    r.swf(),
                    r.inc == 1,
                    r.stotal() == usum(frequencies@.take(i as int)) + j,
                    j == 0 ==> r.skeys() == base_keys && r.scounts() == base_counts,
                    j >= 1 ==> r.skeys() == base_keys.push(key_i) && r.scounts()
                        == base_counts.push(j as int),
                decreases count - j,
            {
                let ghost keys_pre = r.skeys();
                let ghost counts_pre = r.scounts();
                proof {
                    if j >= 1 {
                        assert(keys_pre.contains(key_i)) by {
                            assert(keys_pre[i as int] == key_i);
                        }
                        crate::fenwick_map::lemma_key_index_unique(keys_pre, key_i, i as int);
                    } else {
                        assert(!keys_pre.contains(key_i));
                    }
                }
                let _ = r.update_freq_count(&symbols[i]);
                proof {
                    if j == 0 {
                        assert(r.scounts() =~= base_counts.push(1));
                    } else {
                        assert(counts_pre[i as int + 1] == j as int);
                        assert(r.scounts() =~= base_counts.push(j + 1));
                    }
                }
            }
            proof {
                assert(r.skeys() =~= keys_all.take(i + 1));
                assert(base_counts.push(count as int) =~= seq![0int] + f_all.take(i + 1));
            }
        }
        proof {
            assert(keys_all.take(n as int) =~= keys_all);
            assert(f_all.take(n as int) =~= f_all);
        }
        r
    }
}

/// Build a byte-alphabet tree holding the given per-symbol frequencies.
pub fn fenwick_with_binary_frequencies(frequencies: Vec<usize>, symbols: Vec<u8>) -> (r: Fenwick<
    Cartographer<u8>,
>)
    requires
        frequencies@.len() == symbols@.len(),
        forall|i: int| 0 <= i < frequencies@.len() ==> #[trigger] frequencies@[i] >= 1,
        forall|i: int, j: int| 0 <= i < j < symbols@.len() ==> symbols@[i] != symbols@[j],
        usum(frequencies@) <= MAX_TOTAL_COUNT,
        symbols@.len() < MAX_ALPHABET,
    ensures
        r.swf(),
        r.inc == 1,
        r.skeys() == symbols@,
        r.scounts() == seq![0int] + frequencies@.map_values(|x: usize| x as int),
{
    let r = Fenwick::<Cartographer<u8>>::from_frequencies(&frequencies, &symbols);
    proof {
        assert(symbols@.map_values(|s: u8| s) =~= symbols@);
    }
    r
}

/// Build a string-alphabet tree holding the given per-symbol frequencies.
pub fn fenwick_with_string_frequencies(frequencies: Vec<usize>, symbols: Vec<String>) -> (r:
    Fenwick<Cartographer<String>>)
    requires
        frequencies@.len() == symbols@.len(),
        forall|i: int| 0 <= i < frequencies@.len() ==> #[trigger] frequencies@[i] >= 1,
        forall|i: int, j: int| 0 <= i < j < symbols@.len() ==> symbols@[i]@ != symbols@[j]@,
        usum(frequencies@) <= MAX_TOTAL_COUNT,
        symbols@.len() < MAX_ALPHABET,
    ensures
        r.swf(),
        r.inc == 1,
        r.skeys() == symbols@.map_values(|s: String| s@),
        r.scounts() == seq![0int] + frequencies@.map_values(|x: usize| x as int),
{
    Fenwick::<Cartographer<String>>::from_frequencies(&frequencies, &symbols)
}

/// Build a word-alphabet tree holding the given per-symbol frequencies.
pub fn fenwick_with_vector_frequencies(frequencies: Vec<usize>, symbols: Vec<Vec<u8>>) -> (r:
    Fenwick<Cartographer<Vec<u8>>>)
    requires
        frequencies@.len() == symbols@.len(),
        forall|i: int| 0 <= i < frequencies@.len() ==> #[trigger] frequencies@[i] >= 1,
        forall|i: int, j: int| 0 <= i < j < symbols@.len() ==> symbols@[i]@ != symbols@[j]@,
        usum(frequencies@) <= MAX_TOTAL_COUNT,
        symbols@.len() < MAX_ALPHABET,
    ensures
        r.swf(),
        r.inc == 1,
        r.skeys() == symbols@.map_values(|s: Vec<u8>| s@),
        r.scounts() == seq![0int] + frequencies@.map_values(|x: usize| x as int),
{
    Fenwick::<Cartographer<Vec<u8>>>::from_frequencies(&frequencies, &symbols)
}

impl<M: SymbolMap> Statistics for Fenwick<M> {
    type Symbol = M::Input;

    type SymbolKey = M::Key;

    open spec fn key_of_sym(s: M::Input) -> M::Key {
        M::key_of(s)
    }

    open spec fn keys(&self) -> Seq<M::Key> {
        self.skeys()
    }

    open spec fn counts(&self) -> Seq<int> {
        self.scounts()
    }

    open spec fn inc_spec(&self) -> int {
        self.inc as int
    }

    open spec fn wf(&self) -> bool {
        self.swf()
    }

    open spec fn can_update(&self) -> bool {
        self.supdate_ok()
    }

    proof fn lemma_wf_shape(&self) {
        assert(tree_prefix(self.freqs(), 0) == 0);
    }

    fn get_freq_bounds(&self, symbol: &M::Input) -> Result<(usize, usize, usize), StatisticsError> {
        Fenwick::get_freq_bounds(self, symbol)
    }

    fn update_freq_count(&mut self, symbol: &M::Input) -> Result<(), StatisticsError> {
        Fenwick::update_freq_count(self, symbol)
    }

    fn get_symbol(&self, target: usize) -> Result<&M::Input, StatisticsError> {
        Fenwick::get_symbol(self, target)
    }

    fn get_total(&self) -> usize {
        proof {
            lemma_tree_prefix_sum(self.freqs(), self.freqs().len() - 1);
        }
        Fenwick::get_total(self)
    }

    fn feed(&mut self, data: &[M::Input]) -> Result<(), StatisticsError> {
        proof {
            lemma_tree_prefix_sum(self.freqs(), self.freqs().len() - 1);
        }
        let r = Fenwick::feed(self, data);
        proof {
            assert(data@.map_values(|s: M::Input| M::key_of(s)) =~= data@.map_values(
                |s: M::Input| Self::key_of_sym(s),
            ));
        }
        r
    }
}

/// The Fenwick invariant: in any well-formed tree, the weight the model
/// reports for index `i` is exactly the difference of the cumulative counts
/// at `i` and `i - 1`, and each tree entry is the sum of the weights over
/// the range it covers. Together with the bookkeeping of `update_freq_count`
/// (a seen symbol's weight grows by exactly the increment, a new one starts
/// at one), the cumulative differences always equal the observed counts.
pub proof fn lemma_fenwick_invariant<M: SymbolMap>(f: &Fenwick<M>, i: int)
    requires
        f.swf(),
        1 <= i < f.freq@.len(),
    ensures
        prefix_sum(f.scounts(), i) - prefix_sum(f.scounts(), i - 1) == f.scounts()[i],
        f.freqs()[i] == range_sum(f.scounts(), i - lsb(i), i),
        prefix_sum(f.scounts(), i) == tree_prefix(f.freqs(), i),
{
    lemma_tree_prefix_sum(f.freqs(), i);
    lemma_tree_prefix_sum(f.freqs(), i - 1);
    lemma_tree_node(f.freqs(), i);
    assert(range_sum(f.scounts(), 0, i) == range_sum(f.scounts(), 0, i - 1) + f.scounts()[i]);
}

/// Normalization preserves order and positivity entry-wise: a smaller tree
/// entry stays at most as large as a bigger one, a positive entry stays
/// positive, and no entry grows.
pub proof fn lemma_normalize_order(x: int, y: int)
    requires
        0 <= x <= y,
    ensures
        norm_entry(x) <= norm_entry(y),
        x >= 1 ==> norm_entry(x) >= 1,
        norm_entry(x) <= x,
{
}

} // verus!
