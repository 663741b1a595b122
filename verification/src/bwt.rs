//! Burrows-Wheeler transformation.
//!
//! The forward pass sorts all suffixes of the block (the suffix array is
//! built by the `suffix_array` crate), emits for every row but one the byte
//! just before the suffix start, and records the skipped row — the one where
//! the whole block sorts — as the primary index side channel. The reverse
//! pass rebuilds the block by walking the last column: each output byte is
//! looked up in the sorted column, and its rank within its byte class names
//! the row to continue from.

use vstd::prelude::*;
use crate::transform::{Transform, TransformError};

verus! {

/// Lexicographic order on the suffixes of `s` starting at `i` and `j`; a
/// proper prefix sorts before what extends it, and the empty suffix first.
pub open spec fn suffix_lt(s: Seq<u8>, i: int, j: int) -> bool
    decreases s.len() - i,
{
    if i >= s.len() || i < 0 {
        0 <= j < s.len()
    } else if j >= s.len() || j < 0 {
        false
    } else if s[i] < s[j] {
        true
    } else if s[i] > s[j] {
        false
    } else {
        suffix_lt(s, i + 1, j + 1)
    }
}

/// No suffix sorts before itself.
proof fn lemma_suffix_lt_irrefl(s: Seq<u8>, i: int)
    ensures
        !suffix_lt(s, i, i),
    decreases s.len() - i,
{
    if 0 <= i < s.len() {
        lemma_suffix_lt_irrefl(s, i + 1);
    }
}

/// Suffix order is asymmetric.
proof fn lemma_suffix_lt_asym(s: Seq<u8>, i: int, j: int)
    requires
        suffix_lt(s, i, j),
    ensures
        !suffix_lt(s, j, i),
    decreases s.len() - i,
{
    if 0 <= i < s.len() && 0 <= j < s.len() && s[i] == s[j] {
        lemma_suffix_lt_asym(s, i + 1, j + 1);
    }
}

/// A smaller suffix starts with a byte at most as large.
proof fn lemma_suffix_lt_first(s: Seq<u8>, i: int, j: int)
    requires
        suffix_lt(s, i, j),
        0 <= i < s.len(),
        0 <= j < s.len(),
    ensures
        s[i] <= s[j],
{
}

/// Prepending the same byte to two ordered suffixes keeps their order: the
/// order of the extended suffixes is decided by the parts after the byte.
proof fn lemma_suffix_lt_prepend(s: Seq<u8>, i: int, j: int)
    requires
        1 <= i <= s.len(),
        1 <= j <= s.len(),
        s[i - 1] == s[j - 1],
    ensures
        suffix_lt(s, i - 1, j - 1) == suffix_lt(s, i, j),
{
}

/// What the suffix array of `s` is: all of `0..=len` once, ordered by the
/// suffixes they start.
pub open spec fn is_suffix_array(s: Seq<u8>, sa: Seq<u32>) -> bool {
    &&& s.len() <= 0xFFFF_FFFF
    &&& sa.len() == s.len() + 1
    &&& forall|k: int| 0 <= k < sa.len() ==> (#[trigger] sa[k]) as int <= s.len()
    &&& forall|k1: int, k2: int|
        0 <= k1 < k2 < sa.len() ==> suffix_lt(s, sa[k1] as int, sa[k2] as int)
    &&& forall|v: u32| v <= s.len() ==> sa.contains(v)
}

/// The row of the suffix array holding start position `v`.
pub open spec fn row_of(sa: Seq<u32>, v: int) -> int {
    choose|r: int| 0 <= r < sa.len() && sa[r] == v
}

/// Distinct rows hold distinct start positions.
proof fn lemma_sa_distinct(s: Seq<u8>, sa: Seq<u32>, k1: int, k2: int)
    requires
        is_suffix_array(s, sa),
        0 <= k1 < sa.len(),
        0 <= k2 < sa.len(),
        k1 != k2,
    ensures
        sa[k1] != sa[k2],
{
    if sa[k1] == sa[k2] {
        if k1 < k2 {
            assert(suffix_lt(s, sa[k1] as int, sa[k2] as int));
        } else {
            assert(suffix_lt(s, sa[k2] as int, sa[k1] as int));
        }
        lemma_suffix_lt_irrefl(s, sa[k1] as int);
    }
}

/// Every start position has exactly one row, the chosen one.
proof fn lemma_row_of(s: Seq<u8>, sa: Seq<u32>, v: int)
    requires
        is_suffix_array(s, sa),
        0 <= v <= s.len(),
    ensures
        0 <= row_of(sa, v) < sa.len(),
        sa[row_of(sa, v)] == v,
{
    assert(sa.contains(v as u32));
    assert(exists|w: int| 0 <= w < sa.len() && sa[w] == v as u32);
    let w = choose|w: int| 0 <= w < sa.len() && sa[w] == v as u32;
    assert(0 <= w < sa.len() && sa[w] == v);
    assert(0 <= row_of(sa, v) < sa.len() && sa[row_of(sa, v)] == v) by {
        assert(0 <= w < sa.len() && sa[w] == v);
    }
}

proof fn lemma_row_of_unique(s: Seq<u8>, sa: Seq<u32>, v: int, r: int)
    requires
        is_suffix_array(s, sa),
        0 <= r < sa.len(),
        sa[r] == v,
    ensures
        row_of(sa, v) == r,
{
    lemma_row_of(s, sa, v);
    if row_of(sa, v) != r {
        lemma_sa_distinct(s, sa, r, row_of(sa, v));
    }
}

/// The empty suffix sorts first: row 0 holds the block length.
proof fn lemma_sa_zero(s: Seq<u8>, sa: Seq<u32>)
    requires
        is_suffix_array(s, sa),
    ensures
        sa[0] == s.len(),
        forall|r: int| 1 <= r < sa.len() ==> (#[trigger] sa[r]) < s.len(),
{
    lemma_row_of(s, sa, s.len() as int);
    let r = row_of(sa, s.len() as int);
    if r >= 1 {
        assert(suffix_lt(s, sa[0] as int, sa[r] as int));
        assert(!suffix_lt(s, sa[0] as int, s.len() as int));
    }
    assert forall|q: int| 1 <= q < sa.len() implies (#[trigger] sa[q]) < s.len() by {
        lemma_sa_distinct(s, sa, 0, q);
    }
}

/// Relies on suffix_array::SuffixArray::new and into_parts (divsufsort):
/// the returned vector has one entry per suffix including the empty one,
/// holds every start position exactly once, and lists them in strictly
/// increasing lexicographic order of their suffixes. divsufsort asserts
/// a length strictly below `i32::MAX`, so the bound here is strict too.
#[verifier::external_body]
fn suffix_array_of(source: &[u8]) -> (sa: Vec<u32>)
    requires
        source@.len() < 0x7FFF_FFFF,
    ensures
        is_suffix_array(source@, sa@),
{
    let (_, sa) = suffix_array::SuffixArray::new(source).into_parts();
    sa
}

/// The last column of the sorted rotation matrix, skipping the row `prim`
/// where the whole block sorts: row `j` contributes the byte just before
/// its suffix start.
pub open spec fn bwt_output(s: Seq<u8>, sa: Seq<u32>, prim: int) -> Seq<u8> {
    Seq::new(
        (sa.len() - 1) as nat,
        |k: int|
            {
                let j = if k < prim {
                    k
                } else {
                    k + 1
                };
                s[sa[j] - 1]
            },
    )
}

/// The number of occurrences of `b` in `s`.
pub open spec fn count_byte(s: Seq<u8>, b: u8) -> int
    decreases s.len(),
{
    if s.len() == 0 {
        0
    } else {
        count_byte(s.drop_last(), b) + if s.last() == b {
            1int
        } else {
            0int
        }
    }
}

/// Bytes in nondecreasing order.
pub open spec fn byte_sorted(s: Seq<u8>) -> bool {
    forall|i: int, j: int| 0 <= i < j < s.len() ==> s[i] <= s[j]
}

/// The rank of position `k` within its run of equal bytes.
pub open spec fn run_rank(s: Seq<u8>, k: int) -> int
    decreases k,
{
    if k <= 0 {
        0
    } else if s[k] == s[k - 1] {
        run_rank(s, k - 1) + 1
    } else {
        0
    }
}

/// The position of the occurrence of `b` in `l` with exactly `c` earlier
/// occurrences; unique when it exists.
pub open spec fn nth_occ(l: Seq<u8>, b: u8, c: int) -> int {
    choose|i: int| 0 <= i < l.len() && l[i] == b && count_byte(l.take(i), b) == c
}

/// One step of the reverse walk's primary-index adjustment: rows before the
/// skipped one shift down by one.
pub open spec fn bwt_step(prim: int, i: int) -> int {
    if i != 0 && i < prim {
        i - 1
    } else {
        i
    }
}

/// The reverse walk: starting at row `pos`, emit the sorted column's byte,
/// then continue at the row named by that occurrence's position in the last
/// column, adjusted around the primary index.
pub open spec fn bwt_walk(l: Seq<u8>, sorted: Seq<u8>, prim: int, pos: int, steps: nat) -> Seq<u8>
    decreases steps,
{
    if steps == 0 {
        Seq::empty()
    } else {
        let b = sorted[pos];
        let c = count_byte(sorted.take(pos), b);
        let nxt = bwt_step(prim, nth_occ(l, b, c));
        seq![b] + bwt_walk(l, sorted, prim, nxt, (steps - 1) as nat)
    }
}

proof fn lemma_count_take_step(s: Seq<u8>, b: u8, i: int)
    requires
        0 <= i < s.len(),
    ensures
        count_byte(s.take(i + 1), b) == count_byte(s.take(i), b) + if s[i] == b {
            1int
        } else {
            0int
        },
{
    assert(s.take(i + 1).drop_last() =~= s.take(i));
    assert(s.take(i + 1).last() == s[i]);
}

proof fn lemma_count_take_monotone(s: Seq<u8>, b: u8, i: int, j: int)
    requires
        0 <= i <= j <= s.len(),
    ensures
        count_byte(s.take(i), b) <= count_byte(s.take(j), b),
    decreases j - i,
{
    if i < j {
        lemma_count_take_step(s, b, j - 1);
        lemma_count_take_monotone(s, b, i, j - 1);
    }
}

proof fn lemma_count_take_all(s: Seq<u8>, b: u8)
    ensures
        count_byte(s.take(s.len() as int), b) == count_byte(s, b),
{
    assert(s.take(s.len() as int) =~= s);
}

/// The occurrence with `c` earlier occurrences is unique, so it is the
/// chosen one.
proof fn lemma_nth_occ_unique(l: Seq<u8>, b: u8, c: int, i0: int)
    requires
        0 <= i0 < l.len(),
        l[i0] == b,
        count_byte(l.take(i0), b) == c,
    ensures
        nth_occ(l, b, c) == i0,
{
    let i1 = nth_occ(l, b, c);
    assert(0 <= i1 < l.len() && l[i1] == b && count_byte(l.take(i1), b) == c);
    if i0 < i1 {
        lemma_count_take_step(l, b, i0);
        lemma_count_take_monotone(l, b, i0 + 1, i1);
    } else if i1 < i0 {
        lemma_count_take_step(l, b, i1);
        lemma_count_take_monotone(l, b, i1 + 1, i0);
    }
}

/// In a sorted sequence the rank within the current run is the number of
/// earlier occurrences of the same byte.
proof fn lemma_run_rank_sorted(s: Seq<u8>, k: int)
    requires
        byte_sorted(s),
        0 <= k < s.len(),
    ensures
        run_rank(s, k) == count_byte(s.take(k), s[k]),
    decreases k,
{
    if k == 0 {
        assert(s.take(0) =~= Seq::<u8>::empty());
    } else if s[k] == s[k - 1] {
        lemma_run_rank_sorted(s, k - 1);
        lemma_count_take_step(s, s[k], k - 1);
    } else {
        // a sorted run break means the byte is new
        assert(s[k - 1] <= s[k]);
        lemma_count_none_zero(s, s[k], k);
    }
}

/// A byte that never occurs in the first `k` positions has no earlier
/// occurrences there.
proof fn lemma_count_none_zero(s: Seq<u8>, b: u8, k: int)
    requires
        0 <= k <= s.len(),
        forall|j: int| 0 <= j < k ==> s[j] != b,
    ensures
        count_byte(s.take(k), b) == 0,
    decreases k,
{
    if k > 0 {
        lemma_count_take_step(s, b, k - 1);
        lemma_count_none_zero(s, b, k - 1);
    } else {
        assert(s.take(0) =~= Seq::<u8>::empty());
    }
}

/// The number of positions of `s` holding a byte below `b`.
pub open spec fn count_below(s: Seq<u8>, b: int) -> int
    decreases b,
{
    if b <= 0 {
        0
    } else {
        count_below(s, b - 1) + count_byte(s, (b - 1) as u8)
    }
}

proof fn lemma_count_below_drop(s: Seq<u8>, b: int)
    requires
        s.len() > 0,
        0 <= b <= 256,
    ensures
        count_below(s, b) == count_below(s.drop_last(), b) + if (s.last() as int) < b {
            1int
        } else {
            0int
        },
    decreases b,
{
    if b > 0 {
        lemma_count_below_drop(s, b - 1);
    }
}

proof fn lemma_count_below_all(s: Seq<u8>)
    ensures
        count_below(s, 256) == s.len(),
    decreases s.len(),
{
    if s.len() == 0 {
        lemma_count_below_empty(s, 256);
    } else {
        lemma_count_below_drop(s, 256);
        lemma_count_below_all(s.drop_last());
    }
}

proof fn lemma_count_below_empty(s: Seq<u8>, b: int)
    requires
        s.len() == 0,
    ensures
        count_below(s, b) == 0,
    decreases b,
{
    if b > 0 {
        lemma_count_below_empty(s, b - 1);
    }
}

/// The first letters of the nonempty suffixes, in row order: row `k + 1`
/// contributes the byte its suffix starts with.
pub open spec fn first_letters(s: Seq<u8>, sa: Seq<u32>) -> Seq<u8> {
    Seq::new(s.len(), |k: int| s[sa[k + 1] as int])
}

/// The first-letter column is sorted.
proof fn lemma_first_letters_sorted(s: Seq<u8>, sa: Seq<u32>)
    requires
        is_suffix_array(s, sa),
    ensures
        byte_sorted(first_letters(s, sa)),
        first_letters(s, sa).len() == s.len(),
{
    lemma_sa_zero(s, sa);
    let f = first_letters(s, sa);
    assert forall|i: int, j: int| 0 <= i < j < f.len() implies f[i] <= f[j] by {
        assert(suffix_lt(s, sa[i + 1] as int, sa[j + 1] as int));
        lemma_suffix_lt_first(s, sa[i + 1] as int, sa[j + 1] as int);
    }
}

/// The number of rows below `r`, other than the skipped one, whose byte in
/// the last column is `b`.
pub open spec fn lrow_count(s: Seq<u8>, sa: Seq<u32>, prim: int, b: u8, r: int) -> int
    decreases r,
{
    if r <= 0 {
        0
    } else {
        lrow_count(s, sa, prim, b, r - 1) + if r - 1 != prim && s[sa[r - 1] - 1] == b {
            1int
        } else {
            0int
        }
    }
}

/// The number of rows in `[1, q)` whose suffix starts with `b`.
pub open spec fn frow_count(s: Seq<u8>, sa: Seq<u32>, b: u8, q: int) -> int
    decreases q,
{
    if q <= 1 {
        0
    } else {
        frow_count(s, sa, b, q - 1) + if s[sa[q - 1] as int] == b {
            1int
        } else {
            0int
        }
    }
}

/// The last-column position of row `r`: rows after the skipped one shift
/// down by one.
pub open spec fn lpos(prim: int, r: int) -> int {
    if r <= prim {
        r
    } else {
        r - 1
    }
}

/// Counting a byte over a prefix of the last column counts the rows below,
/// the skipped one left out.
proof fn lemma_lcount_bridge(s: Seq<u8>, sa: Seq<u32>, prim: int, b: u8, r: int)
    requires
        is_suffix_array(s, sa),
        0 <= prim < sa.len(),
        sa[prim] == 0,
        0 <= r <= sa.len(),
    ensures
        count_byte(bwt_output(s, sa, prim).take(lpos(prim, r)), b) == lrow_count(s, sa, prim, b, r),
    decreases r,
{
    let l = bwt_output(s, sa, prim);
    if r == 0 {
        assert(l.take(0) =~= Seq::<u8>::empty());
    } else {
        lemma_lcount_bridge(s, sa, prim, b, r - 1);
        if r - 1 == prim {
            assert(lpos(prim, r) == lpos(prim, r - 1));
        } else {
            assert(lpos(prim, r) == lpos(prim, r - 1) + 1);
            lemma_sa_distinct(s, sa, r - 1, prim);
            assert(sa[r - 1] != 0);
            assert(l[lpos(prim, r - 1)] == s[sa[r - 1] - 1]) by {
                if r - 1 < prim {
                    assert(lpos(prim, r - 1) == r - 1);
                } else {
                    assert(lpos(prim, r - 1) == r - 2);
                }
            }
            lemma_count_take_step(l, b, lpos(prim, r - 1));
        }
    }
}

/// Counting a byte over a prefix of the first-letter column counts the rows
/// below.
proof fn lemma_fcount_bridge(s: Seq<u8>, sa: Seq<u32>, b: u8, q: int)
    requires
        is_suffix_array(s, sa),
        1 <= q <= sa.len(),
    ensures
        count_byte(first_letters(s, sa).take(q - 1), b) == frow_count(s, sa, b, q),
    decreases q,
{
    let f = first_letters(s, sa);
    if q == 1 {
        assert(f.take(0) =~= Seq::<u8>::empty());
    } else {
        lemma_fcount_bridge(s, sa, b, q - 1);
        assert(f[q - 2] == s[sa[q - 1] as int]);
        lemma_count_take_step(f, b, q - 2);
    }
}

/// A row other than the skipped one holds a nonempty-suffix start shifted by
/// one: its last-column byte starts the suffix one position earlier, whose
/// own row exists and is not row 0.
proof fn lemma_psi(s: Seq<u8>, sa: Seq<u32>, prim: int, r: int)
    requires
        is_suffix_array(s, sa),
        0 <= prim < sa.len(),
        sa[prim] == 0,
        0 <= r < sa.len(),
        r != prim,
    ensures
        1 <= sa[r] <= s.len(),
        ({
            let q = row_of(sa, sa[r] - 1);
            &&& 1 <= q < sa.len()
            &&& sa[q] == sa[r] - 1
            &&& s[sa[q] as int] == s[sa[r] - 1]
        }),
{
    lemma_sa_distinct(s, sa, r, prim);
    lemma_row_of(s, sa, sa[r] - 1);
    let q = row_of(sa, sa[r] - 1);
    lemma_sa_zero(s, sa);
    if q == 0 {
        assert(sa[0] == s.len());
    }
}

/// A nonzero row's suffix start has a successor position whose row is not
/// the skipped one.
proof fn lemma_chi(s: Seq<u8>, sa: Seq<u32>, prim: int, q: int)
    requires
        is_suffix_array(s, sa),
        0 <= prim < sa.len(),
        sa[prim] == 0,
        1 <= q < sa.len(),
    ensures
        sa[q] < s.len(),
        ({
            let r = row_of(sa, sa[q] + 1);
            &&& 0 <= r < sa.len()
            &&& r != prim
            &&& sa[r] == sa[q] + 1
            &&& s[sa[r] - 1] == s[sa[q] as int]
            &&& row_of(sa, sa[r] - 1) == q
        }),
{
    lemma_sa_zero(s, sa);
    lemma_row_of(s, sa, sa[q] as int + 1);
    let r = row_of(sa, sa[q] + 1);
    assert(sa[r] != 0);
    lemma_row_of_unique(s, sa, sa[q] as int, q);
}

/// The last-column-to-first-column map preserves row order within one byte
/// class: prepending the shared byte to two ordered suffixes keeps their
/// order.
proof fn lemma_psi_monotone(s: Seq<u8>, sa: Seq<u32>, prim: int, b: u8, r1: int, r2: int)
    requires
        is_suffix_array(s, sa),
        0 <= prim < sa.len(),
        sa[prim] == 0,
        0 <= r1 < sa.len(),
        0 <= r2 < sa.len(),
        r1 != prim,
        r2 != prim,
        r1 < r2,
        s[sa[r1] - 1] == b,
        s[sa[r2] - 1] == b,
    ensures
        row_of(sa, sa[r1] - 1) < row_of(sa, sa[r2] - 1),
{
    lemma_psi(s, sa, prim, r1);
    lemma_psi(s, sa, prim, r2);
    let q1 = row_of(sa, sa[r1] - 1);
    let q2 = row_of(sa, sa[r2] - 1);
    assert(suffix_lt(s, sa[r1] as int, sa[r2] as int));
    lemma_suffix_lt_prepend(s, sa[r1] as int, sa[r2] as int);
    assert(suffix_lt(s, sa[r1] - 1, sa[r2] - 1));
    if q1 == q2 {
        assert(sa[q1] == sa[r1] - 1 && sa[q2] == sa[r2] - 1);
        lemma_sa_distinct(s, sa, r1, r2);
    } else if q2 < q1 {
        assert(suffix_lt(s, sa[q2] as int, sa[q1] as int));
        lemma_suffix_lt_asym(s, sa[r1] - 1, sa[r2] - 1);
    }
}

/// The nearest row below `r` that the last column counts for `b`, when the
/// count is positive: nothing countable lies between it and `r`.
proof fn lemma_lrow_prev(s: Seq<u8>, sa: Seq<u32>, prim: int, b: u8, r: int) -> (p: int)
    requires
        0 <= r <= sa.len(),
        lrow_count(s, sa, prim, b, r) >= 1,
    ensures
        0 <= p < r,
        p != prim,
        s[sa[p] - 1] == b,
        lrow_count(s, sa, prim, b, p) == lrow_count(s, sa, prim, b, r) - 1,
        forall|qq: int| p < qq < r ==> !(qq != prim && s[sa[qq] - 1] == b),
    decreases r,
{
    if r - 1 != prim && s[sa[r - 1] - 1] == b {
        r - 1
    } else {
        lemma_lrow_prev(s, sa, prim, b, r - 1)
    }
}

/// A positive first-letter count names a row starting with the byte.
proof fn lemma_frow_pos(s: Seq<u8>, sa: Seq<u32>, b: u8, q: int) -> (p: int)
    requires
        1 <= q <= sa.len(),
        frow_count(s, sa, b, q) >= 1,
    ensures
        1 <= p < q,
        s[sa[p] as int] == b,
    decreases q,
{
    if s[sa[q - 1] as int] == b {
        q - 1
    } else {
        lemma_frow_pos(s, sa, b, q - 1)
    }
}

/// The first-letter count does not change over rows that start otherwise.
proof fn lemma_frow_const(s: Seq<u8>, sa: Seq<u32>, b: u8, q1: int, q2: int)
    requires
        1 <= q1 <= q2 <= sa.len(),
        forall|qq: int| q1 <= qq < q2 ==> s[sa[qq] as int] != b,
    ensures
        frow_count(s, sa, b, q2) == frow_count(s, sa, b, q1),
    decreases q2 - q1,
{
    if q1 < q2 {
        lemma_frow_const(s, sa, b, q1, q2 - 1);
    }
}

/// The last-column count grows with the row bound.
proof fn lemma_lrow_mono(s: Seq<u8>, sa: Seq<u32>, prim: int, b: u8, r1: int, r2: int)
    requires
        0 <= r1 <= r2 <= sa.len(),
    ensures
        lrow_count(s, sa, prim, b, r1) <= lrow_count(s, sa, prim, b, r2),
    decreases r2 - r1,
{
    if r1 < r2 {
        lemma_lrow_mono(s, sa, prim, b, r1, r2 - 1);
    }
}

/// The first-letter count grows with the row bound.
proof fn lemma_frow_mono(s: Seq<u8>, sa: Seq<u32>, b: u8, q1: int, q2: int)
    requires
        1 <= q1 <= q2 <= sa.len(),
    ensures
        frow_count(s, sa, b, q1) <= frow_count(s, sa, b, q2),
    decreases q2 - q1,
{
    if q1 < q2 {
        lemma_frow_mono(s, sa, b, q1, q2 - 1);
    }
}

/// The rank correspondence at the heart of the reverse walk: a row's rank
/// among the rows whose last column holds `b` equals the rank, among the
/// rows whose suffix starts with `b`, of the row that starts the suffix one
/// position earlier.
proof fn lemma_lf(s: Seq<u8>, sa: Seq<u32>, prim: int, b: u8, r: int)
    requires
        is_suffix_array(s, sa),
        0 <= prim < sa.len(),
        sa[prim] == 0,
        0 <= r < sa.len(),
        r != prim,
        s[sa[r] - 1] == b,
    ensures
        frow_count(s, sa, b, row_of(sa, sa[r] - 1)) == lrow_count(s, sa, prim, b, r),
    decreases r,
{
    lemma_psi(s, sa, prim, r);
    let q = row_of(sa, sa[r] - 1);
    let c = lrow_count(s, sa, prim, b, r);
    lemma_lrow_mono(s, sa, prim, b, 0, r);
    assert(c >= 0);
    if c == 0 {
        lemma_frow_mono(s, sa, b, 1, q);
        assert(frow_count(s, sa, b, q) >= 0);
        if frow_count(s, sa, b, q) >= 1 {
            let p = lemma_frow_pos(s, sa, b, q);
            lemma_chi(s, sa, prim, p);
            let rp = row_of(sa, sa[p] + 1);
            lemma_row_of_unique(s, sa, sa[p] as int, p);
            if rp == r {
                assert(row_of(sa, sa[rp] - 1) == p);
                assert(p == q);
            } else if rp > r {
                lemma_psi_monotone(s, sa, prim, b, r, rp);
            }
            assert(rp < r);
            lemma_lrow_mono(s, sa, prim, b, 0, rp);
            assert(lrow_count(s, sa, prim, b, rp + 1) == lrow_count(s, sa, prim, b, rp) + 1);
            lemma_lrow_mono(s, sa, prim, b, rp + 1, r);
            assert(false);
        }
    } else {
        let p = lemma_lrow_prev(s, sa, prim, b, r);
        lemma_lf(s, sa, prim, b, p);
        lemma_psi(s, sa, prim, p);
        let qp = row_of(sa, sa[p] - 1);
        lemma_psi_monotone(s, sa, prim, b, p, r);
        assert(qp < q);
        assert(s[sa[qp] as int] == b);
        assert(frow_count(s, sa, b, qp + 1) == c);
        assert forall|qq: int| qp + 1 <= qq < q implies s[sa[qq] as int] != b by {
            if s[sa[qq] as int] == b {
                lemma_chi(s, sa, prim, qq);
                let rq = row_of(sa, sa[qq] + 1);
                if rq == r {
                    lemma_row_of_unique(s, sa, sa[r] - 1, qq);
                } else if rq > r {
                    lemma_psi_monotone(s, sa, prim, b, r, rq);
                } else if rq == p {
                    lemma_row_of_unique(s, sa, sa[p] - 1, qq);
                } else if rq < p {
                    lemma_psi_monotone(s, sa, prim, b, rq, p);
                }
                assert(p < rq < r);
            }
        }
        lemma_frow_const(s, sa, b, qp + 1, q);
    }
}

/// Within one byte class, the last column and the first-letter column hold
/// the same number of rows.
proof fn lemma_lf_total(s: Seq<u8>, sa: Seq<u32>, prim: int, b: u8)
    requires
        is_suffix_array(s, sa),
        0 <= prim < sa.len(),
        sa[prim] == 0,
    ensures
        lrow_count(s, sa, prim, b, sa.len() as int) == frow_count(s, sa, b, sa.len() as int),
{
    let n1 = sa.len() as int;
    let m = lrow_count(s, sa, prim, b, n1);
    lemma_lrow_mono(s, sa, prim, b, 0, n1);
    lemma_frow_mono(s, sa, b, 1, n1);
    if m >= 1 {
        let p = lemma_lrow_prev(s, sa, prim, b, n1);
        lemma_lf(s, sa, prim, b, p);
        lemma_psi(s, sa, prim, p);
        let qp = row_of(sa, sa[p] - 1);
        assert(frow_count(s, sa, b, qp + 1) == m);
        assert forall|qq: int| qp + 1 <= qq < n1 implies s[sa[qq] as int] != b by {
            if s[sa[qq] as int] == b {
                lemma_chi(s, sa, prim, qq);
                let rq = row_of(sa, sa[qq] + 1);
                if rq == p {
                    lemma_row_of_unique(s, sa, sa[p] - 1, qq);
                } else if rq < p {
                    lemma_psi_monotone(s, sa, prim, b, rq, p);
                }
                assert(p < rq < n1);
            }
        }
        lemma_frow_const(s, sa, b, qp + 1, n1);
    } else {
        if frow_count(s, sa, b, n1) >= 1 {
            let p = lemma_frow_pos(s, sa, b, n1);
            lemma_chi(s, sa, prim, p);
            let rp = row_of(sa, sa[p] + 1);
            lemma_lrow_mono(s, sa, prim, b, 0, rp);
            assert(lrow_count(s, sa, prim, b, rp + 1) == lrow_count(s, sa, prim, b, rp) + 1);
            lemma_lrow_mono(s, sa, prim, b, rp + 1, n1);
            assert(false);
        }
    }
}

/// A byte count is never negative.
proof fn lemma_count_nonneg(s: Seq<u8>, b: u8)
    ensures
        count_byte(s, b) >= 0,
    decreases s.len(),
{
    if s.len() > 0 {
        lemma_count_nonneg(s.drop_last(), b);
    }
}

/// Counting from the front: the head contributes its own occurrence.
proof fn lemma_count_front(s: Seq<u8>, b: u8)
    requires
        s.len() >= 1,
    ensures
        count_byte(s, b) == (if s[0] == b {
            1int
        } else {
            0int
        }) + count_byte(s.skip(1), b),
    decreases s.len(),
{
    if s.len() == 1 {
        assert(s.skip(1) =~= Seq::<u8>::empty());
        assert(s.drop_last() =~= Seq::<u8>::empty());
    } else {
        lemma_count_front(s.drop_last(), b);
        assert(s.drop_last().skip(1) =~= s.skip(1).drop_last());
        assert(s.drop_last()[0] == s[0]);
        assert(s.skip(1).last() == s.last());
        assert(count_byte(s.skip(1), b) == count_byte(s.skip(1).drop_last(), b) + (if s.last()
            == b {
            1int
        } else {
            0int
        }));
    }
}

/// A positive count names a position holding the byte.
proof fn lemma_count_pos(s: Seq<u8>, b: u8) -> (i: int)
    requires
        count_byte(s, b) >= 1,
    ensures
        0 <= i < s.len(),
        s[i] == b,
    decreases s.len(),
{
    lemma_count_nonneg(s.drop_last(), b);
    if s.last() == b {
        s.len() - 1
    } else {
        lemma_count_pos(s.drop_last(), b)
    }
}

/// Two sorted byte blocks of one length with the same per-byte counts are
/// the same block.
proof fn lemma_sorted_eq(a: Seq<u8>, c: Seq<u8>)
    requires
        a.len() == c.len(),
        byte_sorted(a),
        byte_sorted(c),
        forall|b: u8| #[trigger] count_byte(a, b) == count_byte(c, b),
    ensures
        a == c,
    decreases a.len(),
{
    if a.len() == 0 {
        assert(a =~= c);
    } else {
        lemma_count_front(a, a[0]);
        lemma_count_nonneg(a.skip(1), a[0]);
        assert(count_byte(c, a[0]) >= 1);
        let i = lemma_count_pos(c, a[0]);
        assert(c[0] <= a[0]);
        lemma_count_front(c, c[0]);
        lemma_count_nonneg(c.skip(1), c[0]);
        assert(count_byte(a, c[0]) >= 1);
        let j = lemma_count_pos(a, c[0]);
        assert(a[0] <= c[0]);
        assert(a[0] == c[0]);
        let a1 = a.skip(1);
        let c1 = c.skip(1);
        assert(byte_sorted(a1)) by {
            assert forall|i1: int, j1: int| 0 <= i1 < j1 < a1.len() implies a1[i1] <= a1[j1] by {
                assert(a1[i1] == a[i1 + 1] && a1[j1] == a[j1 + 1]);
            }
        }
        assert(byte_sorted(c1)) by {
            assert forall|i1: int, j1: int| 0 <= i1 < j1 < c1.len() implies c1[i1] <= c1[j1] by {
                assert(c1[i1] == c[i1 + 1] && c1[j1] == c[j1 + 1]);
            }
        }
        assert forall|b: u8| #[trigger] count_byte(a1, b) == count_byte(c1, b) by {
            lemma_count_front(a, b);
            lemma_count_front(c, b);
        }
        lemma_sorted_eq(a1, c1);
        assert forall|k: int| 0 <= k < a.len() implies a[k] == c[k] by {
            if k >= 1 {
                assert(a[k] == a1[k - 1] && c[k] == c1[k - 1]);
            }
        }
        assert(a =~= c);
    }
}

/// Sorting the last column gives exactly the first-letter column: both are
/// sorted and they hold every byte equally often.
proof fn lemma_sorted_is_first_letters(s: Seq<u8>, sa: Seq<u32>, prim: int, sorted: Seq<u8>)
    requires
        is_suffix_array(s, sa),
        0 <= prim < sa.len(),
        sa[prim] == 0,
        byte_sorted(sorted),
        sorted.len() == s.len(),
        forall|b: u8| count_byte(sorted, b) == count_byte(bwt_output(s, sa, prim), b),
    ensures
        sorted == first_letters(s, sa),
{
    let l = bwt_output(s, sa, prim);
    let f = first_letters(s, sa);
    lemma_first_letters_sorted(s, sa);
    assert forall|b: u8| #[trigger] count_byte(sorted, b) == count_byte(f, b) by {
        lemma_lcount_bridge(s, sa, prim, b, sa.len() as int);
        assert(lpos(prim, sa.len() as int) == l.len());
        assert(l.take(l.len() as int) =~= l);
        lemma_fcount_bridge(s, sa, b, sa.len() as int);
        assert(f.take(f.len() as int) =~= f);
        lemma_lf_total(s, sa, prim, b);
    }
    lemma_sorted_eq(sorted, f);
}

/// The reverse walk started at the row of position `t` reproduces the block
/// from `t` on: each step emits the suffix's first letter and the rank
/// correspondence moves to the row of the next position.
proof fn lemma_walk(s: Seq<u8>, sa: Seq<u32>, prim: int, t: int)
    requires
        is_suffix_array(s, sa),
        0 <= prim < sa.len(),
        sa[prim] == 0,
        0 <= t < s.len(),
    ensures
        bwt_walk(
            bwt_output(s, sa, prim),
            first_letters(s, sa),
            prim,
            row_of(sa, t) - 1,
            (s.len() - t) as nat,
        ) == s.skip(t),
    decreases s.len() - t,
{
    let l = bwt_output(s, sa, prim);
    let f = first_letters(s, sa);
    let n = s.len() as int;
    lemma_sa_zero(s, sa);
    lemma_row_of(s, sa, t);
    let q = row_of(sa, t);
    assert(q != 0) by {
        if q == 0 {
            assert(sa[0] == s.len());
        }
    }
    let pos = q - 1;
    let b = s[t];
    assert(f[pos] == b);
    lemma_fcount_bridge(s, sa, b, q);
    let c = count_byte(f.take(pos), b);
    assert(c == frow_count(s, sa, b, q));
    if t == n - 1 {
        let nxt = bwt_step(prim, nth_occ(l, b, c));
        assert(bwt_walk(l, f, prim, nxt, 0nat) =~= Seq::<u8>::empty());
        assert(bwt_walk(l, f, prim, pos, 1nat) == seq![b] + bwt_walk(l, f, prim, nxt, 0nat));
        assert(seq![b] + Seq::<u8>::empty() =~= seq![b]);
        assert(s.skip(t) =~= seq![b]);
    } else {
        lemma_row_of(s, sa, t + 1);
        let r = row_of(sa, t + 1);
        assert(r != prim) by {
            lemma_sa_distinct(s, sa, r, prim);
            if r == prim {
                assert(sa[prim] == 0);
            }
        }
        assert(r != 0) by {
            if r == 0 {
                assert(sa[0] == s.len());
            }
        }
        assert(s[sa[r] - 1] == b);
        lemma_row_of_unique(s, sa, t, q);
        assert(row_of(sa, sa[r] - 1) == q);
        lemma_lf(s, sa, prim, b, r);
        assert(lrow_count(s, sa, prim, b, r) == c);
        let k = lpos(prim, r);
        assert(l[k] == b) by {
            if r < prim {
                assert(k == r);
            } else {
                assert(k == r - 1);
            }
        }
        lemma_lcount_bridge(s, sa, prim, b, r);
        assert(count_byte(l.take(k), b) == c);
        lemma_nth_occ_unique(l, b, c, k);
        assert(nth_occ(l, b, c) == k);
        assert(bwt_step(prim, k) == r - 1) by {
            if r < prim {
                assert(k == r && k != 0);
            } else {
                assert(k == r - 1);
            }
        }
        lemma_walk(s, sa, prim, t + 1);
        assert(bwt_walk(l, f, prim, pos, (n - t) as nat) == seq![b] + bwt_walk(
            l,
            f,
            prim,
            r - 1,
            (n - t - 1) as nat,
        ));
        assert(seq![b] + s.skip(t + 1) =~= s.skip(t));
    }
}

/// Round trip: walking the last column of a non-empty block from its
/// recorded primary index, over any sorted column that holds the same bytes,
/// reproduces the block. Together with the contracts of `transform` and
/// `reverse`, reversing a transform restores the input.
pub proof fn lemma_bwt_round_trip(s: Seq<u8>, sa: Seq<u32>, prim: int, sorted: Seq<u8>)
    requires
        s.len() >= 1,
        is_suffix_array(s, sa),
        0 <= prim < sa.len(),
        sa[prim] == 0,
        byte_sorted(sorted),
        sorted.len() == s.len(),
        forall|b: u8| count_byte(sorted, b) == count_byte(bwt_output(s, sa, prim), b),
    ensures
        bwt_walk(bwt_output(s, sa, prim), sorted, prim, prim - 1, s.len() as nat) == s,
{
    lemma_sorted_is_first_letters(s, sa, prim, sorted);
    lemma_row_of_unique(s, sa, 0, prim);
    lemma_walk(s, sa, prim, 0);
    assert(s.skip(0) =~= s);
}

/// Sort a block of bytes by counting: the result is sorted and holds every
/// byte value as often as the input does.
fn counting_sort(source: &[u8]) -> (r: Vec<u8>)
    ensures
        r@.len() == source@.len(),
        byte_sorted(r@),
        forall|b: u8| #[trigger] count_byte(r@, b) == count_byte(source@, b),
{
    let mut counts: Vec<usize> = Vec::new();
    for b in 0..256usize
        invariant
            counts@.len() == b,
            forall|k: int| 0 <= k < b ==> counts@[k] == 0,
    {
        counts.push(0);
    }
    proof {
        assert forall|b: u8| counts@[b as int] == count_byte(source@.take(0), b) by {
            assert(source@.take(0) =~= Seq::<u8>::empty());
        }
    }
    for i in 0..source.len()
        invariant
            counts@.len() == 256,
            forall|b: u8| counts@[b as int] == count_byte(source@.take(i as int), b),
            forall|b: u8| counts@[b as int] <= i,
    {
        let b = source[i] as usize;
        let ghost cpre = counts@;
        let c = counts[b];
        counts[b] = c + 1;
        proof {
            assert forall|bb: u8| counts@[bb as int] == count_byte(source@.take(i + 1), bb) by {
                lemma_count_take_step(source@, bb, i as int);
                assert(counts@[bb as int] == cpre[bb as int] + (if bb == source@[i as int] {
                    1int
                } else {
                    0int
                }));
            }
        }
    }
    proof {
        assert forall|b: u8| counts@[b as int] == count_byte(source@, b) by {
            lemma_count_take_all(source@, b);
        }
    }
    let mut r: Vec<u8> = Vec::new();
    proof {
        assert forall|bb: u8| count_byte(r@, bb) == 0 by {
            assert(r@.len() == 0);
        }
    }
    for b in 0..256usize
        invariant
            counts@.len() == 256,
            forall|bb: u8| counts@[bb as int] == count_byte(source@, bb),
            byte_sorted(r@),
            forall|k: int| 0 <= k < r@.len() ==> (r@[k] as int) < b,
            forall|bb: u8| (bb as int) < b ==> count_byte(r@, bb) == count_byte(source@, bb),
            forall|bb: u8| (bb as int) >= b ==> count_byte(r@, bb) == 0,
            r@.len() == count_below(source@, b as int),
    {
        let n = counts[b];
        let ghost rb = r@;
        let mut j: usize = 0;
        while j < n
            invariant
                j <= n,
                counts@.len() == 256,
                b < 256,
                n == counts@[b as int],
                forall|bb: u8| counts@[bb as int] == count_byte(source@, bb),
                byte_sorted(r@),
                forall|k: int| 0 <= k < r@.len() ==> (r@[k] as int) <= b,
                forall|bb: u8| (bb as int) < b ==> count_byte(r@, bb) == count_byte(source@, bb),
                count_byte(r@, b as u8) == j,
                forall|bb: u8| (bb as int) > b ==> count_byte(r@, bb) == 0,
                r@.len() == rb.len() + j,
                rb.len() == count_below(source@, b as int),
            decreases n - j,
        {
            let ghost r0 = r@;
            r.push(b as u8);
            j = j + 1;
            proof {
                assert(r@.drop_last() =~= r0);
                assert forall|bb: u8| count_byte(r@, bb) == count_byte(r0, bb) + (if bb == b as u8 {
                    1int
                } else {
                    0int
                }) by {}
            }
        }
        proof {
            assert(count_below(source@, b + 1) == count_below(source@, b as int) + count_byte(
                source@,
                b as u8,
            ));
        }
    }
    proof {
        lemma_count_below_all(source@);
    }
    r
}

/// Rank-within-run counts for a block: entry `k` says how many positions of
/// the same byte immediately precede position `k`.
pub fn get_counts(sorted: &[u8]) -> (r: Vec<usize>)
    requires
        sorted@.len() >= 1,
    ensures
        r@.len() == sorted@.len(),
        forall|k: int| 0 <= k < r@.len() ==> r@[k] as int == run_rank(sorted@, k),
{
    let mut result: Vec<usize> = Vec::new();
    result.push(0);
    for k in 1..sorted.len()
        invariant
            1 <= k <= sorted@.len(),
            result@.len() == k,
            forall|t: int| 0 <= t < k ==> result@[t] as int == run_rank(sorted@, t),
            forall|t: int| 0 <= t < k ==> result@[t] < sorted@.len(),
    {
        if sorted[k] == sorted[k - 1] {
            let c = result[k - 1];
            proof {
                assert(run_rank(sorted@, k as int) == run_rank(sorted@, k - 1) + 1);
                lemma_run_rank_bound(sorted@, k - 1);
            }
            result.push(c + 1);
        } else {
            result.push(0);
        }
    }
    result
}

/// A run rank never reaches the block length.
proof fn lemma_run_rank_bound(s: Seq<u8>, k: int)
    requires
        0 <= k < s.len(),
    ensures
        run_rank(s, k) <= k,
    decreases k,
{
    if k > 0 && s[k] == s[k - 1] {
        lemma_run_rank_bound(s, k - 1);
    }
}

/// For every byte value, the ascending list of positions where it occurs in
/// `data`.
pub fn get_position_map(data: &[u8]) -> (r: Vec<Vec<usize>>)
    ensures
        r@.len() == 256,
        forall|b: int| 0 <= b < 256 ==> (#[trigger] r@[b])@.len() == count_byte(data@, b as u8),
        forall|b: int, c: int|
            0 <= b < 256 && 0 <= c < r@[b]@.len() ==> {
                let i = #[trigger] (r@[b]@[c]) as int;
                &&& 0 <= i < data@.len()
                &&& data@[i] == b as u8
                &&& count_byte(data@.take(i), b as u8) == c
            },
{
    let mut result: Vec<Vec<usize>> = Vec::new();
    for b in 0..256usize
        invariant
            result@.len() == b,
            forall|k: int| 0 <= k < b ==> (#[trigger] result@[k])@.len() == 0,
    {
        result.push(Vec::new());
    }
    proof {
        assert forall|b: int| 0 <= b < 256 implies (#[trigger] result@[b])@.len() == count_byte(
            data@.take(0),
            b as u8,
        ) by {
            assert(data@.take(0) =~= Seq::<u8>::empty());
        }
    }
    for i in 0..data.len()
        invariant
            result@.len() == 256,
            forall|b: int| 0 <= b < 256 ==> (#[trigger] result@[b])@.len() == count_byte(
                data@.take(i as int),
                b as u8,
            ),
            forall|b: int, c: int|
                0 <= b < 256 && 0 <= c < result@[b]@.len() ==> {
                    let t = #[trigger] (result@[b]@[c]) as int;
                    &&& 0 <= t < data@.len()
                    &&& data@[t] == b as u8
                    &&& count_byte(data@.take(t), b as u8) == c
                },
    {
        let b = data[i] as usize;
        let ghost rpre = result@;
        let mut lst: Vec<usize> = Vec::new();
        core::mem::swap(&mut lst, &mut result[b]);
        proof {
            assert(lst@.len() == count_byte(data@.take(i as int), data@[i as int]));
            lemma_count_take_monotone(data@, data@[i as int], i as int, data@.len() as int);
            lemma_count_take_step(data@, data@[i as int], i as int);
            lemma_count_take_all(data@, data@[i as int]);
        }
        lst.push(i);
        result[b] = lst;
        proof {
            assert forall|bb: int| 0 <= bb < 256 implies (#[trigger] result@[bb])@.len()
                == count_byte(data@.take(i + 1), bb as u8) by {
                lemma_count_take_step(data@, bb as u8, i as int);
                if bb != b as int {
                    assert(result@[bb] == rpre[bb]);
                }
            }
            assert forall|bb: int, c: int|
                0 <= bb < 256 && 0 <= c < result@[bb]@.len() implies {
                let t = #[trigger] (result@[bb]@[c]) as int;
                &&& 0 <= t < data@.len()
                &&& data@[t] == bb as u8
                &&& count_byte(data@.take(t), bb as u8) == c
            } by {
                if bb == b as int && c == result@[bb]@.len() - 1 {
                    assert(result@[bb]@[c] == i);
                } else {
                    if bb == b as int {
                        assert(result@[bb]@[c] == rpre[bb]@[c]);
                    } else {
                        assert(result@[bb] == rpre[bb]);
                    }
                }
            }
        }
    }
    proof {
        assert forall|b: int| 0 <= b < 256 implies (#[trigger] result@[b])@.len() == count_byte(
            data@,
            b as u8,
        ) by {
            lemma_count_take_all(data@, b as u8);
        }
    }
    result
}

/// Burrows-Wheeler state: the primary index side channel and the size of the
/// last transformed block.
#[derive(Debug)]
pub struct BurrowWheeler {
    pub ix: Option<usize>,
    pub size: usize,
}

impl BurrowWheeler {
    /// A fresh state with no recorded block.
    pub fn new() -> (r: Self)
        ensures
            r.ix is None,
            r.size == 0,
    {
        BurrowWheeler { ix: None, size: 0 }
    }

    /// Forget the recorded primary index.
    pub fn reset(&mut self)
        ensures
            final(self).ix is None,
            final(self).size == old(self).size,
    {
        self.ix = None
    }
}

impl Default for BurrowWheeler {
    fn default() -> (r: Self)
        ensures
            r.ix is None,
            r.size == 0,
    {
        BurrowWheeler::new()
    }
}

impl BurrowWheeler {
    /// Transformation of the initial source data: the last column of the
    /// sorted rotation matrix, with the row of the whole block recorded as
    /// the primary index.
    pub fn transform(&mut self, source: &[u8]) -> (r: Result<Vec<u8>, TransformError>)
        requires
            source@.len() < 0x7FFF_FFFF,
        ensures
            final(self).size == source@.len(),
            source@.len() == 0 ==> r == Err::<Vec<u8>, TransformError>(
                TransformError::EmptyBufferError,
            ) && final(self).ix == old(self).ix,
            source@.len() > 0 ==> r is Ok && r->Ok_0@.len() == source@.len() && exists|sa: Seq<u32>, prim: int|
                {
                    &&& #[trigger] is_suffix_array(source@, sa)
                    &&& 0 <= prim < sa.len()
                    &&& sa[prim] == 0
                    &&& final(self).ix == Some(prim as usize)
                    &&& r->Ok_0@ == #[trigger] bwt_output(source@, sa, prim)
                },
    {
        self.size = source.len();
        if source.len() == 0 {
            return Err(TransformError::EmptyBufferError);
        }
        let sarr = suffix_array_of(source);
        let ghost sa = sarr@;
        let mut ixp: usize = 0;
        let lim = sarr.len();
        proof {
            assert(sa.contains(0u32));
        }
        while sarr[ixp] != 0
            invariant
                is_suffix_array(source@, sa),
                sa == sarr@,
                sa.contains(0u32),
                lim == sa.len(),
                0 <= ixp < lim,
                forall|k: int| 0 <= k < ixp ==> sa[k] != 0u32,
            decreases sa.len() - ixp,
        {
            ixp = ixp + 1;
            proof {
                if ixp == sa.len() {
                    let w = choose|w: int| 0 <= w < sa.len() && sa[w] == 0u32;
                    assert(sa[w] != 0u32);
                }
            }
        }
        self.ix = Some(ixp);
        let mut last: Vec<u8> = Vec::new();
        let ghost target = bwt_output(source@, sa, ixp as int);
        for k in 0..sarr.len()
            invariant
                is_suffix_array(source@, sa),
                sa == sarr@,
                sa.len() == source@.len() + 1,
                0 <= ixp < sa.len(),
                sa[ixp as int] == 0u32,
                target == bwt_output(source@, sa, ixp as int),
                last@.len() == if k <= ixp {
                    k as int
                } else {
                    k - 1
                },
                forall|t: int| 0 <= t < last@.len() ==> last@[t] == target[t],
        {
            if k != ixp {
                proof {
                    if sarr@[k as int] == 0u32 {
                        // two rows cannot both start the whole block
                        if (k as int) < ixp as int {
                            assert(suffix_lt(source@, sa[k as int] as int, sa[ixp as int] as int));
                        } else {
                            assert(suffix_lt(source@, sa[ixp as int] as int, sa[k as int] as int));
                        }
                        lemma_suffix_lt_irrefl(source@, 0);
                    }
                }
                let v = sarr[k] as usize;
                last.push(source[v - 1]);
            }
        }
        proof {
            assert(last@ =~= target);
        }
        Ok(last)
    }

    /// Reversing the initial transformation: walk the last column from the
    /// recorded primary index, emitting one byte of the original block per
    /// step.
    pub fn reverse(&mut self, source: &[u8]) -> (r: Result<Vec<u8>, TransformError>)
        ensures
            *final(self) == *old(self),
            source@.len() == 0 ==> r == Err::<Vec<u8>, TransformError>(
                TransformError::EmptyBufferError,
            ),
            source@.len() > 0 ==> match old(self).ix {
                Some(prim) => if 1 <= prim <= source@.len() {
                    r is Ok && r->Ok_0@.len() == old(self).size && exists|sorted: Seq<u8>|
                        {
                            &&& #[trigger] byte_sorted(sorted)
                            &&& sorted.len() == source@.len()
                            &&& (forall|b: u8|
                                count_byte(sorted, b) == #[trigger] count_byte(source@, b))
                            &&& r->Ok_0@ == bwt_walk(
                                source@,
                                sorted,
                                prim as int,
                                prim - 1,
                                old(self).size as nat,
                            )
                        }
                } else {
                    r == Err::<Vec<u8>, TransformError>(TransformError::MissingIndex)
                },
                None => r == Err::<Vec<u8>, TransformError>(TransformError::MissingIndex),
            },
    {
        if source.len() == 0 {
            return Err(TransformError::EmptyBufferError);
        }
        let prim = match self.ix {
            Some(p) => p,
            None => {
                return Err(TransformError::MissingIndex);
            },
        };
        if prim < 1 || prim > source.len() {
            return Err(TransformError::MissingIndex);
        }
        let sorted = counting_sort(source);
        let counts = get_counts(&sorted);
        let mapping = get_position_map(source);
        let ghost l = source@;
        let ghost sd = sorted@;
        let n = source.len();
        let steps = self.size;
        let mut result: Vec<u8> = Vec::new();
        let mut pos: usize = prim - 1;
        let ghost target = bwt_walk(l, sd, prim as int, prim - 1, steps as nat);
        for k in 0..steps
            invariant
                l == source@,
                sd == sorted@,
                counts@.len() == n,
                sd.len() == n,
                n == l.len(),
                1 <= prim <= n,
                byte_sorted(sd),
                forall|b: u8| count_byte(sd, b) == #[trigger] count_byte(l, b),
                forall|t: int| 0 <= t < n ==> counts@[t] as int == run_rank(sd, t),
                mapping@.len() == 256,
                forall|b: int| 0 <= b < 256 ==> (#[trigger] mapping@[b])@.len() == count_byte(
                    l,
                    b as u8,
                ),
                forall|b: int, c: int|
                    0 <= b < 256 && 0 <= c < mapping@[b]@.len() ==> {
                        let t = #[trigger] (mapping@[b]@[c]) as int;
                        &&& 0 <= t < l.len()
                        &&& l[t] == b as u8
                        &&& count_byte(l.take(t), b as u8) == c
                    },
                0 <= pos < n,
                result@.len() == k,
                target == bwt_walk(l, sd, prim as int, prim - 1, steps as nat),
                result@ + bwt_walk(l, sd, prim as int, pos as int, (steps - k) as nat) == target,
            decreases steps - k,
        {
            let b = sorted[pos];
            let c = counts[pos];
            proof {
                lemma_run_rank_sorted(sd, pos as int);
                assert(c as int == count_byte(sd.take(pos as int), b));
                // the rank is below the total number of occurrences
                lemma_count_take_step(sd, b, pos as int);
                lemma_count_take_monotone(sd, b, pos + 1, sd.len() as int);
                lemma_count_take_all(sd, b);
                assert(c < count_byte(l, b));
            }
            let lst = &mapping[b as usize];
            if c >= lst.len() {
                proof {
                    assert(false);
                }
                return Err(TransformError::MissingCountMap(b, c));
            }
            let i = lst[c];
            proof {
                lemma_nth_occ_unique(l, b, c as int, i as int);
                assert(bwt_walk(l, sd, prim as int, pos as int, (steps - k) as nat) == seq![b]
                    + bwt_walk(
                    l,
                    sd,
                    prim as int,
                    bwt_step(prim as int, i as int),
                    (steps - k - 1) as nat,
                ));
            }
            result.push(b);
            pos = if i != 0 && i < prim {
                i - 1
            } else {
                i
            };
            proof {
                assert(pos as int == bwt_step(prim as int, i as int));
                assert(result@ + bwt_walk(l, sd, prim as int, pos as int, (steps - k - 1) as nat)
                    =~= target);
            }
        }
        proof {
            assert(bwt_walk(l, sd, prim as int, pos as int, 0) =~= Seq::<u8>::empty());
            assert(result@ + Seq::<u8>::empty() =~= result@);
        }
        Ok(result)
    }
}

impl Transform for BurrowWheeler {
    fn transform(&mut self, source: &[u8]) -> Result<Vec<u8>, TransformError> {
        if source.len() >= 0x7FFF_FFFF {
            return Err(TransformError::OversizedBuffer);
        }
        BurrowWheeler::transform(self, source)
    }

    fn reverse(&mut self, source: &[u8]) -> Result<Vec<u8>, TransformError> {
        BurrowWheeler::reverse(self, source)
    }
}

} // verus!
