//! Move-to-front transformation.
//!
//! A table of all 256 byte values starts as the identity. Each input byte is
//! emitted as its current position in the table and then moved to the front;
//! the reverse pass replays the same table evolution by position.

use vstd::prelude::*;
use crate::transform::{Transform, TransformError};

verus! {

/// Whether byte `b` occurs somewhere in table `t`.
pub open spec fn has_byte(t: Seq<u8>, b: u8) -> bool {
    exists|i: int| 0 <= i < t.len() && t[i] == b
}

/// A well-formed move-to-front table: all 256 byte values, each exactly once.
pub open spec fn mtf_wf(t: Seq<u8>) -> bool {
    &&& t.len() == 256
    &&& forall|b: u8| #[trigger] has_byte(t, b)
    &&& forall|i: int, j: int| 0 <= i < j < t.len() ==> t[i] != t[j]
}

/// The identity table: value `i` at position `i`.
pub open spec fn mtf_identity() -> Seq<u8> {
    Seq::new(256, |i: int| i as u8)
}

/// The table after moving the entry at position `p` to the front.
pub open spec fn mtf_step(t: Seq<u8>, p: int) -> Seq<u8> {
    seq![t[p]] + t.take(p) + t.skip(p + 1)
}

/// The position of byte `b` in table `t`; unique when the table holds each
/// byte once.
pub open spec fn mtf_pos(t: Seq<u8>, b: u8) -> int {
    choose|i: int| 0 <= i < t.len() && t[i] == b
}

/// The forward move-to-front coding of `s` under table `t`.
pub open spec fn mtf_transform_seq(t: Seq<u8>, s: Seq<u8>) -> Seq<u8>
    decreases s.len(),
{
    if s.len() == 0 {
        Seq::empty()
    } else {
        let p = mtf_pos(t, s[0]);
        seq![p as u8] + mtf_transform_seq(mtf_step(t, p), s.skip(1))
    }
}

/// The reverse move-to-front decoding of `s` under table `t`.
pub open spec fn mtf_reverse_seq(t: Seq<u8>, s: Seq<u8>) -> Seq<u8>
    decreases s.len(),
{
    if s.len() == 0 {
        Seq::empty()
    } else {
        let p = s[0] as int;
        seq![t[p]] + mtf_reverse_seq(mtf_step(t, p), s.skip(1))
    }
}

/// The table left behind after coding `s` under table `t`; the forward and
/// reverse passes evolve the table identically.
pub open spec fn mtf_table_after(t: Seq<u8>, s: Seq<u8>) -> Seq<u8>
    decreases s.len(),
{
    if s.len() == 0 {
        t
    } else {
        mtf_table_after(mtf_step(t, mtf_pos(t, s[0])), s.skip(1))
    }
}

/// The table left behind after decoding `s`: the same evolution as the
/// forward pass, driven by the coded positions.
pub open spec fn mtf_rtable_after(t: Seq<u8>, s: Seq<u8>) -> Seq<u8>
    decreases s.len(),
{
    if s.len() == 0 {
        t
    } else {
        mtf_rtable_after(mtf_step(t, s[0] as int), s.skip(1))
    }
}

/// Moving an entry to the front keeps the table well-formed.
proof fn lemma_mtf_step_wf(t: Seq<u8>, p: int)
    requires
        mtf_wf(t),
        0 <= p < 256,
    ensures
        mtf_wf(mtf_step(t, p)),
{
    let n = mtf_step(t, p);
    assert(n.len() == 256);
    assert forall|j: int| 0 <= j < 256 implies n[j] == t[mtf_old_index(p, j)] by {
        mtf_index_shape(t, p, j);
    }
    assert forall|b: u8| #[trigger] has_byte(n, b) by {
        assert(has_byte(t, b));
        let i = choose|i: int| 0 <= i < t.len() && t[i] == b;
        let j: int = if i == p {
            0
        } else if i < p {
            i + 1
        } else {
            i
        };
        mtf_index_shape(t, p, j);
        assert(n[j] == b);
    }
    assert forall|i: int, j: int| 0 <= i < j < n.len() implies n[i] != n[j] by {
        mtf_index_shape(t, p, i);
        mtf_index_shape(t, p, j);
        assert(mtf_old_index(p, i) != mtf_old_index(p, j));
    }
}

/// Where each entry of the rotated table came from.
spec fn mtf_old_index(p: int, j: int) -> int {
    if j == 0 {
        p
    } else if j <= p {
        j - 1
    } else {
        j
    }
}

proof fn mtf_index_shape(t: Seq<u8>, p: int, j: int)
    requires
        t.len() == 256,
        0 <= p < 256,
        0 <= j < 256,
    ensures
        mtf_step(t, p)[j] == t[mtf_old_index(p, j)],
{
    let n = mtf_step(t, p);
    if j == 0 {
    } else if j <= p {
        assert(n[j] == t.take(p)[j - 1]);
    } else {
        assert(n[j] == t.skip(p + 1)[j - p - 1]);
    }
}

/// Move-to-front struct holding the working table.
#[derive(Debug)]
pub struct MoveToFront {
    pub table: Vec<u8>,
}

impl MoveToFront {
    fn new() -> (r: Self)
        ensures
            r.table@ == mtf_identity(),
            mtf_wf(r.table@),
    {
        let mut m = MoveToFront { table: Vec::new() };
        m.reset();
        m
    }

    /// Restore the table to the identity permutation.
    pub fn reset(&mut self)
        ensures
            final(self).table@ == mtf_identity(),
            mtf_wf(final(self).table@),
    {
        let mut table: Vec<u8> = Vec::new();
        for i in 0..256usize
            invariant
                table@.len() == i,
                forall|k: int| 0 <= k < i ==> table@[k] == k as u8,
        {
            table.push(i as u8);
        }
        self.table = table;
        proof {
            assert(self.table@ =~= mtf_identity());
            assert forall|b: u8| #[trigger] has_byte(self.table@, b) by {
                assert(self.table@[b as int] == b);
            }
        }
    }

    /// Rotate the first `pos` table entries right by one, moving the entry at
    /// `pos - 1` to the front.
    fn rotate(&mut self, pos: usize)
        requires
            0 < pos <= old(self).table@.len(),
        ensures
            final(self).table@ == mtf_step(old(self).table@, pos - 1),
    {
        let ghost t0 = self.table@;
        let p = pos - 1;
        let first = self.table[p];
        let mut k: usize = p;
        while k > 0
            invariant
                k <= p,
                p < self.table@.len(),
                self.table@.len() == t0.len(),
                forall|j: int| 0 <= j <= k ==> self.table@[j] == t0[j],
                forall|j: int| k < j <= p ==> self.table@[j] == t0[j - 1],
                forall|j: int| p < j < t0.len() ==> self.table@[j] == t0[j],
            decreases k,
        {
            let v = self.table[k - 1];
            self.table[k] = v;
            k -= 1;
        }
        self.table[0] = first;
        proof {
            assert(self.table@ =~= mtf_step(t0, p as int));
        }
    }
}

impl Default for MoveToFront {
    fn default() -> (r: Self)
        ensures
            r.table@ == mtf_identity(),
            mtf_wf(r.table@),
    {
        MoveToFront::new()
    }
}

impl MoveToFront {
    /// Forward move-to-front pass: each byte becomes its current table
    /// position, and the table entry moves to the front.
    pub fn transform(&mut self, source: &[u8]) -> (r: Result<Vec<u8>, TransformError>)
        requires
            mtf_wf(old(self).table@),
        ensures
            mtf_wf(final(self).table@),
            source@.len() == 0 ==> r == Err::<Vec<u8>, TransformError>(
                TransformError::EmptyBufferError,
            ) && *final(self) == *old(self),
            source@.len() > 0 ==> {
                &&& r is Ok
                &&& r->Ok_0@ == mtf_transform_seq(old(self).table@, source@)
                &&& final(self).table@ == mtf_table_after(old(self).table@, source@)
            },
    {
        if source.len() == 0 {
            return Err(TransformError::EmptyBufferError);
        }
        let ghost t0 = self.table@;
        let mut result: Vec<u8> = Vec::new();
        proof {
            assert(source@.skip(0) =~= source@);
            assert(result@ + mtf_transform_seq(t0, source@) =~= mtf_transform_seq(t0, source@));
        }
        for i in 0..source.len()
            invariant
                mtf_wf(self.table@),
                result@ + mtf_transform_seq(self.table@, source@.skip(i as int))
                    == mtf_transform_seq(t0, source@),
                mtf_table_after(self.table@, source@.skip(i as int)) == mtf_table_after(t0, source@),
        {
            let byte = source[i];
            let ghost tcur = self.table@;
            proof {
                assert(source@.skip(i as int)[0] == source@[i as int]);
                assert(source@.skip(i as int).skip(1) =~= source@.skip(i + 1));
                assert(has_byte(tcur, byte));
            }
            let mut p: usize = 0;
            while self.table[p] != byte
                invariant
                    p < 256,
                    self.table@ == tcur,
                    mtf_wf(tcur),
                    has_byte(tcur, byte),
                    forall|k: int| 0 <= k < p ==> tcur[k] != byte,
                decreases 256 - p,
            {
                p += 1;
                proof {
                    if p == 256 {
                        let w = choose|w: int| 0 <= w < tcur.len() && tcur[w] == byte;
                        assert(tcur[w] != byte);
                    }
                }
            }
            proof {
                // the found position is the unique position of the byte
                let q = mtf_pos(tcur, byte);
                assert(0 <= q < tcur.len() && tcur[q] == byte);
                assert(p == q);
                lemma_mtf_step_wf(tcur, p as int);
            }
            result.push(p as u8);
            self.rotate(p + 1);
        }
        proof {
            assert(source@.skip(source@.len() as int) =~= Seq::<u8>::empty());
            assert(result@ + Seq::<u8>::empty() =~= result@);
        }
        Ok(result)
    }

    /// Reverse move-to-front pass: the table is reset to the identity, then
    /// each input position indexes the current table and that entry moves to
    /// the front.
    pub fn reverse(&mut self, source: &[u8]) -> (r: Result<Vec<u8>, TransformError>)
        ensures
            source@.len() == 0 ==> r == Err::<Vec<u8>, TransformError>(
                TransformError::EmptyBufferError,
            ) && final(self).table@ == mtf_identity(),
            source@.len() > 0 ==> {
                &&& r is Ok
                &&& r->Ok_0@ == mtf_reverse_seq(mtf_identity(), source@)
                &&& final(self).table@ == mtf_rtable_after(mtf_identity(), source@)
            },
            mtf_wf(final(self).table@),
    {
        self.reset();
        if source.len() == 0 {
            return Err(TransformError::EmptyBufferError);
        }
        let ghost t0 = self.table@;
        let mut result: Vec<u8> = Vec::new();
        proof {
            assert(source@.skip(0) =~= source@);
            assert(result@ + mtf_reverse_seq(t0, source@) =~= mtf_reverse_seq(t0, source@));
        }
        for i in 0..source.len()
            invariant
                mtf_wf(self.table@),
                result@ + mtf_reverse_seq(self.table@, source@.skip(i as int))
                    == mtf_reverse_seq(t0, source@),
                mtf_rtable_after(self.table@, source@.skip(i as int)) == mtf_rtable_after(
                    t0,
                    source@,
                ),
        {
            let ix = source[i] as usize;
            let ghost tcur = self.table@;
            proof {
                assert(source@.skip(i as int)[0] == source@[i as int]);
                assert(source@.skip(i as int).skip(1) =~= source@.skip(i + 1));
            }
            result.push(self.table[ix]);
            proof {
                lemma_mtf_step_wf(tcur, ix as int);
            }
            self.rotate(ix + 1);
        }
        proof {
            assert(source@.skip(source@.len() as int) =~= Seq::<u8>::empty());
            assert(result@ + Seq::<u8>::empty() =~= result@);
        }
        Ok(result)
    }
}

impl Transform for MoveToFront {
    fn transform(&mut self, source: &[u8]) -> Result<Vec<u8>, TransformError> {
        if self.table.len() != 256 {
            self.reset();
        }
        match table_defect(&self.table) {
            Some(b) => {
                return Err(TransformError::SymbolNotFound(b));
            },
            None => {},
        }
        MoveToFront::transform(self, source)
    }

    fn reverse(&mut self, source: &[u8]) -> Result<Vec<u8>, TransformError> {
        MoveToFront::reverse(self, source)
    }
}

/// The first defect of a working table, if any: a byte value the table does
/// not hold, or, failing that, a byte it holds twice. A table without defect
/// is well-formed.
fn table_defect(table: &Vec<u8>) -> (r: Option<u8>)
    requires
        table@.len() == 256,
    ensures
        r is None <==> mtf_wf(table@),
{
    let mut seen: Vec<bool> = Vec::new();
    for i in 0..256usize
        invariant
            seen@.len() == i,
            forall|k: int| 0 <= k < i ==> !seen@[k],
    {
        seen.push(false);
    }
    for i in 0..256usize
        invariant
            seen@.len() == 256,
            table@.len() == 256,
            forall|b: int| 0 <= b < 256 ==> seen@[b] == exists|k: int|
                0 <= k < i && table@[k] == b as u8,
    {
        let b = table[i] as usize;
        seen[b] = true;
        proof {
            assert forall|bb: int| 0 <= bb < 256 implies seen@[bb] == exists|k: int|
                0 <= k < i + 1 && table@[k] == bb as u8 by {
                if bb == b as int {
                    assert(table@[i as int] == bb as u8);
                } else {
                    if exists|k: int| 0 <= k < i + 1 && table@[k] == bb as u8 {
                        let k = choose|k: int| 0 <= k < i + 1 && table@[k] == bb as u8;
                        assert(k < i);
                    }
                }
            }
        }
    }
    for b in 0..256usize
        invariant
            seen@.len() == 256,
            table@.len() == 256,
            forall|bb: int| 0 <= bb < 256 ==> seen@[bb] == exists|k: int|
                0 <= k < 256 && table@[k] == bb as u8,
            forall|bb: u8| bb < b ==> #[trigger] has_byte(table@, bb),
    {
        if !seen[b] {
            proof {
                assert(!has_byte(table@, b as u8));
            }
            return Some(b as u8);
        }
        proof {
            let k = choose|k: int| 0 <= k < 256 && table@[k] == b as u8;
            assert(table@[k] == b as u8);
            assert(has_byte(table@, b as u8));
        }
    }
    proof {
        assert forall|b: u8| #[trigger] has_byte(table@, b) by {
            assert(b < 256);
        }
    }
    let mut twice: Vec<bool> = Vec::new();
    for i in 0..256usize
        invariant
            twice@.len() == i,
            forall|k: int| 0 <= k < i ==> !twice@[k],
    {
        twice.push(false);
    }
    for i in 0..256usize
        invariant
            twice@.len() == 256,
            table@.len() == 256,
            forall|b: int| 0 <= b < 256 ==> twice@[b] == exists|k: int|
                0 <= k < i && table@[k] == b as u8,
            forall|k1: int, k2: int| 0 <= k1 < k2 < i ==> table@[k1] != table@[k2],
    {
        let b = table[i] as usize;
        if twice[b] {
            proof {
                let k = choose|k: int| 0 <= k < i && table@[k] == b as u8;
                assert(table@[k] == table@[i as int]);
            }
            return Some(b as u8);
        }
        twice[b] = true;
        proof {
            assert forall|bb: int| 0 <= bb < 256 implies twice@[bb] == exists|k: int|
                0 <= k < i + 1 && table@[k] == bb as u8 by {
                if bb == b as int {
                    assert(table@[i as int] == bb as u8);
                } else {
                    if exists|k: int| 0 <= k < i + 1 && table@[k] == bb as u8 {
                        let k = choose|k: int| 0 <= k < i + 1 && table@[k] == bb as u8;
                        assert(k < i);
                    }
                }
            }
        }
    }
    None
}

/// Round trip: decoding the forward move-to-front coding of `x` under any
/// well-formed table restores `x`.
pub proof fn lemma_mtf_round_trip(t: Seq<u8>, x: Seq<u8>)
    requires
        mtf_wf(t),
    ensures
        mtf_reverse_seq(t, mtf_transform_seq(t, x)) == x,
    decreases x.len(),
{
    if x.len() == 0 {
        assert(mtf_reverse_seq(t, mtf_transform_seq(t, x)) =~= x);
    } else {
        let p = mtf_pos(t, x[0]);
        assert(has_byte(t, x[0]));
        assert(0 <= p < t.len() && t[p] == x[0]);
        let c = mtf_transform_seq(t, x);
        assert(c[0] == p as u8);
        assert(c.skip(1) =~= mtf_transform_seq(mtf_step(t, p), x.skip(1)));
        lemma_mtf_step_wf(t, p);
        lemma_mtf_round_trip(mtf_step(t, p), x.skip(1));
        assert(mtf_reverse_seq(t, c) =~= x);
    }
}

} // verus!
