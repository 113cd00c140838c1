//! The frequency accumulator: a fixed-shape matrix of counters, one cell per
//! (offset within the sampling window, byte value) pair, together with the
//! running count of processed files.

use vstd::prelude::*;

verus! {

/// Number of leading bytes sampled from each file.
pub const WINDOW_SIZE: usize = 4096;

/// Number of distinct byte values; the width of each matrix row.
pub const NUM_VALUES: usize = 256;

/// How many bytes of a file of length `len` fall inside the sampling window.
pub open spec fn sample_len(len: nat) -> nat {
    if len <= WINDOW_SIZE { len } else { WINDOW_SIZE as nat }
}

/// 1 if sampling a file with content `bytes` increments the cell at
/// (offset `i`, value `v`), 0 otherwise.
pub open spec fn byte_hits(bytes: Seq<u8>, i: int, v: int) -> nat {
    if 0 <= i < sample_len(bytes.len()) && bytes[i] == v {
        1nat
    } else {
        0nat
    }
}

/// Bytes beyond the sampling window never affect the matrix: two file
/// contents at least as long as the window that agree on their first
/// `WINDOW_SIZE` bytes contribute identically to every cell.
pub proof fn lemma_window_truncation(b1: Seq<u8>, b2: Seq<u8>, i: int, v: int)
    requires
        b1.len() >= WINDOW_SIZE,
        b2.len() >= WINDOW_SIZE,
        b1.take(WINDOW_SIZE as int) == b2.take(WINDOW_SIZE as int),
    ensures
        byte_hits(b1, i, v) == byte_hits(b2, i, v),
{
    if 0 <= i < WINDOW_SIZE {
        assert(b1.take(WINDOW_SIZE as int)[i] == b1[i]);
        assert(b2.take(WINDOW_SIZE as int)[i] == b2[i]);
    }
}

/// Sum of a sequence of counters.
pub open spec fn sum_cells(s: Seq<u32>) -> nat
    decreases s.len(),
{
    if s.len() == 0 {
        0nat
    } else {
        sum_cells(s.drop_last()) + s.last() as nat
    }
}

/// Replacing one counter changes the sum by the difference.
proof fn lemma_sum_update(s: Seq<u32>, k: int, x: u32)
    requires
        0 <= k < s.len(),
    ensures
        sum_cells(s.update(k, x)) + s[k] == sum_cells(s) + x,
    decreases s.len(),
{
    let t = s.update(k, x);
    if k == s.len() - 1 {
        assert(t.drop_last() =~= s.drop_last());
    } else {
        assert(t.drop_last() =~= s.drop_last().update(k, x));
        lemma_sum_update(s.drop_last(), k, x);
    }
}

/// The frequency accumulator: the sole mutable counting state of a run.
///
/// `cells` stores the matrix row-major: the counter for (offset `i`,
/// byte value `v`) sits at index `i * NUM_VALUES + v`.  `processed` counts
/// the regular files sampled so far.
pub struct Accumulator {
    pub cells: Vec<u32>,
    pub processed: u32,
}

impl Accumulator {
    /// The counter for byte value `v` at offset `i`.
    pub open spec fn cell(&self, i: int, v: int) -> u32 {
        self.cells@[i * (NUM_VALUES as int) + v]
    }

    /// Sum of every counter in the matrix.
    pub open spec fn total(&self) -> nat {
        sum_cells(self.cells@)
    }

    /// Well-formedness: the matrix has its fixed shape, and no cell exceeds
    /// the processed-file count (each file increments a given cell at most
    /// once, since a file has a single byte at each offset).
    pub open spec fn wf(&self) -> bool {
        &&& self.cells@.len() == WINDOW_SIZE * NUM_VALUES
        &&& forall|k: int| 0 <= k < self.cells@.len() ==> self.cells@[k] <= self.processed
    }

    /// A fresh accumulator: every cell zero, nothing processed.
    pub fn new() -> (acc: Accumulator)
        ensures
            acc.wf(),
            acc.processed == 0,
            forall|i: int, v: int|
                0 <= i < WINDOW_SIZE && 0 <= v < NUM_VALUES ==> acc.cell(i, v) == 0,
            acc.total() == 0,
    {
        let mut cells: Vec<u32> = Vec::new();
        while cells.len() < WINDOW_SIZE * NUM_VALUES
            invariant
                cells@.len() <= WINDOW_SIZE * NUM_VALUES,
                forall|k: int| 0 <= k < cells@.len() ==> cells@[k] == 0,
                sum_cells(cells@) == 0,
            decreases WINDOW_SIZE * NUM_VALUES - cells@.len(),
        {
            let ghost prev = cells@;
            cells.push(0);
            proof {
                assert(cells@.drop_last() =~= prev);
            }
        }
        Accumulator { cells, processed: 0 }
    }

    /// Record one sampled file whose content (as far as it was read) is
    /// `bytes`: increment the cell for every byte inside the sampling
    /// window, then increment the processed-file count.  Returns whether a
    /// progress line is due, i.e. whether the new count is an exact
    /// multiple of 1000.
    ///
    /// A file of length `L` contributes exactly `sample_len(L)` increments:
    /// one at each offset `0 <= i < sample_len(L)`, in the column of the
    /// byte standing there, and none at any offset `>= L`; bytes beyond the
    /// window never touch the matrix.
    pub fn record_file(&mut self, bytes: &[u8]) -> (due: bool)
        requires
            old(self).wf(),
            old(self).processed < u32::MAX,
        ensures
            final(self).wf(),
            final(self).processed == old(self).processed + 1,
            forall|i: int, v: int|
                0 <= i < WINDOW_SIZE && 0 <= v < NUM_VALUES
                    ==> final(self).cell(i, v) == old(self).cell(i, v) + byte_hits(bytes@, i, v),
            final(self).total() == old(self).total() + sample_len(bytes@.len()),
            due == (final(self).processed % 1000 == 0),
    {
        let len = if bytes.len() < WINDOW_SIZE { bytes.len() } else { WINDOW_SIZE };
        assert(len == sample_len(bytes@.len()));
        let mut i: usize = 0;
        while i < len
            invariant
                len == sample_len(bytes@.len()),
                i <= len,
                len <= bytes@.len(),
                len <= WINDOW_SIZE,
                self.processed == old(self).processed,
                old(self).wf(),
                old(self).processed < u32::MAX,
                self.cells@.len() == WINDOW_SIZE * NUM_VALUES,
                forall|r: int, v: int|
                    0 <= r < WINDOW_SIZE && 0 <= v < NUM_VALUES
                        ==> self.cell(r, v)
                            == old(self).cell(r, v) + byte_hits(bytes@.take(i as int), r, v),
                self.total() == old(self).total() + i,
            decreases len - i,
        {
            let ghost pre = *self;
            let v = bytes[i] as usize;
            assert(i * (NUM_VALUES as int) + v < WINDOW_SIZE * NUM_VALUES) by (nonlinear_arith)
                requires
                    i <= WINDOW_SIZE - 1,
                    v < NUM_VALUES,
                    0 <= i,
                    0 <= v,
            ;
            let idx = i * NUM_VALUES + v;
            proof {
                assert(byte_hits(bytes@.take(i as int), i as int, v as int) == 0);
                assert(pre.cell(i as int, v as int) == old(self).cell(i as int, v as int));
            }
            let cur = self.cells[idx];
            assert(cur == pre.cell(i as int, v as int));
            self.cells.set(idx, cur + 1);
            proof {
                lemma_sum_update(pre.cells@, idx as int, (cur + 1) as u32);
                assert forall|r: int, w: int|
                    0 <= r < WINDOW_SIZE && 0 <= w < NUM_VALUES implies self.cell(r, w)
                        == old(self).cell(r, w) + byte_hits(bytes@.take(i + 1), r, w) by {
                    let rw = r * (NUM_VALUES as int) + w;
                    assert(pre.cell(r, w) == old(self).cell(r, w) + byte_hits(
                        bytes@.take(i as int),
                        r,
                        w,
                    ));
                    assert(self.cells@ == pre.cells@.update(idx as int, (cur + 1) as u32));
                    if rw == idx as int {
                        assert(r == i && w == v) by (nonlinear_arith)
                            requires
                                rw == idx as int,
                                idx as int == i * (NUM_VALUES as int) + v,
                                rw == r * (NUM_VALUES as int) + w,
                                0 <= w < NUM_VALUES,
                                0 <= v < NUM_VALUES,
                                0 <= r,
                                0 <= i,
                        ;
                        assert(bytes@.take(i + 1)[r] == bytes@[i as int]);
                        assert(byte_hits(bytes@.take(i + 1), r, w) == 1);
                        assert(self.cell(r, w) == cur + 1);
                    } else {
                        assert(self.cell(r, w) == pre.cells@[rw]);
                        assert(pre.cell(r, w) == pre.cells@[rw]);
                        assert(byte_hits(bytes@.take(i + 1), r, w) == byte_hits(
                            bytes@.take(i as int),
                            r,
                            w,
                        ));
                    }
                }
            }
            i += 1;
        }
        let ghost fin = *self;
        self.processed = self.processed + 1;
        proof {
            assert forall|r: int, v: int|
                0 <= r < WINDOW_SIZE && 0 <= v < NUM_VALUES implies self.cell(r, v)
                    == old(self).cell(r, v) + byte_hits(bytes@, r, v) by {
                assert(fin.cell(r, v) == old(self).cell(r, v) + byte_hits(
                    bytes@.take(len as int),
                    r,
                    v,
                ));
                assert(self.cell(r, v) == fin.cell(r, v));
                if 0 <= r < sample_len(bytes@.len()) {
                    assert(bytes@.take(len as int)[r] == bytes@[r]);
                }
                assert(byte_hits(bytes@.take(len as int), r, v) == byte_hits(bytes@, r, v));
            }
            assert forall|k: int| 0 <= k < self.cells@.len() implies self.cells@[k]
                <= self.processed by {
                let r = k / (NUM_VALUES as int);
                let w = k % (NUM_VALUES as int);
                assert(k == r * (NUM_VALUES as int) + w);
                assert(0 <= w < NUM_VALUES);
                assert(0 <= r < WINDOW_SIZE) by (nonlinear_arith)
                    requires
                        0 <= k < WINDOW_SIZE * NUM_VALUES,
                        r == k / (NUM_VALUES as int),
                ;
                assert(self.cell(r, w) == old(self).cell(r, w) + byte_hits(bytes@, r, w));
                assert(old(self).cell(r, w) <= old(self).processed);
            }
        }
        self.processed % 1000 == 0
    }

    /// The counter for byte `value` at offset `offset`.
    pub fn cell_count(&self, offset: usize, value: usize) -> (c: u32)
        requires
            self.wf(),
            offset < WINDOW_SIZE,
            value < NUM_VALUES,
        ensures
            c == self.cell(offset as int, value as int),
    {
        assert(offset * (NUM_VALUES as int) + value < WINDOW_SIZE * NUM_VALUES)
            by (nonlinear_arith)
            requires
                0 <= offset <= WINDOW_SIZE - 1,
                0 <= value < NUM_VALUES,
        ;
        self.cells[offset * NUM_VALUES + value]
    }
}

} // verus!
