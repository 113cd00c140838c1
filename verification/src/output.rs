//! Serialization of the frequency matrix: one text line per offset row,
//! each line the row's 256 counters as decimal integers separated by
//! commas and terminated by a newline.

use vstd::prelude::*;
use crate::accumulator::{Accumulator, NUM_VALUES, WINDOW_SIZE};

verus! {

/// ASCII comma, the field separator.
pub const COMMA: u8 = 44;

/// ASCII line feed, the row terminator.
pub const NEWLINE: u8 = 10;

/// The decimal digits of `n` as ASCII bytes, most significant first, with
/// no sign, padding or separators.
pub open spec fn spec_dec(n: nat) -> Seq<u8>
    decreases n,
{
    if n < 10 {
        seq![(48 + n) as u8]
    } else {
        spec_dec(n / 10).push((48 + n % 10) as u8)
    }
}

/// One serialized row body: the counters as decimal fields joined by
/// commas, no leading or trailing comma.
pub open spec fn spec_row(row: Seq<u32>) -> Seq<u8>
    decreases row.len(),
{
    if row.len() == 0 {
        Seq::empty()
    } else if row.len() == 1 {
        spec_dec(row[0] as nat)
    } else {
        spec_row(row.drop_last()) + seq![COMMA] + spec_dec(row.last() as nat)
    }
}

/// One serialized line: a row body followed by a newline.
pub open spec fn spec_line(row: Seq<u32>) -> Seq<u8> {
    spec_row(row) + seq![NEWLINE]
}

/// The whole serialized matrix: every row's line, in offset order.
pub open spec fn spec_matrix(m: Seq<Seq<u32>>) -> Seq<u8>
    decreases m.len(),
{
    if m.len() == 0 {
        Seq::empty()
    } else {
        spec_matrix(m.drop_last()) + spec_line(m.last())
    }
}

/// Append the decimal digits of `n` to `out`.
pub fn push_dec(out: &mut Vec<u8>, n: u32)
    ensures
        final(out)@ == old(out)@ + spec_dec(n as nat),
    decreases n,
{
    if n < 10 {
        out.push(48 + (n as u8));
        proof {
            assert(out@ =~= old(out)@ + spec_dec(n as nat));
        }
    } else {
        push_dec(out, n / 10);
        out.push(48 + ((n % 10) as u8));
        proof {
            assert(out@ =~= old(out)@ + spec_dec(n as nat));
        }
    }
}

impl Accumulator {
    /// The matrix as a sequence of rows: row `i` holds, for every byte
    /// value `v` in increasing order, the counter for (offset `i`, `v`).
    pub open spec fn matrix(&self) -> Seq<Seq<u32>> {
        Seq::new(
            WINDOW_SIZE as nat,
            |i: int| Seq::new(NUM_VALUES as nat, |v: int| self.cell(i, v)),
        )
    }
}

/// Serialize the whole matrix: `WINDOW_SIZE` lines in increasing offset
/// order, each the 256 counters of one row in increasing byte-value order.
pub fn serialize_matrix(acc: &Accumulator) -> (out: Vec<u8>)
    requires
        acc.wf(),
    ensures
        out@ == spec_matrix(acc.matrix()),
{
    let ghost m = acc.matrix();
    let mut out: Vec<u8> = Vec::new();
    let mut i: usize = 0;
    proof {
        assert(out@ =~= spec_matrix(m.take(0)));
    }
    while i < WINDOW_SIZE
        invariant
            acc.wf(),
            i <= WINDOW_SIZE,
            m == acc.matrix(),
            out@ == spec_matrix(m.take(i as int)),
        decreases WINDOW_SIZE - i,
    {
        let ghost row = m[i as int];
        let mut v: usize = 0;
        proof {
            assert(out@ + spec_row(row.take(0)) =~= out@);
        }
        let ghost line_start = out@;
        while v < NUM_VALUES
            invariant
                acc.wf(),
                i < WINDOW_SIZE,
                v <= NUM_VALUES,
                m == acc.matrix(),
                row == m[i as int],
                out@ == line_start + spec_row(row.take(v as int)),
                line_start == spec_matrix(m.take(i as int)),
            decreases NUM_VALUES - v,
        {
            let ghost before = out@;
            if v != 0 {
                out.push(COMMA);
            }
            assert(i * (NUM_VALUES as int) + v < WINDOW_SIZE * NUM_VALUES) by (nonlinear_arith)
                requires
                    0 <= i <= WINDOW_SIZE - 1,
                    0 <= v < NUM_VALUES,
            ;
            let idx = i * NUM_VALUES + v;
            let c = acc.cells[idx];
            assert(c == row[v as int]);
            push_dec(&mut out, c);
            proof {
                assert(row.take(v + 1).drop_last() =~= row.take(v as int));
                assert(row.take(v + 1).last() == row[v as int]);
                if v == 0 {
                    assert(spec_row(row.take(1)) == spec_dec(row[0] as nat));
                    assert(out@ =~= line_start + spec_row(row.take(1)));
                } else {
                    assert(spec_row(row.take(v + 1)) == spec_row(row.take(v as int))
                        + seq![COMMA] + spec_dec(row[v as int] as nat));
                    assert(out@ =~= line_start + spec_row(row.take(v + 1)));
                }
            }
            v += 1;
        }
        out.push(NEWLINE);
        proof {
            assert(row.take(NUM_VALUES as int) =~= row);
            assert(m.take(i + 1).drop_last() =~= m.take(i as int));
            assert(m.take(i + 1).last() == row);
            assert(out@ =~= spec_matrix(m.take(i as int)) + spec_line(row));
            assert(out@ == spec_matrix(m.take(i + 1)));
        }
        i += 1;
    }
    proof {
        assert(m.take(WINDOW_SIZE as int) =~= m);
    }
    out
}

/// Number of occurrences of the byte `b` in `s`.
pub open spec fn count_byte(s: Seq<u8>, b: u8) -> nat
    decreases s.len(),
{
    if s.len() == 0 {
        0nat
    } else {
        count_byte(s.drop_last(), b) + (if s.last() == b {
            1nat
        } else {
            0nat
        })
    }
}

/// Occurrence counts add over concatenation.
proof fn lemma_count_append(x: Seq<u8>, y: Seq<u8>, b: u8)
    ensures
        count_byte(x + y, b) == count_byte(x, b) + count_byte(y, b),
    decreases y.len(),
{
    if y.len() == 0 {
        assert(x + y =~= x);
    } else {
        lemma_count_append(x, y.drop_last(), b);
        assert((x + y).drop_last() =~= x + y.drop_last());
        assert((x + y).last() == y.last());
    }
}

/// The count in a one-byte sequence is decided by that byte.
proof fn lemma_count_single(b: u8, c: u8)
    ensures
        count_byte(seq![b], c) == (if b == c {
            1nat
        } else {
            0nat
        }),
{
    assert(seq![b].len() == 1);
    assert(count_byte(Seq::<u8>::empty(), c) == 0);
    assert(seq![b].drop_last() =~= Seq::<u8>::empty());
    assert(seq![b].last() == b);
    assert(count_byte(seq![b], c) == count_byte(seq![b].drop_last(), c) + (if seq![b].last() == c {
        1nat
    } else {
        0nat
    }));
}

/// A byte that occurs nowhere in `s` has count zero.
proof fn lemma_count_absent(s: Seq<u8>, b: u8)
    requires
        forall|k: int| 0 <= k < s.len() ==> s[k] != b,
    ensures
        count_byte(s, b) == 0,
    decreases s.len(),
{
    if s.len() > 0 {
        lemma_count_absent(s.drop_last(), b);
    }
}

/// A decimal rendering is never empty and consists of ASCII digits alone.
proof fn lemma_dec_digits(n: nat)
    ensures
        spec_dec(n).len() >= 1,
        forall|k: int| 0 <= k < spec_dec(n).len() ==> 48 <= #[trigger] spec_dec(n)[k] <= 57,
    decreases n,
{
    if n >= 10 {
        lemma_dec_digits(n / 10);
    }
}

/// A row body of `len` fields holds exactly `len - 1` commas and no
/// newline.
proof fn lemma_row_counts(row: Seq<u32>)
    requires
        row.len() >= 1,
    ensures
        count_byte(spec_row(row), COMMA) == row.len() - 1,
        count_byte(spec_row(row), NEWLINE) == 0,
    decreases row.len(),
{
    if row.len() == 1 {
        lemma_dec_digits(row[0] as nat);
        lemma_count_absent(spec_dec(row[0] as nat), COMMA);
        lemma_count_absent(spec_dec(row[0] as nat), NEWLINE);
    } else {
        lemma_row_counts(row.drop_last());
        lemma_dec_digits(row.last() as nat);
        lemma_count_absent(spec_dec(row.last() as nat), COMMA);
        lemma_count_absent(spec_dec(row.last() as nat), NEWLINE);
        lemma_count_append(spec_row(row.drop_last()), seq![COMMA], COMMA);
        lemma_count_append(spec_row(row.drop_last()), seq![COMMA], NEWLINE);
        lemma_count_append(
            spec_row(row.drop_last()) + seq![COMMA],
            spec_dec(row.last() as nat),
            COMMA,
        );
        lemma_count_append(
            spec_row(row.drop_last()) + seq![COMMA],
            spec_dec(row.last() as nat),
            NEWLINE,
        );
        lemma_count_single(COMMA, COMMA);
        lemma_count_single(COMMA, NEWLINE);
    }
}

/// One serialized line holds exactly one newline, at its end, and one
/// comma less than it has fields.
proof fn lemma_line_counts(row: Seq<u32>)
    requires
        row.len() >= 1,
    ensures
        count_byte(spec_line(row), NEWLINE) == 1,
        count_byte(spec_line(row), COMMA) == row.len() - 1,
        spec_line(row).len() >= 1,
        spec_line(row).last() == NEWLINE,
{
    lemma_row_counts(row);
    lemma_count_append(spec_row(row), seq![NEWLINE], NEWLINE);
    lemma_count_append(spec_row(row), seq![NEWLINE], COMMA);
    lemma_count_single(NEWLINE, NEWLINE);
    lemma_count_single(NEWLINE, COMMA);
    assert(spec_line(row).last() == NEWLINE);
}

/// The serialized matrix has exactly one newline per row — one line per
/// offset — whatever the counters hold; with no rows it is empty.
proof fn lemma_matrix_newlines(m: Seq<Seq<u32>>)
    requires
        forall|i: int| 0 <= i < m.len() ==> #[trigger] m[i].len() >= 1,
    ensures
        count_byte(spec_matrix(m), NEWLINE) == m.len(),
    decreases m.len(),
{
    if m.len() > 0 {
        lemma_matrix_newlines(m.drop_last());
        lemma_line_counts(m.last());
        lemma_count_append(spec_matrix(m.drop_last()), spec_line(m.last()), NEWLINE);
    }
}

/// The shape of any full output: with every row of the fixed width, the
/// serialized matrix has exactly one line per offset row and exactly
/// `NUM_VALUES` comma-separated fields in every line — whether or not any
/// file was processed.
pub proof fn lemma_output_shape(m: Seq<Seq<u32>>)
    requires
        forall|i: int| 0 <= i < m.len() ==> #[trigger] m[i].len() == NUM_VALUES,
    ensures
        count_byte(spec_matrix(m), NEWLINE) == m.len(),
        forall|i: int|
            0 <= i < m.len() ==> count_byte(#[trigger] spec_line(m[i]), COMMA) == NUM_VALUES
                - 1,
        forall|i: int|
            0 <= i < m.len() ==> count_byte(#[trigger] spec_line(m[i]), NEWLINE) == 1,
{
    lemma_matrix_newlines(m);
    assert forall|i: int| 0 <= i < m.len() implies count_byte(#[trigger] spec_line(m[i]), COMMA)
        == NUM_VALUES - 1 && count_byte(spec_line(m[i]), NEWLINE) == 1 by {
        lemma_line_counts(m[i]);
    }
}

} // verus!
