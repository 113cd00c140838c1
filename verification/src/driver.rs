//! The run driver: feed every root into the traversal engine, accumulating
//! into a single matrix, then serialize the result.

use vstd::prelude::*;
use crate::accumulator::{Accumulator, NUM_VALUES, WINDOW_SIZE};
use crate::output::{
    count_byte, lemma_output_shape, serialize_matrix, spec_line, spec_matrix, COMMA, NEWLINE,
};
use crate::tree::{
    entries_file_count, entries_hits, entries_sample_total, entry_hits, lemma_hits_split,
    FsEntry,
};

verus! {

/// The matrix that a run over `roots` produces: cell (`i`, `v`) holds the
/// number of files, over all roots, with byte value `v` at offset `i` of
/// their sampled prefix.
pub open spec fn run_matrix(roots: Seq<FsEntry>) -> Seq<Seq<u32>> {
    Seq::new(
        WINDOW_SIZE as nat,
        |i: int| Seq::new(NUM_VALUES as nat, |v: int| entries_hits(roots, i, v) as u32),
    )
}

/// The bytes that a run over `roots` writes: the serialized run matrix.
pub open spec fn spec_output(roots: Seq<FsEntry>) -> Seq<u8> {
    spec_matrix(run_matrix(roots))
}

/// Process every root in order into a fresh accumulator.
///
/// Afterwards the processed count equals the number of regular files
/// encountered across all roots, each cell holds exactly that cell's
/// contribution from all roots, and the sum of all cells equals the sum
/// over every processed file of the length of its sampled prefix.
pub fn process_roots(roots: &Vec<FsEntry>) -> (acc: Accumulator)
    requires
        entries_file_count(roots@) <= u32::MAX,
    ensures
        acc.wf(),
        acc.processed == entries_file_count(roots@),
        forall|i: int, v: int|
            0 <= i < WINDOW_SIZE && 0 <= v < NUM_VALUES ==> acc.cell(i, v) == entries_hits(
                roots@,
                i,
                v,
            ),
        acc.total() == entries_sample_total(roots@),
{
    let mut acc = Accumulator::new();
    acc.process_directory(roots);
    acc
}

/// One whole run: process every root, then serialize the matrix.  The
/// output bytes are a function of the trees under the roots alone, so two
/// runs over an unmodified tree produce identical bytes.
pub fn run(roots: &Vec<FsEntry>) -> (out: Vec<u8>)
    requires
        entries_file_count(roots@) <= u32::MAX,
    ensures
        out@ == spec_output(roots@),
{
    let acc = process_roots(roots);
    let out = serialize_matrix(&acc);
    proof {
        assert(acc.matrix() =~~= run_matrix(roots@));
    }
    out
}

/// Determinism: the output of a run is decided by the contents of the
/// trees under the roots and by nothing else, so running twice over an
/// unmodified tree yields bit-identical output.
pub proof fn lemma_run_deterministic(a: Seq<FsEntry>, b: Seq<FsEntry>)
    requires
        a == b,
    ensures
        spec_output(a) == spec_output(b),
{
}

/// Whatever trees stand under the roots — even none at all — the output
/// of a run has exactly `WINDOW_SIZE` lines, and every line of it has
/// exactly `NUM_VALUES` comma-separated fields.
pub proof fn lemma_run_output_shape(roots: Seq<FsEntry>)
    ensures
        count_byte(spec_output(roots), NEWLINE) == WINDOW_SIZE,
        forall|i: int|
            0 <= i < WINDOW_SIZE ==> count_byte(
                #[trigger] spec_line(run_matrix(roots)[i]),
                COMMA,
            ) == NUM_VALUES - 1,
        forall|i: int|
            0 <= i < WINDOW_SIZE ==> count_byte(
                #[trigger] spec_line(run_matrix(roots)[i]),
                NEWLINE,
            ) == 1,
{
    lemma_output_shape(run_matrix(roots));
}

/// Order independence: swapping two adjacent roots changes no cell of the
/// run matrix — counts are commutative across files, so enumeration order
/// never affects the totals.
pub proof fn lemma_swap_adjacent_roots(s: Seq<FsEntry>, j: int, i: int, v: int)
    requires
        0 <= j,
        j + 1 < s.len(),
    ensures
        entries_hits(s.update(j, s[j + 1]).update(j + 1, s[j]), i, v) == entries_hits(s, i, v),
{
    let t = s.update(j, s[j + 1]).update(j + 1, s[j]);
    assert(t.len() == s.len());
    lemma_hits_split(s, j, i, v);
    lemma_hits_split(t, j, i, v);
    assert(t.take(j) =~= s.take(j));
    let su = s.skip(j);
    let su1 = su.subrange(1, su.len() as int);
    let tu = t.skip(j);
    let tu1 = tu.subrange(1, tu.len() as int);
    assert(su.len() >= 2 && tu.len() >= 2);
    assert(su1.subrange(1, su1.len() as int) =~= s.skip(j + 2));
    assert(tu1.subrange(1, tu1.len() as int) =~= s.skip(j + 2));
    assert(su[0] == s[j] && su1[0] == s[j + 1]);
    assert(tu[0] == s[j + 1] && tu1[0] == s[j]);
    assert(entries_hits(su, i, v) == entry_hits(s[j], i, v) + entries_hits(su1, i, v));
    assert(entries_hits(su1, i, v) == entry_hits(s[j + 1], i, v) + entries_hits(
        s.skip(j + 2),
        i,
        v,
    ));
    assert(entries_hits(tu, i, v) == entry_hits(s[j + 1], i, v) + entries_hits(tu1, i, v));
    assert(entries_hits(tu1, i, v) == entry_hits(s[j], i, v) + entries_hits(
        s.skip(j + 2),
        i,
        v,
    ));
}

} // verus!
