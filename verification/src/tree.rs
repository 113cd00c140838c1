//! The traversal engine, expressed over an in-memory model of a file tree.
//!
//! A filesystem entry is either a regular file (with the bytes of its
//! sampled prefix available), a directory with its children in enumeration
//! order, or anything else (symbolic link, device, socket, ...), which the
//! traversal skips without dereferencing.  The unverified binary converts
//! what the filesystem reports into these plain values; every decision made
//! while walking a tree is verified here.

use vstd::prelude::*;
use crate::accumulator::{
    Accumulator, byte_hits, sample_len, NUM_VALUES, WINDOW_SIZE,
};

verus! {

/// One filesystem entry, classified the way the traversal sees it:
/// a regular file carrying its content, a directory carrying its entries
/// in enumeration order, or any other kind of entry.
pub enum FsEntry {
    File(Vec<u8>),
    Dir(Vec<FsEntry>),
    Other,
}

/// Number of regular files in an entry's subtree.
pub open spec fn entry_file_count(e: FsEntry) -> nat
    decreases e,
{
    match e {
        FsEntry::File(_) => 1nat,
        FsEntry::Dir(entries) => entries_file_count(entries@),
        FsEntry::Other => 0nat,
    }
}

/// Number of regular files under a sequence of entries.
pub open spec fn entries_file_count(s: Seq<FsEntry>) -> nat
    decreases s,
{
    if s.len() == 0 {
        0nat
    } else {
        entry_file_count(s[0]) + entries_file_count(s.subrange(1, s.len() as int))
    }
}

/// How many files in an entry's subtree have byte value `v` at offset `i`
/// of their sampled prefix: the subtree's contribution to matrix cell
/// (`i`, `v`).
pub open spec fn entry_hits(e: FsEntry, i: int, v: int) -> nat
    decreases e,
{
    match e {
        FsEntry::File(bytes) => byte_hits(bytes@, i, v),
        FsEntry::Dir(entries) => entries_hits(entries@, i, v),
        FsEntry::Other => 0nat,
    }
}

/// Contribution of a sequence of entries to matrix cell (`i`, `v`).
pub open spec fn entries_hits(s: Seq<FsEntry>, i: int, v: int) -> nat
    decreases s,
{
    if s.len() == 0 {
        0nat
    } else {
        entry_hits(s[0], i, v) + entries_hits(s.subrange(1, s.len() as int), i, v)
    }
}

/// Sum over the files in an entry's subtree of the number of bytes each
/// contributes, i.e. of `sample_len` of its length.
pub open spec fn entry_sample_total(e: FsEntry) -> nat
    decreases e,
{
    match e {
        FsEntry::File(bytes) => sample_len(bytes@.len()),
        FsEntry::Dir(entries) => entries_sample_total(entries@),
        FsEntry::Other => 0nat,
    }
}

/// Sum of `entry_sample_total` over a sequence of entries.
pub open spec fn entries_sample_total(s: Seq<FsEntry>) -> nat
    decreases s,
{
    if s.len() == 0 {
        0nat
    } else {
        entry_sample_total(s[0]) + entries_sample_total(s.subrange(1, s.len() as int))
    }
}

/// The file count of a sequence splits at any point.
pub proof fn lemma_file_count_split(s: Seq<FsEntry>, j: int)
    requires
        0 <= j <= s.len(),
    ensures
        entries_file_count(s) == entries_file_count(s.take(j)) + entries_file_count(s.skip(j)),
    decreases j,
{
    if j == 0 {
        assert(s.take(0) =~= Seq::<FsEntry>::empty());
        assert(s.skip(0) =~= s);
    } else {
        let t = s.subrange(1, s.len() as int);
        lemma_file_count_split(t, j - 1);
        assert(t.take(j - 1) =~= s.take(j).subrange(1, j));
        assert(t.skip(j - 1) =~= s.skip(j));
        assert(s.take(j)[0] == s[0]);
        assert(entries_file_count(s.take(j)) == entry_file_count(s[0]) + entries_file_count(
            t.take(j - 1),
        ));
    }
}

/// The cell contribution of a sequence splits at any point.
pub proof fn lemma_hits_split(s: Seq<FsEntry>, j: int, i: int, v: int)
    requires
        0 <= j <= s.len(),
    ensures
        entries_hits(s, i, v) == entries_hits(s.take(j), i, v) + entries_hits(s.skip(j), i, v),
    decreases j,
{
    if j == 0 {
        assert(s.take(0) =~= Seq::<FsEntry>::empty());
        assert(s.skip(0) =~= s);
    } else {
        let t = s.subrange(1, s.len() as int);
        lemma_hits_split(t, j - 1, i, v);
        assert(t.take(j - 1) =~= s.take(j).subrange(1, j));
        assert(t.skip(j - 1) =~= s.skip(j));
        assert(s.take(j)[0] == s[0]);
        assert(entries_hits(s.take(j), i, v) == entry_hits(s[0], i, v) + entries_hits(
            t.take(j - 1),
            i,
            v,
        ));
    }
}

/// The sampled-byte total of a sequence splits at any point.
pub proof fn lemma_sample_total_split(s: Seq<FsEntry>, j: int)
    requires
        0 <= j <= s.len(),
    ensures
        entries_sample_total(s) == entries_sample_total(s.take(j)) + entries_sample_total(
            s.skip(j),
        ),
    decreases j,
{
    if j == 0 {
        assert(s.take(0) =~= Seq::<FsEntry>::empty());
        assert(s.skip(0) =~= s);
    } else {
        let t = s.subrange(1, s.len() as int);
        lemma_sample_total_split(t, j - 1);
        assert(t.take(j - 1) =~= s.take(j).subrange(1, j));
        assert(t.skip(j - 1) =~= s.skip(j));
        assert(s.take(j)[0] == s[0]);
        assert(entries_sample_total(s.take(j)) == entry_sample_total(s[0])
            + entries_sample_total(t.take(j - 1)));
    }
}

impl Accumulator {
    /// Classify one entry and dispatch: sample a regular file, recurse into
    /// a directory, skip anything else.  The processed-file count grows by
    /// the number of regular files in the subtree; each matrix cell grows
    /// by the subtree's contribution to it.
    pub fn process_entry(&mut self, entry: &FsEntry)
        requires
            old(self).wf(),
            old(self).processed + entry_file_count(*entry) <= u32::MAX,
        ensures
            final(self).wf(),
            final(self).processed == old(self).processed + entry_file_count(*entry),
            forall|i: int, v: int|
                0 <= i < WINDOW_SIZE && 0 <= v < NUM_VALUES
                    ==> final(self).cell(i, v) == old(self).cell(i, v) + entry_hits(
                    *entry,
                    i,
                    v,
                ),
            final(self).total() == old(self).total() + entry_sample_total(*entry),
        decreases *entry,
    {
        match entry {
            FsEntry::File(bytes) => {
                self.record_file(bytes.as_slice());
            },
            FsEntry::Dir(entries) => {
                self.process_directory(entries);
            },
            FsEntry::Other => {},
        }
    }

    /// Process the entries of one directory in order.
    pub fn process_directory(&mut self, entries: &Vec<FsEntry>)
        requires
            old(self).wf(),
            old(self).processed + entries_file_count(entries@) <= u32::MAX,
        ensures
            final(self).wf(),
            final(self).processed == old(self).processed + entries_file_count(entries@),
            forall|i: int, v: int|
                0 <= i < WINDOW_SIZE && 0 <= v < NUM_VALUES
                    ==> final(self).cell(i, v) == old(self).cell(i, v) + entries_hits(
                    entries@,
                    i,
                    v,
                ),
            final(self).total() == old(self).total() + entries_sample_total(entries@),
        decreases entries@,
    {
        let ghost s = entries@;
        let mut j: usize = 0;
        while j < entries.len()
            invariant
                j <= entries.len(),
                entries@ == s,
                self.wf(),
                old(self).processed + entries_file_count(s) <= u32::MAX,
                self.processed == old(self).processed + entries_file_count(s.take(j as int)),
                forall|i: int, v: int|
                    0 <= i < WINDOW_SIZE && 0 <= v < NUM_VALUES
                        ==> self.cell(i, v) == old(self).cell(i, v) + entries_hits(
                        s.take(j as int),
                        i,
                        v,
                    ),
                self.total() == old(self).total() + entries_sample_total(s.take(j as int)),
            decreases entries@.len() - j,
        {
            let ghost pre = *self;
            proof {
                lemma_file_count_split(s, j as int);
                assert(s.skip(j as int).subrange(1, s.skip(j as int).len() as int) =~= s.skip(
                    j + 1,
                ));
                assert(s.skip(j as int)[0] == s[j as int]);
                assert(entries_file_count(s.skip(j as int)) == entry_file_count(s[j as int])
                    + entries_file_count(s.skip(j + 1)));
            }
            self.process_entry(&entries[j]);
            proof {
                lemma_file_count_split(s, j as int);
                assert(s.take(j + 1).drop_last() =~= s.take(j as int));
                assert(s.take(j + 1).last() == s[j as int]);
                lemma_take_step_file_count(s, j as int);
                lemma_take_step_sample_total(s, j as int);
                assert forall|i: int, v: int|
                    0 <= i < WINDOW_SIZE && 0 <= v < NUM_VALUES implies self.cell(i, v)
                        == old(self).cell(i, v) + entries_hits(s.take(j + 1), i, v) by {
                    lemma_take_step_hits(s, j as int, i, v);
                    assert(pre.cell(i, v) == old(self).cell(i, v) + entries_hits(
                        s.take(j as int),
                        i,
                        v,
                    ));
                }
            }
            j += 1;
        }
        proof {
            assert(s.take(s.len() as int) =~= s);
        }
    }
}

/// Extending a prefix of a sequence by one entry adds that entry's file
/// count.
proof fn lemma_take_step_file_count(s: Seq<FsEntry>, j: int)
    requires
        0 <= j < s.len(),
    ensures
        entries_file_count(s.take(j + 1)) == entries_file_count(s.take(j)) + entry_file_count(
            s[j],
        ),
{
    lemma_file_count_split(s, j);
    lemma_file_count_split(s, j + 1);
    assert(s.skip(j).subrange(1, s.skip(j).len() as int) =~= s.skip(j + 1));
    assert(s.skip(j)[0] == s[j]);
}

/// Extending a prefix of a sequence by one entry adds that entry's
/// contribution to a cell.
proof fn lemma_take_step_hits(s: Seq<FsEntry>, j: int, i: int, v: int)
    requires
        0 <= j < s.len(),
    ensures
        entries_hits(s.take(j + 1), i, v) == entries_hits(s.take(j), i, v) + entry_hits(
            s[j],
            i,
            v,
        ),
{
    lemma_hits_split(s, j, i, v);
    lemma_hits_split(s, j + 1, i, v);
    assert(s.skip(j).subrange(1, s.skip(j).len() as int) =~= s.skip(j + 1));
    assert(s.skip(j)[0] == s[j]);
}

/// Extending a prefix of a sequence by one entry adds that entry's sampled
/// bytes.
proof fn lemma_take_step_sample_total(s: Seq<FsEntry>, j: int)
    requires
        0 <= j < s.len(),
    ensures
        entries_sample_total(s.take(j + 1)) == entries_sample_total(s.take(j))
            + entry_sample_total(s[j]),
{
    lemma_sample_total_split(s, j);
    lemma_sample_total_split(s, j + 1);
    assert(s.skip(j).subrange(1, s.skip(j).len() as int) =~= s.skip(j + 1));
    assert(s.skip(j)[0] == s[j]);
}

} // verus!
