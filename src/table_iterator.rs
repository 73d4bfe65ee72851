//! A cursor over a whole table that moves from block to block.
use std::sync::Arc;
use vstd::prelude::*;
use crate::key::Entry;
use crate::block_iterator::{BlockIterator, first_at_least, lemma_seek_position};
use crate::iterators::{StorageError, StorageIterator};
use crate::table::SsTable;
use crate::key::{key_lt, lemma_key_lt_transitive};
use crate::merge_iterator::strictly_sorted;

verus! {

/// An iterator over the contents of a table.
pub struct SsTableIterator {
    table: Arc<SsTable>,
    blk_iter: BlockIterator,
    blk_idx: usize,
}

impl SsTableIterator {
    /// The table that the iterator reads.
    pub closed spec fn table(&self) -> SsTable {
        *self.table
    }

    /// Entries left in the current block, the current one included.
    pub closed spec fn block_left(&self) -> nat {
        self.blk_iter.remaining().len()
    }

    /// Index of the block that the iterator stands in.
    pub closed spec fn block_index(&self) -> int {
        self.blk_idx as int
    }

    /// Creates an iterator that stands on the first entry of the first block.
    /// Fails where the table has no block or its first block cannot be read.
    pub fn create_and_seek_to_first(table: Arc<SsTable>) -> (r: Result<Self, StorageError>)
        ensures
            r is Ok <==> table.block_ok(0),
            r matches Ok(it) ==> it.inv() && it.table() == *table && it.block_index() == 0
                && it.remaining() == table.entries_from(0),
    {
        let first_block = table.read_block(0)?;
        let blk_iter = BlockIterator::create_and_seek_to_first(first_block);
        let it = SsTableIterator { table, blk_iter, blk_idx: 0 };
        Ok(it)
    }

    /// Moves back to the first entry of the first block. On failure the iterator
    /// is left as it was.
    pub fn seek_to_first(&mut self) -> (r: Result<(), StorageError>)
        requires
            old(self).inv(),
        ensures
            final(self).inv(),
            final(self).table() == old(self).table(),
            r is Ok <==> old(self).table().block_ok(0),
            r is Ok ==> final(self).block_index() == 0 && final(self).remaining()
                == old(self).table().entries_from(0),
            r is Err ==> *final(self) == *old(self),
    {
        let first_block = self.table.read_block(0)?;
        self.blk_iter = BlockIterator::create_and_seek_to_first(first_block);
        self.blk_idx = 0;
        Ok(())
    }

    /// Creates an iterator that stands on the first entry whose key is at least `key`.
    pub fn create_and_seek_to_key(table: Arc<SsTable>, key: &[u8]) -> (r: Result<Self, StorageError>)
        ensures
            r matches Ok(it) ==> it.inv() && it.table() == *table && table.is_seek_block(
                it.block_index(),
                key@,
            ) && it.remaining() == table.seek_from(it.block_index(), key@),
            table.block_ok(0) && (forall|i: int| table.is_seek_block(i, key@) ==> table.block_ok(i))
                ==> r is Ok,
            !table.block_ok(0) ==> r is Err,
    {
        let mut it = SsTableIterator::create_and_seek_to_first(table)?;
        it.seek_to_key(key)?;
        Ok(it)
    }

    /// Seeks to the first entry whose key is at least `key`: a binary search of
    /// the directory picks the block, and a scan of that block the entry. On
    /// failure the iterator is left as it was.
    pub fn seek_to_key(&mut self, key: &[u8]) -> (r: Result<(), StorageError>)
        requires
            old(self).inv(),
        ensures
            final(self).inv(),
            final(self).table() == old(self).table(),
            r is Ok ==> old(self).table().is_seek_block(final(self).block_index(), key@)
                && final(self).remaining() == old(self).table().seek_from(final(self).block_index(), key@),
            (forall|i: int| old(self).table().is_seek_block(i, key@) ==> old(self).table().block_ok(i))
                ==> r is Ok,
            r is Err ==> *final(self) == *old(self) && exists|i: int|
                old(self).table().is_seek_block(i, key@) && !old(self).table().block_ok(i),
    {
        let idx = self.table.find_block_idx(key);
        let block = match self.table.read_block(idx) {
            Ok(b) => b,
            Err(e) => {
                assert(self.table().is_seek_block(idx as int, key@));
                return Err(e);
            },
        };
        let ghost es = block.entries();
        proof {
            lemma_seek_position(es, key@, 0);
        }
        self.blk_iter = BlockIterator::create_and_seek_to_key(block, key);
        self.blk_idx = idx;
        assert(self.blk_iter.remaining().len() == es.len() - first_at_least(es, key@, 0));
        Ok(())
    }
}

impl SsTable {
    /// What a seek for `k` that starts in block `i` leaves ahead: the entries of
    /// that block from the first one not below `k`, then the later blocks; nothing
    /// where the block has no such entry.
    pub open spec fn seek_from(&self, i: int, k: Seq<u8>) -> Seq<Entry> {
        let es = self.block_entries(i);
        let j = first_at_least(es, k, 0);
        if j < es.len() {
            es.subrange(j, es.len() as int) + self.entries_from(i + 1)
        } else {
            Seq::empty()
        }
    }
}

impl StorageIterator for SsTableIterator {
    closed spec fn inv(&self) -> bool {
        &&& self.blk_iter.inv()
        &&& self.table.block_ok(self.blk_idx as int)
        &&& self.blk_iter.block().entries() == self.table.block_entries(self.blk_idx as int)
    }

    /// Every later block of the table can be read.
    open spec fn infallible(&self) -> bool {
        forall|j: int| self.block_index() < j < self.table().num_blocks() ==> #[trigger] self.table().block_ok(j)
    }

    closed spec fn remaining(&self) -> Seq<Entry> {
        if self.blk_iter.remaining().len() > 0 {
            self.blk_iter.remaining() + self.table.entries_from(self.blk_idx + 1)
        } else {
            Seq::empty()
        }
    }

    /// Returns the key held by the block iterator.
    fn key(&self) -> (r: &[u8]) {
        self.blk_iter.key()
    }

    /// Returns the value held by the block iterator.
    fn value(&self) -> (r: &[u8]) {
        self.blk_iter.value()
    }

    /// Returns whether the block iterator stands on an entry.
    fn is_valid(&self) -> (r: bool) {
        self.blk_iter.is_valid()
    }

    /// Moves to the next entry, into the next block where this one is done.
    fn next(&mut self) -> (r: Result<(), StorageError>)
        ensures
            final(self).table() == old(self).table(),
            old(self).block_index() + 1 >= old(self).table().num_blocks() || old(self).table().block_ok(
                old(self).block_index() + 1,
            ) ==> r is Ok,
            r is Err ==> old(self).block_index() + 1 < old(self).table().num_blocks()
                && !old(self).table().block_ok(old(self).block_index() + 1),
            r is Err ==> final(self).remaining().len() == 0,
            old(self).block_left() == 1 && old(self).block_index() + 1 < old(self).table().num_blocks()
                && !old(self).table().block_ok(old(self).block_index() + 1) ==> r is Err,
            r is Ok ==> final(self).block_index() == old(self).block_index() || final(self).block_index()
                == old(self).block_index() + 1,
    {
        let ghost t = self.table();
        let ghost i = self.blk_idx as int;
        self.blk_iter.advance();
        if !self.blk_iter.is_valid() && self.blk_idx < self.table.block_meta.len() - 1 {
            let block = self.table.read_block(self.blk_idx + 1)?;
            self.blk_iter = BlockIterator::create_and_seek_to_first(block);
            self.blk_idx = self.blk_idx + 1;
            assert(t.entries_from(i + 1) == t.block_entries(i + 1) + t.entries_from(i + 2));
        } else if !self.blk_iter.is_valid() {
            assert(t.entries_from(i + 1) =~= Seq::<Entry>::empty());
        }
        assert(self.remaining() =~= old(self).remaining().drop_first());
        Ok(())
    }
}

impl SsTable {
    /// The entries of the blocks before block `i`, in order.
    pub open spec fn entries_before(&self, i: int) -> Seq<Entry>
        decreases i,
    {
        if i <= 0 {
            Seq::empty()
        } else {
            self.entries_before(i - 1) + self.block_entries(i - 1)
        }
    }
}

/// Continuity: the table's entries are those of the blocks before block `i`,
/// then those of block `i`, then those of the blocks after it.
pub proof fn lemma_table_continuity(t: SsTable, i: int)
    requires
        0 <= i < t.num_blocks(),
    ensures
        t.entries_from(0) == t.entries_before(i) + t.block_entries(i) + t.entries_from(i + 1),
{
    lemma_entries_split(t, i);
    assert(t.entries_from(i) == t.block_entries(i) + t.entries_from(i + 1));
}

proof fn lemma_entries_split(t: SsTable, i: int)
    requires
        0 <= i <= t.num_blocks(),
    ensures
        t.entries_from(0) == t.entries_before(i) + t.entries_from(i),
    decreases i,
{
    if i > 0 {
        lemma_entries_split(t, i - 1);
        assert(t.entries_from(i - 1) == t.block_entries(i - 1) + t.entries_from(i));
        assert(t.entries_from(0) =~= t.entries_before(i) + t.entries_from(i));
    } else {
        assert(t.entries_from(0) =~= t.entries_before(0) + t.entries_from(0));
    }
}

proof fn lemma_first_at_least_exact(es: Seq<Entry>, k: Seq<u8>, i: int, m: int)
    requires
        0 <= i <= m <= es.len(),
        forall|j: int| i <= j < m ==> key_lt(#[trigger] es[j].0, k),
        m < es.len() ==> !key_lt(es[m].0, k),
    ensures
        first_at_least(es, k, i) == m,
    decreases m - i,
{
    if i < m {
        lemma_first_at_least_exact(es, k, i + 1, m);
    }
}

proof fn lemma_directory_entry(t: SsTable, i: int)
    requires
        t.directory_matches(),
        0 <= i < t.num_blocks(),
    ensures
        t.block_entries(i).len() > 0,
        t.block_meta@[i].first_key@ == t.block_entries(i)[0].0,
        t.block_meta@[i].last_key@ == t.block_entries(i).last().0,
{
    reveal(SsTable::directory_matches);
    assert(t.block_meta@[i] == t.block_meta@[i]);
}

/// Seek correctness: in a table whose directory matches its blocks and whose
/// entries are strictly sorted, a seek for `k` that starts in the block the
/// directory search picks leaves exactly the entries from the first one whose
/// key is at least `k`.
#[verifier::rlimit(30)]
pub proof fn lemma_table_seek(t: SsTable, i: int, k: Seq<u8>)
    requires
        t.directory_matches(),
        strictly_sorted(t.entries_from(0)),
        t.is_seek_block(i, k),
    ensures
        t.seek_from(i, k) == t.entries_from(0).subrange(
            first_at_least(t.entries_from(0), k, 0),
            t.entries_from(0).len() as int,
        ),
{
    let e = t.entries_from(0);
    lemma_directory_entry(t, i);
    lemma_table_continuity(t, i);
    let b = t.entries_before(i);
    let p = b.len() as int;
    let bi = t.block_entries(i);
    let after = t.entries_from(i + 1);
    assert(e == b + bi + after);
    assert(bi.len() > 0);
    assert forall|q: int| 0 <= q < p implies key_lt(#[trigger] e[q].0, k) by {
        let prev = t.block_entries(i - 1);
        lemma_directory_entry(t, i - 1);
        assert(b == t.entries_before(i - 1) + prev);
        assert(e[p - 1] == prev.last());
        assert(t.block_meta@[i - 1].last_key@ == prev.last().0);
        if q < p - 1 {
            assert(key_lt(e[q].0, e[p - 1].0));
            lemma_key_lt_transitive(e[q].0, e[p - 1].0, k, 0);
        }
    }
    let jb = first_at_least(bi, k, 0);
    lemma_seek_position(bi, k, 0);
    assert forall|q: int| 0 <= q < p + jb implies key_lt(#[trigger] e[q].0, k) by {
        if q >= p {
            assert(e[q] == bi[q - p]);
        }
    }
    if jb < bi.len() {
        assert(e[p + jb] == bi[jb]);
        lemma_first_at_least_exact(e, k, 0, p + jb);
        assert(e.subrange(p + jb, e.len() as int) =~= bi.subrange(jb, bi.len() as int) + after);
    } else {
        if i < t.num_blocks() - 1 {
            assert(t.block_meta@[i].last_key@ == bi.last().0);
            assert(key_lt(bi[bi.len() - 1].0, k));
        }
        assert(after =~= Seq::<Entry>::empty());
        lemma_first_at_least_exact(e, k, 0, e.len() as int);
    }
}

} // verus!
