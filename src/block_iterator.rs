//! A forward cursor over the entries of one block.
use std::sync::Arc;
use vstd::prelude::*;
use vstd::slice::slice_subrange;
use crate::key::{Entry, key_lt, key_less, get_u16, append_slice};
use crate::block::{Block, key_at, value_at, value_start};
use crate::iterators::{StorageError, StorageIterator};

verus! {

/// Index of the first entry at or after `i` whose key is not below `k`, or the
/// number of entries when there is none.
pub open spec fn first_at_least(es: Seq<Entry>, k: Seq<u8>, i: int) -> int
    decreases es.len() - i,
{
    if i < 0 || i >= es.len() {
        es.len() as int
    } else if !key_lt(es[i].0, k) {
        i
    } else {
        first_at_least(es, k, i + 1)
    }
}

/// The index that a seek for `k` stops at: every entry before it has a key below
/// `k`, and the entry there, if any, does not. In a sorted block it is the first
/// entry whose key is at least `k`.
pub proof fn lemma_seek_position(es: Seq<Entry>, k: Seq<u8>, i: int)
    requires
        0 <= i <= es.len(),
    ensures
        i <= first_at_least(es, k, i) <= es.len(),
        forall|j: int| i <= j < first_at_least(es, k, i) ==> key_lt(#[trigger] es[j].0, k),
        first_at_least(es, k, i) < es.len() ==> !key_lt(es[first_at_least(es, k, i)].0, k),
    decreases es.len() - i,
{
    if i < es.len() && key_lt(es[i].0, k) {
        lemma_seek_position(es, k, i + 1);
    }
}

/// Iterates on a block.
pub struct BlockIterator {
    /// The block, shared with other readers.
    block: Arc<Block>,
    /// The current key; empty when the iterator is invalid.
    key: Vec<u8>,
    /// The current value's range in the block's data.
    value_range: (usize, usize),
    /// Index of the current entry.
    idx: usize,
}

impl BlockIterator {
    /// The block that the iterator reads.
    pub closed spec fn block(&self) -> Block {
        *self.block
    }

    /// Index of the current entry.
    pub closed spec fn index(&self) -> int {
        self.idx as int
    }

    fn new(block: Arc<Block>) -> (r: Self)
        requires
            block.wf(),
        ensures
            r.inv(),
            r.block() == *block,
            r.remaining().len() == 0,
    {
        BlockIterator { block, key: Vec::new(), value_range: (0, 0), idx: 0 }
    }

    /// Creates a block iterator and seeks to the first entry.
    pub fn create_and_seek_to_first(block: Arc<Block>) -> (r: Self)
        requires
            block.wf(),
        ensures
            r.inv(),
            r.block() == *block,
            r.remaining() == block.entries(),
    {
        let mut it = BlockIterator::new(block);
        it.seek_to_first();
        it
    }

    /// Creates a block iterator and seeks to the first entry whose key is at least `key`.
    pub fn create_and_seek_to_key(block: Arc<Block>, key: &[u8]) -> (r: Self)
        requires
            block.wf(),
        ensures
            r.inv(),
            r.block() == *block,
            r.remaining() == block.entries().subrange(
                first_at_least(block.entries(), key@, 0),
                block.entries().len() as int,
            ),
    {
        let mut it = BlockIterator::new(block);
        it.seek_to_key(key);
        it
    }

    fn seek_to_idx(&mut self, idx: usize)
        requires
            old(self).block().wf(),
            idx < old(self).block().offsets@.len(),
        ensures
            final(self).inv(),
            final(self).block() == old(self).block(),
            final(self).index() == idx,
            final(self).remaining() == old(self).block().entries().subrange(
                idx as int,
                old(self).block().entries().len() as int,
            ),
    {
        self.idx = idx;
        let d = self.block.data.as_slice();
        let off = self.block.offsets[idx] as usize;
        proof {
            assert(self.block().wf());
            assert(crate::block::entry_fits(d@, off as int));
        }
        let key_len = get_u16(d, off) as usize;
        let mut key: Vec<u8> = Vec::new();
        append_slice(&mut key, slice_subrange(d, off + 2, off + 2 + key_len));
        let val_len = get_u16(d, off + 2 + key_len) as usize;
        let lower = off + key_len + 4;
        let upper = lower + val_len;
        self.key = key;
        self.value_range = (lower, upper);
        proof {
            let es = self.block().entries();
            assert(self.remaining() =~= es.subrange(idx as int, es.len() as int));
        }
    }

    /// Moves to the next entry; past the last one the iterator becomes invalid.
    pub(crate) fn advance(&mut self)
        requires
            old(self).inv(),
            old(self).remaining().len() > 0,
        ensures
            final(self).inv(),
            final(self).block() == old(self).block(),
            final(self).remaining().len() > 0 ==> final(self).index() == old(self).index() + 1,
            final(self).remaining().len() == 0 ==> final(self).index() == old(self).index(),
            final(self).remaining() == old(self).remaining().drop_first(),
    {
        assert(self.key@.len() > 0);
        assert(self.idx < self.block.offsets@.len());
        if self.idx >= self.block.offsets.len() - 1 {
            self.key = Vec::new();
            proof {
                assert(old(self).remaining().drop_first() =~= self.remaining());
            }
            return;
        }
        self.seek_to_idx(self.idx + 1);
        assert(self.remaining() =~= old(self).remaining().drop_first());
    }

    /// Seeks to the first entry of the block.
    pub fn seek_to_first(&mut self)
        requires
            old(self).inv(),
        ensures
            final(self).inv(),
            final(self).block() == old(self).block(),
            final(self).remaining() == old(self).block().entries(),
    {
        if self.block.offsets.len() == 0 {
            self.key = Vec::new();
            self.idx = 0;
            assert(self.remaining() =~= self.block().entries());
        } else {
            self.seek_to_idx(0);
            assert(self.block().entries().subrange(0, self.block().entries().len() as int)
                =~= self.block().entries());
        }
    }

    /// Seeks to the first entry whose key is at least `key`: the scan starts at the
    /// first entry and passes every entry whose key is below `key`.
    pub fn seek_to_key(&mut self, key: &[u8])
        requires
            old(self).inv(),
        ensures
            final(self).inv(),
            final(self).block() == old(self).block(),
            final(self).remaining() == old(self).block().entries().subrange(
                first_at_least(old(self).block().entries(), key@, 0),
                old(self).block().entries().len() as int,
            ),
    {
        let ghost es = self.block().entries();
        self.seek_to_first();
        while self.is_valid() && key_less(self.key.as_slice(), key)
            invariant
                self.inv(),
                self.block() == old(self).block(),
                es == self.block().entries(),
                self.remaining().len() > 0 ==> self.remaining() == es.subrange(self.index(), es.len() as int),
                self.remaining().len() > 0 ==> first_at_least(es, key@, self.index()) == first_at_least(es, key@, 0),
                self.remaining().len() == 0 ==> first_at_least(es, key@, 0) == es.len(),
            decreases es.len() - self.index(), self.remaining().len(),
        {
            proof {
                let i = self.index();
                assert(self.remaining()[0] == es[i]);
                assert(first_at_least(es, key@, i) == first_at_least(es, key@, i + 1));
            }
            self.advance();
        }
        proof {
            if self.remaining().len() > 0 {
                assert(first_at_least(es, key@, self.index()) == self.index());
            } else {
                assert(es.subrange(es.len() as int, es.len() as int) =~= self.remaining());
            }
        }
    }
}

impl StorageIterator for BlockIterator {
    closed spec fn inv(&self) -> bool {
        &&& self.block.wf()
        &&& self.idx <= self.block.offsets@.len()
        &&& self.key@.len() > 0 ==> {
            let d = self.block.data@;
            let off = self.block.offsets@[self.idx as int] as int;
            &&& self.idx < self.block.offsets@.len()
            &&& self.key@ == key_at(d, off)
            &&& self.value_range.0 == value_start(d, off)
            &&& self.value_range.1 == value_start(d, off) + value_at(d, off).len()
            &&& self.value_range.1 <= d.len()
        }
    }

    /// Moving within one decoded block cannot fail.
    open spec fn infallible(&self) -> bool {
        true
    }

    closed spec fn remaining(&self) -> Seq<Entry> {
        if self.key@.len() > 0 {
            self.block.entries().subrange(self.idx as int, self.block.offsets@.len() as int)
        } else {
            Seq::empty()
        }
    }

    /// Returns the key of the current entry.
    fn key(&self) -> (r: &[u8])
        ensures
            r@.len() > 0 <==> self.remaining().len() > 0,
    {
        self.key.as_slice()
    }

    /// Returns the value of the current entry.
    fn value(&self) -> (r: &[u8]) {
        if self.key.len() == 0 {
            return slice_subrange(self.key.as_slice(), 0, 0);
        }
        let r = slice_subrange(self.block.data.as_slice(), self.value_range.0, self.value_range.1);
        proof {
            let d = self.block.data@;
            let off = self.block.offsets@[self.idx as int] as int;
            assert(r@ =~= value_at(d, off));
        }
        r
    }

    /// Returns true if the iterator stands on an entry.
    fn is_valid(&self) -> (r: bool) {
        self.key.len() > 0
    }

    /// Moves to the next entry of the block.
    fn next(&mut self) -> (r: Result<(), StorageError>)
        ensures
            r is Ok,
            final(self).block() == old(self).block(),
    {
        self.advance();
        Ok(())
    }
}

} // verus!
