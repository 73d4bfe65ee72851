//! Packs sorted entries into a block under a byte budget.
use vstd::prelude::*;
use crate::key::{Entry, put_u16, append_slice, read_u16, lemma_u16_bytes, hi_byte, lo_byte};
use crate::block::{Block, encoding, entries_of, entry_fits, key_at, value_at, value_start};

verus! {

/// Bytes that one entry takes in an encoded block: its key and value, their two
/// lengths, and its offset.
pub open spec fn footprint(key: Seq<u8>, value: Seq<u8>) -> nat {
    key.len() + value.len() + 6
}

/// Bytes that the entries take in an encoded block, the count excluded.
pub open spec fn footprints(es: Seq<Entry>) -> nat
    decreases es.len(),
{
    if es.len() == 0 {
        0
    } else {
        footprints(es.drop_last()) + footprint(es.last().0, es.last().1)
    }
}

/// Offsets strictly increasing.
pub open spec fn offsets_ascending(offsets: Seq<u16>) -> bool {
    forall|i: int, j: int| 0 <= i < j < offsets.len() ==> offsets[i] < offsets[j]
}

/// Largest entry offset that the format can hold.
pub const MAX_OFFSET: usize = 0xffff;

/// Builds a block.
pub struct BlockBuilder {
    /// Offsets of each key-value entry.
    offsets: Vec<u16>,
    /// All serialized key-value pairs in the block.
    data: Vec<u8>,
    /// The expected block size.
    block_size: usize,
    /// The first key in the block.
    first_key: Vec<u8>,
    /// The current encoded size.
    current_size: usize,
}

impl BlockBuilder {
    /// The block as built so far.
    pub closed spec fn block(&self) -> Block {
        Block { data: self.data, offsets: self.offsets }
    }

    /// The entries added so far, in order.
    pub closed spec fn entries(&self) -> Seq<Entry> {
        self.block().entries()
    }

    /// The capacity given at creation.
    pub closed spec fn capacity(&self) -> nat {
        self.block_size as nat
    }

    /// The size of the encoded block so far, its entry count included.
    pub closed spec fn size(&self) -> nat {
        self.current_size as nat
    }

    /// The entry bytes so far.
    pub closed spec fn data(&self) -> Seq<u8> {
        self.data@
    }

    /// The offset of each entry so far.
    pub closed spec fn offsets(&self) -> Seq<u16> {
        self.offsets@
    }

    /// Where the next entry would start.
    pub closed spec fn next_offset(&self) -> nat {
        self.data@.len()
    }

    pub closed spec fn wf(&self) -> bool {
        &&& self.block().wf()
        &&& forall|i: int| 0 <= i < self.offsets@.len() ==> self.offsets@[i] < self.data@.len()
        &&& offsets_ascending(self.offsets@)
        &&& self.current_size == self.data@.len() + 2 * self.offsets@.len() + 2
        &&& self.current_size == 2 + footprints(self.entries())
        &&& self.data@.len() <= 200000
        &&& 5 * self.offsets@.len() <= self.data@.len()
        &&& self.offsets@.len() == 0 ==> self.data@.len() == 0
        &&& self.current_size <= self.block_size || self.offsets@.len() <= 1
        &&& self.first_key@ == if self.offsets@.len() == 0 {
            Seq::<u8>::empty()
        } else {
            self.entries()[0].0
        }
    }

    /// Creates a new block builder.
    pub fn new(block_size: usize) -> (r: Self)
        ensures
            r.wf(),
            r.entries() == Seq::<Entry>::empty(),
            r.capacity() == block_size,
            r.size() == 2,
            r.next_offset() == 0,
            r.data() == Seq::<u8>::empty(),
            r.offsets() == Seq::<u16>::empty(),
    {
        let r = BlockBuilder {
            offsets: Vec::new(),
            data: Vec::new(),
            block_size,
            first_key: Vec::new(),
            current_size: 2,
        };
        assert(r.entries() =~= Seq::<Entry>::empty());
        r
    }

    /// Adds a key-value pair to the block. Returns false, and leaves the builder
    /// as it was, when the block is full: when it holds an entry already and the
    /// new one would take it over its capacity or past the largest offset the
    /// format can hold.
    #[must_use]
    pub fn add(&mut self, key: &[u8], value: &[u8]) -> (r: bool)
        requires
            old(self).wf(),
            0 < key@.len() <= 0xffff,
            value@.len() <= 0xffff,
        ensures
            final(self).wf(),
            final(self).capacity() == old(self).capacity(),
            r == (old(self).entries().len() == 0 || (old(self).size() + footprint(key@, value@)
                <= old(self).capacity() && old(self).next_offset() <= MAX_OFFSET)),
            r ==> final(self).entries() == old(self).entries().push((key@, value@)),
            r ==> final(self).size() == old(self).size() + footprint(key@, value@),
            r ==> final(self).next_offset() == old(self).next_offset() + key@.len() + value@.len() + 4,
            r ==> final(self).offsets() == old(self).offsets().push(old(self).next_offset() as u16),
            r ==> final(self).data() == old(self).data() + seq![hi_byte(key@.len() as int), lo_byte(key@.len() as int)]
                + key@ + seq![hi_byte(value@.len() as int), lo_byte(value@.len() as int)] + value@,
            r ==> final(self).entries().len() > 0,
            !r ==> *final(self) == *old(self),
    {
        let key_len = key.len();
        let val_len = value.len();
        let other = key_len + val_len + 6;
        if !self.is_empty() && (self.full_after_add(other) || self.data.len() > MAX_OFFSET) {
            return false;
        }
        let ghost old_data = self.data@;
        let ghost old_offsets = self.offsets@;
        let off = self.data.len();
        self.offsets.push(off as u16);
        put_u16(&mut self.data, key_len as u16);
        append_slice(&mut self.data, key);
        put_u16(&mut self.data, val_len as u16);
        append_slice(&mut self.data, value);
        self.current_size = self.current_size + other;
        proof {
            let d = self.data@;
            let o = off as int;
            lemma_u16_bytes(key_len as int);
            lemma_u16_bytes(val_len as int);
            assert(read_u16(d, o) == key_len);
            assert(read_u16(d, o + 2 + key_len) == val_len);
            assert(key_at(d, o) =~= key@);
            assert(value_at(d, o) =~= value@);
            assert forall|i: int| 0 <= i < old_offsets.len() implies {
                &&& entry_fits(d, old_offsets[i] as int)
                &&& key_at(d, old_offsets[i] as int) == key_at(old_data, old_offsets[i] as int)
                &&& value_at(d, old_offsets[i] as int) == value_at(old_data, old_offsets[i] as int)
            } by {
                let p = old_offsets[i] as int;
                assert(entry_fits(old_data, p));
                assert(key_at(d, p) =~= key_at(old_data, p));
                assert(value_at(d, p) =~= value_at(old_data, p));
            }
            assert(self.offsets@ == old_offsets.push(off as u16));
            assert forall|i: int| 0 <= i < old_offsets.len() + 1 implies #[trigger] self.entries()[i]
                == old(self).entries().push((key@, value@))[i] by {
                if i < old_offsets.len() {
                    assert(self.offsets@[i] == old_offsets[i]);
                }
            }
            assert(self.entries() =~= old(self).entries().push((key@, value@)));
            assert(self.entries().drop_last() =~= old(self).entries());
        }
        if self.first_key.len() == 0 {
            append_slice(&mut self.first_key, key);
        }
        true
    }

    fn full_after_add(&self, other: usize) -> (r: bool)
        requires
            self.wf(),
            other <= 0x20006,
        ensures
            r == (self.size() + other > self.capacity()),
    {
        self.current_size + other > self.block_size
    }

    /// Checks if there is no key-value pair in the block.
    pub fn is_empty(&self) -> (r: bool)
        requires
            self.wf(),
        ensures
            r == (self.entries().len() == 0),
    {
        self.offsets.len() == 0
    }

    /// Finalizes the block. The builder must hold at least one entry.
    pub fn build(self) -> (r: Block)
        requires
            self.wf(),
            self.entries().len() > 0,
        ensures
            r.wf(),
            r.entries() == self.entries(),
            r.offsets@.len() <= 0xffff,
            encoding(r.data@, r.offsets@).len() == self.size(),
            r.data@ == self.data(),
            r.offsets@ == self.offsets(),
            offsets_ascending(r.offsets@),
    {
        Block { data: self.data, offsets: self.offsets }
    }
}

/// What a builder holds: its entries are those its offsets point at in its
/// data, the next entry starts at the end of the data, and its size is the
/// count field plus the footprints of its entries.
pub proof fn lemma_builder_view(b: &BlockBuilder)
    requires
        b.wf(),
    ensures
        b.entries() == entries_of(b.data(), b.offsets()),
        b.next_offset() == b.data().len(),
        b.size() == 2 + footprints(b.entries()),
        b.offsets().len() == b.entries().len(),
{
}

/// A builder fed in order never grows past its capacity, but for a single entry
/// that is larger than the capacity on its own.
pub proof fn lemma_packing_within_capacity(b: &BlockBuilder)
    requires
        b.wf(),
    ensures
        b.entries().len() >= 2 ==> b.size() <= b.capacity(),
        b.entries().len() >= 2 ==> 2 + footprints(b.entries()) <= b.capacity(),
{
}

} // verus!
