//! The sorted string table: encoded blocks followed by a directory of their
//! offsets and boundary keys.
use std::sync::Arc;
use vstd::prelude::*;
use vstd::slice::slice_subrange;
use crate::key::{Entry, key_lt, key_less, put_u16, put_u32, append_slice, u32_bytes, hi_byte, lo_byte};
use crate::block::{Block, decodable, decoded_data, decoded_offsets, entries_of, stated_count, wf_of};
use crate::iterators::StorageError;

verus! {

/// Directory entry of one block: where its encoded form starts in the table
/// image, and its first and last keys.
pub struct BlockMeta {
    pub offset: usize,
    pub first_key: Vec<u8>,
    pub last_key: Vec<u8>,
}

/// The bytes of a length-prefixed key.
pub open spec fn prefixed(k: Seq<u8>) -> Seq<u8> {
    seq![hi_byte(k.len() as int), lo_byte(k.len() as int)] + k
}

/// The serialized form of one directory entry.
pub open spec fn meta_bytes(m: BlockMeta) -> Seq<u8> {
    u32_bytes(m.offset as int) + prefixed(m.first_key@) + prefixed(m.last_key@)
}

/// The serialized directory.
pub open spec fn directory_bytes(ms: Seq<BlockMeta>) -> Seq<u8>
    decreases ms.len(),
{
    if ms.len() == 0 {
        Seq::empty()
    } else {
        directory_bytes(ms.drop_last()) + meta_bytes(ms.last())
    }
}

/// A directory that the format can hold: offsets fit in 32 bits and keys in
/// 16-bit lengths.
pub open spec fn directory_fits(ms: Seq<BlockMeta>) -> bool {
    forall|i: int|
        0 <= i < ms.len() ==> {
            &&& #[trigger] ms[i].offset <= u32::MAX
            &&& ms[i].first_key@.len() <= 0xffff
            &&& ms[i].last_key@.len() <= 0xffff
        }
}

impl BlockMeta {
    /// Appends the serialized directory to `buf`: for each block its offset as a
    /// big-endian `u32`, then its first and last keys, each after its length as a
    /// big-endian `u16`.
    pub fn encode_block_meta(block_meta: &Vec<BlockMeta>, buf: &mut Vec<u8>)
        requires
            directory_fits(block_meta@),
        ensures
            final(buf)@ == old(buf)@ + directory_bytes(block_meta@),
    {
        let mut i: usize = 0;
        while i < block_meta.len()
            invariant
                directory_fits(block_meta@),
                i <= block_meta@.len(),
                buf@ == old(buf)@ + directory_bytes(block_meta@.subrange(0, i as int)),
            decreases block_meta@.len() - i,
        {
            let m = &block_meta[i];
            assert(m.offset <= u32::MAX);
            put_u32(buf, m.offset as u32);
            put_u16(buf, m.first_key.len() as u16);
            append_slice(buf, m.first_key.as_slice());
            put_u16(buf, m.last_key.len() as u16);
            append_slice(buf, m.last_key.as_slice());
            assert(block_meta@.subrange(0, i + 1).drop_last() =~= block_meta@.subrange(0, i as int));
            assert(buf@ =~= old(buf)@ + directory_bytes(block_meta@.subrange(0, i + 1)));
            i = i + 1;
        }
        assert(block_meta@.subrange(0, i as int) =~= block_meta@);
    }
}

/// An immutable sorted string table.
pub struct SsTable {
    /// The table image: encoded blocks, directory, directory offset.
    pub file: Vec<u8>,
    /// One directory entry per block.
    pub block_meta: Vec<BlockMeta>,
    /// Where the directory starts in the image.
    pub block_meta_offset: usize,
    pub id: usize,
    pub first_key: Vec<u8>,
    pub last_key: Vec<u8>,
    pub max_ts: u64,
}

impl SsTable {
    /// Number of blocks.
    pub open spec fn num_blocks(&self) -> int {
        self.block_meta@.len() as int
    }

    /// Where the encoded form of block `i` ends.
    pub open spec fn block_end(&self, i: int) -> int {
        if i + 1 < self.num_blocks() {
            self.block_meta@[i + 1].offset as int
        } else {
            self.block_meta_offset as int
        }
    }

    /// The encoded form of block `i`.
    pub open spec fn block_bytes(&self, i: int) -> Seq<u8> {
        self.file@.subrange(self.block_meta@[i].offset as int, self.block_end(i))
    }

    /// Block `i` exists and its bytes decode to a well-formed, non-empty block.
    pub open spec fn block_ok(&self, i: int) -> bool {
        &&& 0 <= i < self.num_blocks()
        &&& self.block_meta@[i].offset <= self.block_end(i) <= self.file@.len()
        &&& decodable(self.block_bytes(i))
        &&& stated_count(self.block_bytes(i)) > 0
        &&& wf_of(decoded_data(self.block_bytes(i)), decoded_offsets(self.block_bytes(i)))
    }

    /// The entries of block `i`; none where it cannot be read.
    pub open spec fn block_entries(&self, i: int) -> Seq<Entry> {
        if self.block_ok(i) {
            entries_of(decoded_data(self.block_bytes(i)), decoded_offsets(self.block_bytes(i)))
        } else {
            Seq::empty()
        }
    }

    /// The entries of blocks `i` onwards, in order.
    pub open spec fn entries_from(&self, i: int) -> Seq<Entry>
        decreases self.num_blocks() - i,
    {
        if i < 0 || i >= self.num_blocks() {
            Seq::empty()
        } else {
            self.block_entries(i) + self.entries_from(i + 1)
        }
    }

    /// Every block can be read, is non-empty, and its directory entry holds its
    /// first and last keys. Opaque: `reveal` it to reason about single blocks.
    #[verifier::opaque]
    pub open spec fn directory_matches(&self) -> bool {
        forall|i: int|
            0 <= i < self.num_blocks() ==> self.block_ok(i) && self.block_entries(i).len() > 0
                && (#[trigger] self.block_meta@[i]).first_key@ == self.block_entries(i)[0].0
                && self.block_meta@[i].last_key@ == self.block_entries(i).last().0
    }

    /// Each block's last key sorts before the next block's first key. Opaque:
    /// `reveal` it to use.
    #[verifier::opaque]
    pub open spec fn directory_ascending(&self) -> bool {
        forall|i: int|
            0 <= i < self.num_blocks() - 1 ==> key_lt(
                (#[trigger] self.block_meta@[i]).last_key@,
                self.block_meta@[i + 1].first_key@,
            )
    }

    /// The image ends with the serialized directory and, last, the directory's
    /// offset as a big-endian `u32`. Opaque: `reveal` it to use.
    #[verifier::opaque]
    pub open spec fn image_tail_ok(&self) -> bool {
        self.file@ == self.file@.subrange(0, self.block_meta_offset as int) + directory_bytes(
            self.block_meta@,
        ) + u32_bytes(self.block_meta_offset as int)
    }

    /// Block `i` is where a seek for `k` starts: every earlier block ends below `k`,
    /// and block `i` does not, unless it is the last.
    pub open spec fn is_seek_block(&self, i: int, k: Seq<u8>) -> bool {
        &&& 0 <= i < self.num_blocks()
        &&& i == 0 || key_lt(self.block_meta@[i - 1].last_key@, k)
        &&& i == self.num_blocks() - 1 || !key_lt(self.block_meta@[i].last_key@, k)
    }

    /// Reads and decodes block `idx`.
    pub fn read_block(&self, idx: usize) -> (r: Result<Arc<Block>, StorageError>)
        ensures
            r is Ok <==> self.block_ok(idx as int),
            idx >= self.num_blocks() ==> r == Err::<Arc<Block>, StorageError>(StorageError::BlockOutOfRange),
            r matches Ok(b) ==> b.wf() && b.entries() == self.block_entries(idx as int)
                && b.entries().len() > 0,
    {
        let n = self.block_meta.len();
        if idx >= n {
            return Err(StorageError::BlockOutOfRange);
        }
        let start = self.block_meta[idx].offset;
        let end = if idx + 1 < n {
            self.block_meta[idx + 1].offset
        } else {
            self.block_meta_offset
        };
        if start > end || end > self.file.len() {
            return Err(StorageError::Corrupt);
        }
        let bytes = slice_subrange(self.file.as_slice(), start, end);
        assert(bytes@ == self.block_bytes(idx as int));
        if bytes.len() < 2 {
            return Err(StorageError::Corrupt);
        }
        let count = crate::key::get_u16(bytes, bytes.len() - 2) as usize;
        if count == 0 || 2 * count + 2 > bytes.len() {
            return Err(StorageError::Corrupt);
        }
        let block = Block::decode(bytes);
        if !block.is_well_formed() {
            return Err(StorageError::Corrupt);
        }
        Ok(Arc::new(block))
    }

    /// Binary search of the directory for the block where a seek for `key`
    /// starts: the earliest block whose last key is not below `key`, or the last
    /// block when there is none.
    pub fn find_block_idx(&self, key: &[u8]) -> (r: usize)
        requires
            self.num_blocks() > 0,
        ensures
            self.is_seek_block(r as int, key@),
    {
        let mut lo: usize = 0;
        let mut hi: usize = self.block_meta.len() - 1;
        while lo < hi
            invariant
                lo <= hi < self.block_meta@.len(),
                lo == 0 || key_lt(self.block_meta@[lo - 1].last_key@, key@),
                hi == self.block_meta@.len() - 1 || !key_lt(self.block_meta@[hi as int].last_key@, key@),
            decreases hi - lo,
        {
            let mid = lo + (hi - lo) / 2;
            if key_less(self.block_meta[mid].last_key.as_slice(), key) {
                lo = mid + 1;
            } else {
                hi = mid;
            }
        }
        lo
    }
}

} // verus!
