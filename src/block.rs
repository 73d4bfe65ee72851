//! The block: the smallest unit of reading and caching, a page of sorted
//! key-value entries followed by an offset directory and an entry count.
use vstd::prelude::*;
use crate::key::{Entry, hi_byte, lo_byte, read_u16, put_u16, get_u16, lemma_u16_bytes};

verus! {

/// The bytes of a sequence of 16-bit integers, big-endian, in order.
pub open spec fn u16s_bytes(s: Seq<u16>) -> Seq<u8> {
    Seq::new(
        2 * s.len(),
        |j: int|
            if j % 2 == 0 {
                hi_byte(s[j / 2] as int)
            } else {
                lo_byte(s[j / 2] as int)
            },
    )
}

/// The encoded form of a block: entry bytes, the offsets, then the entry count.
pub open spec fn encoding(data: Seq<u8>, offsets: Seq<u16>) -> Seq<u8> {
    data + u16s_bytes(offsets) + seq![hi_byte(offsets.len() as int), lo_byte(offsets.len() as int)]
}

/// The entry count stated by the last two bytes of an encoded block.
pub open spec fn stated_count(d: Seq<u8>) -> int {
    read_u16(d, d.len() - 2)
}

/// Length of the entry bytes of an encoded block.
pub open spec fn stated_data_len(d: Seq<u8>) -> int {
    d.len() - 2 - 2 * stated_count(d)
}

/// Bytes that `decode` accepts: a count, and room for the directory it states.
pub open spec fn decodable(d: Seq<u8>) -> bool {
    d.len() >= 2 && stated_data_len(d) >= 0
}

/// Entry bytes that `decode` reads from `d`.
pub open spec fn decoded_data(d: Seq<u8>) -> Seq<u8> {
    d.subrange(0, stated_data_len(d))
}

/// Offsets that `decode` reads from `d`.
pub open spec fn decoded_offsets(d: Seq<u8>) -> Seq<u16> {
    Seq::new(stated_count(d) as nat, |i: int| read_u16(d, stated_data_len(d) + 2 * i) as u16)
}

/// An entry that starts at `off` lies within `d`.
pub open spec fn entry_fits(d: Seq<u8>, off: int) -> bool {
    &&& 0 <= off
    &&& off + 4 + read_u16(d, off) <= d.len()
    &&& value_start(d, off) + read_u16(d, value_start(d, off) - 2) <= d.len()
}

/// Position of the value bytes of the entry that starts at `off`.
pub open spec fn value_start(d: Seq<u8>, off: int) -> int {
    off + 4 + read_u16(d, off)
}

/// Key of the entry that starts at `off`.
pub open spec fn key_at(d: Seq<u8>, off: int) -> Seq<u8> {
    d.subrange(off + 2, off + 2 + read_u16(d, off))
}

/// Value of the entry that starts at `off`.
pub open spec fn value_at(d: Seq<u8>, off: int) -> Seq<u8> {
    d.subrange(value_start(d, off), value_start(d, off) + read_u16(d, value_start(d, off) - 2))
}

/// Every offset starts an entry that lies within `data`, with a non-empty key.
pub open spec fn wf_of(data: Seq<u8>, offsets: Seq<u16>) -> bool {
    forall|i: int|
        0 <= i < offsets.len() ==> {
            &&& entry_fits(data, offsets[i] as int)
            &&& key_at(data, offsets[i] as int).len() > 0
        }
}

/// The entries that `offsets` point at in `data`, in order.
pub open spec fn entries_of(data: Seq<u8>, offsets: Seq<u16>) -> Seq<Entry> {
    Seq::new(offsets.len(), |i: int| (key_at(data, offsets[i] as int), value_at(data, offsets[i] as int)))
}

/// A block is the smallest unit of read and caching in the tree: a collection of
/// sorted key-value pairs.
pub struct Block {
    pub data: Vec<u8>,
    pub offsets: Vec<u16>,
}

impl Block {
    /// Every offset starts an entry that lies within the data, with a non-empty key.
    pub open spec fn wf(&self) -> bool {
        wf_of(self.data@, self.offsets@)
    }

    /// The entries of the block, in order.
    pub open spec fn entries(&self) -> Seq<Entry> {
        entries_of(self.data@, self.offsets@)
    }

    /// Encodes the block: entry bytes, each offset as a big-endian `u16`, then the
    /// entry count as a big-endian `u16`.
    pub fn encode(&self) -> (r: Vec<u8>)
        requires
            self.offsets@.len() <= 0xffff,
        ensures
            r@ == encoding(self.data@, self.offsets@),
    {
        let mut blk = self.data.clone();
        let n = self.offsets.len();
        let mut i: usize = 0;
        while i < n
            invariant
                n == self.offsets@.len(),
                i <= n,
                blk@ == self.data@ + u16s_bytes(self.offsets@.subrange(0, i as int)),
            decreases n - i,
        {
            put_u16(&mut blk, self.offsets[i]);
            assert(blk@ =~= self.data@ + u16s_bytes(self.offsets@.subrange(0, i + 1)));
            i = i + 1;
        }
        assert(self.offsets@.subrange(0, n as int) =~= self.offsets@);
        put_u16(&mut blk, n as u16);
        blk
    }

    /// Decodes a block from its encoded form.
    pub fn decode(data: &[u8]) -> (r: Self)
        requires
            decodable(data@),
        ensures
            r.data@ == decoded_data(data@),
            r.offsets@ == decoded_offsets(data@),
    {
        let blk_len = data.len();
        let off_len = get_u16(data, blk_len - 2) as usize;
        let data_len = blk_len - 2 - 2 * off_len;
        let mut offsets: Vec<u16> = Vec::new();
        let mut i: usize = 0;
        while i < off_len
            invariant
                blk_len == data@.len(),
                off_len == stated_count(data@),
                data_len == stated_data_len(data@),
                decodable(data@),
                i <= off_len,
                offsets@ == decoded_offsets(data@).subrange(0, i as int),
            decreases off_len - i,
        {
            offsets.push(get_u16(data, data_len + 2 * i));
            assert(offsets@ =~= decoded_offsets(data@).subrange(0, i + 1));
            i = i + 1;
        }
        assert(offsets@ =~= decoded_offsets(data@));
        let mut body: Vec<u8> = Vec::new();
        let mut j: usize = 0;
        while j < data_len
            invariant
                data_len <= data@.len(),
                j <= data_len,
                body@ == data@.subrange(0, j as int),
            decreases data_len - j,
        {
            body.push(data[j]);
            assert(body@ =~= data@.subrange(0, j + 1));
            j = j + 1;
        }
        Block { data: body, offsets }
    }

    /// Returns whether the block is well formed: each entry lies within the data
    /// and has a non-empty key.
    pub fn is_well_formed(&self) -> (r: bool)
        ensures
            r == self.wf(),
    {
        let d = self.data.as_slice();
        let mut i: usize = 0;
        while i < self.offsets.len()
            invariant
                d@ == self.data@,
                i <= self.offsets@.len(),
                forall|k: int|
                    0 <= k < i ==> {
                        &&& entry_fits(self.data@, self.offsets@[k] as int)
                        &&& key_at(self.data@, self.offsets@[k] as int).len() > 0
                    },
            decreases self.offsets@.len() - i,
        {
            let off = self.offsets[i] as usize;
            if off + 2 > d.len() {
                return false;
            }
            let klen = get_u16(d, off) as usize;
            if klen == 0 || off + 4 + klen > d.len() {
                return false;
            }
            let vlen = get_u16(d, off + 2 + klen) as usize;
            if off + 4 + klen + vlen > d.len() {
                return false;
            }
            i = i + 1;
        }
        true
    }
}

/// Decoding the encoded form of a block gives back its data and offsets.
pub proof fn lemma_decode_encode(data: Seq<u8>, offsets: Seq<u16>)
    requires
        offsets.len() <= 0xffff,
    ensures
        decodable(encoding(data, offsets)),
        decoded_data(encoding(data, offsets)) == data,
        decoded_offsets(encoding(data, offsets)) == offsets,
{
    let e = encoding(data, offsets);
    let n = offsets.len() as int;
    lemma_u16_bytes(n);
    assert(e[e.len() - 2] == hi_byte(n));
    assert(e[e.len() - 1] == lo_byte(n));
    assert(stated_count(e) == n);
    assert(decoded_data(e) =~= data);
    assert forall|i: int| 0 <= i < n implies decoded_offsets(e)[i] == offsets[i] by {
        let x = offsets[i] as int;
        lemma_u16_bytes(x);
        assert(e[data.len() + 2 * i] == u16s_bytes(offsets)[2 * i]);
        assert(e[data.len() + 2 * i + 1] == u16s_bytes(offsets)[2 * i + 1]);
    }
    assert(decoded_offsets(e) =~= offsets);
}

} // verus!
