//! Assembles a table image from blocks and a directory.
use vstd::prelude::*;
use crate::key::{Entry, key_lt, put_u32, append_slice, u32_bytes};
use crate::block::{encoding, entries_of, wf_of, decoded_data, decoded_offsets, stated_count, lemma_decode_encode};
use crate::block_builder::{BlockBuilder, footprint, MAX_OFFSET};
use crate::iterators::StorageError;
use crate::table::{BlockMeta, SsTable, directory_fits, directory_bytes};
use crate::merge_iterator::strictly_sorted;

verus! {

/// An encoded block's entry bytes and offsets.
pub type BlockParts = (Seq<u8>, Seq<u16>);

/// The encoded forms of `bs`, back to back.
pub open spec fn concat_encodings(bs: Seq<BlockParts>) -> Seq<u8>
    decreases bs.len(),
{
    if bs.len() == 0 {
        Seq::empty()
    } else {
        concat_encodings(bs.drop_last()) + encoding(bs.last().0, bs.last().1)
    }
}

/// The entries of blocks `i` onwards of `bs`, in order.
pub open spec fn flatten_from(bs: Seq<BlockParts>, i: int) -> Seq<Entry>
    decreases bs.len() - i,
{
    if i < 0 || i >= bs.len() {
        Seq::empty()
    } else {
        entries_of(bs[i].0, bs[i].1) + flatten_from(bs, i + 1)
    }
}

/// Well-formed, non-empty block parts whose count the format can hold.
pub open spec fn parts_ok(b: BlockParts) -> bool {
    wf_of(b.0, b.1) && 0 < b.1.len() <= 0xffff
}

proof fn lemma_concat_prefix(bs: Seq<BlockParts>, j: int)
    requires
        0 <= j <= bs.len(),
    ensures
        concat_encodings(bs.take(j)).len() <= concat_encodings(bs).len(),
        concat_encodings(bs).subrange(0, concat_encodings(bs.take(j)).len() as int)
            == concat_encodings(bs.take(j)),
    decreases bs.len(),
{
    if j < bs.len() {
        lemma_concat_prefix(bs.drop_last(), j);
        assert(bs.drop_last().take(j) =~= bs.take(j));
        let whole = concat_encodings(bs);
        let pre = concat_encodings(bs.drop_last());
        assert(whole.subrange(0, pre.len() as int) =~= pre);
        assert(whole.subrange(0, concat_encodings(bs.take(j)).len() as int)
            =~= pre.subrange(0, concat_encodings(bs.take(j)).len() as int));
    } else {
        assert(bs.take(j) =~= bs);
        assert(concat_encodings(bs).subrange(0, concat_encodings(bs).len() as int)
            =~= concat_encodings(bs));
    }
}

proof fn lemma_concat_block(bs: Seq<BlockParts>, i: int)
    requires
        0 <= i < bs.len(),
    ensures
        concat_encodings(bs.take(i)).len() + encoding(bs[i].0, bs[i].1).len()
            == concat_encodings(bs.take(i + 1)).len(),
        concat_encodings(bs.take(i + 1)).len() <= concat_encodings(bs).len(),
        concat_encodings(bs).subrange(
            concat_encodings(bs.take(i)).len() as int,
            concat_encodings(bs.take(i + 1)).len() as int,
        ) == encoding(bs[i].0, bs[i].1),
{
    lemma_concat_prefix(bs, i + 1);
    assert(bs.take(i + 1).drop_last() =~= bs.take(i));
    let a = concat_encodings(bs.take(i));
    let ab = concat_encodings(bs.take(i + 1));
    let whole = concat_encodings(bs);
    assert(whole.subrange(a.len() as int, ab.len() as int) =~= ab.subrange(a.len() as int, ab.len() as int));
    assert(ab.subrange(a.len() as int, ab.len() as int) =~= encoding(bs[i].0, bs[i].1));
}

proof fn lemma_flatten_push(bs: Seq<BlockParts>, b: BlockParts, i: int)
    requires
        0 <= i <= bs.len(),
    ensures
        flatten_from(bs.push(b), i) == flatten_from(bs, i) + entries_of(b.0, b.1),
    decreases bs.len() - i,
{
    if i < bs.len() {
        lemma_flatten_push(bs, b, i + 1);
        assert(flatten_from(bs.push(b), i) =~= flatten_from(bs, i) + entries_of(b.0, b.1));
    } else {
        assert(flatten_from(bs.push(b), i + 1) =~= Seq::<Entry>::empty());
        assert(flatten_from(bs.push(b), i) =~= flatten_from(bs, i) + entries_of(b.0, b.1));
    }
}

/// Builds a table from key-value pairs.
pub struct SsTableBuilder {
    builder: BlockBuilder,
    /// First key of the open block.
    first_key: Vec<u8>,
    /// Last key added.
    last_key: Vec<u8>,
    /// Encoded blocks so far.
    data: Vec<u8>,
    pub(crate) meta: Vec<BlockMeta>,
    block_size: usize,
    /// The finished blocks.
    blocks: Ghost<Seq<BlockParts>>,
}

impl SsTableBuilder {
    /// The entries added so far, in order.
    pub closed spec fn entries(&self) -> Seq<Entry> {
        flatten_from(self.blocks@, 0) + self.builder.entries()
    }

    /// The finished blocks, in order.
    pub closed spec fn finished_blocks(&self) -> Seq<BlockParts> {
        self.blocks@
    }

    /// The directory of the finished blocks.
    pub closed spec fn directory(&self) -> Seq<BlockMeta> {
        self.meta@
    }

    /// The block still open for entries.
    pub closed spec fn open_block(&self) -> BlockBuilder {
        self.builder
    }

    /// The blocks that the table will hold: the finished ones, then the open one
    /// where it holds entries.
    pub open spec fn flushed_blocks(&self) -> Seq<BlockParts> {
        if self.open_block().entries().len() > 0 {
            self.finished_blocks().push((self.open_block().data(), self.open_block().offsets()))
        } else {
            self.finished_blocks()
        }
    }

    /// Number of finished blocks.
    pub closed spec fn num_blocks(&self) -> nat {
        self.meta@.len()
    }

    /// The target block size.
    pub closed spec fn block_size(&self) -> nat {
        self.block_size as nat
    }

    /// Length of the encoded blocks once the open block is finished too.
    pub closed spec fn blocks_len(&self) -> nat {
        self.data@.len() + if self.builder.entries().len() > 0 {
            self.builder.size()
        } else {
            0
        }
    }

    pub closed spec fn wf(&self) -> bool {
        let bs = self.blocks@;
        &&& self.builder.wf()
        &&& self.builder.capacity() == self.block_size
        &&& self.meta@.len() == bs.len()
        &&& forall|i: int| 0 <= i < bs.len() ==> parts_ok(#[trigger] bs[i])
        &&& self.data@ == concat_encodings(bs)
        &&& forall|i: int| 0 <= i < bs.len() ==> {
            let es = entries_of(bs[i].0, bs[i].1);
            &&& (#[trigger] self.meta@[i]).offset == concat_encodings(bs.take(i)).len()
            &&& self.meta@[i].first_key@ == es[0].0
            &&& self.meta@[i].last_key@ == es.last().0
            &&& self.meta@[i].first_key@.len() <= 0xffff
            &&& self.meta@[i].last_key@.len() <= 0xffff
        }
        &&& self.builder.entries().len() == 0 ==> self.first_key@.len() == 0 && self.builder.size() == 2
        &&& self.builder.entries().len() > 0 ==> {
            &&& self.first_key@ == self.builder.entries()[0].0
            &&& self.first_key@.len() > 0
            &&& self.last_key@ == self.builder.entries().last().0
            &&& self.first_key@.len() <= 0xffff
            &&& self.last_key@.len() <= 0xffff
        }
    }

    /// Creates a builder with the given target block size.
    pub fn new(block_size: usize) -> (r: Self)
        ensures
            r.wf(),
            r.entries() == Seq::<Entry>::empty(),
            r.num_blocks() == 0,
            r.block_size() == block_size,
            r.blocks_len() == 0,
            r.finished_blocks() == Seq::<BlockParts>::empty(),
            r.directory() == Seq::<BlockMeta>::empty(),
            r.open_block().entries() == Seq::<Entry>::empty(),
            r.open_block().capacity() == block_size,
    {
        let r = SsTableBuilder {
            builder: BlockBuilder::new(block_size),
            first_key: Vec::new(),
            last_key: Vec::new(),
            data: Vec::new(),
            meta: Vec::new(),
            block_size,
            blocks: Ghost(Seq::empty()),
        };
        assert(r.entries() =~= Seq::<Entry>::empty());
        r
    }

    /// Finishes the open block: its encoding joins the image and its directory
    /// entry the directory.
    fn finish_block(&mut self)
        requires
            old(self).wf(),
            old(self).builder.entries().len() > 0,
        ensures
            final(self).wf(),
            final(self).builder.entries().len() == 0,
            final(self).entries() == old(self).entries(),
            final(self).num_blocks() == old(self).num_blocks() + 1,
            final(self).block_size() == old(self).block_size(),
            final(self).blocks_len() == old(self).blocks_len(),
            final(self).blocks@ == old(self).blocks@.push((old(self).builder.data(), old(self).builder.offsets())),
            final(self).meta@.len() == old(self).meta@.len() + 1,
            final(self).meta@.take(old(self).meta@.len() as int) == old(self).meta@,
            final(self).meta@[old(self).meta@.len() as int].offset == old(self).data@.len(),
            final(self).meta@[old(self).meta@.len() as int].first_key@ == old(self).builder.entries()[0].0,
            final(self).meta@[old(self).meta@.len() as int].last_key@ == old(self).builder.entries().last().0,
    {
        let ghost bs = self.blocks@;
        let mut full = BlockBuilder::new(self.block_size);
        std::mem::swap(&mut self.builder, &mut full);
        let ghost es = full.entries();
        let block = full.build();
        let ghost parts: BlockParts = (block.data@, block.offsets@);
        let offset = self.data.len();
        let encoded = block.encode();
        append_slice(&mut self.data, encoded.as_slice());
        let mut first: Vec<u8> = Vec::new();
        append_slice(&mut first, self.first_key.as_slice());
        let mut last: Vec<u8> = Vec::new();
        append_slice(&mut last, self.last_key.as_slice());
        self.meta.push(BlockMeta { offset, first_key: first, last_key: last });
        self.first_key = Vec::new();
        self.blocks = Ghost(bs.push(parts));
        proof {
            let nbs = bs.push(parts);
            assert(nbs.drop_last() =~= bs);
            assert(nbs.take(bs.len() as int) =~= bs);
            assert forall|i: int| 0 <= i < bs.len() implies nbs.take(i) =~= bs.take(i) by {}
            lemma_flatten_push(bs, parts, 0);
            assert(self.entries() =~= old(self).entries());
            assert(self.meta@.take(old(self).meta@.len() as int) =~= old(self).meta@);
        }
    }

    /// Adds a key-value pair. When the open block is full it is finished and a
    /// new one is started with the pair.
    pub fn add(&mut self, key: &[u8], value: &[u8])
        requires
            old(self).wf(),
            0 < key@.len() <= 0xffff,
            value@.len() <= 0xffff,
        ensures
            final(self).wf(),
            final(self).entries() == old(self).entries().push((key@, value@)),
            final(self).block_size() == old(self).block_size(),
            ({
                let ob = old(self).open_block();
                let fits = ob.entries().len() == 0 || (ob.size() + footprint(key@, value@) <= ob.capacity()
                    && ob.next_offset() <= MAX_OFFSET);
                &&& fits ==> final(self).finished_blocks() == old(self).finished_blocks()
                    && final(self).directory() == old(self).directory()
                    && final(self).open_block().entries() == ob.entries().push((key@, value@))
                &&& !fits ==> final(self).finished_blocks() == old(self).finished_blocks().push(
                    (ob.data(), ob.offsets()),
                ) && final(self).directory().len() == old(self).directory().len() + 1
                    && final(self).directory().take(old(self).directory().len() as int)
                    == old(self).directory() && final(self).open_block().entries() == seq![(key@, value@)]
            }),
            old(self).blocks_len() + footprint(key@, value@) <= final(self).blocks_len(),
            final(self).blocks_len() <= old(self).blocks_len() + footprint(key@, value@) + 2,
    {
        let ghost before = self.entries();
        if !self.builder.add(key, value) {
            self.finish_block();
            let ok = self.builder.add(key, value);
            assert(ok);
            assert(self.builder.entries() =~= seq![(key@, value@)]);
        }
        assert(self.builder.entries().last() == (key@, value@));
        assert(self.first_key@.len() == 0 ==> self.builder.entries().len() == 1);
        assert(self.first_key@.len() > 0 ==> self.builder.entries()[0].0 == self.first_key@);
        assert(self.entries() =~= before.push((key@, value@)));
        if self.first_key.len() == 0 {
            let mut first: Vec<u8> = Vec::new();
            append_slice(&mut first, key);
            self.first_key = first;
        }
        let mut last: Vec<u8> = Vec::new();
        append_slice(&mut last, key);
        self.last_key = last;
    }

    /// Estimated size of the table: finished blocks times the target block size.
    pub fn estimated_size(&self) -> (r: usize)
        requires
            self.wf(),
            self.num_blocks() * self.block_size() <= usize::MAX,
        ensures
            r == self.num_blocks() * self.block_size(),
    {
        self.meta.len() * self.block_size
    }

    /// Finishes the table: the open block is finished, then the directory and
    /// its offset as a big-endian `u32` follow the blocks. Fails when the blocks
    /// are too long for 32-bit offsets.
    pub fn build(self, id: usize) -> (r: Result<SsTable, StorageError>)
        requires
            self.wf(),
        ensures
            r is Ok <==> self.blocks_len() <= u32::MAX,
            r is Err ==> r == Err::<SsTable, StorageError>(StorageError::TableTooLarge),
            r matches Ok(t) ==> {
                &&& t.entries_from(0) == self.entries()
                &&& t.id == id
                &&& t.max_ts == 0
                &&& t.block_meta_offset == self.blocks_len()
                &&& self.entries().len() == 0 ==> t.num_blocks() == 0 && t.first_key@.len() == 0
                    && t.last_key@.len() == 0
                &&& self.entries().len() > 0 ==> t.first_key@ == self.entries()[0].0
                    && t.last_key@ == self.entries().last().0
                &&& t.num_blocks() == self.num_blocks() + if self.open_block().entries().len() > 0 {
                    1int
                } else {
                    0int
                }
                &&& t.image_tail_ok()
                &&& t.block_meta_offset == concat_encodings(self.flushed_blocks()).len()
                &&& t.file@.subrange(0, t.block_meta_offset as int) == concat_encodings(self.flushed_blocks())
                &&& t.block_meta@.take(self.directory().len() as int) == self.directory()
                &&& self.open_block().entries().len() > 0 ==> {
                    let m = t.block_meta@[self.directory().len() as int];
                    &&& m.offset == concat_encodings(self.finished_blocks()).len()
                    &&& m.first_key@ == self.open_block().entries()[0].0
                    &&& m.last_key@ == self.open_block().entries().last().0
                }
                &&& t.directory_matches()
                &&& strictly_sorted(self.entries()) ==> t.directory_ascending()
            },
    {
        let ghost old_entries = self.entries();
        let mut this = self;
        if !this.builder.is_empty() {
            this.finish_block();
        }
        if this.data.len() > 0xffff_ffff {
            return Err(StorageError::TableTooLarge);
        }
        let ghost bs = this.blocks@;
        assert(bs == self.flushed_blocks());
        assert(this.meta@.take(self.directory().len() as int) == self.directory()) by {
            if self.open_block().entries().len() == 0 {
                assert(this.meta@.take(self.directory().len() as int) =~= this.meta@);
            }
        }
        let t = assemble(this.data, this.meta, id, Ghost(bs));
        proof {
            let n = bs.len();
            assert(old_entries =~= flatten_from(bs, 0));
            assert(t.entries_from(0) == old_entries);
            if n > 0 {
                lemma_flatten_push(bs.drop_last(), bs.last(), 0);
                assert(bs.drop_last().push(bs.last()) =~= bs);
            }
        }
        Ok(t)
    }
}

/// Lays out the table image: the encoded blocks, the directory, and the
/// directory's offset.
fn assemble(data: Vec<u8>, meta: Vec<BlockMeta>, id: usize, Ghost(bs): Ghost<Seq<BlockParts>>) -> (t: SsTable)
    requires
        meta@.len() == bs.len(),
        forall|j: int| 0 <= j < bs.len() ==> parts_ok(#[trigger] bs[j]),
        forall|j: int| 0 <= j < bs.len() ==> {
            let es = entries_of(bs[j].0, bs[j].1);
            &&& (#[trigger] meta@[j]).offset == concat_encodings(bs.take(j)).len()
            &&& meta@[j].first_key@ == es[0].0
            &&& meta@[j].last_key@ == es.last().0
            &&& meta@[j].first_key@.len() <= 0xffff
            &&& meta@[j].last_key@.len() <= 0xffff
        },
        data@ == concat_encodings(bs),
        data@.len() <= u32::MAX,
    ensures
        t.entries_from(0) == flatten_from(bs, 0),
        t.id == id,
        t.max_ts == 0,
        t.block_meta@ == meta@,
        t.block_meta_offset == data@.len(),
        t.file@.subrange(0, t.block_meta_offset as int) == data@,
        bs.len() == 0 ==> t.first_key@.len() == 0 && t.last_key@.len() == 0,
        bs.len() > 0 ==> t.first_key@ == meta@[0].first_key@ && t.last_key@ == meta@[bs.len() - 1].last_key@,
        t.image_tail_ok(),
        t.directory_matches(),
        strictly_sorted(t.entries_from(0)) ==> t.directory_ascending(),
{
    let meta_offset = data.len();
    let mut buf: Vec<u8> = Vec::new();
    append_slice(&mut buf, data.as_slice());
    proof {
        assert forall|i: int| 0 <= i < meta@.len() implies #[trigger] meta@[i].offset <= u32::MAX by {
            lemma_concat_prefix(bs, i);
        }
    }
    BlockMeta::encode_block_meta(&meta, &mut buf);
    put_u32(&mut buf, meta_offset as u32);
    let n = meta.len();
    let mut first_key: Vec<u8> = Vec::new();
    let mut last_key: Vec<u8> = Vec::new();
    if n > 0 {
        append_slice(&mut first_key, meta[0].first_key.as_slice());
        append_slice(&mut last_key, meta[n - 1].last_key.as_slice());
    }
    assert(buf@.subrange(0, meta_offset as int) =~= data@);
    assert(buf@ =~= buf@.subrange(0, meta_offset as int) + directory_bytes(meta@) + u32_bytes(
        meta_offset as int,
    ));
    let t = SsTable { file: buf, block_meta: meta, block_meta_offset: meta_offset, id, first_key, last_key, max_ts: 0 };
    proof {
        lemma_built_directory(t, bs);
        reveal(SsTable::image_tail_ok);
    }
    t
}

/// The directory of a builder: one entry per finished block, at the block's
/// position among the encoded blocks, with its first and last keys. Its
/// entries are those of the finished blocks, then those of the open block,
/// which has the builder's block size as its capacity.
pub proof fn lemma_builder_directory(b: &SsTableBuilder)
    requires
        b.wf(),
    ensures
        b.directory().len() == b.finished_blocks().len(),
        b.entries() == flatten_from(b.finished_blocks(), 0) + b.open_block().entries(),
        b.open_block().capacity() == b.block_size(),
        b.open_block().entries().len() == 0 ==> b.open_block().size() == 2,
        b.blocks_len() == concat_encodings(b.finished_blocks()).len() + if b.open_block().entries().len() > 0 {
            b.open_block().size()
        } else {
            0
        },
        forall|i: int|
            0 <= i < b.directory().len() ==> {
                let bs = b.finished_blocks();
                &&& parts_ok(bs[i])
                &&& (#[trigger] b.directory()[i]).offset == concat_encodings(bs.take(i)).len()
                &&& b.directory()[i].first_key@ == entries_of(bs[i].0, bs[i].1)[0].0
                &&& b.directory()[i].last_key@ == entries_of(bs[i].0, bs[i].1).last().0
            },
{
}

/// A table laid out by `build` has, for each block, a readable block whose
/// first and last keys are those of its directory entry; where its entries are
/// strictly sorted, each block ends below the first key of the next.
proof fn lemma_built_directory(t: SsTable, bs: Seq<BlockParts>)
    requires
        t.num_blocks() == bs.len(),
        forall|j: int| 0 <= j < bs.len() ==> parts_ok(#[trigger] bs[j]),
        forall|j: int| 0 <= j < bs.len() ==> (#[trigger] t.block_meta@[j]).offset
            == concat_encodings(bs.take(j)).len(),
        forall|j: int| 0 <= j < bs.len() ==> (#[trigger] t.block_meta@[j]).first_key@
            == entries_of(bs[j].0, bs[j].1)[0].0 && t.block_meta@[j].last_key@ == entries_of(
            bs[j].0,
            bs[j].1,
        ).last().0,
        t.block_meta_offset == concat_encodings(bs).len(),
        concat_encodings(bs).len() <= t.file@.len(),
        t.file@.subrange(0, concat_encodings(bs).len() as int) == concat_encodings(bs),
    ensures
        t.entries_from(0) == flatten_from(bs, 0),
        t.directory_matches(),
        strictly_sorted(t.entries_from(0)) ==> t.directory_ascending(),
{
    reveal(SsTable::directory_matches);
    reveal(SsTable::directory_ascending);
    lemma_table_entries(t, bs, 0);
    assert forall|i: int| 0 <= i < t.num_blocks() implies t.block_ok(i) && t.block_entries(i).len() > 0
        && (#[trigger] t.block_meta@[i]).first_key@ == t.block_entries(i)[0].0
        && t.block_meta@[i].last_key@ == t.block_entries(i).last().0 by {
        assert(parts_ok(bs[i]));
        lemma_table_block(t, bs, i);
    }
    if strictly_sorted(t.entries_from(0)) {
        lemma_sorted_blocks(t, 0);
        assert forall|i: int| 0 <= i < t.num_blocks() - 1 implies #[trigger] key_lt(
            (#[trigger] t.block_meta@[i]).last_key@,
            t.block_meta@[i + 1].first_key@,
        ) by {
            assert(t.block_entries(i).len() > 0);
            assert(t.block_entries(i + 1).len() > 0);
        }
    }
}

/// In a table whose entries are strictly sorted, each block ends below the
/// first key of the next.
proof fn lemma_sorted_blocks(t: SsTable, i: int)
    requires
        0 <= i <= t.num_blocks(),
        strictly_sorted(t.entries_from(i)),
        forall|j: int| 0 <= j < t.num_blocks() ==> (#[trigger] t.block_entries(j)).len() > 0,
    ensures
        forall|j: int|
            i <= j < t.num_blocks() - 1 ==> key_lt(
                (#[trigger] t.block_entries(j)).last().0,
                t.block_entries(j + 1)[0].0,
            ),
    decreases t.num_blocks() - i,
{
    if i < t.num_blocks() {
        let e = t.entries_from(i);
        let a = t.block_entries(i);
        let rest = t.entries_from(i + 1);
        assert(e == a + rest);
        assert forall|p: int, q: int| 0 <= p < q < rest.len() implies key_lt(
            #[trigger] rest[p].0,
            #[trigger] rest[q].0,
        ) by {
            assert(e[a.len() + p] == rest[p]);
            assert(e[a.len() + q] == rest[q]);
        }
        lemma_sorted_blocks(t, i + 1);
        if i + 1 < t.num_blocks() {
            let b = t.block_entries(i + 1);
            assert(rest == b + t.entries_from(i + 2));
            assert(e[a.len() - 1] == a.last());
            assert(e[a.len() as int] == b[0]);
        }
    }
}

/// Block `i` of a table laid out from `bs` reads back as block `i` of `bs`.
proof fn lemma_table_block(t: SsTable, bs: Seq<BlockParts>, i: int)
    requires
        0 <= i < bs.len(),
        t.num_blocks() == bs.len(),
        forall|j: int| 0 <= j < bs.len() ==> parts_ok(#[trigger] bs[j]),
        forall|j: int| 0 <= j < bs.len() ==> (#[trigger] t.block_meta@[j]).offset
            == concat_encodings(bs.take(j)).len(),
        t.block_meta_offset == concat_encodings(bs).len(),
        concat_encodings(bs).len() <= t.file@.len(),
        t.file@.subrange(0, concat_encodings(bs).len() as int) == concat_encodings(bs),
    ensures
        t.block_ok(i),
        t.block_entries(i) == entries_of(bs[i].0, bs[i].1),
{
    lemma_concat_block(bs, i);
    let whole = concat_encodings(bs);
    if i + 1 < bs.len() {
        assert(t.block_end(i) == concat_encodings(bs.take(i + 1)).len());
    } else {
        assert(bs.take(i + 1) =~= bs);
    }
    assert(t.block_bytes(i) =~= whole.subrange(
        concat_encodings(bs.take(i)).len() as int,
        concat_encodings(bs.take(i + 1)).len() as int,
    ));
    lemma_decode_encode(bs[i].0, bs[i].1);
}

/// A table whose image starts with the encodings of `bs` and whose directory
/// points at them holds the entries of `bs`, in order.
proof fn lemma_table_entries(t: SsTable, bs: Seq<BlockParts>, i: int)
    requires
        0 <= i <= bs.len(),
        t.num_blocks() == bs.len(),
        forall|j: int| 0 <= j < bs.len() ==> parts_ok(#[trigger] bs[j]),
        forall|j: int| 0 <= j < bs.len() ==> (#[trigger] t.block_meta@[j]).offset
            == concat_encodings(bs.take(j)).len(),
        t.block_meta_offset == concat_encodings(bs).len(),
        concat_encodings(bs).len() <= t.file@.len(),
        t.file@.subrange(0, concat_encodings(bs).len() as int) == concat_encodings(bs),
    ensures
        t.entries_from(i) == flatten_from(bs, i),
    decreases bs.len() - i,
{
    if i < bs.len() {
        lemma_table_entries(t, bs, i + 1);
        lemma_table_block(t, bs, i);
    }
}

} // verus!
