//! Building a table from a stream of key-value pairs.

use vstd::pervasive::unreached;
use vstd::prelude::*;
use crate::block::{
    entries_encodable, entries_size, entries_view, entry_encodable, entry_size,
    lemma_encode_entries_len, write_entries, Entry,
};
use crate::table::layout::{
    blocks_encoding, blocks_storable, lemma_blocks_encoding_push, lemma_metas_of_push,
    lemma_parse_table_of_encoding, lemma_table_round_trip, meta_of, metas_of, table_encoding,
};
use crate::table::{
    copy_bytes, encode_metas, lemma_encode_metas_push, lemma_meta_encoding_len, metas_view,
    BlockMeta, FileObject, SsTable,
};
use crate::wire::{put_u32, MAX_FIELD_LEN};

verus! {

/// Builds an SSTable from key-value pairs.
pub struct SsTableBuilder {
    /// The pairs of the block that is being filled.
    entries: Vec<(Vec<u8>, Vec<u8>)>,
    /// The encoded size of those pairs.
    entries_bytes: usize,
    /// The encodings of the finished blocks.
    data: Vec<u8>,
    /// The metas of the finished blocks.
    pub(crate) meta: Vec<BlockMeta>,
    /// The encoded size of those metas.
    meta_bytes: usize,
    block_size: usize,
    /// The pairs of the finished blocks.
    done: Ghost<Seq<Seq<Entry>>>,
}

/// The mathematical content of an [`SsTableBuilder`].
pub struct BuilderView {
    /// The pairs of the finished blocks.
    pub done: Seq<Seq<Entry>>,
    /// The pairs of the block that is being filled.
    pub current: Seq<Entry>,
    /// The size above which a block is not filled further.
    pub block_size: usize,
}

/// The most that one pair can add to the size of a table: its record and
/// a meta that names its key twice.
pub open spec fn entry_cost(e: Entry) -> nat {
    12 + 3 * e.0.len() + e.1.len()
}

impl BuilderView {
    /// A builder that holds nothing.
    pub open spec fn empty(block_size: usize) -> BuilderView {
        BuilderView { done: Seq::empty(), current: Seq::empty(), block_size }
    }

    /// The blocks of the table as it stands, the one being filled
    /// included.
    pub open spec fn blocks(self) -> Seq<Seq<Entry>> {
        if self.current.len() > 0 {
            self.done.push(self.current)
        } else {
            self.done
        }
    }

    /// The pairs added so far, in the order in which they were added.
    pub open spec fn entries(self) -> Seq<Entry> {
        self.done.flatten() + self.current
    }

    /// The size of the table as it stands: its data blocks and its meta
    /// region.
    pub open spec fn estimated_size(self) -> nat {
        blocks_encoding(self.blocks()).len() + encode_metas(metas_of(self.blocks())).len()
    }

    /// Whether the pair `e` goes into a block of its own: the block being
    /// filled holds something and would exceed the block size with `e`.
    pub open spec fn starts_new_block(self, e: Entry) -> bool {
        self.current.len() > 0 && entries_size(self.current) + entry_size(e) > self.block_size
    }

    /// The builder after the pair `e` has been added.
    pub open spec fn add(self, e: Entry) -> BuilderView {
        if self.starts_new_block(e) {
            BuilderView {
                done: self.done.push(self.current),
                current: seq![e],
                block_size: self.block_size,
            }
        } else {
            BuilderView {
                done: self.done,
                current: self.current.push(e),
                block_size: self.block_size,
            }
        }
    }

    /// Whether the pair `e` can still be added without the table
    /// outgrowing its 32-bit offsets.
    pub open spec fn has_room(self, e: Entry) -> bool {
        self.estimated_size() + entry_cost(e) <= u32::MAX
    }

    /// No finished block is empty, every pair can be written down and the
    /// table has not outgrown its 32-bit offsets.
    pub open spec fn wf(self) -> bool {
        &&& forall|i: int|
            0 <= i < self.done.len() ==> (#[trigger] self.done[i]).len() > 0 && entries_encodable(
                self.done[i],
            )
        &&& entries_encodable(self.current)
        &&& self.estimated_size() <= u32::MAX
    }
}

/// The size of a meta record for a block with these keys.
pub open spec fn meta_size(block: Seq<Entry>) -> nat {
    8 + block.first().0.len() + block.last().0.len()
}

/// The size of a table grows by the encoding and the meta of a block that
/// is appended.
pub proof fn lemma_size_with_block(done: Seq<Seq<Entry>>, block: Seq<Entry>)
    ensures
        blocks_encoding(done.push(block)).len() == blocks_encoding(done).len() + entries_size(
            block,
        ),
        encode_metas(metas_of(done.push(block))).len() == encode_metas(metas_of(done)).len()
            + meta_size(block),
{
    lemma_blocks_encoding_push(done, block);
    lemma_encode_entries_len(block);
    lemma_metas_of_push(done, block);
    let m = meta_of(block, blocks_encoding(done).len());
    lemma_encode_metas_push(metas_of(done), m);
    lemma_meta_encoding_len(m);
}

/// Adding a pair appends it to the pairs of the builder.
pub proof fn lemma_add_entries(b: BuilderView, e: Entry)
    ensures
        b.add(e).entries() == b.entries().push(e),
        b.add(e).block_size == b.block_size,
{
    if b.starts_new_block(e) {
        b.done.lemma_flatten_push(b.current);
    }
    assert(b.add(e).entries() =~= b.entries().push(e));
}

/// Adding a pair appends it to the pairs of the builder, keeps the
/// builder well-formed, and adds no more than the pair's cost to the
/// size.
pub proof fn lemma_add(b: BuilderView, e: Entry)
    requires
        b.wf(),
        entry_encodable(e),
        b.has_room(e),
    ensures
        b.add(e).entries() == b.entries().push(e),
        b.add(e).wf(),
        b.add(e).estimated_size() <= b.estimated_size() + entry_cost(e),
        b.add(e).estimated_size() >= entry_size(e),
        b.add(e).current.len() > 0,
{
    let next = b.add(e);
    if b.starts_new_block(e) {
        let done = b.done.push(b.current);
        b.done.lemma_flatten_push(b.current);
        assert(next.entries() =~= b.entries().push(e));
        lemma_size_with_block(done, seq![e]);
        assert(entries_size(seq![e]) == entry_size(e)) by {
            assert(seq![e].drop_last() =~= Seq::<Entry>::empty());
            assert(entries_size(seq![e].drop_last()) == 0);
        }
        assert forall|i: int| 0 <= i < next.done.len() implies (#[trigger] next.done[i]).len() > 0
            && entries_encodable(next.done[i]) by {
            if i < b.done.len() {
                assert(next.done[i] == b.done[i]);
            }
        }
    } else {
        assert(next.entries() =~= b.entries().push(e));
        let cur = b.current.push(e);
        assert(cur.drop_last() =~= b.current);
        assert(entries_size(cur) == entries_size(b.current) + entry_size(e));
        lemma_size_with_block(b.done, cur);
        if b.current.len() > 0 {
            lemma_size_with_block(b.done, b.current);
            assert(cur.first() == b.current.first());
        } else {
            assert(entries_size(b.current) == 0);
        }
        assert forall|i: int| 0 <= i < cur.len() implies entry_encodable(#[trigger] cur[i]) by {
            if i < b.current.len() {
                assert(cur[i] == b.current[i]);
            }
        }
    }
}

impl View for SsTableBuilder {
    type V = BuilderView;

    closed spec fn view(&self) -> BuilderView {
        BuilderView {
            done: self.done@,
            current: entries_view(self.entries@),
            block_size: self.block_size,
        }
    }
}

impl SsTableBuilder {
    /// The builder's bookkeeping agrees with the pairs it holds.
    pub closed spec fn wf(&self) -> bool {
        &&& self@.wf()
        &&& self.data@ == blocks_encoding(self.done@)
        &&& metas_view(self.meta@) == metas_of(self.done@)
        &&& self.meta_bytes == encode_metas(metas_of(self.done@)).len()
        &&& self.entries_bytes == entries_size(entries_view(self.entries@))
    }

    /// A well-formed builder holds well-formed contents.
    pub proof fn lemma_view_wf(&self)
        requires
            self.wf(),
        ensures
            self@.wf(),
    {
    }

    /// Create a builder based on target block size.
    pub fn new(block_size: usize) -> (b: Self)
        ensures
            b.wf(),
            b@ == BuilderView::empty(block_size),
    {
        let b = SsTableBuilder {
            entries: Vec::new(),
            entries_bytes: 0,
            data: Vec::new(),
            meta: Vec::new(),
            meta_bytes: 0,
            block_size,
            done: Ghost(Seq::empty()),
        };
        assert(entries_view(b.entries@) =~= Seq::<Entry>::empty());
        assert(metas_view(b.meta@) =~= metas_of(b.done@));
        assert(b.data@ =~= blocks_encoding(b.done@));
        b
    }

    /// Moves the block that is being filled to the finished ones.
    fn finish_block(&mut self)
        requires
            old(self).wf(),
            old(self)@.current.len() > 0,
        ensures
            final(self).wf(),
            final(self)@ == (BuilderView {
                done: old(self)@.done.push(old(self)@.current),
                current: Seq::empty(),
                block_size: old(self)@.block_size,
            }),
    {
        let ghost done = self.done@;
        let ghost cur = entries_view(self.entries@);
        let count = self.entries.len();
        assert(cur[0] == (self.entries@[0].0@, self.entries@[0].1@));
        assert(cur[count - 1] == (self.entries@[count - 1].0@, self.entries@[count - 1].1@));
        let first_key = copy_bytes(self.entries[0].0.as_slice());
        let last_key = copy_bytes(self.entries[count - 1].0.as_slice());
        proof {
            lemma_size_with_block(done, cur);
            lemma_metas_of_push(done, cur);
            lemma_blocks_encoding_push(done, cur);
            assert(entry_encodable(cur[0]));
            assert(entry_encodable(cur[count - 1]));
        }
        let meta = BlockMeta { offset: self.data.len(), first_key, last_key };
        assert(meta@ == meta_of(cur, blocks_encoding(done).len()));
        write_entries(self.entries.as_slice(), &mut self.data);
        let ghost before = self.meta@;
        let ghost added = meta@;
        self.meta_bytes = self.meta_bytes + 8 + meta.first_key.len() + meta.last_key.len();
        self.meta.push(meta);
        assert(metas_view(self.meta@) =~= metas_view(before).push(added));
        self.entries = Vec::new();
        self.entries_bytes = 0;
        self.done = Ghost(done.push(cur));
        proof {
            assert(entries_view(self.entries@) =~= Seq::<Entry>::empty());
            assert forall|i: int| 0 <= i < self.done@.len() implies (#[trigger] self.done@[i]).len()
                > 0 && entries_encodable(self.done@[i]) by {
                if i < done.len() {
                    assert(self.done@[i] == done[i]);
                }
            }
        }
    }

    /// Adds a key-value pair to SSTable.
    ///
    /// The pair goes into the block that is being filled unless that
    /// block holds something and would exceed the block size with it;
    /// then the block is finished and the pair starts the next one.
    pub fn add(&mut self, key: &[u8], value: &[u8])
        requires
            old(self).wf(),
            key@.len() <= MAX_FIELD_LEN,
            value@.len() <= MAX_FIELD_LEN,
            old(self)@.has_room((key@, value@)),
        ensures
            final(self).wf(),
            final(self)@ == old(self)@.add((key@, value@)),
    {
        let ghost e: Entry = (key@, value@);
        let ghost b = self@;
        proof {
            lemma_add(b, e);
            if b.current.len() > 0 {
                lemma_size_with_block(b.done, b.current);
            }
        }
        let size = 4 + key.len() + value.len();
        if self.entries.len() > 0 && self.entries_bytes + size > self.block_size {
            self.finish_block();
        }
        let ghost cur = entries_view(self.entries@);
        self.entries.push((copy_bytes(key), copy_bytes(value)));
        self.entries_bytes = self.entries_bytes + size;
        proof {
            assert(entries_view(self.entries@) =~= cur.push(e));
            assert(cur.push(e).drop_last() =~= cur);
            if b.starts_new_block(e) {
                assert(cur.push(e) =~= seq![e]);
            }
        }
    }

    /// Get the estimated size of the SSTable: the bytes of its data
    /// blocks and of its meta region as they stand.
    pub fn estimated_size(&self) -> (n: usize)
        requires
            self.wf(),
        ensures
            n == self@.estimated_size(),
    {
        let count = self.entries.len();
        if count > 0 {
            let ghost cur = entries_view(self.entries@);
            proof {
                lemma_size_with_block(self.done@, cur);
                assert(cur[0] == (self.entries@[0].0@, self.entries@[0].1@));
                assert(cur[count - 1] == (self.entries@[count - 1].0@, self.entries@[count
                    - 1].1@));
            }
            self.data.len() + self.entries_bytes + self.meta_bytes + 8
                + self.entries[0].0.len() + self.entries[count - 1].0.len()
        } else {
            self.data.len() + self.meta_bytes
        }
    }

    /// Whether no pair has been added.
    pub fn is_empty(&self) -> (b: bool)
        requires
            self.wf(),
        ensures
            b == (self@.entries().len() == 0),
    {
        proof {
            if self.done@.len() > 0 {
                let init = self.done@.drop_last();
                assert(init.push(self.done@.last()) =~= self.done@);
                init.lemma_flatten_push(self.done@.last());
                assert(self.done@[self.done@.len() - 1].len() > 0);
            }
            assert(metas_view(self.meta@).len() == self.meta@.len());
        }
        self.entries.len() == 0 && self.meta.len() == 0
    }

    /// Builds the SSTable: finishes the last block and lays out the file
    /// as data blocks, meta region and trailer.  The table holds the
    /// pairs that were added, in the order in which they were added.
    pub fn build(self, id: usize) -> (t: SsTable)
        requires
            self.wf(),
            self@.entries().len() > 0,
        ensures
            t@.wf(),
            t@.id == id,
            t@.file.bytes == Some(table_encoding(self@.blocks())),
            t@.file.size == self@.estimated_size() + 4,
            t@.readable(),
            t@.entries() == self@.entries(),
            t@.first_key == self@.entries().first().0,
            t@.last_key == self@.entries().last().0,
            t@.max_ts == 0,
    {
        let mut b = self;
        let ghost blocks = self@.blocks();
        proof {
            if self@.current.len() > 0 {
                self@.done.lemma_flatten_push(self@.current);
            } else {
                assert(self@.entries() =~= self@.done.flatten());
            }
            assert(self@.entries() == blocks.flatten());
        }
        if b.entries.len() > 0 {
            b.finish_block();
        }
        assert(b@.done == blocks);
        assert(blocks.len() > 0) by {
            if blocks.len() == 0 {
                assert(blocks.flatten() =~= Seq::<Entry>::empty());
            }
        }
        assert(blocks_storable(blocks));
        let mut buf = b.data;
        let meta_offset = buf.len();
        assert(metas_view(b.meta@) == metas_of(blocks));
        proof {
            crate::table::layout::lemma_metas_of_encodable(blocks);
        }
        BlockMeta::encode_block_metas(b.meta.as_slice(), &mut buf);
        put_u32(&mut buf, meta_offset as u32);
        assert(buf@ =~= table_encoding(blocks));
        proof {
            crate::wire::lemma_u32_be_len(meta_offset as u32);
        }
        let file = FileObject::create(buf);
        proof {
            lemma_parse_table_of_encoding(blocks);
        }
        match SsTable::open(id, file) {
            Ok(t) => {
                proof {
                    lemma_table_round_trip(blocks, t@);
                    lemma_flatten_ends(blocks);
                }
                t
            },
            Err(_) => unreached(),
        }
    }
}

/// The pairs of storable blocks start with the first pair of the first
/// block and end with the last pair of the last.
pub proof fn lemma_flatten_ends(blocks: Seq<Seq<Entry>>)
    requires
        blocks.len() > 0,
        forall|i: int| 0 <= i < blocks.len() ==> (#[trigger] blocks[i]).len() > 0,
    ensures
        blocks.flatten().len() > 0,
        blocks.flatten().first() == blocks.first().first(),
        blocks.flatten().last() == blocks.last().last(),
{
    let init = blocks.drop_last();
    assert(init.push(blocks.last()) =~= blocks);
    init.lemma_flatten_push(blocks.last());
    assert(blocks.last().len() > 0);
    assert(blocks.first().len() > 0);
    assert(blocks.flatten() == blocks.first() + blocks.drop_first().flatten());
}

} // verus!
