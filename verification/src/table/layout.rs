//! The layout of a table file: the data blocks, then the meta region,
//! then the offset of the meta region as a 32-bit big-endian integer.

use vstd::prelude::*;
use crate::block::{
    decode_block, encode_entries, entries_encodable, entries_size, entry_encodable,
    lemma_decode_encode_entries, lemma_encode_entries_len, Entry,
};
use crate::error::FormatError;
use crate::table::{
    encode_metas, lemma_decode_encode_metas, metas_encodable, parse_table, BlockMetaView,
    SsTableView,
};
use crate::wire::{lemma_u32_be_len, lemma_u32_round_trip, u32_be};

verus! {

/// The data region of a file: the encodings of the blocks, one after
/// another.
pub open spec fn blocks_encoding(blocks: Seq<Seq<Entry>>) -> Seq<u8>
    decreases blocks.len(),
{
    if blocks.len() == 0 {
        Seq::empty()
    } else {
        blocks_encoding(blocks.drop_last()) + encode_entries(blocks.last())
    }
}

/// The offset at which block `i` starts.
pub open spec fn block_start(blocks: Seq<Seq<Entry>>, i: int) -> nat {
    blocks_encoding(blocks.take(i)).len()
}

/// The meta of a block that starts at `offset`.
pub open spec fn meta_of(block: Seq<Entry>, offset: nat) -> BlockMetaView {
    BlockMetaView { offset, first_key: block.first().0, last_key: block.last().0 }
}

/// The metas of the blocks: where each starts, and its first and last
/// key.
pub open spec fn metas_of(blocks: Seq<Seq<Entry>>) -> Seq<BlockMetaView> {
    Seq::new(blocks.len(), |i: int| meta_of(blocks[i], block_start(blocks, i)))
}

/// The bytes of the table file that holds the blocks.
pub open spec fn table_encoding(blocks: Seq<Seq<Entry>>) -> Seq<u8> {
    blocks_encoding(blocks) + encode_metas(metas_of(blocks)) + u32_be(
        blocks_encoding(blocks).len() as u32,
    )
}

/// The blocks can be stored in a table file: there is at least one, none
/// is empty, every pair can be written down, and the data region is
/// short enough for 32-bit offsets.
pub open spec fn blocks_storable(blocks: Seq<Seq<Entry>>) -> bool {
    &&& blocks.len() > 0
    &&& forall|i: int|
        0 <= i < blocks.len() ==> (#[trigger] blocks[i]).len() > 0 && entries_encodable(blocks[i])
    &&& blocks_encoding(blocks).len() <= u32::MAX
}

/// The data region grows by the encoding of a block that is appended.
pub proof fn lemma_blocks_encoding_push(blocks: Seq<Seq<Entry>>, block: Seq<Entry>)
    ensures
        blocks_encoding(blocks.push(block)) == blocks_encoding(blocks) + encode_entries(block),
{
    assert(blocks.push(block).drop_last() =~= blocks);
}

/// Block `i` occupies the bytes from its start to the start of the next
/// block, and those bytes are its encoding.
pub proof fn lemma_block_span(blocks: Seq<Seq<Entry>>, i: int)
    requires
        0 <= i < blocks.len(),
    ensures
        block_start(blocks, i + 1) == block_start(blocks, i) + encode_entries(blocks[i]).len(),
        block_start(blocks, i + 1) <= blocks_encoding(blocks).len(),
        blocks_encoding(blocks).subrange(
            block_start(blocks, i) as int,
            block_start(blocks, i + 1) as int,
        ) == encode_entries(blocks[i]),
    decreases blocks.len(),
{
    let n = blocks.len() as int;
    let init = blocks.drop_last();
    let whole = blocks_encoding(blocks);
    assert(whole == blocks_encoding(init) + encode_entries(blocks.last()));
    if i == n - 1 {
        assert(blocks.take(i) =~= init);
        assert(blocks.take(i + 1) =~= blocks);
        assert(whole.subrange(block_start(blocks, i) as int, block_start(blocks, i + 1) as int)
            =~= encode_entries(blocks[i]));
    } else {
        lemma_block_span(init, i);
        assert(init.take(i) =~= blocks.take(i));
        assert(init.take(i + 1) =~= blocks.take(i + 1));
        assert(init[i] == blocks[i]);
        assert(whole.subrange(block_start(blocks, i) as int, block_start(blocks, i + 1) as int)
            =~= blocks_encoding(init).subrange(
            block_start(init, i) as int,
            block_start(init, i + 1) as int,
        ));
    }
}

/// No block starts after the end of the data region.
pub proof fn lemma_block_start_bound(blocks: Seq<Seq<Entry>>, i: int)
    requires
        0 <= i <= blocks.len(),
    ensures
        block_start(blocks, i) <= blocks_encoding(blocks).len(),
{
    if i == blocks.len() {
        assert(blocks.take(i) =~= blocks);
    } else {
        lemma_block_span(blocks, i);
    }
}

/// The metas grow by the meta of a block that is appended, which starts
/// where the data region ended.
pub proof fn lemma_metas_of_push(blocks: Seq<Seq<Entry>>, block: Seq<Entry>)
    ensures
        metas_of(blocks.push(block)) == metas_of(blocks).push(
            meta_of(block, blocks_encoding(blocks).len()),
        ),
{
    let longer = blocks.push(block);
    assert forall|i: int| 0 <= i < longer.len() implies #[trigger] metas_of(longer)[i]
        == metas_of(blocks).push(meta_of(block, blocks_encoding(blocks).len()))[i] by {
        if i < blocks.len() {
            assert(longer.take(i) =~= blocks.take(i));
        } else {
            assert(longer.take(i) =~= blocks);
        }
    }
    assert(metas_of(longer) =~= metas_of(blocks).push(
        meta_of(block, blocks_encoding(blocks).len()),
    ));
}

/// The metas of storable blocks can be written down.
pub proof fn lemma_metas_of_encodable(blocks: Seq<Seq<Entry>>)
    requires
        blocks_storable(blocks),
    ensures
        metas_encodable(metas_of(blocks)),
{
    assert forall|i: int| 0 <= i < metas_of(blocks).len() implies (#[trigger] metas_of(
        blocks,
    )[i]).encodable() by {
        lemma_block_start_bound(blocks, i);
        assert(blocks[i].len() > 0 && entries_encodable(blocks[i]));
        assert(entry_encodable(blocks[i][0]));
        assert(entry_encodable(blocks[i][blocks[i].len() - 1]));
    }
}

/// The trailer and the meta region of an encoded table give back the
/// metas of its blocks and the length of its data region.
pub proof fn lemma_parse_table_of_encoding(blocks: Seq<Seq<Entry>>)
    requires
        blocks_storable(blocks),
    ensures
        parse_table(table_encoding(blocks)) == Ok::<_, FormatError>(
            (metas_of(blocks), blocks_encoding(blocks).len()),
        ),
{
    let data = blocks_encoding(blocks);
    let meta = encode_metas(metas_of(blocks));
    let trailer = u32_be(data.len() as u32);
    let b = table_encoding(blocks);
    lemma_u32_be_len(data.len() as u32);
    lemma_u32_round_trip(data.len() as u32);
    assert(b.len() == data.len() + meta.len() + 4);
    assert(b.skip(b.len() - 4) =~= trailer);
    assert(b.subrange(data.len() as int, b.len() - 4) =~= meta);
    lemma_metas_of_encodable(blocks);
    lemma_decode_encode_metas(metas_of(blocks));
}

/// The pairs of a block, when encoded as a block, decode to themselves.
pub proof fn lemma_decode_block_of_encoding(block: Seq<Entry>)
    requires
        block.len() > 0,
        entries_encodable(block),
    ensures
        decode_block(encode_entries(block)) == Some(block),
{
    lemma_decode_encode_entries(block);
    lemma_encode_entries_len(block);
    assert(entries_size(block) >= 4) by {
        assert(entries_size(block) == entries_size(block.drop_last()) + 4 + block.last().0.len()
            + block.last().1.len());
    }
}

/// In a table that was opened from the encoding of `blocks`, block `i`
/// reads as `blocks[i]`.
pub proof fn lemma_block_of_encoded_table(blocks: Seq<Seq<Entry>>, v: SsTableView, i: int)
    requires
        blocks_storable(blocks),
        v.wf(),
        v.file.bytes == Some(table_encoding(blocks)),
        0 <= i < blocks.len(),
    ensures
        v.metas == metas_of(blocks),
        v.meta_offset == blocks_encoding(blocks).len(),
        v.block_entries(i) == Some(blocks[i]),
{
    let data = blocks_encoding(blocks);
    let b = table_encoding(blocks);
    lemma_parse_table_of_encoding(blocks);
    lemma_block_span(blocks, i);
    assert(v.block_end(i) == block_start(blocks, i + 1)) by {
        if i + 1 == blocks.len() {
            assert(blocks.take(i + 1) =~= blocks);
        }
    }
    assert(b.subrange(block_start(blocks, i) as int, block_start(blocks, i + 1) as int)
        =~= data.subrange(block_start(blocks, i) as int, block_start(blocks, i + 1) as int));
    assert(blocks[i].len() > 0 && entries_encodable(blocks[i]));
    lemma_decode_block_of_encoding(blocks[i]);
}

/// In a table that was opened from the encoding of `blocks`, every block
/// from block `i` on can be read, and their pairs are those of
/// `blocks[i..]`.
pub proof fn lemma_entries_of_encoded_table_from(blocks: Seq<Seq<Entry>>, v: SsTableView, i: int)
    requires
        blocks_storable(blocks),
        v.wf(),
        v.file.bytes == Some(table_encoding(blocks)),
        0 <= i <= blocks.len(),
    ensures
        v.readable_from(i),
        v.entries_from(i) == blocks.skip(i).flatten(),
    decreases blocks.len() - i,
{
    lemma_parse_table_of_encoding(blocks);
    if i < blocks.len() {
        lemma_block_of_encoded_table(blocks, v, i);
        lemma_entries_of_encoded_table_from(blocks, v, i + 1);
        assert(blocks.skip(i).first() == blocks[i]);
        assert(blocks.skip(i).drop_first() =~= blocks.skip(i + 1));
    } else {
        assert(blocks.skip(i) =~= Seq::<Seq<Entry>>::empty());
    }
}

/// Writing blocks of pairs as a table file and opening the file gives a
/// table of which every block can be read and whose pairs are the pairs
/// written, in the order written.
pub proof fn lemma_table_round_trip(blocks: Seq<Seq<Entry>>, v: SsTableView)
    requires
        blocks_storable(blocks),
        v.wf(),
        v.file.bytes == Some(table_encoding(blocks)),
    ensures
        v.readable(),
        v.entries() == blocks.flatten(),
        v.metas == metas_of(blocks),
{
    lemma_entries_of_encoded_table_from(blocks, v, 0);
    lemma_block_of_encoded_table(blocks, v, 0);
    assert(blocks.skip(0) =~= blocks);
}

} // verus!
