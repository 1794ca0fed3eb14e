//! Sorted string tables: the block metadata, the file layout and the
//! reader.

pub mod builder;
pub mod iterator;
pub mod layout;

pub use builder::SsTableBuilder;
pub use iterator::SsTableIterator;

use std::sync::Arc;
use vstd::prelude::*;
use vstd::slice::slice_subrange;
use crate::block::{decode_block, Block, Entry};
use crate::error::{Error, FormatError};
use crate::key::{key_le, key_less_eq};
use crate::wire::{
    field_encoding, get_u32, has_remaining, lemma_encoding_of_parse_field,
    lemma_field_encoding_len, lemma_parse_field_of_encoding, lemma_u32_be_len,
    lemma_u32_bytes_round_trip, lemma_u32_from_be_prefix, lemma_u32_round_trip, parse_field,
    put_u32, read_field, u32_be, u32_from_be, write_field, MAX_FIELD_LEN,
};

verus! {

/// Where a data block lies in the file and which keys it spans.
#[derive(Clone, Debug, PartialEq, Eq)]
pub struct BlockMeta {
    /// Offset of this data block.
    pub offset: usize,
    /// The first key of the data block.
    pub first_key: Vec<u8>,
    /// The last key of the data block.
    pub last_key: Vec<u8>,
}

/// The mathematical content of a [`BlockMeta`].
pub struct BlockMetaView {
    pub offset: nat,
    pub first_key: Seq<u8>,
    pub last_key: Seq<u8>,
}

impl View for BlockMeta {
    type V = BlockMetaView;

    open spec fn view(&self) -> BlockMetaView {
        BlockMetaView {
            offset: self.offset as nat,
            first_key: self.first_key@,
            last_key: self.last_key@,
        }
    }
}

/// The views of a sequence of block metas, in order.
pub open spec fn metas_view(ms: Seq<BlockMeta>) -> Seq<BlockMetaView> {
    ms.map_values(|m: BlockMeta| m@)
}

impl BlockMetaView {
    /// The offset fits in 32 bits and each key in a 16-bit length prefix.
    pub open spec fn encodable(self) -> bool {
        &&& self.offset <= u32::MAX
        &&& self.first_key.len() <= MAX_FIELD_LEN
        &&& self.last_key.len() <= MAX_FIELD_LEN
    }

    /// The record of this meta: offset, then the two keys, each preceded
    /// by its length.
    pub open spec fn encoding(self) -> Seq<u8> {
        u32_be(self.offset as u32) + field_encoding(self.first_key) + field_encoding(self.last_key)
    }
}

/// Every meta of the sequence can be written down.
pub open spec fn metas_encodable(ms: Seq<BlockMetaView>) -> bool {
    forall|i: int| 0 <= i < ms.len() ==> (#[trigger] ms[i]).encodable()
}

/// The meta region of a file: the records of the metas, one after another.
pub open spec fn encode_metas(ms: Seq<BlockMetaView>) -> Seq<u8>
    decreases ms.len(),
{
    if ms.len() == 0 {
        Seq::empty()
    } else {
        ms[0].encoding() + encode_metas(ms.skip(1))
    }
}

/// Reads one meta record from the front of `b`: the meta and the number
/// of bytes it occupied, or `None` when `b` ends inside the record.
pub open spec fn parse_meta(b: Seq<u8>) -> Option<(BlockMetaView, int)> {
    if b.len() < 4 {
        None
    } else {
        match parse_field(b.skip(4)) {
            None => None,
            Some((first_key, n1)) => match parse_field(b.skip(4 + n1)) {
                None => None,
                Some((last_key, n2)) => Some(
                    (
                        BlockMetaView { offset: u32_from_be(b) as nat, first_key, last_key },
                        4 + n1 + n2,
                    ),
                ),
            },
        }
    }
}

/// Reads meta records until `b` is used up; `None` when `b` ends inside a
/// record.
pub open spec fn decode_metas(b: Seq<u8>) -> Option<Seq<BlockMetaView>>
    decreases b.len(),
{
    if b.len() == 0 {
        Some(Seq::empty())
    } else {
        match parse_meta(b) {
            None => None,
            Some((m, n)) => if 0 < n <= b.len() {
                match decode_metas(b.skip(n)) {
                    None => None,
                    Some(rest) => Some(seq![m] + rest),
                }
            } else {
                None
            },
        }
    }
}

/// A meta record is eight bytes longer than its two keys together.
pub proof fn lemma_meta_encoding_len(m: BlockMetaView)
    ensures
        m.encoding().len() == 8 + m.first_key.len() + m.last_key.len(),
{
    lemma_u32_be_len(m.offset as u32);
    lemma_field_encoding_len(m.first_key);
    lemma_field_encoding_len(m.last_key);
}

/// A meta record that was written is read back, whatever follows it.
pub proof fn lemma_parse_meta_of_encoding(m: BlockMetaView, rest: Seq<u8>)
    requires
        m.encodable(),
    ensures
        parse_meta(m.encoding() + rest) == Some((m, m.encoding().len() as int)),
{
    let b = m.encoding() + rest;
    let head = u32_be(m.offset as u32);
    let tail2 = field_encoding(m.last_key) + rest;
    let tail1 = field_encoding(m.first_key) + tail2;
    lemma_meta_encoding_len(m);
    lemma_field_encoding_len(m.first_key);
    lemma_field_encoding_len(m.last_key);
    lemma_u32_round_trip(m.offset as u32);
    assert(b =~= head + tail1);
    assert(b.skip(4) =~= tail1);
    lemma_parse_field_of_encoding(m.first_key, tail2);
    let n1 = 2 + m.first_key.len() as int;
    assert(tail1.skip(n1) =~= tail2);
    assert(b.skip(4 + n1) =~= tail2);
    lemma_parse_field_of_encoding(m.last_key, rest);
    lemma_u32_from_be_prefix(b, head);
}

/// What was read from the front of `b` is what `b` starts with.
pub proof fn lemma_encoding_of_parse_meta(b: Seq<u8>)
    requires
        parse_meta(b) is Some,
    ensures
        ({
            let (m, n) = parse_meta(b)->0;
            &&& m.encodable()
            &&& 8 <= n <= b.len()
            &&& b.take(n) == m.encoding()
        }),
{
    let (m, n) = parse_meta(b)->0;
    let (first_key, n1) = parse_field(b.skip(4))->0;
    let (last_key, n2) = parse_field(b.skip(4 + n1))->0;
    lemma_encoding_of_parse_field(b.skip(4));
    lemma_encoding_of_parse_field(b.skip(4 + n1));
    lemma_u32_bytes_round_trip(b.take(4));
    lemma_u32_from_be_prefix(b.take(4), b);
    assert(u32_be(m.offset as u32) == b.take(4));
    assert(b.skip(4).take(n1) =~= b.subrange(4, 4 + n1));
    assert(b.skip(4 + n1).take(n2) =~= b.subrange(4 + n1, 4 + n1 + n2));
    assert(b.take(n) =~= b.take(4) + b.subrange(4, 4 + n1) + b.subrange(4 + n1, 4 + n1 + n2));
}

/// Decoding the encoding of a sequence of metas gives the sequence back.
pub proof fn lemma_decode_encode_metas(ms: Seq<BlockMetaView>)
    requires
        metas_encodable(ms),
    ensures
        decode_metas(encode_metas(ms)) == Some(ms),
    decreases ms.len(),
{
    if ms.len() > 0 {
        let rest = encode_metas(ms.skip(1));
        let b = encode_metas(ms);
        lemma_parse_meta_of_encoding(ms[0], rest);
        lemma_meta_encoding_len(ms[0]);
        let n = ms[0].encoding().len() as int;
        assert(b.skip(n) =~= rest);
        assert(metas_encodable(ms.skip(1))) by {
            assert forall|i: int| 0 <= i < ms.skip(1).len() implies (#[trigger] ms.skip(
                1,
            )[i]).encodable() by {
                assert(ms[i + 1].encodable());
            }
        }
        lemma_decode_encode_metas(ms.skip(1));
        assert(seq![ms[0]] + ms.skip(1) =~= ms);
    }
}

/// How a successful decoding of a non-empty region splits into its first
/// record and the decoding of what follows.
proof fn lemma_decode_metas_step(b: Seq<u8>)
    requires
        decode_metas(b) is Some,
        b.len() > 0,
    ensures
        parse_meta(b) is Some,
        ({
            let (m, n) = parse_meta(b)->0;
            &&& 0 < n <= b.len()
            &&& decode_metas(b.skip(n)) is Some
            &&& decode_metas(b)->0 == seq![m] + decode_metas(b.skip(n))->0
        }),
{
}

/// The encoding of a non-empty sequence starts with its first record.
proof fn lemma_encode_metas_step(m: BlockMetaView, rest: Seq<BlockMetaView>)
    ensures
        encode_metas(seq![m] + rest) == m.encoding() + encode_metas(rest),
{
    let ms = seq![m] + rest;
    assert(ms[0] == m);
    assert(ms.skip(1) =~= rest);
}

/// Bytes that decode to a sequence of metas are the encoding of that
/// sequence, and each meta in it can be written down.
pub proof fn lemma_encode_decode_metas(b: Seq<u8>)
    requires
        decode_metas(b) is Some,
    ensures
        metas_encodable(decode_metas(b)->0),
        encode_metas(decode_metas(b)->0) == b,
    decreases b.len(),
{
    let ms = decode_metas(b)->0;
    if b.len() > 0 {
        lemma_decode_metas_step(b);
        let (m, n) = parse_meta(b)->0;
        let rest = decode_metas(b.skip(n))->0;
        lemma_encoding_of_parse_meta(b);
        lemma_encode_decode_metas(b.skip(n));
        lemma_encode_metas_step(m, rest);
        assert(b =~= b.take(n) + b.skip(n));
        assert forall|i: int| 0 <= i < ms.len() implies (#[trigger] ms[i]).encodable() by {
            if i > 0 {
                assert(ms[i] == rest[i - 1]);
            }
        }
    } else {
        assert(ms.len() == 0);
        assert(b =~= Seq::<u8>::empty());
    }
}

/// Encoding distributes over appending one more meta.
pub proof fn lemma_encode_metas_push(ms: Seq<BlockMetaView>, m: BlockMetaView)
    ensures
        encode_metas(ms.push(m)) == encode_metas(ms) + m.encoding(),
    decreases ms.len(),
{
    if ms.len() == 0 {
        assert(ms.push(m).skip(1) =~= Seq::<BlockMetaView>::empty());
        assert(encode_metas(ms.push(m)) =~= m.encoding() + encode_metas(ms.push(m).skip(1)));
        assert(encode_metas(ms.push(m)) =~= encode_metas(ms) + m.encoding());
    } else {
        lemma_encode_metas_push(ms.skip(1), m);
        assert(ms.push(m).skip(1) =~= ms.skip(1).push(m));
        assert(encode_metas(ms.push(m)) =~= encode_metas(ms) + m.encoding());
    }
}

impl BlockMeta {
    /// Appends the encoding of `block_meta` to `buf`.
    pub fn encode_block_metas(block_meta: &[BlockMeta], buf: &mut Vec<u8>)
        requires
            metas_encodable(metas_view(block_meta@)),
        ensures
            final(buf)@ == old(buf)@ + encode_metas(metas_view(block_meta@)),
    {
        let ghost ms = metas_view(block_meta@);
        let mut i: usize = 0;
        assert(ms.take(0) =~= Seq::<BlockMetaView>::empty());
        assert(buf@ =~= old(buf)@ + encode_metas(ms.take(0)));
        while i < block_meta.len()
            invariant
                i <= block_meta@.len(),
                ms == metas_view(block_meta@),
                metas_encodable(ms),
                buf@ == old(buf)@ + encode_metas(ms.take(i as int)),
            decreases block_meta@.len() - i,
        {
            let meta = &block_meta[i];
            let ghost before = buf@;
            assert(ms[i as int] == meta@);
            assert(meta@.encodable());
            put_u32(buf, meta.offset as u32);
            write_field(buf, meta.first_key.as_slice());
            write_field(buf, meta.last_key.as_slice());
            proof {
                lemma_encode_metas_push(ms.take(i as int), ms[i as int]);
                assert(ms.take(i + 1) =~= ms.take(i as int).push(ms[i as int]));
                assert(buf@ =~= before + meta@.encoding());
                assert(buf@ =~= old(buf)@ + encode_metas(ms.take(i + 1)));
            }
            i += 1;
        }
        assert(ms.take(i as int) =~= ms);
    }

    /// Decodes a meta region: the metas whose records fill `buf` exactly,
    /// or [`FormatError::Truncated`] when `buf` ends inside a record.
    pub fn decode_block_metas(buf: &[u8]) -> (r: Result<Vec<BlockMeta>, Error>)
        ensures
            match r {
                Ok(metas) => decode_metas(buf@) == Some(metas_view(metas@)),
                Err(e) => decode_metas(buf@) is None && e == Error::Format(FormatError::Truncated),
            },
    {
        let mut block_meta: Vec<BlockMeta> = Vec::new();
        let mut pos: usize = 0;
        assert(buf@.skip(0) =~= buf@);
        assert(metas_view(block_meta@) =~= Seq::<BlockMetaView>::empty());
        loop
            invariant
                pos <= buf@.len(),
                decode_metas(buf@) == match decode_metas(buf@.skip(pos as int)) {
                    None => None::<Seq<BlockMetaView>>,
                    Some(rest) => Some(metas_view(block_meta@) + rest),
                },
            decreases buf@.len() - pos,
        {
            let rest = slice_subrange(buf, pos, buf.len());
            assert(rest@ =~= buf@.skip(pos as int));
            if !has_remaining(rest) {
                assert(metas_view(block_meta@) + Seq::<BlockMetaView>::empty() =~= metas_view(
                    block_meta@,
                ));
                return Ok(block_meta);
            }
            if rest.len() < 4 {
                return Err(Error::Format(FormatError::Truncated));
            }
            let offset = get_u32(rest) as usize;
            assert(rest@.skip(4) =~= buf@.skip(pos + 4));
            let (first_key, after_first) = match read_field(buf, pos + 4) {
                Some(found) => found,
                None => {
                    return Err(Error::Format(FormatError::Truncated));
                },
            };
            assert(rest@.skip(4 + (after_first - (pos + 4))) =~= buf@.skip(after_first as int));
            let (last_key, after_last) = match read_field(buf, after_first) {
                Some(found) => found,
                None => {
                    return Err(Error::Format(FormatError::Truncated));
                },
            };
            let meta = BlockMeta { offset, first_key, last_key };
            proof {
                let n = after_last - pos;
                assert(parse_meta(rest@) == Some((meta@, n)));
                assert(rest@.skip(n) =~= buf@.skip(after_last as int));
                let ghost prev = metas_view(block_meta@);
                assert(metas_view(block_meta@.push(meta)) =~= prev.push(meta@));
                if decode_metas(buf@.skip(after_last as int)) is Some {
                    let tail = decode_metas(buf@.skip(after_last as int))->0;
                    assert(prev + (seq![meta@] + tail) =~= prev.push(meta@) + tail);
                }
            }
            block_meta.push(meta);
            pos = after_last;
        }
    }
}

/// The bytes of a table file, held in memory.  A file object without
/// contents stands for a table of which only the size is known.
pub struct FileObject {
    data: Option<Vec<u8>>,
    size: u64,
}

/// The mathematical content of a [`FileObject`].
pub struct FileView {
    /// The file's bytes, where they are held.
    pub bytes: Option<Seq<u8>>,
    /// The file's length in bytes.
    pub size: u64,
}

impl FileView {
    /// The recorded size is the length of the bytes held.
    pub open spec fn wf(self) -> bool {
        self.bytes matches Some(b) ==> b.len() == self.size
    }
}

impl View for FileObject {
    type V = FileView;

    closed spec fn view(&self) -> FileView {
        FileView {
            bytes: match self.data {
                Some(d) => Some(d@),
                None => None,
            },
            size: self.size,
        }
    }
}

impl FileObject {
    /// Copies `len` bytes starting at `offset` out of the file.  Fails
    /// with [`Error::Io`] when the range reaches past the end of the file
    /// or the file has no contents.
    pub fn read(&self, offset: u64, len: u64) -> (r: Result<Vec<u8>, Error>)
        requires
            self@.wf(),
        ensures
            match r {
                Ok(out) => self@.bytes matches Some(b) && offset + len <= self@.size && out@
                    == b.subrange(offset as int, offset + len),
                Err(e) => e == Error::Io && !(self@.bytes is Some && offset + len <= self@.size),
            },
    {
        match &self.data {
            None => Err(Error::Io),
            Some(d) => {
                if offset > self.size || len > self.size - offset {
                    return Err(Error::Io);
                }
                let total = d.len();
                assert(total == self.size);
                let lo = offset as usize;
                let hi = (offset + len) as usize;
                let part = slice_subrange(d.as_slice(), lo, hi);
                let out = copy_bytes(part);
                Ok(out)
            },
        }
    }

    /// Whether the bytes of the file are held.
    pub fn has_contents(&self) -> (b: bool)
        ensures
            b == self@.bytes is Some,
    {
        self.data.is_some()
    }

    /// The bytes of the file, where they are held.
    pub fn contents(&self) -> (r: Option<&Vec<u8>>)
        ensures
            match r {
                Some(d) => self@.bytes == Some(d@),
                None => self@.bytes is None,
            },
    {
        self.data.as_ref()
    }

    /// The file's length in bytes.
    pub fn size(&self) -> (n: u64)
        ensures
            n == self@.size,
    {
        self.size
    }

    /// A file object holding `data`.
    pub fn create(data: Vec<u8>) -> (file: Self)
        requires
            data@.len() <= u64::MAX,
        ensures
            file@.bytes == Some(data@),
            file@.size == data@.len(),
            file@.wf(),
    {
        let size = data.len() as u64;
        FileObject { data: Some(data), size }
    }
}

/// A copy of `src`.
pub fn copy_bytes(src: &[u8]) -> (out: Vec<u8>)
    ensures
        out@ == src@,
{
    let mut out: Vec<u8> = Vec::new();
    let mut i: usize = 0;
    while i < src.len()
        invariant
            i <= src@.len(),
            out@ == src@.take(i as int),
        decreases src@.len() - i,
    {
        out.push(src[i]);
        assert(src@.take(i + 1) =~= src@.take(i as int).push(src@[i as int]));
        i += 1;
    }
    assert(src@.take(i as int) =~= src@);
    out
}

/// An SSTable.
pub struct SsTable {
    id: usize,
    /// The bytes of the table file.
    pub(crate) file: FileObject,
    /// The meta blocks that hold info for data blocks.
    pub(crate) block_metas: Vec<BlockMeta>,
    /// The offset that indicates the start point of meta blocks in `file`.
    pub(crate) block_meta_offset: usize,
    first_key: Vec<u8>,
    last_key: Vec<u8>,
    /// The maximum timestamp stored in this SST.
    max_ts: u64,
}

/// The mathematical content of an [`SsTable`].
pub struct SsTableView {
    pub id: usize,
    pub file: FileView,
    pub metas: Seq<BlockMetaView>,
    pub meta_offset: nat,
    pub first_key: Seq<u8>,
    pub last_key: Seq<u8>,
    pub max_ts: u64,
}

impl View for SsTable {
    type V = SsTableView;

    closed spec fn view(&self) -> SsTableView {
        SsTableView {
            id: self.id,
            file: self.file@,
            metas: metas_view(self.block_metas@),
            meta_offset: self.block_meta_offset as nat,
            first_key: self.first_key@,
            last_key: self.last_key@,
            max_ts: self.max_ts,
        }
    }
}

/// `Arc::clone` on a table handle: the standard library hands out another
/// pointer to the same table.
#[verifier::external_body]
pub(crate) fn share_table(table: &Arc<SsTable>) -> (shared: Arc<SsTable>)
    ensures
        shared == *table,
{
    Arc::clone(table)
}

/// The views of the tables, in order.
pub open spec fn table_views(tables: Seq<Arc<SsTable>>) -> Seq<SsTableView> {
    tables.map_values(|t: Arc<SsTable>| t@)
}

/// What the trailer and the meta region of a table file say: the block
/// metas and the offset at which the meta region starts, or what is wrong
/// with the file.
pub open spec fn parse_table(b: Seq<u8>) -> Result<(Seq<BlockMetaView>, nat), FormatError> {
    if b.len() < 4 {
        Err(FormatError::Truncated)
    } else {
        let meta_offset = u32_from_be(b.skip(b.len() - 4)) as nat;
        if meta_offset > b.len() - 4 {
            Err(FormatError::MetaOffsetOutOfRange)
        } else {
            match decode_metas(b.subrange(meta_offset as int, b.len() - 4)) {
                None => Err(FormatError::Truncated),
                Some(metas) => if metas.len() == 0 {
                    Err(FormatError::NoBlocks)
                } else {
                    Ok((metas, meta_offset))
                },
            }
        }
    }
}

impl SsTableView {
    /// The table is what its file says: metas and keys are those found in
    /// the file, or, for a table without contents, there are no metas.
    pub open spec fn wf(self) -> bool {
        &&& self.file.wf()
        &&& match self.file.bytes {
            None => self.metas.len() == 0,
            Some(b) => {
                &&& parse_table(b) == Ok::<_, FormatError>((self.metas, self.meta_offset))
                &&& self.first_key == self.metas[0].first_key
                &&& self.last_key == self.metas.last().last_key
            },
        }
    }

    /// Where block `i` ends: where the next block starts or, for the last
    /// block, where the meta region starts.
    pub open spec fn block_end(self, i: int) -> nat {
        if i + 1 < self.metas.len() {
            self.metas[i + 1].offset
        } else {
            self.meta_offset
        }
    }

    /// The bytes of block `i`; `None` when its bounds do not lie in the
    /// file in order.
    pub open spec fn block_bytes(self, i: int) -> Option<Seq<u8>> {
        match self.file.bytes {
            None => None,
            Some(b) => if self.metas[i].offset <= self.block_end(i) <= b.len() {
                Some(b.subrange(self.metas[i].offset as int, self.block_end(i) as int))
            } else {
                None
            },
        }
    }

    /// The pairs of block `i`; `None` when the block cannot be read.
    pub open spec fn block_entries(self, i: int) -> Option<Seq<Entry>> {
        match self.block_bytes(i) {
            None => None,
            Some(d) => decode_block(d),
        }
    }

    /// Every block from block `i` on can be read.
    pub open spec fn readable_from(self, i: int) -> bool
        decreases self.metas.len() - i,
    {
        if i < 0 {
            false
        } else if i >= self.metas.len() {
            true
        } else {
            self.block_entries(i) is Some && self.readable_from(i + 1)
        }
    }

    /// The pairs of the blocks from block `i` on, up to the first block
    /// that cannot be read.
    pub open spec fn entries_from(self, i: int) -> Seq<Entry>
        decreases self.metas.len() - i,
    {
        if i < 0 || i >= self.metas.len() {
            Seq::empty()
        } else {
            match self.block_entries(i) {
                None => Seq::empty(),
                Some(es) => es + self.entries_from(i + 1),
            }
        }
    }

    /// Every block of the table can be read.
    pub open spec fn readable(self) -> bool {
        self.readable_from(0)
    }

    /// The pairs of the table, block after block.
    pub open spec fn entries(self) -> Seq<Entry> {
        self.entries_from(0)
    }

    /// `r` is the largest index of a block whose first key is not above
    /// `key`, or zero when there is no such block.
    pub open spec fn is_block_idx_of(self, key: Seq<u8>, r: int) -> bool {
        if exists|i: int| 0 <= i < self.metas.len() && key_le(self.metas[i].first_key, key) {
            &&& 0 <= r < self.metas.len()
            &&& key_le(self.metas[r].first_key, key)
            &&& forall|j: int| r < j < self.metas.len() ==> !key_le(self.metas[j].first_key, key)
        } else {
            r == 0
        }
    }
}

impl SsTable {
    /// Open SSTable from a file.
    ///
    /// Reads the trailer to find the meta region and decodes the metas;
    /// the keys of the table are the first key of the first block and the
    /// last key of the last.  Fails with [`Error::Io`] on a file without
    /// contents and else with the format error that [`parse_table`] finds.
    pub fn open(id: usize, file: FileObject) -> (r: Result<Self, Error>)
        requires
            file@.wf(),
        ensures
            match r {
                Ok(t) => {
                    &&& t@.wf()
                    &&& t@.id == id
                    &&& t@.file == file@
                    &&& file@.bytes is Some
                    &&& t@.max_ts == 0
                },
                Err(e) => match file@.bytes {
                    None => e == Error::Io,
                    Some(b) => parse_table(b) is Err && e == Error::Format(parse_table(b)->Err_0),
                },
            },
    {
        if !file.has_contents() {
            return Err(Error::Io);
        }
        let ghost b = file@.bytes->0;
        let len = file.size();
        if len < 4 {
            return Err(Error::Format(FormatError::Truncated));
        }
        let raw_meta_offset = match file.read(len - 4, 4) {
            Ok(raw) => raw,
            Err(e) => {
                return Err(e);
            },
        };
        assert(raw_meta_offset@ =~= b.skip(b.len() - 4));
        let meta_offset = get_u32(raw_meta_offset.as_slice()) as u64;
        if meta_offset > len - 4 {
            return Err(Error::Format(FormatError::MetaOffsetOutOfRange));
        }
        let raw_meta = match file.read(meta_offset, len - 4 - meta_offset) {
            Ok(raw) => raw,
            Err(e) => {
                return Err(e);
            },
        };
        let block_metas = match BlockMeta::decode_block_metas(raw_meta.as_slice()) {
            Ok(metas) => metas,
            Err(e) => {
                return Err(e);
            },
        };
        if block_metas.len() == 0 {
            return Err(Error::Format(FormatError::NoBlocks));
        }
        let first_key = copy_bytes(block_metas[0].first_key.as_slice());
        let last_key = copy_bytes(block_metas[block_metas.len() - 1].last_key.as_slice());
        let t = SsTable {
            id,
            file,
            block_meta_offset: meta_offset as usize,
            first_key,
            last_key,
            block_metas,
            max_ts: 0,
        };
        assert(t@.metas[0] == t.block_metas@[0]@);
        assert(t@.metas.last() == t.block_metas@[t.block_metas@.len() - 1]@);
        Ok(t)
    }

    /// Read a block from the file.
    ///
    /// Fails with [`Error::Io`] when the bounds of the block do not lie in
    /// the file in order, and with [`FormatError::Truncated`] when the
    /// bytes between them are not a block.
    pub fn read_block(&self, block_idx: usize) -> (r: Result<Arc<Block>, Error>)
        requires
            self@.wf(),
            block_idx < self@.metas.len(),
        ensures
            match r {
                Ok(block) => self@.block_entries(block_idx as int) == Some(block@),
                Err(e) => self@.block_entries(block_idx as int) is None && e == (if self@.block_bytes(
                    block_idx as int,
                ) is None {
                    Error::Io
                } else {
                    Error::Format(FormatError::Truncated)
                }),
            },
    {
        assert(self@.metas.len() == self.block_metas@.len());
        assert(self@.metas[block_idx as int] == self.block_metas@[block_idx as int]@);
        let count = self.block_metas.len();
        let offset = self.block_metas[block_idx].offset as u64;
        let next_offset = if block_idx + 1 < count {
            assert(self@.metas[block_idx + 1] == self.block_metas@[block_idx + 1]@);
            self.block_metas[block_idx + 1].offset as u64
        } else {
            self.block_meta_offset as u64
        };
        if next_offset < offset {
            return Err(Error::Io);
        }
        let data = match self.file.read(offset, next_offset - offset) {
            Ok(data) => data,
            Err(e) => {
                return Err(e);
            },
        };
        match Block::decode(data.as_slice()) {
            Ok(block) => Ok(Arc::new(block)),
            Err(e) => Err(e),
        }
    }

    /// Read a block through the block cache: `cached` is what the cache
    /// holds for this table and block.  A hit is handed back as it is; on
    /// a miss the block is read from the file.
    pub fn read_block_cached(&self, block_idx: usize, cached: Option<Arc<Block>>) -> (r: Result<
        Arc<Block>,
        Error,
    >)
        requires
            self@.wf(),
            block_idx < self@.metas.len(),
        ensures
            match cached {
                Some(hit) => r == Ok::<_, Error>(hit),
                None => match r {
                    Ok(block) => self@.block_entries(block_idx as int) == Some(block@),
                    Err(e) => self@.block_entries(block_idx as int) is None && e == (
                    if self@.block_bytes(block_idx as int) is None {
                        Error::Io
                    } else {
                        Error::Format(FormatError::Truncated)
                    }),
                },
            },
    {
        match cached {
            Some(hit) => Ok(hit),
            None => self.read_block(block_idx),
        }
    }

    /// Find the block that may contain `key`: the last block whose first
    /// key is not above `key`, or the first block when there is none.
    pub fn find_block_idx(&self, key: &[u8]) -> (r: usize)
        ensures
            self@.is_block_idx_of(key@, r as int),
    {
        let mut i: usize = self.block_metas.len();
        while i > 0
            invariant
                i <= self.block_metas@.len(),
                forall|j: int|
                    i <= j < self@.metas.len() ==> !key_le(self@.metas[j].first_key, key@),
            decreases i,
        {
            i -= 1;
            assert(self@.metas[i as int] == self.block_metas@[i as int]@);
            if key_less_eq(self.block_metas[i].first_key.as_slice(), key) {
                return i;
            }
        }
        0
    }

    /// Create a mock SST with only first key + last key metadata
    pub fn create_meta_only(id: usize, file_size: u64, first_key: Vec<u8>, last_key: Vec<u8>) -> (t:
        Self)
        ensures
            t@ == (SsTableView {
                id,
                file: FileView { bytes: None, size: file_size },
                metas: Seq::empty(),
                meta_offset: 0,
                first_key: first_key@,
                last_key: last_key@,
                max_ts: 0,
            }),
    {
        let t = SsTable {
            file: FileObject { data: None, size: file_size },
            block_metas: Vec::new(),
            block_meta_offset: 0,
            id,
            first_key,
            last_key,
            max_ts: 0,
        };
        assert(t@.metas =~= Seq::empty());
        t
    }

    /// The file of the table.
    pub fn file(&self) -> (f: &FileObject)
        ensures
            f@ == self@.file,
    {
        &self.file
    }

    /// Get number of data blocks.
    pub fn num_of_blocks(&self) -> (n: usize)
        ensures
            n == self@.metas.len(),
    {
        self.block_metas.len()
    }

    /// The smallest key of the table.
    pub fn first_key(&self) -> (k: &Vec<u8>)
        ensures
            k@ == self@.first_key,
    {
        &self.first_key
    }

    /// The largest key of the table.
    pub fn last_key(&self) -> (k: &Vec<u8>)
        ensures
            k@ == self@.last_key,
    {
        &self.last_key
    }

    /// The length of the table file in bytes.
    pub fn table_size(&self) -> (n: u64)
        ensures
            n == self@.file.size,
    {
        self.file.size
    }

    /// The table's identifier.
    pub fn sst_id(&self) -> (id: usize)
        ensures
            id == self@.id,
    {
        self.id
    }

    /// The maximum timestamp stored in the table.
    pub fn max_ts(&self) -> (ts: u64)
        ensures
            ts == self@.max_ts,
    {
        self.max_ts
    }
}

} // verus!
