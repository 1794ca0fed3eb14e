//! A cursor over the pairs of one table, which reads the table block by
//! block.

use std::sync::Arc;
use vstd::prelude::*;
use crate::block::{entries_encodable, entry_encodable, lemma_encode_decode_entries, Block, Entry};
use crate::error::{Error, FormatError};
use crate::iterators::StorageIterator;
use crate::key::{key_less, key_lt};
use crate::table::{SsTable, SsTableView};

verus! {

/// An iterator over the contents of an SSTable.
pub struct SsTableIterator {
    table: Arc<SsTable>,
    blk: Arc<Block>,
    blk_idx: usize,
    idx: usize,
}

/// A block that can be read holds at least one pair, and each of its
/// pairs can be written down.
pub proof fn lemma_block_entries(v: SsTableView, i: int)
    requires
        v.block_entries(i) is Some,
    ensures
        v.block_entries(i)->0.len() > 0,
        entries_encodable(v.block_entries(i)->0),
{
    let d = v.block_bytes(i)->0;
    lemma_encode_decode_entries(d);
}

/// The error with which reading block `i` of the table fails.
pub open spec fn block_error(v: SsTableView, i: int) -> Error {
    if v.block_bytes(i) is None {
        Error::Io
    } else {
        Error::Format(FormatError::Truncated)
    }
}

/// A cursor on the table cannot be placed on the first pair, and `e` is
/// the error that says why: the table has no blocks, or its first block
/// cannot be read.
pub open spec fn start_fails_with(v: SsTableView, e: Error) -> bool {
    if v.metas.len() == 0 {
        e == Error::Io
    } else {
        v.block_entries(0) is None && e == block_error(v, 0)
    }
}

/// How many pairs at the front of the stream have a key below `key`.
pub open spec fn seek_position(es: Seq<Entry>, key: Seq<u8>) -> int
    decreases es.len(),
{
    if es.len() == 0 || !key_lt(es[0].0, key) {
        0
    } else {
        1 + seek_position(es.skip(1), key)
    }
}

/// The pairs that a cursor placed at `key` in block `b` has before it:
/// the pairs of the block from the first one whose key is not below
/// `key`, and the pairs of the blocks that follow.
pub open spec fn entries_from_key(v: SsTableView, key: Seq<u8>, b: int) -> Seq<Entry> {
    let block = v.block_entries(b)->0;
    block.skip(seek_position(block, key)) + v.entries_from(b + 1)
}

/// The pairs before a position are those with a key below `key`, as far
/// as they reach.
proof fn lemma_seek_position(es: Seq<Entry>, key: Seq<u8>, i: int)
    requires
        0 <= i <= es.len(),
        forall|j: int| 0 <= j < i ==> key_lt((#[trigger] es[j]).0, key),
        i < es.len() ==> !key_lt(es[i].0, key),
    ensures
        seek_position(es, key) == i,
    decreases es.len(),
{
    if i > 0 {
        assert(key_lt(es[0].0, key));
        assert forall|j: int| 0 <= j < i - 1 implies key_lt((#[trigger] es.skip(1)[j]).0, key) by {
            assert(es.skip(1)[j] == es[j + 1]);
        }
        lemma_seek_position(es.skip(1), key, i - 1);
    }
}

/// In a strictly sorted stream the pairs before the seek position are
/// those with a key below `key`, and the pairs from it on are those with
/// a key not below it.
pub proof fn lemma_seek_position_sorted(es: Seq<Entry>, key: Seq<u8>)
    requires
        crate::iterators::strictly_sorted(es),
    ensures
        0 <= seek_position(es, key) <= es.len(),
        forall|i: int| 0 <= i < seek_position(es, key) ==> key_lt((#[trigger] es[i]).0, key),
        forall|i: int| seek_position(es, key) <= i < es.len() ==> !key_lt((#[trigger] es[i]).0, key),
    decreases es.len(),
{
    if es.len() > 0 {
        let rest = es.skip(1);
        assert forall|i: int, j: int| 0 <= i < j < rest.len() implies key_lt(
            #[trigger] rest[i].0,
            #[trigger] rest[j].0,
        ) by {
            assert(rest[i] == es[i + 1] && rest[j] == es[j + 1]);
        }
        lemma_seek_position_sorted(rest, key);
        if key_lt(es[0].0, key) {
            assert forall|i: int| 0 <= i < seek_position(es, key) implies key_lt(
                (#[trigger] es[i]).0,
                key,
            ) by {
                if i > 0 {
                    assert(es[i] == rest[i - 1]);
                }
            }
            assert forall|i: int| seek_position(es, key) <= i < es.len() implies !key_lt(
                (#[trigger] es[i]).0,
                key,
            ) by {
                assert(es[i] == rest[i - 1]);
            }
        } else {
            assert forall|i: int| 0 <= i < es.len() implies !key_lt((#[trigger] es[i]).0, key) by {
                if i > 0 {
                    assert(key_lt(es[0].0, es[i].0));
                    if key_lt(es[i].0, key) {
                        crate::key::lemma_key_lt_transitive(es[0].0, es[i].0, key);
                    }
                }
            }
        }
    }
}

impl SsTableIterator {
    /// The table that the cursor runs over.
    pub closed spec fn table(&self) -> SsTableView {
        self.table@
    }

    /// Create a new iterator and seek to the first key-value pair in the
    /// first data block.
    ///
    /// Fails with [`Error::Io`] on a table without blocks, and with the
    /// error of [`SsTable::read_block`] when the first block cannot be
    /// read.
    pub fn create_and_seek_to_first(table: Arc<SsTable>) -> (r: Result<Self, Error>)
        requires
            table@.wf(),
        ensures
            match r {
                Ok(it) => {
                    &&& it.inv()
                    &&& it.table() == table@
                    &&& it.remaining() == table@.entries()
                    &&& it.infallible() == table@.readable()
                    &&& it.remaining().len() > 0
                    &&& table@.metas.len() > 0
                },
                Err(e) => start_fails_with(table@, e),
            },
    {
        if table.num_of_blocks() == 0 {
            return Err(Error::Io);
        }
        let blk = match table.read_block(0) {
            Ok(blk) => blk,
            Err(e) => {
                return Err(e);
            },
        };
        proof {
            lemma_block_entries(table@, 0);
        }
        let it = SsTableIterator { table, blk, blk_idx: 0, idx: 0 };
        assert(it.blk@.skip(0) =~= it.blk@);
        Ok(it)
    }
}

impl SsTableIterator {
    /// Create a new iterator and seek to the first key-value pair which >= `key`.
    ///
    /// The cursor starts in the block that [`SsTable::find_block_idx`]
    /// names, at the first pair whose key is not below `key`; if the
    /// block has no such pair it starts with the next block.  Fails with
    /// [`Error::Io`] on a table without blocks, and with the error of
    /// [`SsTable::read_block`] when a block that it needs cannot be read.
    pub fn create_and_seek_to_key(table: Arc<SsTable>, key: &[u8]) -> (r: Result<Self, Error>)
        requires
            table@.wf(),
        ensures
            match r {
                Ok(it) => {
                    &&& it.inv()
                    &&& it.table() == table@
                    &&& forall|b: int|
                        table@.is_block_idx_of(key@, b) ==> it.remaining() == #[trigger] entries_from_key(
                            table@,
                            key@,
                            b,
                        )
                    &&& table@.readable() ==> it.infallible()
                },
                Err(e) => table@.metas.len() == 0 || !table@.readable(),
            },
            table@.metas.len() > 0 && table@.readable() ==> r is Ok,
    {
        let blocks = table.num_of_blocks();
        if blocks == 0 {
            return Err(Error::Io);
        }
        let found = table.find_block_idx(key);
        proof {
            lemma_readable_block(table@, 0, found as int);
        }
        let blk = match table.read_block(found) {
            Ok(blk) => blk,
            Err(e) => {
                return Err(e);
            },
        };
        proof {
            lemma_block_entries(table@, found as int);
        }
        let count = blk.entries.len();
        let mut idx: usize = 0;
        while idx < count && key_less(blk.entries[idx].0.as_slice(), key)
            invariant
                idx <= count,
                count == blk.entries@.len(),
                blk@.len() == count,
                forall|j: int| 0 <= j < idx ==> key_lt((#[trigger] blk@[j]).0, key@),
            decreases count - idx,
        {
            assert(blk@[idx as int] == (blk.entries@[idx as int].0@, blk.entries@[idx as int].1@));
            idx += 1;
        }
        proof {
            if idx < count {
                assert(blk@[idx as int] == (
                    blk.entries@[idx as int].0@,
                    blk.entries@[idx as int].1@,
                ));
            }
            lemma_seek_position(blk@, key@, idx as int);
            lemma_readable_block(table@, 0, found + 1);
        }
        if idx == count && found + 1 < blocks {
            let next = match table.read_block(found + 1) {
                Ok(next) => next,
                Err(e) => {
                    return Err(e);
                },
            };
            proof {
                lemma_block_entries(table@, found + 1);
                lemma_readable_block(table@, 0, found + 2);
            }
            let it = SsTableIterator { table, blk: next, blk_idx: found + 1, idx: 0 };
            assert(it.remaining() =~= entries_from_key(table@, key@, found as int));
            return Ok(it);
        }
        let it = SsTableIterator { table, blk, blk_idx: found, idx };
        assert(it.remaining() =~= entries_from_key(table@, key@, found as int));
        Ok(it)
    }
}

/// In a table that can be read from block `i` on, every later block can
/// be read, and the table can be read from each of them on.
pub proof fn lemma_readable_block(v: SsTableView, i: int, j: int)
    requires
        0 <= i <= j <= v.metas.len(),
    ensures
        v.readable_from(i) ==> v.readable_from(j),
        v.readable_from(i) && j < v.metas.len() ==> v.block_entries(j) is Some,
    decreases j - i,
{
    if i < j {
        lemma_readable_block(v, i + 1, j);
    }
}

impl StorageIterator for SsTableIterator {
    closed spec fn inv(&self) -> bool {
        &&& self.table@.wf()
        &&& self.blk_idx < self.table@.metas.len()
        &&& self.table@.block_entries(self.blk_idx as int) == Some(self.blk@)
        &&& self.blk@.len() > 0
        &&& entries_encodable(self.blk@)
        &&& self.idx <= self.blk@.len()
        &&& self.idx == self.blk@.len() ==> self.blk_idx + 1 == self.table@.metas.len()
    }

    closed spec fn remaining(&self) -> Seq<Entry> {
        self.blk@.skip(self.idx as int) + self.table@.entries_from(self.blk_idx + 1)
    }

    closed spec fn infallible(&self) -> bool {
        self.table@.readable_from(self.blk_idx + 1)
    }

    fn value(&self) -> (v: &[u8]) {
        assert(self.blk@[self.idx as int] == (
            self.blk.entries@[self.idx as int].0@,
            self.blk.entries@[self.idx as int].1@,
        ));
        assert(entry_encodable(self.blk@[self.idx as int]));
        assert(self.remaining()[0] == self.blk@[self.idx as int]);
        self.blk.entries[self.idx].1.as_slice()
    }

    fn key(&self) -> (k: &[u8]) {
        assert(self.blk@[self.idx as int] == (
            self.blk.entries@[self.idx as int].0@,
            self.blk.entries@[self.idx as int].1@,
        ));
        assert(entry_encodable(self.blk@[self.idx as int]));
        assert(self.remaining()[0] == self.blk@[self.idx as int]);
        self.blk.entries[self.idx].0.as_slice()
    }

    fn is_valid(&self) -> (b: bool) {
        self.idx < self.blk.entries.len()
    }

    fn next(&mut self) -> (r: Result<(), Error>) {
        let ghost before = self.remaining();
        let count = self.blk.entries.len();
        let blocks = self.table.num_of_blocks();
        assert(self.idx < count) by {
            if self.idx == count {
                assert(self.table@.entries_from(self.blk_idx + 1) =~= Seq::<Entry>::empty());
            }
        }
        if self.idx + 1 < count {
            self.idx = self.idx + 1;
            assert(self.remaining() =~= before.skip(1));
            return Ok(());
        }
        if self.blk_idx + 1 < blocks {
            let blk = match self.table.read_block(self.blk_idx + 1) {
                Ok(blk) => blk,
                Err(e) => {
                    return Err(e);
                },
            };
            proof {
                lemma_block_entries(self.table@, self.blk_idx + 1);
                assert(before =~= seq![self.blk@[self.idx as int]] + (blk@
                    + self.table@.entries_from(self.blk_idx + 2)));
            }
            self.blk = blk;
            self.blk_idx = self.blk_idx + 1;
            self.idx = 0;
            assert(self.remaining() =~= before.skip(1));
            return Ok(());
        }
        self.idx = count;
        assert(self.remaining() =~= before.skip(1));
        Ok(())
    }
}

} // verus!
