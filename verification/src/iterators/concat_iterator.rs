//! Running through the tables of a sorted level one after another.

use std::sync::Arc;
use vstd::prelude::*;
use crate::block::Entry;
use crate::error::Error;
use crate::iterators::StorageIterator;
use crate::key::{key_le, key_less_eq};
use crate::table::{share_table, table_views, SsTable, SsTableIterator, SsTableView};
use crate::table::iterator::{entries_from_key, start_fails_with};

verus! {

/// Concat multiple iterators ordered in key order and their key ranges do not overlap. We do not want to create the
/// iterators when initializing this iterator to reduce the overhead of seeking.
pub struct SstConcatIterator {
    current: Option<SsTableIterator>,
    next_sst_idx: usize,
    sstables: Vec<Arc<SsTable>>,
}

/// Every table is what its file says.
pub open spec fn tables_wf(tables: Seq<SsTableView>) -> bool {
    forall|i: int| 0 <= i < tables.len() ==> (#[trigger] tables[i]).wf()
}

/// The pairs of the tables from table `i` on, table after table.
pub open spec fn tables_entries_from(tables: Seq<SsTableView>, i: int) -> Seq<Entry>
    decreases tables.len() - i,
{
    if i < 0 || i >= tables.len() {
        Seq::empty()
    } else {
        tables[i].entries() + tables_entries_from(tables, i + 1)
    }
}

/// Every table from table `i` on has blocks, all of which can be read.
pub open spec fn tables_readable_from(tables: Seq<SsTableView>, i: int) -> bool {
    forall|j: int|
        i <= j < tables.len() ==> (#[trigger] tables[j]).readable() && tables[j].metas.len() > 0
}

/// `r` is the largest index of a table whose first key is not above
/// `key`, or zero when there is no such table.
pub open spec fn is_table_idx_of(tables: Seq<SsTableView>, key: Seq<u8>, r: int) -> bool {
    if exists|i: int| 0 <= i < tables.len() && key_le(tables[i].first_key, key) {
        &&& 0 <= r < tables.len()
        &&& key_le(tables[r].first_key, key)
        &&& forall|j: int| r < j < tables.len() ==> !key_le(tables[j].first_key, key)
    } else {
        r == 0
    }
}

impl SstConcatIterator {
    /// The tables that the cursor runs through.
    pub closed spec fn tables(&self) -> Seq<SsTableView> {
        table_views(self.sstables@)
    }

    /// A cursor on the first pair of table `idx`, or none when there is
    /// no such table.
    fn open_table(sstables: &Vec<Arc<SsTable>>, idx: usize) -> (r: Result<
        Option<SsTableIterator>,
        Error,
    >)
        requires
            tables_wf(table_views(sstables@)),
        ensures
            match r {
                Ok(Some(it)) => {
                    &&& idx < sstables@.len()
                    &&& it.inv()
                    &&& it.remaining() == table_views(sstables@)[idx as int].entries()
                    &&& it.remaining().len() > 0
                    &&& it.infallible() == table_views(sstables@)[idx as int].readable()
                    &&& table_views(sstables@)[idx as int].metas.len() > 0
                },
                Ok(None) => idx >= sstables@.len(),
                Err(e) => idx < sstables@.len() && start_fails_with(
                    table_views(sstables@)[idx as int],
                    e,
                ),
            },
    {
        if idx >= sstables.len() {
            return Ok(None);
        }
        assert(table_views(sstables@)[idx as int] == sstables@[idx as int]@);
        assert(table_views(sstables@)[idx as int].wf());
        match SsTableIterator::create_and_seek_to_first(share_table(&sstables[idx])) {
            Ok(it) => Ok(Some(it)),
            Err(e) => Err(e),
        }
    }

    /// A cursor on the first pair of the first table.  Fails when the
    /// first table has no blocks or its first block cannot be read.
    pub fn create_and_seek_to_first(sstables: Vec<Arc<SsTable>>) -> (r: Result<Self, Error>)
        requires
            tables_wf(table_views(sstables@)),
        ensures
            match r {
                Ok(it) => {
                    &&& it.inv()
                    &&& it.tables() == table_views(sstables@)
                    &&& it.remaining() == tables_entries_from(table_views(sstables@), 0)
                    &&& it.infallible() == tables_readable_from(table_views(sstables@), 0)
                },
                Err(e) => sstables@.len() > 0 && start_fails_with(table_views(sstables@)[0], e),
            },
    {
        let current = match Self::open_table(&sstables, 0) {
            Ok(current) => current,
            Err(e) => {
                return Err(e);
            },
        };
        let next_sst_idx: usize = if current.is_some() {
            1
        } else {
            0
        };
        let it = SstConcatIterator { current, next_sst_idx, sstables };
        proof {
            let tables = table_views(sstables@);
            if tables.len() > 0 {
                assert(it.remaining() =~= tables_entries_from(tables, 0));
                assert(tables[0].metas.len() > 0);
                assert((tables[0].readable() && tables_readable_from(tables, 1))
                    == tables_readable_from(tables, 0));
            } else {
                assert(it.remaining() =~= tables_entries_from(tables, 0));
            }
        }
        Ok(it)
    }
}

impl SstConcatIterator {
    /// A cursor on the first pair whose key is not below `key`, looked
    /// for in the last table whose first key is not above `key`, or in
    /// the first table when there is none; if that table has no such
    /// pair the cursor starts with the next table.  Fails when a table or
    /// a block that it needs cannot be read.
    pub fn create_and_seek_to_key(sstables: Vec<Arc<SsTable>>, key: &[u8]) -> (r: Result<
        Self,
        Error,
    >)
        requires
            tables_wf(table_views(sstables@)),
        ensures
            match r {
                Ok(it) => {
                    &&& it.inv()
                    &&& it.tables() == table_views(sstables@)
                    &&& sstables@.len() == 0 ==> it.remaining().len() == 0
                    &&& forall|i: int, b: int|
                        0 <= i < sstables@.len() && is_table_idx_of(
                            table_views(sstables@),
                            key@,
                            i,
                        ) && #[trigger] table_views(sstables@)[i].is_block_idx_of(key@, b)
                            ==> it.remaining() == entries_from_key(
                            table_views(sstables@)[i],
                            key@,
                            b,
                        ) + tables_entries_from(table_views(sstables@), i + 1)
                    &&& tables_readable_from(table_views(sstables@), 0) ==> it.infallible()
                },
                Err(e) => !tables_readable_from(table_views(sstables@), 0),
            },
            tables_readable_from(table_views(sstables@), 0) ==> r is Ok,
    {
        let ghost views = table_views(sstables@);
        let n = sstables.len();
        if n == 0 {
            return Ok(SstConcatIterator { current: None, next_sst_idx: 0, sstables });
        }
        // The last table whose first key is not above the key.
        let mut idx: usize = n;
        let mut found = false;
        while idx > 0 && !found
            invariant
                idx <= n,
                n == sstables@.len(),
                views == table_views(sstables@),
                found ==> idx < n && key_le(views[idx as int].first_key, key@),
                forall|j: int|
                    (if found {
                        idx as int
                    } else {
                        idx - 1
                    }) < j < n ==> !key_le(views[j].first_key, key@),
            decreases idx + (if found { 0int } else { 1int }),
        {
            assert(views[idx - 1] == sstables@[idx - 1]@);
            if key_less_eq(sstables[idx - 1].first_key().as_slice(), key) {
                found = true;
            }
            idx -= 1;
        }
        assert(is_table_idx_of(views, key@, idx as int));
        assert(views[idx as int] == sstables@[idx as int]@);
        assert(views[idx as int].wf());
        let it = match SsTableIterator::create_and_seek_to_key(share_table(&sstables[idx]), key) {
            Ok(it) => it,
            Err(e) => {
                return Err(e);
            },
        };
        if it.is_valid() {
            let ghost inner = it.remaining();
            let concat = SstConcatIterator { current: Some(it), next_sst_idx: idx + 1, sstables };
            assert(concat.remaining() == inner + tables_entries_from(views, idx + 1));
            return Ok(concat);
        }
        let following = match Self::open_table(&sstables, idx + 1) {
            Ok(following) => following,
            Err(e) => {
                return Err(e);
            },
        };
        let ghost inner = it.remaining();
        let next_sst_idx: usize = if following.is_some() {
            idx + 2
        } else {
            idx + 1
        };
        let concat = SstConcatIterator { current: following, next_sst_idx, sstables };
        proof {
            assert(inner.len() == 0);
            assert(concat.remaining() =~= inner + tables_entries_from(views, idx + 1));
        }
        Ok(concat)
    }
}

impl StorageIterator for SstConcatIterator {
    closed spec fn inv(&self) -> bool {
        &&& tables_wf(table_views(self.sstables@))
        &&& self.next_sst_idx <= self.sstables@.len()
        &&& match self.current {
            Some(it) => it.inv() && it.remaining().len() > 0,
            None => self.next_sst_idx == self.sstables@.len(),
        }
    }

    closed spec fn remaining(&self) -> Seq<Entry> {
        match self.current {
            Some(it) => it.remaining() + tables_entries_from(
                table_views(self.sstables@),
                self.next_sst_idx as int,
            ),
            None => Seq::empty(),
        }
    }

    closed spec fn infallible(&self) -> bool {
        match self.current {
            Some(it) => it.infallible() && tables_readable_from(
                table_views(self.sstables@),
                self.next_sst_idx as int,
            ),
            None => true,
        }
    }

    fn value(&self) -> (v: &[u8]) {
        match &self.current {
            Some(it) => it.value(),
            None => vstd::pervasive::unreached(),
        }
    }

    fn key(&self) -> (k: &[u8]) {
        match &self.current {
            Some(it) => it.key(),
            None => vstd::pervasive::unreached(),
        }
    }

    fn is_valid(&self) -> (b: bool) {
        self.current.is_some()
    }

    fn next(&mut self) -> (r: Result<(), Error>) {
        let ghost before = self.remaining();
        let ghost tables = table_views(self.sstables@);
        let ghost was_infallible = self.infallible();
        let n = self.sstables.len();
        let mut it = match self.current.take() {
            Some(it) => it,
            None => vstd::pervasive::unreached(),
        };
        let ghost inner = it.remaining();
        if let Err(e) = it.next() {
            self.next_sst_idx = n;
            return Err(e);
        }
        if it.is_valid() {
            assert(it.remaining() + tables_entries_from(tables, self.next_sst_idx as int)
                =~= before.skip(1));
            self.current = Some(it);
            return Ok(());
        }
        assert(inner.len() == 1);
        match Self::open_table(&self.sstables, self.next_sst_idx) {
            Ok(Some(following)) => {
                assert(before.skip(1) =~= tables_entries_from(tables, self.next_sst_idx as int));
                self.current = Some(following);
                self.next_sst_idx = self.next_sst_idx + 1;
                Ok(())
            },
            Ok(None) => {
                assert(before.skip(1) =~= Seq::<Entry>::empty());
                Ok(())
            },
            Err(e) => {
                self.next_sst_idx = n;
                Err(e)
            },
        }
    }
}

} // verus!
