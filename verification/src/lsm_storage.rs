//! The placement of tables in the level hierarchy.

use std::collections::HashMap;
use std::sync::Arc;
use vstd::prelude::*;
use crate::compact::{CompactionController, CompactionOptions};
use crate::table::{SsTable, SsTableView};

verus! {

/// A snapshot of where every table of the engine lives.
pub struct LsmStorageState {
    /// L0 SSTs, from latest to earliest.
    pub l0_sstables: Vec<usize>,
    /// SsTables sorted by key range; L1 - L_max for leveled compaction, or tiers for tiered
    /// compaction.
    pub levels: Vec<(usize, Vec<usize>)>,
    /// SST objects.
    pub sstables: HashMap<usize, Arc<SsTable>>,
}

/// The mathematical content of an [`LsmStorageState`].
pub struct StateView {
    /// Level zero, newest table first.
    pub l0: Seq<usize>,
    /// The deeper levels (or the tiers), each with its number and its
    /// tables in key order.
    pub levels: Seq<(usize, Seq<usize>)>,
    /// The open tables by id.
    pub tables: Map<usize, SsTableView>,
}

/// The views of the levels, in order.
pub open spec fn levels_view(levels: Seq<(usize, Vec<usize>)>) -> Seq<(usize, Seq<usize>)> {
    levels.map_values(|l: (usize, Vec<usize>)| (l.0, l.1@))
}

impl View for LsmStorageState {
    type V = StateView;

    open spec fn view(&self) -> StateView {
        StateView {
            l0: self.l0_sstables@,
            levels: levels_view(self.levels@),
            tables: self.sstables@.map_values(|t: Arc<SsTable>| t@),
        }
    }
}

/// The settings of the storage engine that the compaction core reads.
#[derive(Debug, Clone, Copy)]
pub struct LsmStorageOptions {
    /// Block size in bytes
    pub block_size: usize,
    /// SST size in bytes, also the approximate memtable capacity limit
    pub target_sst_size: usize,
    /// Maximum number of memtables in memory, flush to L0 when exceeding this limit
    pub num_memtable_limit: usize,
    pub compaction_options: CompactionOptions,
}

/// The storage engine as far as compaction is concerned: the placement
/// of the tables, the settings, the strategy and the id that the next
/// new table gets.
pub struct LsmStorageInner {
    pub state: LsmStorageState,
    pub options: LsmStorageOptions,
    pub compaction_controller: CompactionController,
    pub next_sst_id: usize,
}

impl LsmStorageState {
    /// A copy of the placement, which shares the open tables.
    pub fn snapshot(&self) -> (copy: Self)
        ensures
            copy@ == self@,
    {
        let mut levels: Vec<(usize, Vec<usize>)> = Vec::new();
        let mut j: usize = 0;
        while j < self.levels.len()
            invariant
                j <= self.levels@.len(),
                levels@.len() == j,
                forall|k: int|
                    0 <= k < j ==> (#[trigger] levels@[k]).0 == self.levels@[k].0 && levels@[k].1@
                        == self.levels@[k].1@,
            decreases self.levels@.len() - j,
        {
            let level = &self.levels[j];
            levels.push((level.0, copy_ids(level.1.as_slice())));
            j += 1;
        }
        let copy = LsmStorageState {
            l0_sstables: copy_ids(self.l0_sstables.as_slice()),
            levels,
            sstables: self.sstables.clone(),
        };
        assert(copy@.levels =~= self@.levels);
        assert(copy@.tables =~= self@.tables);
        copy
    }

    /// The placement of an engine that holds no table yet: the levels
    /// that the strategy asks for, all empty.  The leveled strategies
    /// have their configured number of levels, the tiered strategy starts
    /// without tiers, and without a strategy there is the one level that
    /// a full compaction fills.
    pub fn create(options: &LsmStorageOptions) -> (state: Self)
        ensures
            state@.l0.len() == 0,
            state@.tables == Map::<usize, SsTableView>::empty(),
            state@.levels.len() == (match options.compaction_options {
                CompactionOptions::Leveled(o) => o.max_levels as int,
                CompactionOptions::Simple(o) => o.max_levels as int,
                CompactionOptions::Tiered(_) => 0int,
                CompactionOptions::NoCompaction => 1int,
            }),
            forall|l: int|
                0 <= l < state@.levels.len() ==> (#[trigger] state@.levels[l]).0 == l + 1
                    && state@.levels[l].1.len() == 0,
    {
        let count = match options.compaction_options {
            CompactionOptions::Leveled(o) => o.max_levels,
            CompactionOptions::Simple(o) => o.max_levels,
            CompactionOptions::Tiered(_) => 0,
            CompactionOptions::NoCompaction => 1,
        };
        let mut levels: Vec<(usize, Vec<usize>)> = Vec::new();
        let mut l: usize = 0;
        while l < count
            invariant
                l <= count,
                levels@.len() == l,
                forall|k: int|
                    0 <= k < l ==> (#[trigger] levels@[k]).0 == k + 1 && levels@[k].1@.len() == 0,
            decreases count - l,
        {
            levels.push((l + 1, Vec::new()));
            l += 1;
        }
        let state = LsmStorageState {
            l0_sstables: Vec::new(),
            levels,
            sstables: HashMap::new(),
        };
        assert(state@.tables =~= Map::<usize, SsTableView>::empty());
        state
    }
}

/// `list` without the ids that occur in `ids`, order kept.
pub open spec fn without(list: Seq<usize>, ids: Seq<usize>) -> Seq<usize> {
    list.filter(|x: usize| !ids.contains(x))
}

/// Whether `id` occurs in `ids`.
pub fn contains_id(ids: &[usize], id: usize) -> (found: bool)
    ensures
        found == ids@.contains(id),
{
    let mut i: usize = 0;
    while i < ids.len()
        invariant
            i <= ids@.len(),
            forall|j: int| 0 <= j < i ==> ids@[j] != id,
        decreases ids@.len() - i,
    {
        if ids[i] == id {
            return true;
        }
        i += 1;
    }
    false
}

/// A copy of `ids`.
pub fn copy_ids(ids: &[usize]) -> (out: Vec<usize>)
    ensures
        out@ == ids@,
{
    let mut out: Vec<usize> = Vec::new();
    let mut i: usize = 0;
    while i < ids.len()
        invariant
            i <= ids@.len(),
            out@ == ids@.take(i as int),
        decreases ids@.len() - i,
    {
        out.push(ids[i]);
        assert(ids@.take(i + 1) =~= ids@.take(i as int).push(ids@[i as int]));
        i += 1;
    }
    assert(ids@.take(i as int) =~= ids@);
    out
}

/// The ids of `list` that do not occur in `ids`, in the order of `list`.
pub fn remove_ids(list: &[usize], ids: &[usize]) -> (out: Vec<usize>)
    ensures
        out@ == without(list@, ids@),
{
    let ghost keep = |x: usize| !ids@.contains(x);
    let mut out: Vec<usize> = Vec::new();
    let mut i: usize = 0;
    proof {
        reveal(Seq::filter);
        assert(list@.take(0).filter(keep) =~= Seq::<usize>::empty());
    }
    while i < list.len()
        invariant
            i <= list@.len(),
            keep == (|x: usize| !ids@.contains(x)),
            out@ == list@.take(i as int).filter(keep),
        decreases list@.len() - i,
    {
        let id = list[i];
        proof {
            assert(list@.take(i + 1) =~= list@.take(i as int).push(id));
            list@.take(i as int).lemma_filter_push(id, keep);
        }
        if !contains_id(ids, id) {
            out.push(id);
        }
        i += 1;
    }
    assert(list@.take(i as int) =~= list@);
    out
}

/// `out` followed by a copy of `ids`.
pub fn append_ids(out: &mut Vec<usize>, ids: &[usize])
    ensures
        final(out)@ == old(out)@ + ids@,
{
    let mut i: usize = 0;
    assert(out@ =~= old(out)@ + ids@.take(0));
    while i < ids.len()
        invariant
            i <= ids@.len(),
            out@ == old(out)@ + ids@.take(i as int),
        decreases ids@.len() - i,
    {
        out.push(ids[i]);
        assert(ids@.take(i + 1) =~= ids@.take(i as int).push(ids@[i as int]));
        assert(out@ =~= old(out)@ + ids@.take(i + 1));
        i += 1;
    }
    assert(ids@.take(i as int) =~= ids@);
}

} // verus!
