//! Carrying out a compaction: merging the input tables, writing the
//! merged stream into new tables and committing the new placement.

use std::sync::Arc;
use vstd::pervasive::unreached;
use vstd::prelude::*;
use vstd::std_specs::hash::group_hash_axioms;
use crate::block::{entry_encodable, Entry};
use crate::compact::{CompactionController, CompactionOptions, CompactionTask, CompactionTaskView};
use crate::compact::leveled::{is_oldest, overlapping, overlaps};
use crate::compact::tiered::{oldest_removed_tier, tier_ids, TieredTaskView};
use crate::error::Error;
use crate::iterators::{merge_all, merge_two, StorageIterator};
use crate::iterators::concat_iterator::{
    tables_entries_from, tables_readable_from, tables_wf, SstConcatIterator,
};
use crate::iterators::merge_iterator::{all_infallible, all_inv, streams_of, MergeIterator};
use crate::iterators::two_merge_iterator::TwoMergeIterator;
use crate::lsm_storage::{copy_ids, LsmStorageInner, LsmStorageOptions, LsmStorageState, StateView};
use crate::table::{share_table, table_views, SsTable, SsTableBuilder, SsTableIterator, SsTableView};
use crate::table::builder::{entry_cost, lemma_add, BuilderView};

verus! {

broadcast use group_hash_axioms;

/// The largest target table size that leaves room for one more pair
/// within the 32-bit offsets of a table file.
pub const MAX_TARGET_SST_SIZE: usize = 0xFFFB_FFF7;

/// The stream without its tombstones, the pairs whose value is empty.
pub open spec fn live(es: Seq<Entry>) -> Seq<Entry>
    decreases es.len(),
{
    if es.len() == 0 {
        Seq::empty()
    } else if es[0].1.len() == 0 {
        live(es.skip(1))
    } else {
        seq![es[0]] + live(es.skip(1))
    }
}

/// The pairs of the stream that a compaction writes out: all of them,
/// or, at the bottom level, those that are not tombstones.
pub open spec fn kept(es: Seq<Entry>, compact_to_bottom_level: bool) -> Seq<Entry> {
    if compact_to_bottom_level {
        live(es)
    } else {
        es
    }
}

/// How a stream is cut into tables: the pairs go into the builder `b` one
/// by one, and whenever the builder has reached the target size its
/// pairs form a table and an empty builder takes over.  What is left in
/// the builder at the end forms the last table.
pub open spec fn cut(es: Seq<Entry>, b: BuilderView, target: usize) -> Seq<Seq<Entry>>
    decreases es.len(),
{
    if es.len() == 0 {
        if b.entries().len() > 0 {
            seq![b.entries()]
        } else {
            Seq::empty()
        }
    } else {
        let filled = b.add(es[0]);
        if filled.estimated_size() >= target {
            seq![filled.entries()] + cut(es.skip(1), BuilderView::empty(b.block_size), target)
        } else {
            cut(es.skip(1), filled, target)
        }
    }
}

/// The tables hold the given runs of pairs, one run each, every block of
/// every table can be read, and the tables are numbered from `first_id`
/// on.
pub open spec fn tables_hold(tables: Seq<SsTableView>, runs: Seq<Seq<Entry>>, first_id: int) -> bool {
    &&& tables.len() == runs.len()
    &&& forall|i: int|
        0 <= i < tables.len() ==> {
            let t = #[trigger] tables[i];
            &&& t.wf()
            &&& t.readable()
            &&& t.metas.len() > 0
            &&& t.entries() == runs[i]
            &&& t.entries().len() > 0
            &&& t.id == first_id + i
            &&& t.first_key == runs[i].first().0
            &&& t.last_key == runs[i].last().0
        }
}

/// The pairs that a compaction of the stream writes out, cut into
/// tables.
pub open spec fn output_runs(
    stream: Seq<Entry>,
    compact_to_bottom_level: bool,
    block_size: usize,
    target: usize,
) -> Seq<Seq<Entry>> {
    cut(kept(stream, compact_to_bottom_level), BuilderView::empty(block_size), target)
}

/// The tables with the given ids, in the order of the ids.
pub open spec fn id_tables(tables: Map<usize, SsTableView>, ids: Seq<usize>) -> Seq<SsTableView> {
    ids.map_values(|id: usize| tables[id])
}

/// Every id names an open table that is what its file says.
pub open spec fn ids_open(tables: Map<usize, SsTableView>, ids: Seq<usize>) -> bool {
    forall|i: int|
        0 <= i < ids.len() ==> tables.contains_key(#[trigger] ids[i]) && tables[ids[i]].wf()
}

/// Every id names a table that has blocks, all of which can be read.
pub open spec fn ids_readable(tables: Map<usize, SsTableView>, ids: Seq<usize>) -> bool {
    forall|i: int|
        0 <= i < ids.len() ==> tables[#[trigger] ids[i]].readable() && tables[ids[i]].metas.len()
            > 0
}

/// The streams of the tables, one stream each.
pub open spec fn table_streams(tables: Seq<SsTableView>) -> Seq<Seq<Entry>> {
    tables.map_values(|t: SsTableView| t.entries())
}

/// The stream of a sorted run: the pairs of its tables, table after
/// table.
pub open spec fn run_stream(tables: Map<usize, SsTableView>, ids: Seq<usize>) -> Seq<Entry> {
    tables_entries_from(id_tables(tables, ids), 0)
}

/// The stream of tables whose keys may overlap, as those of level zero
/// do: the tables merged, an earlier table winning over a later one.
pub open spec fn overlapping_stream(tables: Map<usize, SsTableView>, ids: Seq<usize>) -> Seq<Entry> {
    merge_all(table_streams(id_tables(tables, ids)))
}

/// The streams of the tiers, one stream each.
pub open spec fn tier_streams(
    tables: Map<usize, SsTableView>,
    tiers: Seq<(usize, Seq<usize>)>,
) -> Seq<Seq<Entry>> {
    tiers.map_values(|tier: (usize, Seq<usize>)| run_stream(tables, tier.1))
}

/// The stream that a task compacts.  An upper level that is level zero
/// is merged table by table, any other level is a sorted run; the upper
/// level wins over the lower one, and a newer tier over an older one.
pub open spec fn task_stream(tables: Map<usize, SsTableView>, task: CompactionTaskView) -> Seq<
    Entry,
> {
    match task {
        CompactionTaskView::ForceFullCompaction { l0_sstables, l1_sstables } => merge_two(
            overlapping_stream(tables, l0_sstables),
            run_stream(tables, l1_sstables),
        ),
        CompactionTaskView::Simple(task) => merge_two(
            if task.upper_level is None {
                overlapping_stream(tables, task.upper_level_sst_ids)
            } else {
                run_stream(tables, task.upper_level_sst_ids)
            },
            run_stream(tables, task.lower_level_sst_ids),
        ),
        CompactionTaskView::Leveled(task) => merge_two(
            if task.upper_level is None {
                overlapping_stream(tables, task.upper_level_sst_ids)
            } else {
                run_stream(tables, task.upper_level_sst_ids)
            },
            run_stream(tables, task.lower_level_sst_ids),
        ),
        CompactionTaskView::Tiered(task) => merge_all(tier_streams(tables, task.tiers)),
    }
}

/// Every input table of the task is open and is what its file says.
pub open spec fn inputs_open(tables: Map<usize, SsTableView>, task: CompactionTaskView) -> bool {
    match task {
        CompactionTaskView::ForceFullCompaction { l0_sstables, l1_sstables } => ids_open(
            tables,
            l0_sstables,
        ) && ids_open(tables, l1_sstables),
        CompactionTaskView::Simple(task) => ids_open(tables, task.upper_level_sst_ids) && ids_open(
            tables,
            task.lower_level_sst_ids,
        ),
        CompactionTaskView::Leveled(task) => ids_open(tables, task.upper_level_sst_ids)
            && ids_open(tables, task.lower_level_sst_ids),
        CompactionTaskView::Tiered(task) => forall|j: int|
            0 <= j < task.tiers.len() ==> ids_open(tables, (#[trigger] task.tiers[j]).1),
    }
}

/// Every input table of the task has blocks, all of which can be read.
pub open spec fn inputs_readable(tables: Map<usize, SsTableView>, task: CompactionTaskView) -> bool {
    match task {
        CompactionTaskView::ForceFullCompaction { l0_sstables, l1_sstables } => ids_readable(
            tables,
            l0_sstables,
        ) && ids_readable(tables, l1_sstables),
        CompactionTaskView::Simple(task) => ids_readable(tables, task.upper_level_sst_ids)
            && ids_readable(tables, task.lower_level_sst_ids),
        CompactionTaskView::Leveled(task) => ids_readable(tables, task.upper_level_sst_ids)
            && ids_readable(tables, task.lower_level_sst_ids),
        CompactionTaskView::Tiered(task) => forall|j: int|
            0 <= j < task.tiers.len() ==> ids_readable(tables, (#[trigger] task.tiers[j]).1),
    }
}

/// The ids of the tables, in order.
pub open spec fn table_ids(tables: Seq<SsTableView>) -> Seq<usize> {
    tables.map_values(|t: SsTableView| t.id)
}

/// The open tables with `new` added, each under its id.
pub open spec fn insert_tables(tables: Map<usize, SsTableView>, new: Seq<SsTableView>) -> Map<
    usize,
    SsTableView,
>
    decreases new.len(),
{
    if new.len() == 0 {
        tables
    } else {
        insert_tables(tables, new.drop_last()).insert(new.last().id, new.last())
    }
}

/// The placement with the tables `new` opened.
pub open spec fn with_tables(s: StateView, new: Seq<SsTableView>) -> StateView {
    StateView { l0: s.l0, levels: s.levels, tables: insert_tables(s.tables, new) }
}

/// The placement with the tables `ids` closed.
pub open spec fn without_tables(s: StateView, ids: Seq<usize>) -> StateView {
    StateView { l0: s.l0, levels: s.levels, tables: s.tables.remove_keys(ids.to_set()) }
}

/// The placement after a compaction has been committed: the new tables
/// are opened, the task is applied with their ids as output, and the
/// task's inputs are closed.
pub open spec fn committed(s: StateView, task: CompactionTaskView, new: Seq<SsTableView>) -> StateView {
    without_tables(
        CompactionController::apply(with_tables(s, new), task, table_ids(new)),
        task.inputs(),
    )
}

/// Every table placed in level zero or in a level is open and is what its
/// file says.
pub open spec fn all_open(s: StateView) -> bool {
    &&& ids_open(s.tables, s.l0)
    &&& forall|l: int| 0 <= l < s.levels.len() ==> ids_open(s.tables, (#[trigger] s.levels[l]).1)
}

/// What one committed compaction did.
pub struct CompactionRecord {
    /// The task that was carried out.
    pub task: CompactionTask,
    /// The ids of the new tables, in key order.
    pub output: Vec<usize>,
    /// The ids of the tables that left the placement; their files can be
    /// deleted.
    pub removed: Vec<usize>,
    /// The new tables; their files are to be written.
    pub new_ssts: Vec<Arc<SsTable>>,
}

/// What a compaction of `stream` gives: on success the tables that hold
/// the output runs, numbered from `first_id` on; a failure only when an
/// input cannot be read or the ids are used up.
pub open spec fn compacted(
    r: Result<Vec<Arc<SsTable>>, Error>,
    stream: Seq<Entry>,
    readable: bool,
    compact_to_bottom_level: bool,
    before: LsmStorageInner,
    after: LsmStorageInner,
) -> bool {
    let runs = output_runs(
        stream,
        compact_to_bottom_level,
        before.options.block_size,
        before.options.target_sst_size,
    );
    &&& after.state == before.state
    &&& after.options == before.options
    &&& after.compaction_controller == before.compaction_controller
    &&& after.next_sst_id >= before.next_sst_id
    &&& match r {
        Ok(tables) => {
            &&& tables_hold(table_views(tables@), runs, before.next_sst_id as int)
            &&& after.next_sst_id == before.next_sst_id + runs.len()
        },
        Err(e) => !readable || (e == Error::InvariantViolation && before.next_sst_id + runs.len()
            > usize::MAX),
    }
}

/// The handles of the tables with the given ids.
pub fn handles_of(snapshot: &LsmStorageState, ids: &[usize]) -> (out: Vec<Arc<SsTable>>)
    requires
        ids_open(snapshot@.tables, ids@),
    ensures
        table_views(out@) == id_tables(snapshot@.tables, ids@),
        tables_wf(table_views(out@)),
{
    let mut out: Vec<Arc<SsTable>> = Vec::new();
    let mut i: usize = 0;
    while i < ids.len()
        invariant
            i <= ids@.len(),
            ids_open(snapshot@.tables, ids@),
            out@.len() == i,
            forall|j: int| 0 <= j < i ==> (#[trigger] out@[j])@ == snapshot@.tables[ids@[j]],
        decreases ids@.len() - i,
    {
        let id = ids[i];
        assert(snapshot@.tables.contains_key(ids@[i as int]));
        match snapshot.sstables.get(&id) {
            Some(t) => {
                assert(snapshot.sstables@[id] == *t);
                out.push(share_table(t));
            },
            None => unreached(),
        }
        i += 1;
    }
    assert(table_views(out@) =~= id_tables(snapshot@.tables, ids@));
    out
}

/// A cursor on the first pair of each table.
fn open_each(tables: &Vec<Arc<SsTable>>) -> (r: Result<Vec<SsTableIterator>, Error>)
    requires
        tables_wf(table_views(tables@)),
    ensures
        match r {
            Ok(its) => {
                &&& all_inv(its@)
                &&& streams_of(its@) == table_streams(table_views(tables@))
                &&& all_infallible(its@) == tables_readable_from(table_views(tables@), 0)
            },
            Err(e) => !tables_readable_from(table_views(tables@), 0),
        },
{
    let ghost views = table_views(tables@);
    let mut its: Vec<SsTableIterator> = Vec::new();
    let mut i: usize = 0;
    while i < tables.len()
        invariant
            i <= tables@.len(),
            views == table_views(tables@),
            tables_wf(views),
            its@.len() == i,
            all_inv(its@),
            forall|j: int| 0 <= j < i ==> (#[trigger] its@[j]).remaining() == views[j].entries(),
            forall|j: int| 0 <= j < i ==> (#[trigger] its@[j]).infallible() == views[j].readable(),
            forall|j: int| 0 <= j < i ==> (#[trigger] views[j]).metas.len() > 0,
        decreases tables@.len() - i,
    {
        assert(views[i as int] == tables@[i as int]@);
        assert(views[i as int].wf());
        match SsTableIterator::create_and_seek_to_first(share_table(&tables[i])) {
            Ok(it) => {
                its.push(it);
            },
            Err(e) => {
                assert(!(views[i as int].readable() && views[i as int].metas.len() > 0));
                return Err(e);
            },
        }
        i += 1;
    }
    proof {
        assert(streams_of(its@) =~= table_streams(views));
        if all_infallible(its@) {
            assert forall|j: int| 0 <= j < views.len() implies (#[trigger] views[j]).readable()
                && views[j].metas.len() > 0 by {
                assert(its@[j].infallible());
            }
        }
        if tables_readable_from(views, 0) {
            assert forall|j: int| 0 <= j < its@.len() implies (#[trigger] its@[j]).infallible() by {
                assert(views[j].readable());
            }
        }
    }
    Ok(its)
}

/// The tables with readable ids can all be read.
pub proof fn lemma_ids_readable(tables: Map<usize, SsTableView>, ids: Seq<usize>)
    ensures
        ids_readable(tables, ids) == tables_readable_from(id_tables(tables, ids), 0),
{
    let views = id_tables(tables, ids);
    if ids_readable(tables, ids) {
        assert forall|j: int| 0 <= j < views.len() implies (#[trigger] views[j]).readable()
            && views[j].metas.len() > 0 by {
            assert(views[j] == tables[ids[j]]);
        }
    }
    if tables_readable_from(views, 0) {
        assert forall|i: int| 0 <= i < ids.len() implies tables[#[trigger] ids[i]].readable()
            && tables[ids[i]].metas.len() > 0 by {
            assert(views[i] == tables[ids[i]]);
            assert(views[i].readable());
        }
    }
}

/// A builder that holds nothing has size zero.
pub proof fn lemma_empty_builder(block_size: usize)
    ensures
        BuilderView::empty(block_size).wf(),
        BuilderView::empty(block_size).estimated_size() == 0,
        BuilderView::empty(block_size).entries().len() == 0,
{
    let b = BuilderView::empty(block_size);
    assert(b.blocks() =~= Seq::<Seq<Entry>>::empty());
    assert(crate::table::layout::metas_of(b.blocks()) =~= Seq::empty());
    assert(b.done.flatten() =~= Seq::<Entry>::empty());
}

/// Opening tables keeps a table that was open, and leaves it as it was
/// unless a new table has its id.
pub proof fn lemma_insert_tables_keeps(
    tables: Map<usize, SsTableView>,
    new: Seq<SsTableView>,
    id: usize,
)
    requires
        tables.contains_key(id),
    ensures
        insert_tables(tables, new).contains_key(id),
        !table_ids(new).contains(id) ==> insert_tables(tables, new)[id] == tables[id],
    decreases new.len(),
{
    if new.len() > 0 {
        let init = new.drop_last();
        lemma_insert_tables_keeps(tables, init, id);
        if !table_ids(new).contains(id) {
            assert(table_ids(new)[new.len() - 1] == new.last().id);
            if table_ids(init).contains(id) {
                let k = choose|k: int| 0 <= k < init.len() && table_ids(init)[k] == id;
                assert(table_ids(new)[k] == id);
            }
        }
    }
}

/// Opening tables opens each of them.
pub proof fn lemma_insert_tables_has(tables: Map<usize, SsTableView>, new: Seq<SsTableView>, i: int)
    requires
        0 <= i < new.len(),
    ensures
        insert_tables(tables, new).contains_key(new[i].id),
    decreases new.len(),
{
    let init = new.drop_last();
    if i < init.len() {
        lemma_insert_tables_has(tables, init, i);
        assert(init[i] == new[i]);
    }
}

/// The placement after a flushed table has been installed: as the newest
/// table of level zero or, under the tiered strategy, as a tier of its
/// own at the head.
pub open spec fn flushed(s: StateView, table: SsTableView, tiered: bool) -> StateView {
    StateView {
        l0: if tiered {
            s.l0
        } else {
            seq![table.id] + s.l0
        },
        levels: if tiered {
            seq![(table.id, seq![table.id])] + s.levels
        } else {
            s.levels
        },
        tables: s.tables.insert(table.id, table),
    }
}

/// Installing a sound table under a fresh id keeps the bookkeeping of
/// ids sound, the levels sorted runs and the tables of level zero sound.
pub proof fn lemma_flush_keeps_wf(s: StateView, table: SsTableView, tiered: bool, next: int)
    requires
        crate::compact::placement::consistent(s),
        crate::compact::placement::ids_below(s, next),
        tiered ==> crate::compact::placement::tiers_named(s, next),
        crate::compact::leveled_order::placement_sorted(s),
        table.id == next,
        crate::compact::order::table_sound(table),
    ensures
        crate::compact::placement::consistent(flushed(s, table, tiered)),
        crate::compact::placement::ids_below(flushed(s, table, tiered), next + 1),
        tiered ==> crate::compact::placement::tiers_named(flushed(s, table, tiered), next + 1),
        crate::compact::leveled_order::placement_sorted(flushed(s, table, tiered)),
{
    let after = flushed(s, table, tiered);
    let id = table.id;
    assert(!crate::compact::placement::placed_in(s, id)) by {
        if crate::compact::placement::placed_in(s, id) {
            assert(s.tables.contains_key(id));
        }
    }
    // Where a table is placed after the flush.
    assert forall|x: usize| crate::compact::placement::placed_in(after, x) <==> x == id
        || crate::compact::placement::placed_in(s, x) by {
        if !tiered {
            if crate::compact::placement::placed_in(after, x) && !after.l0.contains(x) {
                let l = choose|l: int|
                    0 <= l < after.levels.len() && (#[trigger] after.levels[l]).1.contains(x);
                assert(s.levels[l].1.contains(x));
            }
            if crate::compact::placement::placed_in(s, x) && !s.l0.contains(x) {
                let l = choose|l: int|
                    0 <= l < s.levels.len() && (#[trigger] s.levels[l]).1.contains(x);
                assert(after.levels[l].1.contains(x));
            }
        }
        if tiered {
            if crate::compact::placement::placed_in(after, x) && !after.l0.contains(x) {
                let l = choose|l: int|
                    0 <= l < after.levels.len() && (#[trigger] after.levels[l]).1.contains(x);
                if l > 0 {
                    assert(after.levels[l] == s.levels[l - 1]);
                    assert(s.levels[l - 1].1.contains(x));
                } else {
                    assert(after.levels[0].1 == seq![id]);
                }
            }
            if x == id {
                assert(after.levels[0].1[0] == id);
                assert(after.levels[0].1.contains(x));
            }
            if crate::compact::placement::placed_in(s, x) && !s.l0.contains(x) {
                let l = choose|l: int|
                    0 <= l < s.levels.len() && (#[trigger] s.levels[l]).1.contains(x);
                assert(after.levels[l + 1] == s.levels[l]);
                assert(after.levels[l + 1].1.contains(x));
            }
        } else {
            crate::compact::placement::lemma_cons_contains(id, s.l0, x);
        }
    }
    assert(crate::compact::placement::unique_placement(after)) by {
        if tiered {
            assert forall|l: int| 0 <= l < after.levels.len() implies (#[trigger] after.levels[
                l
            ]).1.no_duplicates() && crate::compact::placement::disjoint(
                after.levels[l].1,
                after.l0,
            ) by {
                if l > 0 {
                    assert(after.levels[l] == s.levels[l - 1]);
                } else {
                    assert forall|x: usize| #[trigger] seq![id].contains(x) implies !s.l0.contains(
                        x,
                    ) by {
                        assert(x == id);
                    }
                }
            }
            assert forall|l: int, m: int|
                0 <= l < m < after.levels.len() implies crate::compact::placement::disjoint(
                (#[trigger] after.levels[l]).1,
                (#[trigger] after.levels[m]).1,
            ) by {
                assert(after.levels[m] == s.levels[m - 1]);
                if l > 0 {
                    assert(after.levels[l] == s.levels[l - 1]);
                } else {
                    assert forall|x: usize| #[trigger] seq![id].contains(x) implies !s.levels[m
                        - 1].1.contains(x) by {
                        assert(x == id);
                    }
                }
            }
        } else {
            crate::compact::placement::lemma_cons_no_duplicates(id, s.l0);
            assert forall|l: int| 0 <= l < after.levels.len() implies (#[trigger] after.levels[
                l
            ]).1.no_duplicates() && crate::compact::placement::disjoint(
                after.levels[l].1,
                after.l0,
            ) by {
                assert forall|x: usize| #[trigger] after.levels[l].1.contains(
                    x,
                ) implies !after.l0.contains(x) by {
                    crate::compact::placement::lemma_cons_contains(id, s.l0, x);
                    assert(crate::compact::placement::disjoint(s.levels[l].1, s.l0));
                }
            }
        }
    }
    if tiered {
        let ids = tier_ids(after.levels);
        assert forall|i: int, j: int|
            0 <= i < ids.len() && 0 <= j < ids.len() && i != j implies ids[i] != ids[j] by {
            if i > 0 {
                assert(after.levels[i] == s.levels[i - 1]);
                assert(tier_ids(s.levels)[i - 1] == s.levels[i - 1].0);
            }
            if j > 0 {
                assert(after.levels[j] == s.levels[j - 1]);
                assert(tier_ids(s.levels)[j - 1] == s.levels[j - 1].0);
            }
        }
        assert forall|l: int| 0 <= l < after.levels.len() implies (#[trigger] after.levels[l]).0
            < next + 1 by {
            if l > 0 {
                assert(after.levels[l] == s.levels[l - 1]);
            }
        }
    }
    // The tables that were placed are as they were.
    assert forall|l: int| 0 <= l < s.levels.len() implies crate::compact::order::run_sorted(
        after.tables,
        (#[trigger] s.levels[l]).1,
    ) by {
        assert(crate::compact::order::run_sorted(s.tables, s.levels[l].1));
        crate::compact::order::lemma_run_sorted_frame(s.tables, after.tables, s.levels[l].1);
    }
    assert forall|l: int| 0 <= l < after.levels.len() implies crate::compact::order::run_sorted(
        after.tables,
        (#[trigger] after.levels[l]).1,
    ) by {
        if tiered {
            if l > 0 {
                assert(after.levels[l] == s.levels[l - 1]);
            }
        }
    }
    assert forall|i: int| 0 <= i < after.l0.len() implies after.tables.contains_key(
        #[trigger] after.l0[i],
    ) && crate::compact::order::table_sound(after.tables[after.l0[i]]) by {
        if !tiered && i > 0 {
            assert(after.l0[i] == s.l0[i - 1]);
        }
        if tiered {
            assert(after.l0[i] == s.l0[i]);
        }
    }
}

/// What a committed compaction leaves behind: the record names the
/// task, the new tables hold the output runs of the task's stream, and
/// the placement is the committed one.
pub open spec fn compaction_done(
    rec: CompactionRecord,
    task: CompactionTaskView,
    before: LsmStorageInner,
    after: LsmStorageInner,
) -> bool {
    let runs = output_runs(
        task_stream(before.state@.tables, task),
        task.compact_to_bottom_level(),
        before.options.block_size,
        before.options.target_sst_size,
    );
    let new = table_views(rec.new_ssts@);
    &&& rec.task@ == task
    &&& tables_hold(new, runs, before.next_sst_id as int)
    &&& rec.output@ == table_ids(new)
    &&& rec.removed@ == task.inputs()
    &&& after.state@ == committed(before.state@, task, new)
    &&& after.next_sst_id == before.next_sst_id + runs.len()
    &&& after.options == before.options
    &&& after.compaction_controller == before.compaction_controller
}

/// What a failed compaction leaves behind: the placement is untouched,
/// and an input table could not be read or the ids are used up.
pub open spec fn compaction_failed(
    e: Error,
    task: CompactionTaskView,
    before: LsmStorageInner,
    after: LsmStorageInner,
) -> bool {
    let runs = output_runs(
        task_stream(before.state@.tables, task),
        task.compact_to_bottom_level(),
        before.options.block_size,
        before.options.target_sst_size,
    );
    &&& after.state == before.state
    &&& after.options == before.options
    &&& after.compaction_controller == before.compaction_controller
    &&& after.next_sst_id >= before.next_sst_id
    &&& !inputs_readable(before.state@.tables, task) || (e == Error::InvariantViolation
        && before.next_sst_id + runs.len() > usize::MAX)
}

/// The tables that reach into a key range are tables of the level.
proof fn lemma_overlapping_open(
    tables: Map<usize, SsTableView>,
    ids: Seq<usize>,
    range: Option<(Seq<u8>, Seq<u8>)>,
)
    requires
        ids_open(tables, ids),
    ensures
        ids_open(tables, overlapping(tables, ids, range)),
{
    let pred = |id: usize| overlaps(tables[id], range);
    let picked = overlapping(tables, ids, range);
    assert forall|i: int| 0 <= i < picked.len() implies tables.contains_key(#[trigger] picked[i])
        && tables[picked[i]].wf() by {
        assert(picked.contains(picked[i]));
        ids.lemma_filter_contains_rev(pred, picked[i]);
        let j = choose|j: int| 0 <= j < ids.len() && ids[j] == picked[i];
        assert(tables.contains_key(ids[j]));
    }
}

/// The inputs of a task that the strategy generates from a placement are
/// tables of the placement, hence open where all of those are.
pub proof fn lemma_generated_inputs_open(
    ctrl: CompactionController,
    s: StateView,
    task: CompactionTaskView,
)
    requires
        ctrl.admits(s),
        all_open(s),
        ctrl.generated(s, Some(task)),
    ensures
        inputs_open(s.tables, task),
{
    match ctrl {
        CompactionController::Simple(c) => {
            let t = task->Simple_0;
            let i = choose|i: int|
                {
                    &&& 0 <= i < c.options.max_levels
                    &&& #[trigger] c.options.triggers(s, i)
                    &&& forall|j: int| 0 <= j < i ==> !c.options.triggers(s, j)
                    &&& t == c.options.task_at(s, i)
                };
            assert(ids_open(s.tables, s.levels[i].1));
            if i > 0 {
                assert(ids_open(s.tables, s.levels[i - 1].1));
            }
        },
        CompactionController::Tiered(c) => {
            let t = task->Tiered_0;
            assert forall|j: int| 0 <= j < t.tiers.len() implies ids_open(
                s.tables,
                (#[trigger] t.tiers[j]).1,
            ) by {
                if c.options.space_amplification_triggers(s) {
                    assert(t.tiers[j] == s.levels[j]);
                } else if exists|k: int| c.options.size_ratio_triggers(s, k) {
                    assert(t.tiers[j] == s.levels[j]);
                } else {
                    assert(t.tiers[j] == s.levels[j + c.options.sorted_runs_start()]);
                }
            }
        },
        CompactionController::Leveled(c) => {
            let t = task->Leveled_0;
            if c.options.l0_triggers(s) {
                let b = choose|b: int|
                    {
                        &&& #[trigger] c.options.is_base_level(s, b)
                        &&& Some(t) == Some(c.options.l0_task(s, b))
                    };
                assert(ids_open(s.tables, s.levels[b - 1].1));
                lemma_overlapping_open(
                    s.tables,
                    s.levels[b - 1].1,
                    crate::compact::leveled::key_range(s.tables, s.l0),
                );
            } else {
                let (p, m) = choose|p: int, m: usize|
                    {
                        &&& #[trigger] c.options.highest_priority(s, p)
                        &&& #[trigger] is_oldest(s.levels[p].1, m)
                        &&& Some(t) == Some(c.options.level_task(s, p, m))
                    };
                assert(c.options.over_target(s, p));
                assert(p + 1 < c.options.max_levels);
                assert(ids_open(s.tables, s.levels[p].1));
                assert(ids_open(s.tables, s.levels[p + 1].1));
                let j = choose|j: int| 0 <= j < s.levels[p].1.len() && s.levels[p].1[j] == m;
                assert(s.tables.contains_key(s.levels[p].1[j]));
                lemma_overlapping_open(
                    s.tables,
                    s.levels[p + 1].1,
                    crate::compact::leveled::key_range(s.tables, seq![m]),
                );
            }
        },
        CompactionController::NoCompaction => {},
    }
}

/// Where some tier of the placement is a tier of the task, one of them
/// is the oldest.
pub proof fn lemma_oldest_removed_exists(s: StateView, task: TieredTaskView, j: int)
    requires
        0 <= j < s.levels.len(),
        tier_ids(task.tiers).contains(s.levels[j].0),
    ensures
        exists|p: int| oldest_removed_tier(s, task, p),
    decreases s.levels.len() - j,
{
    if exists|k: int| j < k < s.levels.len() && tier_ids(task.tiers).contains(s.levels[k].0) {
        let k = choose|k: int|
            j < k < s.levels.len() && tier_ids(task.tiers).contains(s.levels[k].0);
        lemma_oldest_removed_exists(s, task, k);
    } else {
        assert(oldest_removed_tier(s, task, j));
    }
}

/// A task that the strategy generates from a placement can be applied to
/// that placement once the new tables are open.
pub proof fn lemma_generated_applicable(
    ctrl: CompactionController,
    s: StateView,
    task: CompactionTaskView,
    new: Seq<SsTableView>,
)
    requires
        ctrl.admits(s),
        all_open(s),
        ctrl.generated(s, Some(task)),
    ensures
        ctrl.applicable(with_tables(s, new), task, table_ids(new)),
{
    let after = with_tables(s, new);
    match ctrl {
        CompactionController::Simple(c) => {},
        CompactionController::Tiered(c) => {
            let t = task->Tiered_0;
            let first = if c.options.space_amplification_triggers(s) {
                0
            } else if exists|k: int| c.options.size_ratio_triggers(s, k) {
                0
            } else {
                c.options.sorted_runs_start()
            };
            assert(t.tiers.len() > 0 && t.tiers[0] == s.levels[first]);
            assert(tier_ids(t.tiers)[0] == s.levels[first].0);
            lemma_oldest_removed_exists(after, t, first);
        },
        CompactionController::Leveled(c) => {
            let t = task->Leveled_0;
            let ids = table_ids(new);
            assert forall|i: int| 0 <= i < ids.len() implies after.tables.contains_key(
                #[trigger] ids[i],
            ) by {
                assert(ids[i] == new[i].id);
                lemma_insert_tables_has(s.tables, new, i);
            }
            if 1 <= t.lower_level <= after.levels.len() {
                let lower = after.levels[t.lower_level - 1].1;
                assert(ids_open(s.tables, s.levels[t.lower_level - 1].1));
                assert forall|i: int| 0 <= i < lower.len() implies after.tables.contains_key(
                    #[trigger] lower[i],
                ) by {
                    assert(s.tables.contains_key(lower[i]));
                    lemma_insert_tables_keeps(s.tables, new, lower[i]);
                }
            }
        },
        CompactionController::NoCompaction => {},
    }
}

impl LsmStorageInner {
    /// The bookkeeping of ids is sound: the open tables are exactly the
    /// tables placed, each placed once and open under its own id; every
    /// id in use lies below the id that the next new table gets; and
    /// under the tiered strategy the tiers have distinct ids below it
    /// too.
    pub open spec fn ids_sound(&self) -> bool {
        &&& crate::compact::placement::consistent(self.state@)
        &&& crate::compact::placement::ids_below(self.state@, self.next_sst_id as int)
        &&& self.compaction_controller is Tiered ==> crate::compact::placement::tiers_named(
            self.state@,
            self.next_sst_id as int,
        )
    }

    /// The engine is in order: the bookkeeping of ids is sound, every
    /// level is a sorted run without overlap, and every table of level
    /// zero is sound.
    pub open spec fn wf(&self) -> bool {
        &&& self.ids_sound()
        &&& crate::compact::leveled_order::placement_sorted(self.state@)
    }

    /// Compacts all of level zero and the first level into the first
    /// level, whatever the strategy says.  Tombstones are dropped.
    pub fn force_full_compaction(&mut self) -> (r: Result<CompactionRecord, Error>)
        requires
            old(self).options.target_sst_size <= MAX_TARGET_SST_SIZE,
            old(self).state@.levels.len() >= 1,
            ids_open(old(self).state@.tables, old(self).state@.l0),
            ids_open(old(self).state@.tables, old(self).state@.levels[0].1),
        ensures
            ({
                let task = CompactionTaskView::ForceFullCompaction {
                    l0_sstables: old(self).state@.l0,
                    l1_sstables: old(self).state@.levels[0].1,
                };
                match r {
                    Ok(rec) => compaction_done(rec, task, *old(self), *final(self)),
                    Err(e) => compaction_failed(e, task, *old(self), *final(self)),
                }
            }),
            old(self).ids_sound() ==> final(self).ids_sound(),
            old(self).ids_sound() && all_open(old(self).state@) ==> all_open(final(self).state@),
            old(self).wf() ==> final(self).wf(),
            old(self).wf() && old(self).state@.levels.len() == 1 ==> forall|key: Seq<u8>|
                #[trigger] crate::compact::reads::read(final(self).state@, key)
                    == crate::compact::reads::read(old(self).state@, key),
    {
        assert(self.state@.levels[0].1 == self.state.levels@[0].1@);
        let task = CompactionTask::ForceFullCompaction {
            l0_sstables: copy_ids(self.state.l0_sstables.as_slice()),
            l1_sstables: copy_ids(self.state.levels[0].1.as_slice()),
        };
        let new_ssts = match self.compact(&task) {
            Ok(tables) => tables,
            Err(e) => {
                return Err(e);
            },
        };
        proof {
            let s = self.state@;
            if old(self).ids_sound() {
                assert forall|i: int| 0 <= i < s.l0.len() implies s.l0.contains(
                    #[trigger] s.l0[i],
                ) by {}
                crate::compact::placement::lemma_commit_keeps_ids(
                    s,
                    task@,
                    table_views(new_ssts@),
                    old(self).next_sst_id as int,
                );
                if all_open(s) {
                    crate::compact::placement::lemma_commit_keeps_open(
                        s,
                        task@,
                        table_views(new_ssts@),
                        old(self).next_sst_id as int,
                    );
                }
                if old(self).wf() {
                    crate::compact::order::lemma_full_inputs_sorted(s);
                    crate::compact::leveled_order::lemma_commit_keeps_sorted(
                        s,
                        task@,
                        table_views(new_ssts@),
                        old(self).next_sst_id as int,
                        self.options.block_size,
                        self.options.target_sst_size,
                    );
                    if s.levels.len() == 1 {
                        assert forall|key: Seq<u8>|
                            #[trigger] crate::compact::reads::read(
                                committed(s, task@, table_views(new_ssts@)),
                                key,
                            ) == crate::compact::reads::read(s, key) by {
                            crate::compact::reads::lemma_full_commit_preserves_reads(
                                s,
                                table_views(new_ssts@),
                                old(self).next_sst_id as int,
                                self.options.block_size,
                                self.options.target_sst_size,
                                key,
                            );
                        }
                    }
                }
            }
        }
        let (output, removed) = self.commit(&task, &new_ssts);
        Ok(CompactionRecord { task, output, removed, new_ssts })
    }

    /// Asks the strategy for a task and, if there is one, carries it out
    /// and commits it.  Returns `None` when no compaction is due.
    ///
    /// A failed compaction leaves the placement untouched.
    pub fn trigger_compaction(&mut self) -> (r: Result<Option<CompactionRecord>, Error>)
        requires
            old(self).options.target_sst_size <= MAX_TARGET_SST_SIZE,
            old(self).compaction_controller.admits(old(self).state@),
            all_open(old(self).state@),
        ensures
            match r {
                Ok(None) => {
                    &&& old(self).compaction_controller.generated(old(self).state@, None)
                    &&& *final(self) == *old(self)
                },
                Ok(Some(rec)) => {
                    &&& old(self).compaction_controller.generated(
                        old(self).state@,
                        Some(rec.task@),
                    )
                    &&& compaction_done(rec, rec.task@, *old(self), *final(self))
                },
                Err(e) => exists|task: CompactionTaskView|
                    {
                        &&& old(self).compaction_controller.generated(old(self).state@, Some(task))
                        &&& #[trigger] compaction_failed(e, task, *old(self), *final(self))
                    },
            },
            old(self).ids_sound() ==> final(self).ids_sound(),
            old(self).ids_sound() ==> all_open(final(self).state@),
            old(self).wf() ==> final(self).wf(),
            old(self).wf() && crate::compact::leveled_reads::no_level_skipped(
                old(self).compaction_controller,
                old(self).state@,
            ) ==> forall|key: Seq<u8>|
                #[trigger] crate::compact::reads::read(final(self).state@, key)
                    == crate::compact::reads::read(old(self).state@, key),
    {
        let task = match self.compaction_controller.generate_compaction_task(&self.state) {
            Some(task) => task,
            None => {
                return Ok(None);
            },
        };
        proof {
            lemma_generated_inputs_open(self.compaction_controller, self.state@, task@);
        }
        let new_ssts = match self.compact(&task) {
            Ok(tables) => tables,
            Err(e) => {
                assert(compaction_failed(e, task@, *old(self), *self));
                return Err(e);
            },
        };
        proof {
            lemma_generated_applicable(
                self.compaction_controller,
                self.state@,
                task@,
                table_views(new_ssts@),
            );
            if old(self).ids_sound() {
                crate::compact::placement::lemma_generated_fits(
                    self.compaction_controller,
                    self.state@,
                    task@,
                );
                crate::compact::placement::lemma_commit_keeps_ids(
                    self.state@,
                    task@,
                    table_views(new_ssts@),
                    old(self).next_sst_id as int,
                );
                crate::compact::placement::lemma_commit_keeps_open(
                    self.state@,
                    task@,
                    table_views(new_ssts@),
                    old(self).next_sst_id as int,
                );
            }
            if old(self).wf() {
                crate::compact::order::lemma_generated_inputs_sorted(
                    self.compaction_controller,
                    self.state@,
                    task@,
                );
                if task@ is Leveled {
                    crate::compact::leveled_order::lemma_generated_selects(
                        self.compaction_controller,
                        self.state@,
                        task@->Leveled_0,
                    );
                }
                crate::compact::leveled_order::lemma_commit_keeps_sorted(
                    self.state@,
                    task@,
                    table_views(new_ssts@),
                    old(self).next_sst_id as int,
                    self.options.block_size,
                    self.options.target_sst_size,
                );
                if crate::compact::leveled_reads::no_level_skipped(
                    self.compaction_controller,
                    self.state@,
                ) {
                    assert forall|key: Seq<u8>|
                        #[trigger] crate::compact::reads::read(
                            committed(self.state@, task@, table_views(new_ssts@)),
                            key,
                        ) == crate::compact::reads::read(self.state@, key) by {
                        crate::compact::leveled_reads::lemma_commit_preserves_reads(
                            self.compaction_controller,
                            self.state@,
                            task@,
                            table_views(new_ssts@),
                            old(self).next_sst_id as int,
                            self.options.block_size,
                            self.options.target_sst_size,
                            key,
                        );
                    }
                }
            }
        }
        let (output, removed) = self.commit(&task, &new_ssts);
        Ok(Some(CompactionRecord { task, output, removed, new_ssts }))
    }

    /// Commits a compaction: opens the new tables, applies the task to
    /// the placement with their ids as output, and closes the task's
    /// inputs.  Returns the ids of the closed tables.
    pub fn commit(&mut self, task: &CompactionTask, new_ssts: &Vec<Arc<SsTable>>) -> (r: (
        Vec<usize>,
        Vec<usize>,
    ))
        requires
            old(self).compaction_controller.applicable(
                with_tables(old(self).state@, table_views(new_ssts@)),
                task@,
                table_ids(table_views(new_ssts@)),
            ),
        ensures
            final(self).state@ == committed(old(self).state@, task@, table_views(new_ssts@)),
            final(self).options == old(self).options,
            final(self).compaction_controller == old(self).compaction_controller,
            final(self).next_sst_id == old(self).next_sst_id,
            r.0@ == table_ids(table_views(new_ssts@)),
            r.1@ == task@.inputs(),
    {
        let ghost s = self.state@;
        let ghost new = table_views(new_ssts@);
        let mut output: Vec<usize> = Vec::new();
        let mut i: usize = 0;
        proof {
            assert(new.take(0) =~= Seq::<SsTableView>::empty());
            assert(self.state@.tables =~= insert_tables(s.tables, new.take(0)));
        }
        while i < new_ssts.len()
            invariant
                i <= new_ssts@.len(),
                new == table_views(new_ssts@),
                self.state@.l0 == s.l0,
                self.state@.levels == s.levels,
                self.state@.tables == insert_tables(s.tables, new.take(i as int)),
                self.options == old(self).options,
                self.compaction_controller == old(self).compaction_controller,
                self.next_sst_id == old(self).next_sst_id,
                output@ == table_ids(new.take(i as int)),
            decreases new_ssts@.len() - i,
        {
            let table = share_table(&new_ssts[i]);
            let id = table.sst_id();
            let ghost before = self.state.sstables@;
            let ghost ids_before = output@;
            self.state.sstables.insert(id, table);
            output.push(id);
            proof {
                assert(new[i as int] == table@);
                assert(new.take(i + 1).drop_last() =~= new.take(i as int));
                assert(new.take(i + 1).last() == table@);
                assert(self.state@.tables =~= before.map_values(|t: Arc<SsTable>| t@).insert(
                    id,
                    table@,
                ));
                assert(output@ =~= table_ids(new.take(i + 1)));
            }
            i += 1;
        }
        assert(new.take(i as int) =~= new);
        assert(self.state@ == with_tables(s, new));
        let (mut state, removed) = self.compaction_controller.apply_compaction_result(
            &self.state,
            task,
            output.as_slice(),
        );
        let ghost mid = state@;
        let mut k: usize = 0;
        proof {
            assert(removed@.take(0).to_set() =~= Set::<usize>::empty());
            assert(state@.tables =~= mid.tables.remove_keys(removed@.take(0).to_set()));
        }
        while k < removed.len()
            invariant
                k <= removed@.len(),
                state@.l0 == mid.l0,
                state@.levels == mid.levels,
                state@.tables == mid.tables.remove_keys(removed@.take(k as int).to_set()),
            decreases removed@.len() - k,
        {
            let ghost before = state.sstables@;
            let id = removed[k];
            state.sstables.remove(&id);
            proof {
                assert(state.sstables@ == before.remove(id));
                assert(removed@.take(k + 1) =~= removed@.take(k as int).push(id));
                removed@.take(k as int).lemma_push_to_set_commute(id);
                let closed = removed@.take(k as int).to_set();
                assert(removed@.take(k + 1).to_set() == closed.insert(id));
                assert(state@.tables =~= before.map_values(|t: Arc<SsTable>| t@).remove(id));
                assert(mid.tables.remove_keys(closed).remove(id) =~= mid.tables.remove_keys(
                    closed.insert(id),
                ));
                assert(state@.tables =~= mid.tables.remove_keys(removed@.take(k + 1).to_set()));
            }
            k += 1;
        }
        assert(removed@.take(k as int) =~= removed@);
        self.state = state;
        (output, removed)
    }

    /// Whether the oldest memtable that awaits flushing is to be flushed
    /// now: there are `imm_memtables` of them, which is at least the
    /// configured limit.
    pub fn trigger_flush(&self, imm_memtables: usize) -> (flush: bool)
        ensures
            flush == (imm_memtables >= self.options.num_memtable_limit),
    {
        imm_memtables >= self.options.num_memtable_limit
    }

    /// An engine that holds no table yet, with the strategy that the
    /// options name.  Its first table gets the id zero.
    pub fn new(options: LsmStorageOptions) -> (inner: Self)
        ensures
            inner.wf(),
            inner.options == options,
            inner.next_sst_id == 0,
            inner.state@.l0.len() == 0,
            inner.state@.tables == Map::<usize, SsTableView>::empty(),
            all_open(inner.state@),
            match options.compaction_options {
                CompactionOptions::Leveled(o) => inner.compaction_controller
                    matches CompactionController::Leveled(c) && c.options == o,
                CompactionOptions::Tiered(o) => inner.compaction_controller
                    matches CompactionController::Tiered(c) && c.options == o,
                CompactionOptions::Simple(o) => inner.compaction_controller
                    matches CompactionController::Simple(c) && c.options == o,
                CompactionOptions::NoCompaction => inner.compaction_controller is NoCompaction,
            },
    {
        let state = LsmStorageState::create(&options);
        let inner = LsmStorageInner {
            state,
            options,
            compaction_controller: CompactionController::new(options.compaction_options),
            next_sst_id: 0,
        };
        proof {
            let s = inner.state@;
            assert forall|x: usize| !crate::compact::placement::placed_in(s, x) by {
                if crate::compact::placement::placed_in(s, x) {
                    let l = choose|l: int|
                        0 <= l < s.levels.len() && (#[trigger] s.levels[l]).1.contains(x);
                    assert(s.levels[l].1.len() == 0);
                }
            }
            assert(tier_ids(s.levels).len() == s.levels.len());
            assert forall|i: int, j: int|
                0 <= i < tier_ids(s.levels).len() && 0 <= j < tier_ids(s.levels).len() && i
                    != j implies tier_ids(s.levels)[i] != tier_ids(s.levels)[j] by {
                assert(s.levels[i].0 == i + 1 && s.levels[j].0 == j + 1);
            }
        }
        inner
    }

    /// Installs the table that a memtable flush has filled `builder`
    /// with: the table gets a fresh id and becomes the newest table of
    /// level zero or, under the tiered strategy, a tier of its own at the
    /// head.  Fails with [`Error::InvariantViolation`] when the ids are
    /// used up, and then changes nothing.
    pub fn add_flushed_sst(&mut self, builder: SsTableBuilder) -> (r: Result<Arc<SsTable>, Error>)
        requires
            builder.wf(),
            builder@.entries().len() > 0,
        ensures
            final(self).options == old(self).options,
            final(self).compaction_controller == old(self).compaction_controller,
            match r {
                Ok(table) => {
                    &&& old(self).next_sst_id < usize::MAX
                    &&& final(self).next_sst_id == old(self).next_sst_id + 1
                    &&& table@.id == old(self).next_sst_id
                    &&& table@.wf()
                    &&& table@.readable()
                    &&& table@.entries() == builder@.entries()
                    &&& final(self).state@ == flushed(
                        old(self).state@,
                        table@,
                        old(self).compaction_controller is Tiered,
                    )
                },
                Err(e) => {
                    &&& e == Error::InvariantViolation
                    &&& old(self).next_sst_id == usize::MAX
                    &&& *final(self) == *old(self)
                },
            },
            old(self).wf() && crate::iterators::strictly_sorted(builder@.entries())
                ==> final(self).wf(),
    {
        let id = match self.allocate_sst_id() {
            Some(id) => id,
            None => {
                return Err(Error::InvariantViolation);
            },
        };
        let ghost s = old(self).state@;
        let table = Arc::new(builder.build(id));
        let ghost before = self.state.sstables@;
        self.state.sstables.insert(id, share_table(&table));
        if self.compaction_controller.flush_to_l0() {
            self.state.l0_sstables.insert(0, id);
            assert(self.state@.l0 =~= seq![id] + s.l0);
        } else {
            let ghost levels = self.state.levels@;
            let tier: Vec<usize> = vec![id];
            self.state.levels.insert(0, (id, tier));
            proof {
                assert(tier@ =~= seq![id]);
                assert(self.state.levels@ =~= seq![(id, tier)] + levels);
                assert(self.state@.levels[0] == (id, seq![id]));
                assert forall|k: int| 1 <= k < self.state@.levels.len() implies self.state@.levels[k]
                    == s.levels[k - 1] by {
                    assert(self.state.levels@[k] == levels[k - 1]);
                }
                assert(self.state@.levels =~= seq![(id, seq![id])] + s.levels);
            }
        }
        proof {
            assert(self.state@.tables =~= s.tables.insert(id, table@));
            if old(self).wf() && crate::iterators::strictly_sorted(builder@.entries()) {
                lemma_flush_keeps_wf(
                    s,
                    table@,
                    old(self).compaction_controller is Tiered,
                    old(self).next_sst_id as int,
                );
            }
        }
        Ok(table)
    }

    /// The id for the next new table, or `None` when the ids are used up.
    pub fn next_sst_id(&mut self) -> (r: Option<usize>)
        ensures
            final(self).state == old(self).state,
            final(self).options == old(self).options,
            final(self).compaction_controller == old(self).compaction_controller,
            match r {
                Some(id) => id == old(self).next_sst_id && final(self).next_sst_id == id + 1,
                None => old(self).next_sst_id == usize::MAX && final(self).next_sst_id
                    == usize::MAX,
            },
    {
        self.allocate_sst_id()
    }

    /// The id for the next new table, or `None` when the ids are used up.
    fn allocate_sst_id(&mut self) -> (r: Option<usize>)
        ensures
            final(self).state == old(self).state,
            final(self).options == old(self).options,
            final(self).compaction_controller == old(self).compaction_controller,
            match r {
                Some(id) => id == old(self).next_sst_id && final(self).next_sst_id == id + 1,
                None => old(self).next_sst_id == usize::MAX && final(self).next_sst_id
                    == usize::MAX,
            },
    {
        if self.next_sst_id == usize::MAX {
            None
        } else {
            let id = self.next_sst_id;
            self.next_sst_id = id + 1;
            Some(id)
        }
    }

    /// Compacts tables whose keys may overlap, as those of level zero do,
    /// together with a sorted run below them.
    fn compact_overlapping(&mut self, upper: &[usize], lower: &[usize], bottom: bool) -> (r: Result<
        Vec<Arc<SsTable>>,
        Error,
    >)
        requires
            old(self).options.target_sst_size <= MAX_TARGET_SST_SIZE,
            ids_open(old(self).state@.tables, upper@),
            ids_open(old(self).state@.tables, lower@),
        ensures
            compacted(
                r,
                merge_two(
                    overlapping_stream(old(self).state@.tables, upper@),
                    run_stream(old(self).state@.tables, lower@),
                ),
                ids_readable(old(self).state@.tables, upper@) && ids_readable(
                    old(self).state@.tables,
                    lower@,
                ),
                bottom,
                *old(self),
                *final(self),
            ),
    {
        proof {
            lemma_ids_readable(self.state@.tables, upper@);
            lemma_ids_readable(self.state@.tables, lower@);
        }
        let upper_tables = handles_of(&self.state, upper);
        let upper_iters = match open_each(&upper_tables) {
            Ok(its) => its,
            Err(e) => {
                return Err(e);
            },
        };
        let lower_tables = handles_of(&self.state, lower);
        let lower_iter = match SstConcatIterator::create_and_seek_to_first(lower_tables) {
            Ok(it) => it,
            Err(e) => {
                return Err(e);
            },
        };
        let iter = TwoMergeIterator::create(MergeIterator::create(upper_iters), lower_iter);
        self.compact_generate_sst_from_iter(iter, bottom)
    }

    /// Compacts a sorted run together with a sorted run below it.
    fn compact_runs(&mut self, upper: &[usize], lower: &[usize], bottom: bool) -> (r: Result<
        Vec<Arc<SsTable>>,
        Error,
    >)
        requires
            old(self).options.target_sst_size <= MAX_TARGET_SST_SIZE,
            ids_open(old(self).state@.tables, upper@),
            ids_open(old(self).state@.tables, lower@),
        ensures
            compacted(
                r,
                merge_two(
                    run_stream(old(self).state@.tables, upper@),
                    run_stream(old(self).state@.tables, lower@),
                ),
                ids_readable(old(self).state@.tables, upper@) && ids_readable(
                    old(self).state@.tables,
                    lower@,
                ),
                bottom,
                *old(self),
                *final(self),
            ),
    {
        proof {
            lemma_ids_readable(self.state@.tables, upper@);
            lemma_ids_readable(self.state@.tables, lower@);
        }
        let upper_tables = handles_of(&self.state, upper);
        let upper_iter = match SstConcatIterator::create_and_seek_to_first(upper_tables) {
            Ok(it) => it,
            Err(e) => {
                return Err(e);
            },
        };
        let lower_tables = handles_of(&self.state, lower);
        let lower_iter = match SstConcatIterator::create_and_seek_to_first(lower_tables) {
            Ok(it) => it,
            Err(e) => {
                return Err(e);
            },
        };
        let iter = TwoMergeIterator::create(upper_iter, lower_iter);
        self.compact_generate_sst_from_iter(iter, bottom)
    }

    /// Compacts tiers, each of which is a sorted run.
    fn compact_tiers(&mut self, tiers: &[(usize, Vec<usize>)], bottom: bool) -> (r: Result<
        Vec<Arc<SsTable>>,
        Error,
    >)
        requires
            old(self).options.target_sst_size <= MAX_TARGET_SST_SIZE,
            forall|j: int|
                0 <= j < tiers@.len() ==> ids_open(
                    old(self).state@.tables,
                    (#[trigger] tiers@[j]).1@,
                ),
        ensures
            compacted(
                r,
                merge_all(
                    tier_streams(old(self).state@.tables, crate::lsm_storage::levels_view(tiers@)),
                ),
                forall|j: int|
                    0 <= j < tiers@.len() ==> ids_readable(
                        old(self).state@.tables,
                        (#[trigger] tiers@[j]).1@,
                    ),
                bottom,
                *old(self),
                *final(self),
            ),
    {
        let ghost tables = self.state@.tables;
        let ghost views = crate::lsm_storage::levels_view(tiers@);
        let mut iters: Vec<SstConcatIterator> = Vec::new();
        let mut j: usize = 0;
        while j < tiers.len()
            invariant
                j <= tiers@.len(),
                tables == self.state@.tables,
                views == crate::lsm_storage::levels_view(tiers@),
                *self == *old(self),
                forall|k: int| 0 <= k < tiers@.len() ==> ids_open(tables, (#[trigger] tiers@[k]).1@),
                iters@.len() == j,
                all_inv(iters@),
                forall|k: int|
                    0 <= k < j ==> (#[trigger] iters@[k]).remaining() == run_stream(
                        tables,
                        tiers@[k].1@,
                    ),
                forall|k: int|
                    0 <= k < j ==> (#[trigger] iters@[k]).infallible() == ids_readable(
                        tables,
                        tiers@[k].1@,
                    ),
            decreases tiers@.len() - j,
        {
            assert(ids_open(tables, tiers@[j as int].1@));
            proof {
                lemma_ids_readable(tables, tiers@[j as int].1@);
            }
            let handles = handles_of(&self.state, tiers[j].1.as_slice());
            match SstConcatIterator::create_and_seek_to_first(handles) {
                Ok(it) => {
                    iters.push(it);
                },
                Err(e) => {
                    assert(!ids_readable(tables, tiers@[j as int].1@));
                    return Err(e);
                },
            }
            j += 1;
        }
        proof {
            assert(streams_of(iters@) =~= tier_streams(tables, views)) by {
                assert forall|k: int| 0 <= k < iters@.len() implies streams_of(iters@)[k]
                    == tier_streams(tables, views)[k] by {
                    assert(views[k] == (tiers@[k].0, tiers@[k].1@));
                }
            }
            let readable = forall|k: int|
                0 <= k < tiers@.len() ==> ids_readable(tables, (#[trigger] tiers@[k]).1@);
            if readable {
                assert forall|k: int| 0 <= k < iters@.len() implies (#[trigger] iters@[
                    k
                ]).infallible() by {
                    assert(ids_readable(tables, tiers@[k].1@));
                }
            }
            if all_infallible(iters@) {
                assert forall|k: int| 0 <= k < tiers@.len() implies ids_readable(
                    tables,
                    (#[trigger] tiers@[k]).1@,
                ) by {
                    assert(iters@[k].infallible());
                }
            }
        }
        let iter = MergeIterator::create(iters);
        self.compact_generate_sst_from_iter(iter, bottom)
    }

    /// Carries out the merge of a task: the input tables are merged as
    /// [`task_stream`] says and the merged stream is written into new
    /// tables.  The placement is not touched.
    ///
    /// Fails only when an input table cannot be read, with the error of
    /// the read, or when the ids are used up, with
    /// [`Error::InvariantViolation`].
    pub fn compact(&mut self, task: &CompactionTask) -> (r: Result<Vec<Arc<SsTable>>, Error>)
        requires
            old(self).options.target_sst_size <= MAX_TARGET_SST_SIZE,
            inputs_open(old(self).state@.tables, task@),
        ensures
            compacted(
                r,
                task_stream(old(self).state@.tables, task@),
                inputs_readable(old(self).state@.tables, task@),
                task@.compact_to_bottom_level(),
                *old(self),
                *final(self),
            ),
    {
        let bottom = task.compact_to_bottom_level();
        match task {
            CompactionTask::ForceFullCompaction { l0_sstables, l1_sstables } => {
                self.compact_overlapping(l0_sstables.as_slice(), l1_sstables.as_slice(), bottom)
            },
            CompactionTask::Simple(simple) => match simple.upper_level {
                None => self.compact_overlapping(
                    simple.upper_level_sst_ids.as_slice(),
                    simple.lower_level_sst_ids.as_slice(),
                    bottom,
                ),
                Some(_) => self.compact_runs(
                    simple.upper_level_sst_ids.as_slice(),
                    simple.lower_level_sst_ids.as_slice(),
                    bottom,
                ),
            },
            CompactionTask::Leveled(leveled) => match leveled.upper_level {
                None => self.compact_overlapping(
                    leveled.upper_level_sst_ids.as_slice(),
                    leveled.lower_level_sst_ids.as_slice(),
                    bottom,
                ),
                Some(_) => self.compact_runs(
                    leveled.upper_level_sst_ids.as_slice(),
                    leveled.lower_level_sst_ids.as_slice(),
                    bottom,
                ),
            },
            CompactionTask::Tiered(tiered) => {
                assert forall|j: int| 0 <= j < tiered.tiers@.len() implies ids_open(
                    self.state@.tables,
                    (#[trigger] tiered.tiers@[j]).1@,
                ) by {
                    assert(task@->Tiered_0.tiers[j] == (tiered.tiers@[j].0, tiered.tiers@[j].1@));
                }
                proof {
                    let tables = self.state@.tables;
                    let views = task@->Tiered_0.tiers;
                    if inputs_readable(tables, task@) {
                        assert forall|j: int| 0 <= j < tiered.tiers@.len() implies ids_readable(
                            tables,
                            (#[trigger] tiered.tiers@[j]).1@,
                        ) by {
                            assert(views[j] == (tiered.tiers@[j].0, tiered.tiers@[j].1@));
                            assert(ids_readable(tables, views[j].1));
                        }
                    }
                }
                self.compact_tiers(tiered.tiers.as_slice(), bottom)
            },
        }
    }

    /// Writes the stream of `iter` into new tables.
    ///
    /// At the bottom level tombstones are left out.  A table is finished
    /// as soon as its estimated size has reached the target size.  The
    /// tables get consecutive fresh ids.  Fails with what the iterator
    /// fails with, and with [`Error::InvariantViolation`] when the ids
    /// are used up.
    pub fn compact_generate_sst_from_iter<I: StorageIterator>(
        &mut self,
        iter: I,
        compact_to_bottom_level: bool,
    ) -> (r: Result<Vec<Arc<SsTable>>, Error>)
        requires
            iter.inv(),
            old(self).options.target_sst_size <= MAX_TARGET_SST_SIZE,
        ensures
            final(self).state == old(self).state,
            final(self).options == old(self).options,
            final(self).compaction_controller == old(self).compaction_controller,
            final(self).next_sst_id >= old(self).next_sst_id,
            ({
                let runs = output_runs(
                    iter.remaining(),
                    compact_to_bottom_level,
                    old(self).options.block_size,
                    old(self).options.target_sst_size,
                );
                match r {
                    Ok(tables) => {
                        &&& tables_hold(table_views(tables@), runs, old(self).next_sst_id as int)
                        &&& final(self).next_sst_id == old(self).next_sst_id + runs.len()
                    },
                    Err(e) => !iter.infallible() || (e == Error::InvariantViolation && old(
                        self,
                    ).next_sst_id + runs.len() > usize::MAX),
                }
            }),
    {
        let block_size = self.options.block_size;
        let target = self.options.target_sst_size;
        let ghost first_id = self.next_sst_id as int;
        let ghost was_infallible = iter.infallible();
        let ghost all = output_runs(iter.remaining(), compact_to_bottom_level, block_size, target);
        let ghost mut done: Seq<Seq<Entry>> = Seq::empty();
        let mut it = iter;
        let mut new_ssts: Vec<Arc<SsTable>> = Vec::new();
        let mut builder = SsTableBuilder::new(block_size);
        proof {
            lemma_empty_builder(block_size);
            assert(done + all =~= all);
            assert(table_views(new_ssts@) =~= Seq::<SsTableView>::empty());
        }
        while it.is_valid()
            invariant
                it.inv(),
                builder.wf(),
                was_infallible == iter.infallible(),
                all == output_runs(
                    iter.remaining(),
                    compact_to_bottom_level,
                    self.options.block_size,
                    self.options.target_sst_size,
                ),
                builder@.block_size == block_size,
                block_size == self.options.block_size,
                target == self.options.target_sst_size,
                target <= MAX_TARGET_SST_SIZE,
                self.state == old(self).state,
                self.options == old(self).options,
                self.compaction_controller == old(self).compaction_controller,
                builder@.entries().len() == 0 ==> builder@ == BuilderView::empty(block_size),
                builder@.entries().len() > 0 ==> builder@.estimated_size() < target,
                done + cut(kept(it.remaining(), compact_to_bottom_level), builder@, target)
                    == all,
                tables_hold(table_views(new_ssts@), done, first_id),
                self.next_sst_id == first_id + done.len(),
                first_id == old(self).next_sst_id,
                was_infallible ==> it.infallible(),
            decreases it.remaining().len(),
        {
            let ghost rem = it.remaining();
            let ghost e = rem[0];
            let ghost b = builder@;
            let keep = !(compact_to_bottom_level && it.value().len() == 0);
            proof {
                lemma_empty_builder(block_size);
                if keep {
                    assert(kept(rem, compact_to_bottom_level)[0] == e);
                    assert(kept(rem, compact_to_bottom_level).skip(1) =~= kept(
                        rem.skip(1),
                        compact_to_bottom_level,
                    ));
                } else {
                    assert(kept(rem, compact_to_bottom_level) == kept(
                        rem.skip(1),
                        compact_to_bottom_level,
                    ));
                }
            }
            if keep {
                let key = it.key();
                let value = it.value();
                proof {
                    builder.lemma_view_wf();
                    assert(entry_encodable(e));
                    assert(entry_cost(e) <= 262152);
                    lemma_add(b, e);
                }
                builder.add(key, value);
            }
            if let Err(err) = it.next() {
                return Err(err);
            }
            if keep && builder.estimated_size() >= target {
                proof {
                    let rest = cut(
                        kept(rem.skip(1), compact_to_bottom_level),
                        BuilderView::empty(block_size),
                        target,
                    );
                    assert(all == done + (seq![b.add(e).entries()] + rest));
                    assert(all.len() >= done.len() + 1);
                }
                let id = match self.allocate_sst_id() {
                    Some(id) => id,
                    None => {
                        return Err(Error::InvariantViolation);
                    },
                };
                let full = builder;
                builder = SsTableBuilder::new(block_size);
                let table = Arc::new(full.build(id));
                let ghost before = new_ssts@;
                new_ssts.push(table);
                proof {
                    let run = b.add(e).entries();
                    assert(table_views(new_ssts@) =~= table_views(before).push(table@));
                    assert(done + (seq![run] + cut(
                        kept(rem.skip(1), compact_to_bottom_level),
                        BuilderView::empty(block_size),
                        target,
                    )) =~= done.push(run) + cut(
                        kept(rem.skip(1), compact_to_bottom_level),
                        BuilderView::empty(block_size),
                        target,
                    ));
                    done = done.push(run);
                }
            }
        }
        proof {
            assert(kept(it.remaining(), compact_to_bottom_level) =~= Seq::<Entry>::empty());
        }
        if !builder.is_empty() {
            assert(all == done + seq![builder@.entries()]);
            assert(all.len() >= done.len() + 1);
            let id = match self.allocate_sst_id() {
                Some(id) => id,
                None => {
                    return Err(Error::InvariantViolation);
                },
            };
            let ghost run = builder@.entries();
            let table = Arc::new(builder.build(id));
            let ghost before = new_ssts@;
            new_ssts.push(table);
            proof {
                assert(table_views(new_ssts@) =~= table_views(before).push(table@));
                assert(done + seq![run] =~= done.push(run));
                done = done.push(run);
            }
        } else {
            assert(done + Seq::<Seq<Entry>>::empty() =~= done);
        }
        Ok(new_ssts)
    }
}

} // verus!
