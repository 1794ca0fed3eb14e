//! Sorted runs: the tables of a level lie one after another in key order
//! without overlap, and a committed compaction keeps it so.

use vstd::prelude::*;
use vstd::seq_lib::lemma_flatten_concat;
use crate::block::Entry;
use crate::compact::{CompactionController, CompactionTaskView};
use crate::compact::executor::{
    committed, id_tables, kept, output_runs, run_stream, table_ids, tables_hold, with_tables,
};
use crate::compact::laws::{
    lemma_cut_flatten, lemma_live_lookup, lemma_task_stream_lookup, task_input_streams,
};
use crate::compact::leveled::merge_by_first_key;
use crate::compact::placement::{
    as_leveled, consistent, ids_below, kept_tier_before, lemma_apply_as_leveled,
    lemma_commit_keeps_ids, lemma_committed_table, lemma_filter_keeps_order, lemma_tiered_tiers,
    lemma_without_self, placed_in, task_fits, tiers_named,
};
use crate::compact::tiered::{oldest_removed_position, output_tier, surviving_tiers};
use crate::iterators::strictly_sorted;
use crate::iterators::concat_iterator::tables_entries_from;
use crate::iterators::laws::all_sorted;
use crate::key::{key_lt, lemma_key_lt_transitive};
use crate::lsm_storage::{without, StateView};
use crate::table::SsTableView;
use crate::table::builder::BuilderView;

verus! {

/// The table can be read in full, holds at least one pair, its pairs are
/// strictly sorted, and its first and last key are those of its first
/// and last pair.
pub open spec fn table_sound(t: SsTableView) -> bool {
    &&& t.wf()
    &&& t.readable()
    &&& t.metas.len() > 0
    &&& t.entries().len() > 0
    &&& strictly_sorted(t.entries())
    &&& t.first_key == t.entries().first().0
    &&& t.last_key == t.entries().last().0
}

/// The tables `ids` are open and sound, and each ends before the next
/// one starts: they form a sorted run without overlap.
pub open spec fn run_sorted(tables: Map<usize, SsTableView>, ids: Seq<usize>) -> bool {
    &&& forall|i: int|
        0 <= i < ids.len() ==> tables.contains_key(#[trigger] ids[i]) && table_sound(tables[ids[i]])
    &&& forall|i: int, j: int|
        0 <= i < j < ids.len() ==> key_lt(
            tables[#[trigger] ids[i]].last_key,
            tables[#[trigger] ids[j]].first_key,
        )
}

/// Every level of the placement is a sorted run without overlap.
pub open spec fn levels_sorted(s: StateView) -> bool {
    forall|l: int| 0 <= l < s.levels.len() ==> run_sorted(s.tables, (#[trigger] s.levels[l]).1)
}

/// Every table of level zero is open and sound.
pub open spec fn l0_sound(s: StateView) -> bool {
    forall|i: int|
        0 <= i < s.l0.len() ==> s.tables.contains_key(#[trigger] s.l0[i]) && table_sound(
            s.tables[s.l0[i]],
        )
}

/// A strictly sorted stream followed by one whose keys all lie above its
/// last key is strictly sorted.
pub proof fn lemma_sorted_concat(a: Seq<Entry>, b: Seq<Entry>)
    requires
        strictly_sorted(a),
        strictly_sorted(b),
        a.len() > 0 && b.len() > 0 ==> key_lt(a.last().0, b.first().0),
    ensures
        strictly_sorted(a + b),
{
    let s = a + b;
    assert forall|i: int, j: int| 0 <= i < j < s.len() implies key_lt(
        #[trigger] s[i].0,
        #[trigger] s[j].0,
    ) by {
        if j < a.len() {
            assert(s[i] == a[i] && s[j] == a[j]);
        } else if i >= a.len() {
            assert(s[i] == b[i - a.len()] && s[j] == b[j - a.len()]);
        } else {
            assert(s[i] == a[i] && s[j] == b[j - a.len()]);
            if i < a.len() - 1 {
                lemma_key_lt_transitive(a[i].0, a.last().0, b.first().0);
            }
            if j > a.len() {
                lemma_key_lt_transitive(a[i].0, b.first().0, b[j - a.len()].0);
            }
        }
    }
}

/// The stream of a sorted run is strictly sorted, and unless the run is
/// empty it starts with the first key of the first table.
pub proof fn lemma_run_stream_sorted(tables: Map<usize, SsTableView>, ids: Seq<usize>, i: int)
    requires
        run_sorted(tables, ids),
        0 <= i <= ids.len(),
    ensures
        strictly_sorted(tables_entries_from(id_tables(tables, ids), i)),
        i < ids.len() ==> tables_entries_from(id_tables(tables, ids), i).len() > 0
            && tables_entries_from(id_tables(tables, ids), i).first().0 == tables[ids[i]].first_key,
    decreases ids.len() - i,
{
    let views = id_tables(tables, ids);
    if i < ids.len() {
        lemma_run_stream_sorted(tables, ids, i + 1);
        let here = views[i].entries();
        let rest = tables_entries_from(views, i + 1);
        assert(views[i] == tables[ids[i]]);
        assert(table_sound(tables[ids[i]]));
        if i + 1 < ids.len() {
            assert(key_lt(tables[ids[i]].last_key, tables[ids[i + 1]].first_key));
        }
        lemma_sorted_concat(here, rest);
    }
}

/// Where run `i` starts in the runs taken together.
pub open spec fn run_start(runs: Seq<Seq<Entry>>, i: int) -> int {
    runs.take(i).flatten().len() as int
}

/// Run `i` occupies the positions from its start to the start of the
/// next run in the runs taken together.
pub proof fn lemma_run_span(runs: Seq<Seq<Entry>>, i: int)
    requires
        0 <= i < runs.len(),
    ensures
        run_start(runs, i + 1) == run_start(runs, i) + runs[i].len(),
        run_start(runs, i + 1) <= runs.flatten().len(),
        forall|k: int|
            0 <= k < runs[i].len() ==> runs.flatten()[run_start(runs, i) + k] == #[trigger] runs[
                i
            ][k],
{
    let head = runs.take(i);
    let tail = runs.skip(i + 1);
    assert(runs.take(i + 1) =~= head.push(runs[i]));
    head.lemma_flatten_push(runs[i]);
    assert(runs =~= runs.take(i + 1) + tail);
    lemma_flatten_concat(runs.take(i + 1), tail);
}

/// Runs start one after another.
pub proof fn lemma_run_start_monotonic(runs: Seq<Seq<Entry>>, i: int, j: int)
    requires
        0 <= i <= j <= runs.len(),
    ensures
        run_start(runs, i) <= run_start(runs, j),
    decreases j - i,
{
    if i < j {
        lemma_run_start_monotonic(runs, i, j - 1);
        lemma_run_span(runs, j - 1);
    }
}

/// Runs that are strictly sorted when taken together are each strictly
/// sorted, and an earlier run ends before a later one starts.
pub proof fn lemma_runs_of_sorted(runs: Seq<Seq<Entry>>)
    requires
        strictly_sorted(runs.flatten()),
    ensures
        forall|i: int| 0 <= i < runs.len() ==> strictly_sorted(#[trigger] runs[i]),
        forall|i: int, j: int|
            0 <= i < j < runs.len() && runs[i].len() > 0 && runs[j].len() > 0 ==> key_lt(
                (#[trigger] runs[i]).last().0,
                (#[trigger] runs[j]).first().0,
            ),
{
    let all = runs.flatten();
    assert forall|i: int| 0 <= i < runs.len() implies strictly_sorted(#[trigger] runs[i]) by {
        lemma_run_span(runs, i);
        let r = runs[i];
        assert forall|a: int, b: int| 0 <= a < b < r.len() implies key_lt(
            #[trigger] r[a].0,
            #[trigger] r[b].0,
        ) by {
            assert(all[run_start(runs, i) + a] == r[a]);
            assert(all[run_start(runs, i) + b] == r[b]);
        }
    }
    assert forall|i: int, j: int|
        0 <= i < j < runs.len() && runs[i].len() > 0 && runs[j].len() > 0 implies key_lt(
        (#[trigger] runs[i]).last().0,
        (#[trigger] runs[j]).first().0,
    ) by {
        lemma_run_span(runs, i);
        lemma_run_span(runs, j);
        lemma_run_start_monotonic(runs, i + 1, j);
        let a = run_start(runs, i) + runs[i].len() - 1;
        let b = run_start(runs, j);
        assert(all[a] == runs[i][runs[i].len() - 1]);
        assert(all[b] == runs[j][0]);
    }
}

/// The tables that a compaction of a strictly sorted stream writes are
/// sound, and each ends before the next one starts.
pub proof fn lemma_output_sorted(
    stream: Seq<Entry>,
    compact_to_bottom_level: bool,
    block_size: usize,
    target: usize,
    new: Seq<SsTableView>,
    first_id: int,
)
    requires
        strictly_sorted(stream),
        tables_hold(
            new,
            output_runs(stream, compact_to_bottom_level, block_size, target),
            first_id,
        ),
    ensures
        forall|i: int| 0 <= i < new.len() ==> table_sound(#[trigger] new[i]),
        forall|i: int, j: int|
            0 <= i < j < new.len() ==> key_lt(
                (#[trigger] new[i]).last_key,
                (#[trigger] new[j]).first_key,
            ),
{
    let runs = output_runs(stream, compact_to_bottom_level, block_size, target);
    let fresh = BuilderView::empty(block_size);
    let es = kept(stream, compact_to_bottom_level);
    lemma_cut_flatten(es, fresh, target);
    assert(fresh.done.flatten() =~= Seq::<Entry>::empty());
    assert(fresh.entries() + es =~= es);
    if compact_to_bottom_level {
        lemma_live_lookup(stream, Seq::empty());
    }
    lemma_runs_of_sorted(runs);
    assert forall|i: int| 0 <= i < new.len() implies table_sound(#[trigger] new[i]) by {
        assert(new[i].entries() == runs[i]);
    }
    assert forall|i: int, j: int| 0 <= i < j < new.len() implies key_lt(
        (#[trigger] new[i]).last_key,
        (#[trigger] new[j]).first_key,
    ) by {
        assert(new[i].entries() == runs[i] && new[j].entries() == runs[j]);
    }
}

/// A sorted run stays one where its tables stay open and unchanged.
pub proof fn lemma_run_sorted_frame(
    before: Map<usize, SsTableView>,
    after: Map<usize, SsTableView>,
    ids: Seq<usize>,
)
    requires
        run_sorted(before, ids),
        forall|i: int|
            0 <= i < ids.len() ==> after.contains_key(#[trigger] ids[i]) && after[ids[i]]
                == before[ids[i]],
    ensures
        run_sorted(after, ids),
{
    assert forall|i: int, j: int| 0 <= i < j < ids.len() implies key_lt(
        after[#[trigger] ids[i]].last_key,
        after[#[trigger] ids[j]].first_key,
    ) by {
        assert(key_lt(before[ids[i]].last_key, before[ids[j]].first_key));
    }
}

/// What is left of a sorted run after tables are taken out is a sorted
/// run.
pub proof fn lemma_run_sorted_without(
    tables: Map<usize, SsTableView>,
    ids: Seq<usize>,
    removed: Seq<usize>,
)
    requires
        run_sorted(tables, ids),
    ensures
        run_sorted(tables, without(ids, removed)),
{
    lemma_run_sorted_filter(tables, ids, |x: usize| !removed.contains(x));
}

/// The tables of a sorted run that a filter lets through form a sorted
/// run.
pub proof fn lemma_run_sorted_filter(
    tables: Map<usize, SsTableView>,
    ids: Seq<usize>,
    keep: spec_fn(usize) -> bool,
)
    requires
        run_sorted(tables, ids),
    ensures
        run_sorted(tables, ids.filter(keep)),
{
    let rest = ids.filter(keep);
    let ordered = |a: usize, b: usize| key_lt(tables[a].last_key, tables[b].first_key);
    assert forall|i: int, j: int| 0 <= i < j < ids.len() implies ordered(ids[i], ids[j]) by {}
    lemma_filter_keeps_order(ids, keep, ordered);
    assert forall|i: int| 0 <= i < rest.len() implies tables.contains_key(#[trigger] rest[i])
        && table_sound(tables[rest[i]]) by {
        assert(rest.contains(rest[i]));
        ids.lemma_filter_contains_rev(keep, rest[i]);
        let k = choose|k: int| 0 <= k < ids.len() && ids[k] == rest[i];
        assert(tables.contains_key(ids[k]));
    }
    assert forall|i: int, j: int| 0 <= i < j < rest.len() implies key_lt(
        tables[#[trigger] rest[i]].last_key,
        tables[#[trigger] rest[j]].first_key,
    ) by {
        assert(ordered(rest[i], rest[j]));
    }
}

/// After a commit the new tables form a sorted run, where they are
/// sound and each ends before the next one starts.
pub proof fn lemma_output_run_sorted(
    s: StateView,
    task: CompactionTaskView,
    new: Seq<SsTableView>,
    next: int,
)
    requires
        ids_below(s, next),
        forall|i: int| 0 <= i < new.len() ==> (#[trigger] new[i]).id == next + i,
        forall|i: int|
            0 <= i < new.len() ==> committed(s, task, new).tables.contains_key(
                (#[trigger] new[i]).id,
            ),
        forall|i: int| 0 <= i < new.len() ==> table_sound(#[trigger] new[i]),
        forall|i: int, j: int|
            0 <= i < j < new.len() ==> key_lt(
                (#[trigger] new[i]).last_key,
                (#[trigger] new[j]).first_key,
            ),
    ensures
        run_sorted(committed(s, task, new).tables, table_ids(new)),
{
    let after = committed(s, task, new);
    let out = table_ids(new);
    assert forall|i: int| 0 <= i < out.len() implies after.tables.contains_key(#[trigger] out[i])
        && after.tables[out[i]] == new[i] by {
        assert(out[i] == new[i].id);
        lemma_committed_table(s, task, new, next, out[i]);
        let k = choose|k: int| 0 <= k < new.len() && #[trigger] new[k] == after.tables[out[i]];
        assert(new[k].id == next + k);
    }
    assert forall|i: int, j: int| 0 <= i < j < out.len() implies key_lt(
        after.tables[#[trigger] out[i]].last_key,
        after.tables[#[trigger] out[j]].first_key,
    ) by {
        assert(key_lt(new[i].last_key, new[j].first_key));
    }
}

/// A level of the placement whose tables are all still placed after a
/// commit is still a sorted run.
pub proof fn lemma_old_run_sorted(
    s: StateView,
    task: CompactionTaskView,
    new: Seq<SsTableView>,
    next: int,
    ids: Seq<usize>,
)
    requires
        consistent(s),
        ids_below(s, next),
        forall|i: int| 0 <= i < new.len() ==> (#[trigger] new[i]).id == next + i,
        run_sorted(s.tables, ids),
        forall|i: int|
            0 <= i < ids.len() ==> committed(s, task, new).tables.contains_key(#[trigger] ids[i]),
    ensures
        run_sorted(committed(s, task, new).tables, ids),
{
    let after = committed(s, task, new);
    let out = table_ids(new);
    assert forall|i: int| 0 <= i < ids.len() implies after.tables.contains_key(#[trigger] ids[i])
        && after.tables[ids[i]] == s.tables[ids[i]] by {
        lemma_committed_table(s, task, new, next, ids[i]);
        if out.contains(ids[i]) {
            let k = choose|k: int| 0 <= k < out.len() && out[k] == ids[i];
            assert(out[k] == new[k].id);
            assert(s.tables.contains_key(ids[i]));
        }
    }
    lemma_run_sorted_frame(s.tables, after.tables, ids);
}

/// Every level is a sorted run without overlap after a commit, where
/// that held before and the task's input streams are strictly sorted.
///
/// This covers the tasks that put their output in the place of whole
/// levels or tiers: full compaction, simple leveled and tiered tasks.
pub proof fn lemma_commit_keeps_levels_sorted(
    s: StateView,
    task: CompactionTaskView,
    new: Seq<SsTableView>,
    next: int,
    block_size: usize,
    target: usize,
)
    requires
        consistent(s),
        ids_below(s, next),
        task_fits(s, task),
        task is Tiered ==> tiers_named(s, next),
        levels_sorted(s),
        all_sorted(task_input_streams(s.tables, task)),
        tables_hold(
            new,
            output_runs(
                crate::compact::executor::task_stream(s.tables, task),
                task.compact_to_bottom_level(),
                block_size,
                target,
            ),
            next,
        ),
        !(task is Leveled),
    ensures
        levels_sorted(committed(s, task, new)),
{
    let after = committed(s, task, new);
    let out = table_ids(new);
    let opened = with_tables(s, new);
    let stream = crate::compact::executor::task_stream(s.tables, task);
    lemma_task_stream_lookup(s.tables, task, Seq::empty());
    lemma_output_sorted(
        stream,
        task.compact_to_bottom_level(),
        block_size,
        target,
        new,
        next,
    );
    lemma_commit_keeps_ids(s, task, new, next);
    // A table that is placed after the commit is open.
    assert forall|x: usize| placed_in(after, x) implies #[trigger] after.tables.contains_key(x) by {}
    assert forall|i: int| 0 <= i < new.len() implies after.tables.contains_key(
        (#[trigger] new[i]).id,
    ) by {
        assert(out[i] == new[i].id);
        if new.len() > 0 {
            match task {
                CompactionTaskView::Tiered(t) => {
                    lemma_tiered_tiers(opened, t, out);
                    let p = oldest_removed_position(opened, t);
                    let before = surviving_tiers(opened.levels.take(p), t.tiers);
                    assert(after.levels[before.len() as int] == output_tier(out)[0]);
                    assert(after.levels[before.len() as int].1.contains(out[i]));
                },
                _ => {
                    lemma_apply_as_leveled(opened, task, out);
                    let t = as_leveled(task);
                    lemma_without_self(opened.levels[t.lower_level - 1].1);
                    assert(merge_by_first_key(opened.tables, Seq::<usize>::empty(), out) =~= out);
                    assert(after.levels[t.lower_level - 1].1 == out);
                    assert(after.levels[t.lower_level - 1].1.contains(out[i]));
                },
            }
        }
        assert(placed_in(after, new[i].id));
    }
    lemma_output_run_sorted(s, task, new, next);
    assert forall|l: int| 0 <= l < after.levels.len() implies run_sorted(
        after.tables,
        (#[trigger] after.levels[l]).1,
    ) by {
        let ids = after.levels[l].1;
        assert forall|i: int| 0 <= i < ids.len() implies after.tables.contains_key(
            #[trigger] ids[i],
        ) by {
            assert(after.levels[l].1.contains(ids[i]));
            assert(placed_in(after, ids[i]));
        }
        match task {
            CompactionTaskView::Tiered(t) => {
                lemma_tiered_tiers(opened, t, out);
                let p = oldest_removed_position(opened, t);
                let before = surviving_tiers(opened.levels.take(p), t.tiers);
                let mid = output_tier(out);
                if l < before.len() {
                    assert(after.levels[l] == before[l]);
                    assert(kept_tier_before(opened, t, p, before[l]));
                    let k = choose|k: int| 0 <= k < p && #[trigger] opened.levels[k] == before[l];
                    assert(run_sorted(s.tables, s.levels[k].1));
                    lemma_old_run_sorted(s, task, new, next, ids);
                } else if l < before.len() + mid.len() {
                    assert(after.levels[l] == mid[l - before.len()]);
                } else {
                    let k = p + 1 + (l - before.len() - mid.len());
                    assert(after.levels[l] == opened.levels.skip(p + 1)[l - before.len()
                        - mid.len()]);
                    assert(run_sorted(s.tables, s.levels[k].1));
                    lemma_old_run_sorted(s, task, new, next, ids);
                }
            },
            _ => {
                lemma_apply_as_leveled(opened, task, out);
                let t = as_leveled(task);
                assert(run_sorted(s.tables, s.levels[l].1));
                if l == t.lower_level - 1 {
                    lemma_without_self(opened.levels[l].1);
                    assert(merge_by_first_key(opened.tables, Seq::<usize>::empty(), out) =~= out);
                } else if t.upper_level is Some && t.upper_level->0 == l + 1 {
                    lemma_run_sorted_without(s.tables, s.levels[l].1, t.upper_level_sst_ids);
                    lemma_old_run_sorted(s, task, new, next, ids);
                } else {
                    lemma_old_run_sorted(s, task, new, next, ids);
                }
            },
        }
    }
}

/// The input streams of a task that the strategy generates from a
/// placement are strictly sorted, where every level of the placement is
/// a sorted run and every table of level zero is sound.
pub proof fn lemma_generated_inputs_sorted(
    ctrl: CompactionController,
    s: StateView,
    task: CompactionTaskView,
)
    requires
        ctrl.admits(s),
        ctrl.generated(s, Some(task)),
        levels_sorted(s),
        l0_sound(s),
    ensures
        all_sorted(task_input_streams(s.tables, task)),
{
    let inputs = task_input_streams(s.tables, task);
    match ctrl {
        CompactionController::Simple(c) => {
            let t = task->Simple_0;
            let i = choose|i: int|
                {
                    &&& 0 <= i < c.options.max_levels
                    &&& #[trigger] c.options.triggers(s, i)
                    &&& forall|j: int| 0 <= j < i ==> !c.options.triggers(s, j)
                    &&& t == c.options.task_at(s, i)
                };
            assert(run_sorted(s.tables, s.levels[i].1));
            lemma_run_stream_sorted(s.tables, s.levels[i].1, 0);
            if i > 0 {
                assert(run_sorted(s.tables, s.levels[i - 1].1));
                lemma_run_stream_sorted(s.tables, s.levels[i - 1].1, 0);
            }
            lemma_two_level_inputs_sorted(s, t.upper_level is None, s.l0, t.upper_level_sst_ids,
                t.lower_level_sst_ids, inputs);
        },
        CompactionController::Tiered(c) => {
            let t = task->Tiered_0;
            assert forall|j: int| 0 <= j < inputs.len() implies strictly_sorted(
                #[trigger] inputs[j],
            ) by {
                let l = if c.options.space_amplification_triggers(s) {
                    j
                } else if exists|k: int| c.options.size_ratio_triggers(s, k) {
                    j
                } else {
                    j + c.options.sorted_runs_start()
                };
                assert(t.tiers[j] == s.levels[l]);
                assert(run_sorted(s.tables, s.levels[l].1));
                lemma_run_stream_sorted(s.tables, s.levels[l].1, 0);
            }
        },
        CompactionController::Leveled(c) => {
            let t = task->Leveled_0;
            if c.options.l0_triggers(s) {
                let b = choose|b: int|
                    {
                        &&& #[trigger] c.options.is_base_level(s, b)
                        &&& Some(t) == Some(c.options.l0_task(s, b))
                    };
                assert(run_sorted(s.tables, s.levels[b - 1].1));
                lemma_run_sorted_filter(
                    s.tables,
                    s.levels[b - 1].1,
                    |id: usize|
                        crate::compact::leveled::overlaps(
                            s.tables[id],
                            crate::compact::leveled::key_range(s.tables, s.l0),
                        ),
                );
                lemma_run_stream_sorted(s.tables, t.lower_level_sst_ids, 0);
            } else {
                let (p, m) = choose|p: int, m: usize|
                    {
                        &&& #[trigger] c.options.highest_priority(s, p)
                        &&& #[trigger] crate::compact::leveled::is_oldest(s.levels[p].1, m)
                        &&& Some(t) == Some(c.options.level_task(s, p, m))
                    };
                assert(c.options.over_target(s, p));
                assert(p + 1 < c.options.max_levels);
                assert(run_sorted(s.tables, s.levels[p].1));
                assert(run_sorted(s.tables, s.levels[p + 1].1));
                let k = choose|k: int| 0 <= k < s.levels[p].1.len() && s.levels[p].1[k] == m;
                assert(s.tables.contains_key(s.levels[p].1[k]));
                assert(run_sorted(s.tables, seq![m]));
                lemma_run_stream_sorted(s.tables, seq![m], 0);
                lemma_run_sorted_filter(
                    s.tables,
                    s.levels[p + 1].1,
                    |id: usize|
                        crate::compact::leveled::overlaps(
                            s.tables[id],
                            crate::compact::leveled::key_range(s.tables, seq![m]),
                        ),
                );
                lemma_run_stream_sorted(s.tables, t.lower_level_sst_ids, 0);
            }
            lemma_two_level_inputs_sorted(s, t.upper_level is None, s.l0, t.upper_level_sst_ids,
                t.lower_level_sst_ids, inputs);
        },
        CompactionController::NoCompaction => {},
    }
}

/// The input streams of a task with an upper and a lower level are
/// strictly sorted where the streams of the two levels are.
proof fn lemma_two_level_inputs_sorted(
    s: StateView,
    overlapping: bool,
    l0: Seq<usize>,
    upper: Seq<usize>,
    lower: Seq<usize>,
    inputs: Seq<Seq<Entry>>,
)
    requires
        l0_sound(s),
        overlapping ==> upper == s.l0,
        !overlapping ==> strictly_sorted(run_stream(s.tables, upper)),
        strictly_sorted(run_stream(s.tables, lower)),
        inputs == (if overlapping {
            crate::compact::executor::table_streams(id_tables(s.tables, upper))
        } else {
            seq![run_stream(s.tables, upper)]
        }) + seq![run_stream(s.tables, lower)],
    ensures
        all_sorted(inputs),
{
    assert forall|j: int| 0 <= j < inputs.len() implies strictly_sorted(#[trigger] inputs[j]) by {
        if overlapping && j < upper.len() {
            assert(inputs[j] == s.tables[s.l0[j]].entries());
            assert(table_sound(s.tables[s.l0[j]]));
        }
    }
}

/// The input streams of a full compaction are strictly sorted, where the
/// first level is a sorted run and every table of level zero is sound.
pub proof fn lemma_full_inputs_sorted(s: StateView)
    requires
        s.levels.len() >= 1,
        levels_sorted(s),
        l0_sound(s),
    ensures
        all_sorted(
            task_input_streams(
                s.tables,
                CompactionTaskView::ForceFullCompaction {
                    l0_sstables: s.l0,
                    l1_sstables: s.levels[0].1,
                },
            ),
        ),
{
    let task = CompactionTaskView::ForceFullCompaction {
        l0_sstables: s.l0,
        l1_sstables: s.levels[0].1,
    };
    assert(run_sorted(s.tables, s.levels[0].1));
    lemma_run_stream_sorted(s.tables, s.levels[0].1, 0);
    lemma_two_level_inputs_sorted(
        s,
        true,
        s.l0,
        s.l0,
        s.levels[0].1,
        task_input_streams(s.tables, task),
    );
}

/// Every table of level zero is sound after a commit, where that held
/// before.
pub proof fn lemma_commit_keeps_l0_sound(
    s: StateView,
    task: CompactionTaskView,
    new: Seq<SsTableView>,
    next: int,
)
    requires
        consistent(s),
        ids_below(s, next),
        task_fits(s, task),
        task is Tiered ==> tiers_named(s, next),
        forall|i: int| 0 <= i < new.len() ==> (#[trigger] new[i]).id == next + i,
        l0_sound(s),
    ensures
        l0_sound(committed(s, task, new)),
{
    let after = committed(s, task, new);
    let out = table_ids(new);
    let opened = with_tables(s, new);
    lemma_commit_keeps_ids(s, task, new, next);
    assert forall|i: int| 0 <= i < after.l0.len() implies after.tables.contains_key(
        #[trigger] after.l0[i],
    ) && table_sound(after.tables[after.l0[i]]) by {
        let x = after.l0[i];
        assert(after.l0.contains(x));
        assert(placed_in(after, x));
        assert(after.tables.contains_key(x));
        // The table was in level zero before.
        match task {
            CompactionTaskView::Tiered(t) => {
                assert(after.l0 == s.l0);
            },
            _ => {
                lemma_apply_as_leveled(opened, task, out);
                crate::compact::placement::lemma_without_contains(
                    s.l0,
                    as_leveled(task).upper_level_sst_ids,
                    x,
                );
            },
        }
        assert(s.l0.contains(x));
        let k = choose|k: int| 0 <= k < s.l0.len() && s.l0[k] == x;
        assert(table_sound(s.tables[s.l0[k]]));
        lemma_committed_table(s, task, new, next, x);
        if out.contains(x) {
            let j = choose|j: int| 0 <= j < out.len() && out[j] == x;
            assert(out[j] == new[j].id);
        }
    }
}

} // verus!
