//! Why a leveled compaction keeps its lower level a sorted run: the
//! output lies between the tables that it does not touch.

use vstd::prelude::*;
use crate::block::Entry;
use crate::compact::{CompactionController, CompactionTaskView};
use crate::compact::executor::{
    committed, id_tables, output_runs, run_stream, table_ids, table_streams, tables_hold,
    task_stream, with_tables,
};
use crate::compact::laws::{
    lemma_live_lookup, lemma_output_entries, lemma_task_stream_lookup, task_input_streams,
};
use crate::compact::leveled::{
    key_range, merge_by_first_key, merge_by_first_key_from, overlapping, overlaps, LeveledTaskView,
};
use crate::compact::order::{
    l0_sound, lemma_old_run_sorted, lemma_output_sorted, lemma_run_sorted_without, levels_sorted,
    run_sorted, table_sound,
};
use crate::compact::placement::{
    consistent, ids_below, lemma_commit_keeps_ids, lemma_merge_contains, lemma_without_contains,
    placed_in, task_fits,
};
use crate::iterators::lookup;
use crate::iterators::concat_iterator::tables_entries_from;
use crate::iterators::laws::{all_sorted, first_hit, lemma_concat_lookup};
use crate::key::{
    key_le, key_lt, lemma_key_le_lt, lemma_key_le_transitive, lemma_key_lt_asymmetric,
    lemma_key_lt_irreflexive, lemma_key_lt_le, lemma_key_lt_transitive,
};
use crate::lsm_storage::{without, StateView};
use crate::table::SsTableView;

verus! {

/// The stream holds the key.
pub open spec fn holds_key(es: Seq<Entry>, key: Seq<u8>) -> bool {
    lookup(es, key) is Some
}

/// A stream holds a key exactly when one of its pairs has it.
pub proof fn lemma_holds_key(es: Seq<Entry>, key: Seq<u8>)
    ensures
        holds_key(es, key) <==> exists|i: int| 0 <= i < es.len() && (#[trigger] es[i]).0 == key,
    decreases es.len(),
{
    if es.len() > 0 {
        lemma_holds_key(es.skip(1), key);
        if holds_key(es, key) && es[0].0 != key {
            let i = choose|i: int| 0 <= i < es.skip(1).len() && (#[trigger] es.skip(1)[i]).0 == key;
            assert(es[i + 1].0 == key);
        }
        if exists|i: int| 0 <= i < es.len() && (#[trigger] es[i]).0 == key {
            let i = choose|i: int| 0 <= i < es.len() && (#[trigger] es[i]).0 == key;
            if i > 0 {
                assert(es.skip(1)[i - 1].0 == key);
            }
        }
    }
}

/// A key that a sound table holds lies between its first and its last
/// key.
pub proof fn lemma_key_in_table(t: SsTableView, key: Seq<u8>)
    requires
        table_sound(t),
        holds_key(t.entries(), key),
    ensures
        key_le(t.first_key, key),
        key_le(key, t.last_key),
        key_le(t.first_key, t.last_key),
{
    let es = t.entries();
    lemma_holds_key(es, key);
    let i = choose|i: int| 0 <= i < es.len() && (#[trigger] es[i]).0 == key;
    lemma_key_lt_irreflexive(key);
    if 0 < i {
        assert(key_lt(es[0].0, es[i].0));
        lemma_key_lt_asymmetric(es[0].0, key);
    }
    if i < es.len() - 1 {
        assert(key_lt(es[i].0, es[es.len() - 1].0));
        lemma_key_lt_asymmetric(key, es[es.len() - 1].0);
    }
    lemma_key_lt_irreflexive(es[0].0);
    if 0 < es.len() - 1 {
        assert(key_lt(es[0].0, es[es.len() - 1].0));
        lemma_key_lt_asymmetric(es[0].0, es[es.len() - 1].0);
    }
}

/// A key that one of several streams holds when asked in order is held
/// by one of them.
pub proof fn lemma_first_hit_some(streams: Seq<Seq<Entry>>, key: Seq<u8>)
    requires
        first_hit(streams, key) is Some,
    ensures
        exists|j: int| 0 <= j < streams.len() && holds_key(#[trigger] streams[j], key),
    decreases streams.len(),
{
    if !holds_key(streams[0], key) {
        lemma_first_hit_some(streams.skip(1), key);
        let j = choose|j: int|
            0 <= j < streams.skip(1).len() && holds_key(#[trigger] streams.skip(1)[j], key);
        assert(streams[j + 1] == streams.skip(1)[j]);
    }
}

/// A key that the stream of a run holds is held by one of its tables,
/// and the other way round.
pub proof fn lemma_run_holds_key(tables: Seq<SsTableView>, i: int, key: Seq<u8>)
    requires
        0 <= i <= tables.len(),
    ensures
        holds_key(tables_entries_from(tables, i), key) <==> exists|j: int|
            i <= j < tables.len() && holds_key((#[trigger] tables[j]).entries(), key),
    decreases tables.len() - i,
{
    if i < tables.len() {
        lemma_run_holds_key(tables, i + 1, key);
        lemma_concat_lookup(tables[i].entries(), tables_entries_from(tables, i + 1), key);
        if holds_key(tables_entries_from(tables, i), key) {
            if !holds_key(tables[i].entries(), key) {
                let j = choose|j: int|
                    i + 1 <= j < tables.len() && holds_key((#[trigger] tables[j]).entries(), key);
                assert(holds_key(tables[j].entries(), key));
            }
        }
    }
}

/// The key range of tables reaches from below the first key to above the
/// last key of each of them.
pub proof fn lemma_key_range_bounds(tables: Map<usize, SsTableView>, ids: Seq<usize>, i: int)
    requires
        0 <= i < ids.len(),
    ensures
        key_range(tables, ids) is Some,
        ({
            let (lo, hi) = key_range(tables, ids)->0;
            key_le(lo, tables[ids[i]].first_key) && key_le(tables[ids[i]].last_key, hi)
        }),
    decreases ids.len(),
{
    let t = tables[ids.last()];
    let init = ids.drop_last();
    lemma_key_lt_irreflexive(t.first_key);
    lemma_key_lt_irreflexive(t.last_key);
    if init.len() > 0 {
        lemma_key_range_bounds(tables, init, if i < init.len() { i } else { 0 });
        let (lo, hi) = key_range(tables, init)->0;
        if i < init.len() {
            assert(init[i] == ids[i]);
            let u = tables[ids[i]];
            // lo <= u.first and the new lower end is not above lo.
            if key_lt(t.first_key, lo) {
                if key_lt(u.first_key, t.first_key) {
                    lemma_key_lt_transitive(u.first_key, t.first_key, lo);
                }
            }
            if key_lt(hi, t.last_key) {
                if key_lt(t.last_key, u.last_key) {
                    lemma_key_lt_transitive(hi, t.last_key, u.last_key);
                }
            }
        } else {
            lemma_key_lt_asymmetric(t.first_key, lo);
            lemma_key_lt_asymmetric(hi, t.last_key);
        }
    }
}

/// The two tables share no key: one ends before the other starts.
pub open spec fn apart(a: SsTableView, b: SsTableView) -> bool {
    key_lt(a.last_key, b.first_key) || key_lt(b.last_key, a.first_key)
}

/// Two sorted runs whose tables lie apart from each other merge by first
/// key into a sorted run.
pub proof fn lemma_merge_runs(
    tables: Map<usize, SsTableView>,
    a: Seq<usize>,
    b: Seq<usize>,
    i: int,
    j: int,
)
    requires
        0 <= i <= a.len(),
        0 <= j <= b.len(),
        run_sorted(tables, a),
        run_sorted(tables, b),
        forall|x: int, y: int|
            0 <= x < a.len() && 0 <= y < b.len() ==> apart(
                tables[#[trigger] a[x]],
                tables[#[trigger] b[y]],
            ),
        forall|x: int|
            0 <= x < a.len() ==> key_le(
                tables[#[trigger] a[x]].first_key,
                tables[a[x]].last_key,
            ),
        forall|y: int|
            0 <= y < b.len() ==> key_le(
                tables[#[trigger] b[y]].first_key,
                tables[b[y]].last_key,
            ),
    ensures
        run_sorted(tables, merge_by_first_key_from(tables, a, b, i, j)),
    decreases a.len() - i + b.len() - j,
{
    let m = merge_by_first_key_from(tables, a, b, i, j);
    if i >= a.len() {
        lemma_skip_run(tables, b, j);
    } else if j >= b.len() {
        lemma_skip_run(tables, a, i);
    } else {
        let ta = tables[a[i]];
        let tb = tables[b[j]];
        let b_first = key_lt(tb.first_key, ta.first_key);
        let (head, rest) = if b_first {
            (b[j], merge_by_first_key_from(tables, a, b, i, j + 1))
        } else {
            (a[i], merge_by_first_key_from(tables, a, b, i + 1, j))
        };
        if b_first {
            lemma_merge_runs(tables, a, b, i, j + 1);
        } else {
            lemma_merge_runs(tables, a, b, i + 1, j);
        }
        assert(m == seq![head] + rest);
        let th = tables[head];
        assert forall|k: int| 0 <= k < rest.len() implies key_lt(
            th.last_key,
            tables[#[trigger] rest[k]].first_key,
        ) by {
            let z = rest[k];
            assert(rest.contains(z));
            if b_first {
                lemma_merge_contains(tables, a, b, i, j + 1, z);
                let b_rest = b.skip(j + 1);
                if b_rest.contains(z) {
                    let y = choose|y: int| 0 <= y < b_rest.len() && b_rest[y] == z;
                    assert(b[j + 1 + y] == z);
                    assert(key_lt(tables[b[j]].last_key, tables[b[j + 1 + y]].first_key));
                } else {
                    let a_rest = a.skip(i);
                    let x = choose|x: int| 0 <= x < a_rest.len() && a_rest[x] == z;
                    assert(a[i + x] == z);
                    let tz = tables[a[i + x]];
                    assert(apart(tz, tb));
                    // tb starts before ta, which does not start after tz.
                    if x > 0 {
                        assert(key_lt(tables[a[i]].last_key, tables[a[i + x]].first_key));
                        lemma_key_le_lt(ta.first_key, ta.last_key, tz.first_key);
                        lemma_key_lt_transitive(tb.first_key, ta.first_key, tz.first_key);
                    }
                    assert(key_lt(tb.first_key, tz.first_key));
                    if key_lt(tz.last_key, tb.first_key) {
                        lemma_key_le_lt(tz.first_key, tz.last_key, tb.first_key);
                        lemma_key_lt_asymmetric(tz.first_key, tb.first_key);
                    }
                }
            } else {
                lemma_merge_contains(tables, a, b, i + 1, j, z);
                let a_rest = a.skip(i + 1);
                if a_rest.contains(z) {
                    let x = choose|x: int| 0 <= x < a_rest.len() && a_rest[x] == z;
                    assert(a[i + 1 + x] == z);
                    assert(key_lt(tables[a[i]].last_key, tables[a[i + 1 + x]].first_key));
                } else {
                    let b_rest = b.skip(j);
                    let y = choose|y: int| 0 <= y < b_rest.len() && b_rest[y] == z;
                    assert(b[j + y] == z);
                    let tz = tables[b[j + y]];
                    assert(apart(ta, tz));
                    // ta does not start after tb, which does not start
                    // after tz.
                    if y > 0 {
                        assert(key_lt(tables[b[j]].last_key, tables[b[j + y]].first_key));
                        lemma_key_le_lt(tb.first_key, tb.last_key, tz.first_key);
                        lemma_key_le_lt(ta.first_key, tb.first_key, tz.first_key);
                        lemma_key_lt_asymmetric(ta.first_key, tz.first_key);
                    }
                    assert(key_le(ta.first_key, tz.first_key));
                    if key_lt(tz.last_key, ta.first_key) {
                        lemma_key_le_lt(tz.first_key, tz.last_key, ta.first_key);
                    }
                }
            }
        }
        lemma_cons_run(tables, head, rest);
    }
}

/// What is left of a sorted run from a position on is a sorted run.
pub proof fn lemma_skip_run(tables: Map<usize, SsTableView>, ids: Seq<usize>, i: int)
    requires
        0 <= i <= ids.len(),
        run_sorted(tables, ids),
    ensures
        run_sorted(tables, ids.skip(i)),
{
    let rest = ids.skip(i);
    assert forall|x: int, y: int| 0 <= x < y < rest.len() implies key_lt(
        tables[#[trigger] rest[x]].last_key,
        tables[#[trigger] rest[y]].first_key,
    ) by {
        assert(key_lt(tables[ids[i + x]].last_key, tables[ids[i + y]].first_key));
    }
    assert forall|x: int| 0 <= x < rest.len() implies tables.contains_key(#[trigger] rest[x])
        && table_sound(tables[rest[x]]) by {
        assert(tables.contains_key(ids[i + x]));
    }
}

/// A sound table in front of a sorted run that starts after the table
/// ends makes a sorted run.
pub proof fn lemma_cons_run(tables: Map<usize, SsTableView>, head: usize, rest: Seq<usize>)
    requires
        run_sorted(tables, rest),
        tables.contains_key(head),
        table_sound(tables[head]),
        forall|k: int|
            0 <= k < rest.len() ==> key_lt(tables[head].last_key, tables[#[trigger] rest[k]].first_key),
    ensures
        run_sorted(tables, seq![head] + rest),
{
    let s = seq![head] + rest;
    assert forall|x: int| 0 <= x < s.len() implies tables.contains_key(#[trigger] s[x])
        && table_sound(tables[s[x]]) by {
        if x > 0 {
            assert(s[x] == rest[x - 1]);
            assert(tables.contains_key(rest[x - 1]));
        }
    }
    assert forall|x: int, y: int| 0 <= x < y < s.len() implies key_lt(
        tables[#[trigger] s[x]].last_key,
        tables[#[trigger] s[y]].first_key,
    ) by {
        assert(s[y] == rest[y - 1]);
        if x > 0 {
            assert(s[x] == rest[x - 1]);
            assert(key_lt(tables[rest[x - 1]].last_key, tables[rest[y - 1]].first_key));
        }
    }
}

/// The leveled task takes from its lower level just the tables that the
/// keys of its upper tables reach, and its upper tables are open and
/// sound.
pub open spec fn leveled_selects(s: StateView, task: LeveledTaskView) -> bool {
    &&& 1 <= task.lower_level <= s.levels.len()
    &&& task.lower_level_sst_ids == overlapping(
        s.tables,
        s.levels[task.lower_level - 1].1,
        key_range(s.tables, task.upper_level_sst_ids),
    )
    &&& forall|i: int|
        0 <= i < task.upper_level_sst_ids.len() ==> s.tables.contains_key(
            #[trigger] task.upper_level_sst_ids[i],
        ) && table_sound(s.tables[task.upper_level_sst_ids[i]])
}

/// A key that a table written by a compaction holds is held by one of
/// the task's input streams.
pub proof fn lemma_output_key_from_input(
    tables: Map<usize, SsTableView>,
    task: CompactionTaskView,
    block_size: usize,
    target: usize,
    new: Seq<SsTableView>,
    first_id: int,
    i: int,
    key: Seq<u8>,
)
    requires
        all_sorted(task_input_streams(tables, task)),
        tables_hold(
            new,
            output_runs(
                task_stream(tables, task),
                task.compact_to_bottom_level(),
                block_size,
                target,
            ),
            first_id,
        ),
        0 <= i < new.len(),
        holds_key(new[i].entries(), key),
    ensures
        exists|j: int|
            0 <= j < task_input_streams(tables, task).len() && holds_key(
                #[trigger] task_input_streams(tables, task)[j],
                key,
            ),
{
    let stream = task_stream(tables, task);
    lemma_run_holds_key(new, 0, key);
    lemma_output_entries(
        stream,
        task.compact_to_bottom_level(),
        block_size,
        target,
        new,
        first_id,
    );
    lemma_task_stream_lookup(tables, task, key);
    if task.compact_to_bottom_level() {
        lemma_live_lookup(stream, key);
    }
    lemma_first_hit_some(task_input_streams(tables, task), key);
}

/// A key that an input stream of a leveled task holds is held by one of
/// the task's upper or lower tables.
pub proof fn lemma_leveled_input_table(
    tables: Map<usize, SsTableView>,
    task: LeveledTaskView,
    j: int,
    key: Seq<u8>,
)
    requires
        0 <= j < task_input_streams(tables, CompactionTaskView::Leveled(task)).len(),
        holds_key(task_input_streams(tables, CompactionTaskView::Leveled(task))[j], key),
    ensures
        (exists|i: int|
            0 <= i < task.upper_level_sst_ids.len() && holds_key(
                tables[#[trigger] task.upper_level_sst_ids[i]].entries(),
                key,
            )) || (exists|i: int|
            0 <= i < task.lower_level_sst_ids.len() && holds_key(
                tables[#[trigger] task.lower_level_sst_ids[i]].entries(),
                key,
            )),
{
    let up = task.upper_level_sst_ids;
    let low = task.lower_level_sst_ids;
    let inputs = task_input_streams(tables, CompactionTaskView::Leveled(task));
    let uppers = if task.upper_level is None {
        table_streams(id_tables(tables, up))
    } else {
        seq![run_stream(tables, up)]
    };
    assert(inputs == uppers + seq![run_stream(tables, low)]);
    if j < uppers.len() {
        assert(inputs[j] == uppers[j]);
        if task.upper_level is None {
            assert(uppers[j] == tables[up[j]].entries());
        } else {
            lemma_run_holds_key(id_tables(tables, up), 0, key);
            let i = choose|i: int|
                0 <= i < id_tables(tables, up).len() && holds_key(
                    (#[trigger] id_tables(tables, up)[i]).entries(),
                    key,
                );
            assert(id_tables(tables, up)[i] == tables[up[i]]);
        }
    } else {
        assert(inputs[j] == run_stream(tables, low));
        lemma_run_holds_key(id_tables(tables, low), 0, key);
        let i = choose|i: int|
            0 <= i < id_tables(tables, low).len() && holds_key(
                (#[trigger] id_tables(tables, low)[i]).entries(),
                key,
            );
        assert(id_tables(tables, low)[i] == tables[low[i]]);
    }
}

/// Whether the table lies to the right of the key range: it starts after
/// the range ends.
pub open spec fn right_of(t: SsTableView, range: Option<(Seq<u8>, Seq<u8>)>) -> bool {
    match range {
        Some((lo, hi)) => key_lt(hi, t.first_key),
        None => false,
    }
}

/// A table of the lower level that a leveled task leaves alone lies on
/// one side of every key that the task's tables hold: a table to the
/// right of the key range of the upper tables starts after the key, any
/// other ends before it.
pub proof fn lemma_untouched_apart(
    s: StateView,
    task: LeveledTaskView,
    x: usize,
    key: Seq<u8>,
)
    requires
        leveled_selects(s, task),
        run_sorted(s.tables, s.levels[task.lower_level - 1].1),
        s.levels[task.lower_level - 1].1.contains(x),
        !task.lower_level_sst_ids.contains(x),
        (exists|i: int|
            0 <= i < task.upper_level_sst_ids.len() && holds_key(
                s.tables[#[trigger] task.upper_level_sst_ids[i]].entries(),
                key,
            )) || (exists|i: int|
            0 <= i < task.lower_level_sst_ids.len() && holds_key(
                s.tables[#[trigger] task.lower_level_sst_ids[i]].entries(),
                key,
            )),
    ensures
        if right_of(s.tables[x], key_range(s.tables, task.upper_level_sst_ids)) {
            key_lt(key, s.tables[x].first_key)
        } else {
            key_lt(s.tables[x].last_key, key)
        },
{
    let tables = s.tables;
    let up = task.upper_level_sst_ids;
    let low = task.lower_level_sst_ids;
    let level = s.levels[task.lower_level - 1].1;
    let range = key_range(tables, up);
    let tx = tables[x];
    let reach = |id: usize| overlaps(tables[id], range);
    let ix = choose|ix: int| 0 <= ix < level.len() && level[ix] == x;
    assert(table_sound(tables[level[ix]]));
    // The table is not reached by the range, or it would be an input.
    if overlaps(tx, range) {
        level.lemma_filter_contains(reach, ix);
    }
    if exists|i: int| 0 <= i < up.len() && holds_key(tables[#[trigger] up[i]].entries(), key) {
        let i = choose|i: int| 0 <= i < up.len() && holds_key(
            tables[#[trigger] up[i]].entries(),
            key,
        );
        let tu = tables[up[i]];
        lemma_key_range_bounds(tables, up, i);
        lemma_key_in_table(tu, key);
        let (lo, hi) = range->0;
        lemma_key_le_transitive(lo, tu.first_key, key);
        lemma_key_le_transitive(key, tu.last_key, hi);
        if key_lt(hi, tx.first_key) {
            lemma_key_le_lt(key, hi, tx.first_key);
        } else {
            lemma_key_lt_le(tx.last_key, lo, key);
        }
    } else {
        let i = choose|i: int| 0 <= i < low.len() && holds_key(
            tables[#[trigger] low[i]].entries(),
            key,
        );
        let c = low[i];
        assert(low.contains(c));
        level.lemma_filter_contains_rev(reach, c);
        level.lemma_filter_pred(reach, i);
        let ic = choose|ic: int| 0 <= ic < level.len() && level[ic] == c;
        let tc = tables[level[ic]];
        assert(table_sound(tc));
        lemma_key_in_table(tc, key);
        lemma_holds_key(tx.entries(), tx.first_key);
        assert(tx.entries()[0].0 == tx.first_key);
        lemma_key_in_table(tx, tx.first_key);
        let (lo, hi) = range->0;
        // The two tables of the level lie apart.
        if ic < ix {
            assert(key_lt(tables[level[ic]].last_key, tables[level[ix]].first_key));
        } else {
            assert(key_lt(tables[level[ix]].last_key, tables[level[ic]].first_key));
        }
        if key_lt(hi, tx.first_key) {
            if ic < ix {
                lemma_key_le_lt(key, tc.last_key, tx.first_key);
            } else {
                // The input starts after the table, which starts after
                // the range: the input would not be reached.
                lemma_key_le_lt(tc.first_key, hi, tx.first_key);
                lemma_key_le_lt(tx.first_key, tx.last_key, tc.first_key);
                lemma_key_lt_asymmetric(tc.first_key, tx.first_key);
            }
        } else {
            if ic < ix {
                // The input ends before the table, which ends before
                // the range: the input would not be reached.
                lemma_key_lt_le(tx.last_key, lo, tc.last_key);
                lemma_key_lt_le(tc.last_key, tx.first_key, tx.last_key);
                lemma_key_lt_asymmetric(tc.last_key, tx.last_key);
            } else {
                lemma_key_lt_le(tx.last_key, tc.first_key, key);
            }
        }
    }
}

/// The parts that the lower level is put together from when a leveled
/// task is applied: what is left of the level and the output are sorted
/// runs, their tables are those that were open or the new ones, and the
/// two runs lie apart from each other.
pub proof fn lemma_leveled_parts(
    s: StateView,
    task: LeveledTaskView,
    new: Seq<SsTableView>,
    next: int,
    block_size: usize,
    target: usize,
)
    requires
        consistent(s),
        ids_below(s, next),
        task_fits(s, CompactionTaskView::Leveled(task)),
        leveled_selects(s, task),
        levels_sorted(s),
        all_sorted(task_input_streams(s.tables, CompactionTaskView::Leveled(task))),
        tables_hold(
            new,
            output_runs(
                task_stream(s.tables, CompactionTaskView::Leveled(task)),
                task.is_lower_level_bottom_level,
                block_size,
                target,
            ),
            next,
        ),
    ensures
        ({
            let opened = with_tables(s, new);
            let out = table_ids(new);
            let level = s.levels[task.lower_level - 1].1;
            let rest = without(level, task.lower_level_sst_ids);
            &&& forall|x: usize| #[trigger]
                s.tables.contains_key(x) ==> opened.tables.contains_key(x) && opened.tables[x]
                    == s.tables[x]
            &&& forall|i: int|
                0 <= i < out.len() ==> opened.tables.contains_key(#[trigger] out[i])
                    && opened.tables[out[i]] == new[i]
            &&& forall|i: int|
                0 <= i < rest.len() ==> s.tables.contains_key(#[trigger] rest[i])
                    && level.contains(rest[i]) && !task.lower_level_sst_ids.contains(rest[i])
            &&& run_sorted(opened.tables, rest)
            &&& run_sorted(opened.tables, out)
            &&& forall|x: int, y: int|
                0 <= x < rest.len() && 0 <= y < out.len() ==> apart(
                    opened.tables[#[trigger] rest[x]],
                    opened.tables[#[trigger] out[y]],
                )
            &&& forall|x: int|
                0 <= x < rest.len() ==> key_le(
                    opened.tables[#[trigger] rest[x]].first_key,
                    opened.tables[rest[x]].last_key,
                )
            &&& forall|y: int|
                0 <= y < out.len() ==> key_le(
                    opened.tables[#[trigger] out[y]].first_key,
                    opened.tables[out[y]].last_key,
                )
        }),
{
    let whole = CompactionTaskView::Leveled(task);
    let out = table_ids(new);
    let opened = with_tables(s, new);
    let stream = task_stream(s.tables, whole);
    let t = task.lower_level - 1;
    let level = s.levels[t].1;
    let low = task.lower_level_sst_ids;
    let rest = without(level, low);
    lemma_task_stream_lookup(s.tables, whole, Seq::empty());
    lemma_output_sorted(stream, task.is_lower_level_bottom_level, block_size, target, new, next);
    assert forall|x: usize| placed_in(s, x) implies #[trigger] s.tables.contains_key(x) by {}
    assert forall|i: int, j: int| 0 <= i < out.len() && 0 <= j < out.len() && i != j implies out[i]
        != out[j] by {
        assert(out[i] == new[i].id && out[j] == new[j].id);
    }
    // The tables as they are open while the task is applied.
    assert forall|x: usize| #[trigger] s.tables.contains_key(x) implies opened.tables.contains_key(
        x,
    ) && opened.tables[x] == s.tables[x] by {
        crate::compact::executor::lemma_insert_tables_keeps(s.tables, new, x);
        if out.contains(x) {
            let k = choose|k: int| 0 <= k < out.len() && out[k] == x;
            assert(out[k] == new[k].id);
        }
    }
    assert forall|i: int| 0 <= i < out.len() implies opened.tables.contains_key(#[trigger] out[i])
        && opened.tables[out[i]] == new[i] by {
        assert(out[i] == new[i].id);
        crate::compact::placement::lemma_insert_tables_dom(s.tables, new, out[i]);
    }
    // What is left of the lower level and the output are sorted runs.
    assert(run_sorted(s.tables, level));
    lemma_run_sorted_without(s.tables, level, low);
    assert forall|i: int| 0 <= i < rest.len() implies s.tables.contains_key(#[trigger] rest[i])
        && level.contains(rest[i]) && !low.contains(rest[i]) by {
        assert(rest.contains(rest[i]));
        lemma_without_contains(level, low, rest[i]);
    }
    assert forall|i: int| 0 <= i < rest.len() implies opened.tables.contains_key(
        #[trigger] rest[i],
    ) && opened.tables[rest[i]] == s.tables[rest[i]] by {
        assert(s.tables.contains_key(rest[i]));
        assert(opened.tables[rest[i]] == s.tables[rest[i]]);
    }
    crate::compact::order::lemma_run_sorted_frame(s.tables, opened.tables, rest);
    assert(run_sorted(opened.tables, out)) by {
        assert forall|i: int, j: int| 0 <= i < j < out.len() implies key_lt(
            opened.tables[#[trigger] out[i]].last_key,
            opened.tables[#[trigger] out[j]].first_key,
        ) by {
            assert(key_lt(new[i].last_key, new[j].first_key));
        }
    }
    // They lie apart from each other.
    assert forall|x: int, y: int| 0 <= x < rest.len() && 0 <= y < out.len() implies apart(
        opened.tables[#[trigger] rest[x]],
        opened.tables[#[trigger] out[y]],
    ) by {
        let tx = s.tables[rest[x]];
        let ty = new[y];
        assert(opened.tables[rest[x]] == tx);
        assert(table_sound(ty));
        lemma_holds_key(ty.entries(), ty.first_key);
        lemma_holds_key(ty.entries(), ty.last_key);
        assert(ty.entries()[0].0 == ty.first_key);
        assert(ty.entries()[ty.entries().len() - 1].0 == ty.last_key);
        lemma_key_in_output(s, task, block_size, target, new, next, y, rest[x], ty.first_key);
        lemma_key_in_output(s, task, block_size, target, new, next, y, rest[x], ty.last_key);
    }
    assert forall|x: int| 0 <= x < rest.len() implies key_le(
        opened.tables[#[trigger] rest[x]].first_key,
        opened.tables[rest[x]].last_key,
    ) by {
        let tx = opened.tables[rest[x]];
        lemma_holds_key(tx.entries(), tx.first_key);
        assert(tx.entries()[0].0 == tx.first_key);
        lemma_key_in_table(tx, tx.first_key);
    }
    assert forall|y: int| 0 <= y < out.len() implies key_le(
        opened.tables[#[trigger] out[y]].first_key,
        opened.tables[out[y]].last_key,
    ) by {
        let ty = opened.tables[out[y]];
        lemma_holds_key(ty.entries(), ty.first_key);
        assert(ty.entries()[0].0 == ty.first_key);
        lemma_key_in_table(ty, ty.first_key);
    }
}

/// Every level is a sorted run without overlap after a leveled task has
/// been committed, where that held before and the task's input streams
/// are strictly sorted.
pub proof fn lemma_leveled_commit_keeps_levels_sorted(
    s: StateView,
    task: LeveledTaskView,
    new: Seq<SsTableView>,
    next: int,
    block_size: usize,
    target: usize,
)
    requires
        consistent(s),
        ids_below(s, next),
        task_fits(s, CompactionTaskView::Leveled(task)),
        leveled_selects(s, task),
        levels_sorted(s),
        all_sorted(task_input_streams(s.tables, CompactionTaskView::Leveled(task))),
        tables_hold(
            new,
            output_runs(
                task_stream(s.tables, CompactionTaskView::Leveled(task)),
                task.is_lower_level_bottom_level,
                block_size,
                target,
            ),
            next,
        ),
    ensures
        levels_sorted(committed(s, CompactionTaskView::Leveled(task), new)),
{
    let whole = CompactionTaskView::Leveled(task);
    let after = committed(s, whole, new);
    let out = table_ids(new);
    let opened = with_tables(s, new);
    let stream = task_stream(s.tables, whole);
    let t = task.lower_level - 1;
    let level = s.levels[t].1;
    let low = task.lower_level_sst_ids;
    let up = task.upper_level_sst_ids;
    let rest = without(level, low);
    let merged = merge_by_first_key(opened.tables, rest, out);
    lemma_task_stream_lookup(s.tables, whole, Seq::empty());
    lemma_output_sorted(stream, task.is_lower_level_bottom_level, block_size, target, new, next);
    lemma_commit_keeps_ids(s, whole, new, next);
    assert(after.levels[t].1 == merged);
    assert forall|x: usize| placed_in(after, x) implies #[trigger] after.tables.contains_key(x) by {}
    assert forall|i: int, j: int| 0 <= i < out.len() && 0 <= j < out.len() && i != j implies out[i]
        != out[j] by {
        assert(out[i] == new[i].id && out[j] == new[j].id);
    }
    lemma_leveled_parts(s, task, new, next, block_size, target);
    lemma_merge_runs(opened.tables, rest, out, 0, 0);
    assert forall|l: int| 0 <= l < after.levels.len() implies run_sorted(
        after.tables,
        (#[trigger] after.levels[l]).1,
    ) by {
        let ids = after.levels[l].1;
        assert forall|i: int| 0 <= i < ids.len() implies after.tables.contains_key(
            #[trigger] ids[i],
        ) by {
            assert(after.levels[l].1.contains(ids[i]));
            assert(placed_in(after, ids[i]));
        }
        assert(run_sorted(s.tables, s.levels[l].1));
        if l == t {
            assert forall|i: int| 0 <= i < ids.len() implies after.tables[#[trigger] ids[i]]
                == opened.tables[ids[i]] by {}
            crate::compact::order::lemma_run_sorted_frame(opened.tables, after.tables, ids);
        } else if task.upper_level is Some && task.upper_level->0 == l + 1 {
            lemma_run_sorted_without(s.tables, s.levels[l].1, up);
            lemma_old_run_sorted(s, whole, new, next, ids);
        } else {
            lemma_old_run_sorted(s, whole, new, next, ids);
        }
    }
}

/// A key of an output table of a leveled task lies on the far side of
/// every table of the lower level that the task leaves alone.
proof fn lemma_key_in_output(
    s: StateView,
    task: LeveledTaskView,
    block_size: usize,
    target: usize,
    new: Seq<SsTableView>,
    next: int,
    y: int,
    x: usize,
    key: Seq<u8>,
)
    requires
        leveled_selects(s, task),
        run_sorted(s.tables, s.levels[task.lower_level - 1].1),
        s.levels[task.lower_level - 1].1.contains(x),
        !task.lower_level_sst_ids.contains(x),
        all_sorted(task_input_streams(s.tables, CompactionTaskView::Leveled(task))),
        tables_hold(
            new,
            output_runs(
                task_stream(s.tables, CompactionTaskView::Leveled(task)),
                task.is_lower_level_bottom_level,
                block_size,
                target,
            ),
            next,
        ),
        0 <= y < new.len(),
        holds_key(new[y].entries(), key),
    ensures
        if right_of(s.tables[x], key_range(s.tables, task.upper_level_sst_ids)) {
            key_lt(key, s.tables[x].first_key)
        } else {
            key_lt(s.tables[x].last_key, key)
        },
{
    let whole = CompactionTaskView::Leveled(task);
    lemma_output_key_from_input(s.tables, whole, block_size, target, new, next, y, key);
    let j = choose|j: int|
        0 <= j < task_input_streams(s.tables, whole).len() && holds_key(
            #[trigger] task_input_streams(s.tables, whole)[j],
            key,
        );
    lemma_leveled_input_table(s.tables, task, j, key);
    lemma_untouched_apart(s, task, x, key);
}

/// A leveled task that the strategy generates takes from its lower level
/// just the tables that the keys of its upper tables reach.
pub proof fn lemma_generated_selects(
    ctrl: CompactionController,
    s: StateView,
    task: LeveledTaskView,
)
    requires
        ctrl.admits(s),
        ctrl.generated(s, Some(CompactionTaskView::Leveled(task))),
        levels_sorted(s),
        l0_sound(s),
    ensures
        leveled_selects(s, task),
{
    let c = ctrl->Leveled_0;
    if c.options.l0_triggers(s) {
        let b = choose|b: int|
            {
                &&& #[trigger] c.options.is_base_level(s, b)
                &&& Some(task) == Some(c.options.l0_task(s, b))
            };
    } else {
        let (p, m) = choose|p: int, m: usize|
            {
                &&& #[trigger] c.options.highest_priority(s, p)
                &&& #[trigger] crate::compact::leveled::is_oldest(s.levels[p].1, m)
                &&& Some(task) == Some(c.options.level_task(s, p, m))
            };
        assert(c.options.over_target(s, p));
        assert(p + 1 < c.options.max_levels);
        assert(run_sorted(s.tables, s.levels[p].1));
        let k = choose|k: int| 0 <= k < s.levels[p].1.len() && s.levels[p].1[k] == m;
        assert(s.tables.contains_key(s.levels[p].1[k]));
        assert(task.upper_level_sst_ids[0] == m);
    }
}

/// Every level is a sorted run without overlap, and every table of level
/// zero is sound.
pub open spec fn placement_sorted(s: StateView) -> bool {
    levels_sorted(s) && l0_sound(s)
}

/// After any commit every level is a sorted run without overlap and
/// every table of level zero is sound, where that held before, the
/// bookkeeping of ids was sound, and the task speaks of the placement as
/// it is.
pub proof fn lemma_commit_keeps_sorted(
    s: StateView,
    task: CompactionTaskView,
    new: Seq<SsTableView>,
    next: int,
    block_size: usize,
    target: usize,
)
    requires
        consistent(s),
        ids_below(s, next),
        task_fits(s, task),
        task is Tiered ==> crate::compact::placement::tiers_named(s, next),
        task is Leveled ==> leveled_selects(s, task->Leveled_0),
        placement_sorted(s),
        all_sorted(task_input_streams(s.tables, task)),
        tables_hold(
            new,
            output_runs(
                task_stream(s.tables, task),
                task.compact_to_bottom_level(),
                block_size,
                target,
            ),
            next,
        ),
    ensures
        placement_sorted(committed(s, task, new)),
{
    crate::compact::order::lemma_commit_keeps_l0_sound(s, task, new, next);
    match task {
        CompactionTaskView::Leveled(t) => {
            lemma_leveled_commit_keeps_levels_sorted(s, t, new, next, block_size, target);
        },
        _ => {
            crate::compact::order::lemma_commit_keeps_levels_sorted(
                s,
                task,
                new,
                next,
                block_size,
                target,
            );
        },
    }
}

/// In a placement that is in order every table placed is open and is
/// what its file says.
pub proof fn lemma_sorted_placement_is_open(s: StateView)
    requires
        placement_sorted(s),
    ensures
        crate::compact::executor::all_open(s),
{
    assert forall|l: int| 0 <= l < s.levels.len() implies crate::compact::executor::ids_open(
        s.tables,
        (#[trigger] s.levels[l]).1,
    ) by {
        assert(run_sorted(s.tables, s.levels[l].1));
    }
}

} // verus!
