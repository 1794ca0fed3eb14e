//! What a compaction keeps: the laws that relate its output to its
//! input.

use vstd::prelude::*;
use vstd::seq_lib::lemma_flatten_concat;
use crate::block::{entries_encodable, entry_encodable, Entry};
use crate::compact::CompactionTaskView;
use crate::compact::executor::{
    cut, id_tables, kept, live, output_runs, overlapping_stream, run_stream, table_streams,
    tables_hold, task_stream, tier_streams, MAX_TARGET_SST_SIZE,
};
use crate::iterators::{lookup, strictly_sorted};
use crate::iterators::concat_iterator::tables_entries_from;
use crate::iterators::laws::{
    all_keys_above, all_sorted, first_hit, lemma_lookup_below, lemma_merge_all_lookup,
    lemma_merge_two_lookup, lemma_sorted_cons, lemma_sorted_rest, or_else, visible,
};
use crate::table::SsTableView;
use crate::table::builder::{entry_cost, lemma_add, lemma_add_entries, BuilderView};

verus! {

/// No pair that survives the removal of tombstones is a tombstone.
pub proof fn lemma_live_has_no_tombstones(es: Seq<Entry>)
    ensures
        forall|i: int| 0 <= i < live(es).len() ==> (#[trigger] live(es)[i]).1.len() > 0,
    decreases es.len(),
{
    if es.len() > 0 {
        lemma_live_has_no_tombstones(es.skip(1));
        let rest = live(es.skip(1));
        assert forall|i: int| 0 <= i < live(es).len() implies (#[trigger] live(es)[i]).1.len()
            > 0 by {
            if es[0].1.len() > 0 && i > 0 {
                assert(live(es)[i] == rest[i - 1]);
            }
        }
    }
}

/// Removing tombstones keeps the keys above what they were above.
pub proof fn lemma_live_above(es: Seq<Entry>, x: Seq<u8>)
    requires
        all_keys_above(es, x),
    ensures
        all_keys_above(live(es), x),
    decreases es.len(),
{
    if es.len() > 0 {
        assert forall|i: int| 0 <= i < es.skip(1).len() implies crate::key::key_lt(
            x,
            (#[trigger] es.skip(1)[i]).0,
        ) by {
            assert(es.skip(1)[i] == es[i + 1]);
        }
        lemma_live_above(es.skip(1), x);
        let rest = live(es.skip(1));
        assert forall|i: int| 0 <= i < live(es).len() implies crate::key::key_lt(
            x,
            (#[trigger] live(es)[i]).0,
        ) by {
            if es[0].1.len() > 0 {
                if i > 0 {
                    assert(live(es)[i] == rest[i - 1]);
                } else {
                    assert(live(es)[0] == es[0]);
                }
            }
        }
    }
}

/// Removing the tombstones of a strictly sorted stream gives a strictly
/// sorted stream, which answers every lookup as a reader of the stream is
/// answered: with the value if there is one and it is not a tombstone.
pub proof fn lemma_live_lookup(es: Seq<Entry>, key: Seq<u8>)
    requires
        strictly_sorted(es),
    ensures
        strictly_sorted(live(es)),
        lookup(live(es), key) == visible(lookup(es, key)),
    decreases es.len(),
{
    if es.len() > 0 {
        lemma_sorted_rest(es);
        lemma_live_lookup(es.skip(1), key);
        lemma_live_above(es.skip(1), es[0].0);
        let rest = live(es.skip(1));
        if es[0].1.len() > 0 {
            lemma_sorted_cons(es[0], rest);
            assert(live(es).skip(1) =~= rest);
        }
        if es[0].0 == key {
            lemma_lookup_below(es.skip(1), es[0].0, key);
        }
    }
}

/// The tables that a stream is cut into hold, taken together, what the
/// builder held followed by the stream.
pub proof fn lemma_cut_flatten(es: Seq<Entry>, b: BuilderView, target: usize)
    ensures
        cut(es, b, target).flatten() == b.entries() + es,
    decreases es.len(),
{
    if es.len() == 0 {
        if b.entries().len() > 0 {
            seq![b.entries()].lemma_flatten_one_element();
            assert(seq![b.entries()].first() == b.entries());
        }
        assert(cut(es, b, target).flatten() =~= b.entries() + es);
    } else {
        let filled = b.add(es[0]);
        lemma_add_entries(b, es[0]);
        if filled.estimated_size() >= target {
            let fresh = BuilderView::empty(b.block_size);
            let rest = cut(es.skip(1), fresh, target);
            lemma_cut_flatten(es.skip(1), fresh, target);
            lemma_flatten_concat(seq![filled.entries()], rest);
            seq![filled.entries()].lemma_flatten_one_element();
            assert(seq![filled.entries()].first() == filled.entries());
            assert(fresh.done.flatten() =~= Seq::<Entry>::empty());
            assert(cut(es, b, target).flatten() =~= b.entries() + es);
        } else {
            lemma_cut_flatten(es.skip(1), filled, target);
            assert(cut(es, b, target).flatten() =~= b.entries() + es);
        }
    }
}

/// What holds of every pair in the builder and in the stream holds of
/// every pair of every table that the stream is cut into.
pub proof fn lemma_cut_all(
    es: Seq<Entry>,
    b: BuilderView,
    target: usize,
    p: spec_fn(Entry) -> bool,
)
    requires
        forall|i: int| 0 <= i < es.len() ==> p(#[trigger] es[i]),
        forall|i: int| 0 <= i < b.entries().len() ==> p(#[trigger] b.entries()[i]),
    ensures
        forall|i: int, j: int|
            0 <= i < cut(es, b, target).len() && 0 <= j < cut(es, b, target)[i].len() ==> p(
                #[trigger] cut(es, b, target)[i][j],
            ),
    decreases es.len(),
{
    if es.len() > 0 {
        let filled = b.add(es[0]);
        lemma_add_entries(b, es[0]);
        assert forall|i: int| 0 <= i < filled.entries().len() implies p(
            #[trigger] filled.entries()[i],
        ) by {
            if i < b.entries().len() {
                assert(filled.entries()[i] == b.entries()[i]);
            } else {
                assert(filled.entries()[i] == es[0]);
            }
        }
        assert forall|i: int| 0 <= i < es.skip(1).len() implies p(#[trigger] es.skip(1)[i]) by {
            assert(es.skip(1)[i] == es[i + 1]);
        }
        if filled.estimated_size() >= target {
            let fresh = BuilderView::empty(b.block_size);
            assert(fresh.entries() =~= Seq::<Entry>::empty()) by {
                assert(fresh.done.flatten() =~= Seq::<Entry>::empty());
            }
            lemma_cut_all(es.skip(1), fresh, target, p);
            let rest = cut(es.skip(1), fresh, target);
            let runs = cut(es, b, target);
            assert forall|i: int, j: int|
                0 <= i < runs.len() && 0 <= j < runs[i].len() implies p(#[trigger] runs[i][j]) by {
                if i > 0 {
                    assert(runs[i] == rest[i - 1]);
                    assert(p(rest[i - 1][j]));
                } else {
                    assert(runs[0] == filled.entries());
                    assert(p(filled.entries()[j]));
                }
            }
        } else {
            lemma_cut_all(es.skip(1), filled, target, p);
            let runs = cut(es, b, target);
            assert(runs == cut(es.skip(1), filled, target));
            assert forall|i: int, j: int|
                0 <= i < runs.len() && 0 <= j < runs[i].len() implies p(#[trigger] runs[i][j]) by {
                assert(p(cut(es.skip(1), filled, target)[i][j]));
            }
        }
    } else {
        let runs = cut(es, b, target);
        assert forall|i: int, j: int|
            0 <= i < runs.len() && 0 <= j < runs[i].len() implies p(#[trigger] runs[i][j]) by {
            assert(runs[i] == b.entries());
            assert(p(b.entries()[j]));
        }
    }
}

/// The most that the pairs can add to the size of a table, taken
/// together.
pub open spec fn entries_cost(es: Seq<Entry>) -> nat
    decreases es.len(),
{
    if es.len() == 0 {
        0
    } else {
        entry_cost(es[0]) + entries_cost(es.skip(1))
    }
}

/// Pairs whose size, taken together, stays below the target size go into
/// one table.
pub proof fn lemma_cut_below_target(es: Seq<Entry>, b: BuilderView, target: usize)
    requires
        b.wf(),
        entries_encodable(es),
        target <= MAX_TARGET_SST_SIZE,
        b.estimated_size() + entries_cost(es) < target,
        b.entries().len() + es.len() > 0,
    ensures
        cut(es, b, target) == seq![b.entries() + es],
    decreases es.len(),
{
    if es.len() == 0 {
        assert(b.entries() + es =~= b.entries());
    } else {
        let filled = b.add(es[0]);
        assert(entry_encodable(es[0]));
        lemma_add(b, es[0]);
        assert forall|i: int| 0 <= i < es.skip(1).len() implies entry_encodable(
            #[trigger] es.skip(1)[i],
        ) by {
            assert(es.skip(1)[i] == es[i + 1]);
        }
        lemma_cut_below_target(es.skip(1), filled, target);
        assert(filled.entries() + es.skip(1) =~= b.entries() + es);
    }
}

/// A compaction whose pairs, taken together, stay below the target size
/// writes exactly one table, unless it writes no pair at all.
pub proof fn lemma_output_below_target(
    stream: Seq<Entry>,
    compact_to_bottom_level: bool,
    block_size: usize,
    target: usize,
)
    requires
        entries_encodable(kept(stream, compact_to_bottom_level)),
        target <= MAX_TARGET_SST_SIZE,
        entries_cost(kept(stream, compact_to_bottom_level)) < target,
        kept(stream, compact_to_bottom_level).len() > 0,
    ensures
        output_runs(stream, compact_to_bottom_level, block_size, target) == seq![
            kept(stream, compact_to_bottom_level),
        ],
{
    let fresh = BuilderView::empty(block_size);
    crate::compact::executor::lemma_empty_builder(block_size);
    let es = kept(stream, compact_to_bottom_level);
    lemma_cut_below_target(es, fresh, target);
    assert(fresh.entries() + es =~= es);
}

/// The pairs of tables that hold the given runs are, table after table,
/// the runs one after another.
pub proof fn lemma_tables_hold_entries(
    tables: Seq<SsTableView>,
    runs: Seq<Seq<Entry>>,
    first_id: int,
    i: int,
)
    requires
        tables_hold(tables, runs, first_id),
        0 <= i <= tables.len(),
    ensures
        tables_entries_from(tables, i) == runs.skip(i).flatten(),
    decreases tables.len() - i,
{
    if i < tables.len() {
        lemma_tables_hold_entries(tables, runs, first_id, i + 1);
        assert(tables[i].entries() == runs[i]);
        assert(runs.skip(i).first() == runs[i]);
        assert(runs.skip(i).drop_first() =~= runs.skip(i + 1));
    } else {
        assert(runs.skip(i) =~= Seq::<Seq<Entry>>::empty());
    }
}

/// The tables that a compaction writes hold, table after table, the
/// pairs of its stream that it keeps.
pub proof fn lemma_output_entries(
    stream: Seq<Entry>,
    compact_to_bottom_level: bool,
    block_size: usize,
    target: usize,
    new: Seq<SsTableView>,
    first_id: int,
)
    requires
        tables_hold(
            new,
            output_runs(stream, compact_to_bottom_level, block_size, target),
            first_id,
        ),
    ensures
        tables_entries_from(new, 0) == kept(stream, compact_to_bottom_level),
{
    let runs = output_runs(stream, compact_to_bottom_level, block_size, target);
    let fresh = BuilderView::empty(block_size);
    lemma_tables_hold_entries(new, runs, first_id, 0);
    assert(runs.skip(0) =~= runs);
    lemma_cut_flatten(kept(stream, compact_to_bottom_level), fresh, target);
    assert(fresh.done.flatten() =~= Seq::<Entry>::empty());
    assert(fresh.entries() + kept(stream, compact_to_bottom_level) =~= kept(
        stream,
        compact_to_bottom_level,
    ));
}

/// No table that a compaction to the bottom level writes holds a
/// tombstone.
pub proof fn lemma_bottom_output_has_no_tombstones(
    stream: Seq<Entry>,
    block_size: usize,
    target: usize,
    new: Seq<SsTableView>,
    first_id: int,
)
    requires
        tables_hold(new, output_runs(stream, true, block_size, target), first_id),
    ensures
        forall|i: int, j: int|
            0 <= i < new.len() && 0 <= j < new[i].entries().len() ==> (#[trigger] new[i].entries()[
                j
            ]).1.len() > 0,
{
    let runs = output_runs(stream, true, block_size, target);
    let fresh = BuilderView::empty(block_size);
    let p = |e: Entry| e.1.len() > 0;
    lemma_live_has_no_tombstones(stream);
    assert(fresh.entries() =~= Seq::<Entry>::empty()) by {
        assert(fresh.done.flatten() =~= Seq::<Entry>::empty());
    }
    assert forall|i: int| 0 <= i < live(stream).len() implies p(#[trigger] live(stream)[i]) by {}
    lemma_cut_all(live(stream), fresh, target, p);
    assert forall|i: int, j: int|
        0 <= i < new.len() && 0 <= j < new[i].entries().len() implies (#[trigger] new[i].entries()[
            j
        ]).1.len() > 0 by {
        assert(new[i].entries() == runs[i]);
        assert(p(runs[i][j]));
    }
}

/// The streams that a task merges, those of higher priority first.
pub open spec fn task_input_streams(
    tables: Map<usize, SsTableView>,
    task: CompactionTaskView,
) -> Seq<Seq<Entry>> {
    match task {
        CompactionTaskView::ForceFullCompaction { l0_sstables, l1_sstables } => table_streams(
            id_tables(tables, l0_sstables),
        ) + seq![run_stream(tables, l1_sstables)],
        CompactionTaskView::Simple(task) => (if task.upper_level is None {
            table_streams(id_tables(tables, task.upper_level_sst_ids))
        } else {
            seq![run_stream(tables, task.upper_level_sst_ids)]
        }) + seq![run_stream(tables, task.lower_level_sst_ids)],
        CompactionTaskView::Leveled(task) => (if task.upper_level is None {
            table_streams(id_tables(tables, task.upper_level_sst_ids))
        } else {
            seq![run_stream(tables, task.upper_level_sst_ids)]
        }) + seq![run_stream(tables, task.lower_level_sst_ids)],
        CompactionTaskView::Tiered(task) => tier_streams(tables, task.tiers),
    }
}

/// Streams followed by further streams answer every lookup as the first
/// ones do, or, where none of them holds the key, as the further ones
/// do.
pub proof fn lemma_first_hit_concat(a: Seq<Seq<Entry>>, b: Seq<Seq<Entry>>, key: Seq<u8>)
    ensures
        first_hit(a + b, key) == or_else(first_hit(a, key), first_hit(b, key)),
    decreases a.len(),
{
    if a.len() == 0 {
        assert(a + b =~= b);
    } else {
        assert((a + b).skip(1) =~= a.skip(1) + b);
        assert((a + b)[0] == a[0]);
        lemma_first_hit_concat(a.skip(1), b, key);
    }
}

/// One stream answers as itself.
pub proof fn lemma_first_hit_one(a: Seq<Entry>, key: Seq<u8>)
    ensures
        first_hit(seq![a], key) == lookup(a, key),
{
    assert(seq![a].skip(1) =~= Seq::<Seq<Entry>>::empty());
    assert(first_hit(seq![a].skip(1), key) is None);
}

/// The stream that a task compacts is strictly sorted and answers every
/// lookup as the task's input streams do, asked in order of priority,
/// provided each input stream is strictly sorted.
pub proof fn lemma_task_stream_lookup(
    tables: Map<usize, SsTableView>,
    task: CompactionTaskView,
    key: Seq<u8>,
)
    requires
        all_sorted(task_input_streams(tables, task)),
    ensures
        strictly_sorted(task_stream(tables, task)),
        lookup(task_stream(tables, task), key) == first_hit(task_input_streams(tables, task), key),
{
    let inputs = task_input_streams(tables, task);
    match task {
        CompactionTaskView::Tiered(t) => {
            lemma_merge_all_lookup(inputs, key);
        },
        _ => {
            let (upper_ids, lower_ids, overlapping) = match task {
                CompactionTaskView::ForceFullCompaction { l0_sstables, l1_sstables } => (
                    l0_sstables,
                    l1_sstables,
                    true,
                ),
                CompactionTaskView::Simple(t) => (
                    t.upper_level_sst_ids,
                    t.lower_level_sst_ids,
                    t.upper_level is None,
                ),
                CompactionTaskView::Leveled(t) => (
                    t.upper_level_sst_ids,
                    t.lower_level_sst_ids,
                    t.upper_level is None,
                ),
                _ => arbitrary(),
            };
            let lower = run_stream(tables, lower_ids);
            let uppers = if overlapping {
                table_streams(id_tables(tables, upper_ids))
            } else {
                seq![run_stream(tables, upper_ids)]
            };
            assert(inputs == uppers + seq![lower]);
            assert(strictly_sorted(lower)) by {
                assert(inputs[uppers.len() as int] == lower);
            }
            assert(all_sorted(uppers)) by {
                assert forall|i: int| 0 <= i < uppers.len() implies strictly_sorted(
                    #[trigger] uppers[i],
                ) by {
                    assert(inputs[i] == uppers[i]);
                }
            }
            lemma_first_hit_concat(uppers, seq![lower], key);
            lemma_first_hit_one(lower, key);
            if overlapping {
                lemma_merge_all_lookup(uppers, key);
                lemma_merge_two_lookup(overlapping_stream(tables, upper_ids), lower, key);
            } else {
                let upper = run_stream(tables, upper_ids);
                assert(uppers[0] == upper);
                lemma_first_hit_one(upper, key);
                lemma_merge_two_lookup(upper, lower, key);
            }
        },
    }
}

/// What a lookup in the tables that a compaction wrote gives: what the
/// task's input streams give, asked in order of priority; but at the
/// bottom level a tombstone reads as no value.
pub open spec fn compacted_answer(
    tables: Map<usize, SsTableView>,
    task: CompactionTaskView,
    key: Seq<u8>,
) -> Option<Seq<u8>> {
    let answer = first_hit(task_input_streams(tables, task), key);
    if task.compact_to_bottom_level() {
        visible(answer)
    } else {
        answer
    }
}

/// The tables that a compaction writes form a strictly sorted run that
/// answers every lookup as the inputs did, provided each input stream is
/// strictly sorted.
pub proof fn lemma_compaction_preserves_lookups(
    tables: Map<usize, SsTableView>,
    task: CompactionTaskView,
    block_size: usize,
    target: usize,
    new: Seq<SsTableView>,
    first_id: int,
    key: Seq<u8>,
)
    requires
        all_sorted(task_input_streams(tables, task)),
        tables_hold(
            new,
            output_runs(
                task_stream(tables, task),
                task.compact_to_bottom_level(),
                block_size,
                target,
            ),
            first_id,
        ),
    ensures
        strictly_sorted(tables_entries_from(new, 0)),
        lookup(tables_entries_from(new, 0), key) == compacted_answer(tables, task, key),
{
    let stream = task_stream(tables, task);
    lemma_task_stream_lookup(tables, task, key);
    lemma_output_entries(
        stream,
        task.compact_to_bottom_level(),
        block_size,
        target,
        new,
        first_id,
    );
    if task.compact_to_bottom_level() {
        lemma_live_lookup(stream, key);
    }
}

} // verus!
