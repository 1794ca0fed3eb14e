//! What a reader sees: the value of a key is looked for in the tables of
//! level zero, newest first, then level by level, and a committed
//! compaction does not change what is found.

use vstd::prelude::*;
use crate::block::Entry;
use crate::compact::{CompactionController, CompactionTaskView};
use crate::compact::executor::{
    committed, id_tables, output_runs, run_stream, table_ids, table_streams, tables_hold,
    task_stream, tier_streams, with_tables,
};
use crate::compact::laws::{
    compacted_answer, lemma_compaction_preserves_lookups, lemma_first_hit_concat,
    lemma_first_hit_one, task_input_streams,
};
use crate::compact::leveled::merge_by_first_key;
use crate::compact::order::{l0_sound, levels_sorted};
use crate::compact::placement::{
    as_leveled, consistent, ids_below, lemma_apply_as_leveled, lemma_commit_keeps_ids,
    lemma_committed_table, lemma_without_self, placed_in, task_fits, tiers_named,
};
use crate::compact::tiered::{
    lemma_oldest_removed_unique, oldest_removed_tier, output_tier, surviving_tiers, tier_ids,
    tiered_apply, TieredTaskView,
};
use crate::iterators::lookup;
use crate::iterators::concat_iterator::tables_entries_from;
use crate::iterators::laws::{all_sorted, first_hit, or_else, visible};
use crate::lsm_storage::StateView;
use crate::table::SsTableView;

verus! {

/// The streams of the tables of level zero, newest first.
pub open spec fn level0_streams(s: StateView) -> Seq<Seq<Entry>> {
    table_streams(id_tables(s.tables, s.l0))
}

/// What is stored under `key`: what the first table of level zero that
/// holds the key says, or else what the first level that holds it says.
/// A tombstone counts as stored.
pub open spec fn search(s: StateView, key: Seq<u8>) -> Option<Seq<u8>> {
    or_else(first_hit(level0_streams(s), key), first_hit(tier_streams(s.tables, s.levels), key))
}

/// What a reader gets for `key`: the value stored, unless it is a
/// tombstone.
pub open spec fn read(s: StateView, key: Seq<u8>) -> Option<Seq<u8>> {
    visible(search(s, key))
}

/// The task takes whole levels that lie next to each other: a full
/// compaction all of level zero and the first level, a simple leveled
/// task all of its upper level and of the level right below it.  Where
/// tombstones are dropped the lower level is the last one.
pub open spec fn takes_adjacent_levels(s: StateView, task: CompactionTaskView) -> bool {
    let t = as_leveled(task);
    &&& task is Simple || task is ForceFullCompaction
    &&& match t.upper_level {
        None => t.upper_level_sst_ids == s.l0 && t.lower_level == 1,
        Some(u) => t.upper_level_sst_ids == s.levels[u - 1].1 && t.lower_level == u + 1,
    }
    &&& task.compact_to_bottom_level() ==> t.lower_level == s.levels.len()
}

/// Tables that are the same answer the same.
pub proof fn lemma_run_stream_frame(
    before: Map<usize, SsTableView>,
    after: Map<usize, SsTableView>,
    ids: Seq<usize>,
)
    requires
        forall|i: int| 0 <= i < ids.len() ==> after[#[trigger] ids[i]] == before[ids[i]],
    ensures
        run_stream(after, ids) == run_stream(before, ids),
        table_streams(id_tables(after, ids)) == table_streams(id_tables(before, ids)),
{
    assert(id_tables(after, ids) =~= id_tables(before, ids));
}

/// The stream of the run that the new tables form after the commit is
/// the stream of the new tables.
pub proof fn lemma_output_run_stream(
    s: StateView,
    task: CompactionTaskView,
    new: Seq<SsTableView>,
    next: int,
)
    requires
        ids_below(s, next),
        forall|i: int| 0 <= i < new.len() ==> (#[trigger] new[i]).id == next + i,
        forall|i: int|
            0 <= i < new.len() ==> committed(s, task, new).tables.contains_key(
                (#[trigger] new[i]).id,
            ),
    ensures
        run_stream(committed(s, task, new).tables, table_ids(new)) == tables_entries_from(new, 0),
{
    let after = committed(s, task, new);
    let out = table_ids(new);
    assert forall|i: int| 0 <= i < out.len() implies after.tables[#[trigger] out[i]] == new[i] by {
        assert(out[i] == new[i].id);
        lemma_committed_table(s, task, new, next, out[i]);
        let k = choose|k: int| 0 <= k < new.len() && #[trigger] new[k] == after.tables[out[i]];
        assert(new[k].id == next + k);
    }
    assert(id_tables(after.tables, out) =~= new);
}

/// Streams answer as those before a position do, or else as those from
/// the position on.
pub proof fn lemma_first_hit_split(streams: Seq<Seq<Entry>>, i: int, key: Seq<u8>)
    requires
        0 <= i <= streams.len(),
    ensures
        first_hit(streams, key) == or_else(
            first_hit(streams.take(i), key),
            first_hit(streams.skip(i), key),
        ),
{
    assert(streams =~= streams.take(i) + streams.skip(i));
    lemma_first_hit_concat(streams.take(i), streams.skip(i), key);
}

/// A table that is placed after the commit and was placed before it is
/// as it was.
pub proof fn lemma_kept_tables(
    s: StateView,
    task: CompactionTaskView,
    new: Seq<SsTableView>,
    next: int,
    ids: Seq<usize>,
)
    requires
        consistent(s),
        ids_below(s, next),
        forall|i: int| 0 <= i < new.len() ==> (#[trigger] new[i]).id == next + i,
        forall|i: int|
            0 <= i < ids.len() ==> s.tables.contains_key(#[trigger] ids[i]) && committed(
                s,
                task,
                new,
            ).tables.contains_key(ids[i]),
    ensures
        forall|i: int|
            0 <= i < ids.len() ==> committed(s, task, new).tables[#[trigger] ids[i]]
                == s.tables[ids[i]],
{
    let out = table_ids(new);
    assert forall|i: int| 0 <= i < ids.len() implies committed(s, task, new).tables[
        #[trigger] ids[i]
    ] == s.tables[ids[i]] by {
        lemma_committed_table(s, task, new, next, ids[i]);
        if out.contains(ids[i]) {
            let k = choose|k: int| 0 <= k < out.len() && out[k] == ids[i];
            assert(out[k] == new[k].id);
        }
    }
}

/// What a reader gets for a key is the same before and after the commit
/// of a task that takes whole levels next to each other, where the
/// placement was in order and the new tables hold the task's output.
pub proof fn lemma_levels_commit_preserves_reads(
    s: StateView,
    task: CompactionTaskView,
    new: Seq<SsTableView>,
    next: int,
    block_size: usize,
    target: usize,
    key: Seq<u8>,
)
    requires
        consistent(s),
        ids_below(s, next),
        task_fits(s, task),
        takes_adjacent_levels(s, task),
        all_sorted(task_input_streams(s.tables, task)),
        tables_hold(
            new,
            output_runs(
                task_stream(s.tables, task),
                task.compact_to_bottom_level(),
                block_size,
                target,
            ),
            next,
        ),
    ensures
        read(committed(s, task, new), key) == read(s, key),
        !task.compact_to_bottom_level() ==> search(committed(s, task, new), key) == search(s, key),
{
    let after = committed(s, task, new);
    let out = table_ids(new);
    let opened = with_tables(s, new);
    let t = as_leveled(task);
    let lower = t.lower_level - 1;
    let before_levels = tier_streams(s.tables, s.levels);
    let after_levels = tier_streams(after.tables, after.levels);
    let inputs = task_input_streams(s.tables, task);
    let answer = compacted_answer(s.tables, task, key);
    lemma_commit_keeps_ids(s, task, new, next);
    lemma_apply_as_leveled(opened, task, out);
    lemma_compaction_preserves_lookups(s.tables, task, block_size, target, new, next, key);
    assert forall|x: usize| placed_in(after, x) implies #[trigger] after.tables.contains_key(x) by {}
    assert forall|x: usize| placed_in(s, x) implies #[trigger] s.tables.contains_key(x) by {}
    // The lower level holds the output.
    lemma_without_self(opened.levels[lower].1);
    assert(merge_by_first_key(opened.tables, Seq::<usize>::empty(), out) =~= out);
    assert(after.levels[lower].1 == out);
    assert forall|i: int| 0 <= i < new.len() implies after.tables.contains_key(
        (#[trigger] new[i]).id,
    ) by {
        assert(out[i] == new[i].id);
        assert(after.levels[lower].1.contains(out[i]));
        assert(placed_in(after, new[i].id));
    }
    lemma_output_run_stream(s, task, new, next);
    assert(after_levels[lower] == tables_entries_from(new, 0));
    assert(lookup(after_levels[lower], key) == answer);
    // The levels that the task does not name are as they were.
    assert forall|l: int|
        0 <= l < s.levels.len() && l != lower && !(t.upper_level is Some && t.upper_level->0 == l
            + 1) implies #[trigger] after_levels[l] == before_levels[l] by {
        let ids = s.levels[l].1;
        assert(after.levels[l].1 == ids);
        assert forall|i: int| 0 <= i < ids.len() implies s.tables.contains_key(#[trigger] ids[i])
            && after.tables.contains_key(ids[i]) by {
            assert(s.levels[l].1.contains(ids[i]));
            assert(after.levels[l].1.contains(ids[i]));
            assert(placed_in(s, ids[i]));
            assert(placed_in(after, ids[i]));
        }
        lemma_kept_tables(s, task, new, next, ids);
        lemma_run_stream_frame(s.tables, after.tables, ids);
    }
    let rest_before = before_levels.skip(lower + 1);
    let rest_after = after_levels.skip(lower + 1);
    assert(rest_after =~= rest_before);
    if task.compact_to_bottom_level() {
        assert(rest_before =~= Seq::<Seq<Entry>>::empty());
    }
    lemma_first_hit_split(before_levels, lower, key);
    lemma_first_hit_split(after_levels, lower, key);
    assert(first_hit(before_levels.skip(lower), key) == or_else(
        lookup(before_levels[lower], key),
        first_hit(rest_before, key),
    )) by {
        assert(before_levels.skip(lower).skip(1) =~= rest_before);
    }
    assert(first_hit(after_levels.skip(lower), key) == or_else(
        answer,
        first_hit(rest_after, key),
    )) by {
        assert(after_levels.skip(lower).skip(1) =~= rest_after);
    }
    match t.upper_level {
        None => {
            // Level zero is emptied into the first level.
            lemma_without_self(s.l0);
            assert(after.l0 =~= Seq::<usize>::empty());
            assert(level0_streams(after) =~= Seq::<Seq<Entry>>::empty());
            assert(before_levels.take(0) =~= Seq::<Seq<Entry>>::empty());
            assert(after_levels.take(0) =~= Seq::<Seq<Entry>>::empty());
            assert(inputs == level0_streams(s) + seq![before_levels[0]]);
            lemma_first_hit_concat(level0_streams(s), seq![before_levels[0]], key);
            lemma_first_hit_one(before_levels[0], key);
        },
        Some(u) => {
            // The upper level is emptied into the level below it.
            let upper = u - 1;
            lemma_without_self(opened.levels[upper].1);
            assert(after.levels[upper].1 =~= Seq::<usize>::empty());
            assert(after_levels[upper] =~= Seq::<Entry>::empty());
            assert(s.l0 == after.l0);
            assert forall|i: int| 0 <= i < s.l0.len() implies s.tables.contains_key(
                #[trigger] s.l0[i],
            ) && after.tables.contains_key(s.l0[i]) by {
                assert(s.l0.contains(s.l0[i]));
                assert(placed_in(s, s.l0[i]));
                assert(placed_in(after, s.l0[i]));
            }
            lemma_kept_tables(s, task, new, next, s.l0);
            lemma_run_stream_frame(s.tables, after.tables, s.l0);
            let head_before = before_levels.take(upper);
            let head_after = after_levels.take(upper);
            assert(head_after =~= head_before);
            lemma_first_hit_split(before_levels.take(lower), upper, key);
            lemma_first_hit_split(after_levels.take(lower), upper, key);
            assert(before_levels.take(lower).take(upper) =~= head_before);
            assert(after_levels.take(lower).take(upper) =~= head_after);
            assert(before_levels.take(lower).skip(upper) =~= seq![before_levels[upper]]);
            assert(after_levels.take(lower).skip(upper) =~= seq![after_levels[upper]]);
            lemma_first_hit_one(before_levels[upper], key);
            lemma_first_hit_one(after_levels[upper], key);
            assert(inputs == seq![before_levels[upper]] + seq![before_levels[lower]]);
            lemma_first_hit_concat(seq![before_levels[upper]], seq![before_levels[lower]], key);
            lemma_first_hit_one(before_levels[lower], key);
        },
    }
}

/// The task takes the tiers from position `a` up to position `b`, which
/// lie next to each other.  Where tombstones are dropped they reach to
/// the last tier.
pub open spec fn takes_tiers(s: StateView, task: TieredTaskView, a: int, b: int) -> bool {
    &&& 0 <= a < b <= s.levels.len()
    &&& task.tiers == s.levels.subrange(a, b)
    &&& task.bottom_tier_included ==> b == s.levels.len()
}

/// A filter that lets everything through changes nothing, and one that
/// lets nothing through leaves nothing.
pub proof fn lemma_filter_all_or_none<A>(list: Seq<A>, keep: spec_fn(A) -> bool)
    ensures
        (forall|i: int| 0 <= i < list.len() ==> keep(#[trigger] list[i])) ==> list.filter(keep)
            == list,
        (forall|i: int| 0 <= i < list.len() ==> !keep(#[trigger] list[i])) ==> list.filter(keep)
            == Seq::<A>::empty(),
    decreases list.len(),
{
    reveal(Seq::filter);
    if list.len() > 0 {
        let init = list.drop_last();
        lemma_filter_all_or_none(init, keep);
        if forall|i: int| 0 <= i < list.len() ==> keep(#[trigger] list[i]) {
            assert forall|i: int| 0 <= i < init.len() implies keep(#[trigger] init[i]) by {
                assert(init[i] == list[i]);
            }
            assert(keep(list[list.len() - 1]));
            assert(init.push(list.last()) =~= list);
        }
        if forall|i: int| 0 <= i < list.len() ==> !keep(#[trigger] list[i]) {
            assert forall|i: int| 0 <= i < init.len() implies !keep(#[trigger] init[i]) by {
                assert(init[i] == list[i]);
            }
            assert(!keep(list[list.len() - 1]));
        }
    } else {
        assert(list.filter(keep) =~= list);
    }
}

/// The tiers of the placement after a task that takes the tiers from `a`
/// up to `b` has been applied: the tiers before `a`, the tier formed by
/// the output, and the tiers from `b` on.
pub proof fn lemma_tiers_after(
    s: StateView,
    task: TieredTaskView,
    output: Seq<usize>,
    a: int,
    b: int,
)
    requires
        tier_ids(s.levels).no_duplicates(),
        takes_tiers(s, task, a, b),
    ensures
        tiered_apply(s, task, output).levels == s.levels.take(a) + output_tier(output)
            + s.levels.skip(b),
        tiered_apply(s, task, output).l0 == s.l0,
        task_fits(s, CompactionTaskView::Tiered(task)),
{
    let ids = tier_ids(task.tiers);
    let all = tier_ids(s.levels);
    let keep = |t: (usize, Seq<usize>)| !tier_ids(task.tiers).contains(t.0);
    // Which tiers of the placement the task removes.
    assert forall|l: int| 0 <= l < s.levels.len() implies (ids.contains(
        (#[trigger] s.levels[l]).0,
    ) <==> a <= l < b) by {
        assert(all[l] == s.levels[l].0);
        if a <= l < b {
            assert(task.tiers[l - a] == s.levels[l]);
            assert(ids[l - a] == s.levels[l].0);
        }
        if ids.contains(s.levels[l].0) {
            let i = choose|i: int| 0 <= i < ids.len() && ids[i] == s.levels[l].0;
            assert(task.tiers[i] == s.levels[a + i]);
            assert(all[a + i] == s.levels[a + i].0);
        }
    }
    assert(oldest_removed_tier(s, task, b - 1));
    lemma_oldest_removed_unique(s, task, b - 1);
    let front = s.levels.take(b - 1);
    let head = s.levels.take(a);
    let tail = s.levels.subrange(a, b - 1);
    assert(front =~= head + tail);
    Seq::filter_distributes_over_add(head, tail, keep);
    lemma_filter_all_or_none(head, keep);
    lemma_filter_all_or_none(tail, keep);
    assert forall|i: int| 0 <= i < head.len() implies keep(#[trigger] head[i]) by {
        assert(head[i] == s.levels[i]);
    }
    assert forall|i: int| 0 <= i < tail.len() implies !keep(#[trigger] tail[i]) by {
        assert(tail[i] == s.levels[a + i]);
    }
    assert(surviving_tiers(front, task.tiers) =~= head);
    assert forall|i: int| 0 <= i < task.tiers.len() implies crate::compact::placement::is_tier_of(
        s,
        #[trigger] task.tiers[i],
    ) by {
        assert(s.levels[a + i] == task.tiers[i]);
    }
}

/// What a reader gets for a key is the same before and after the commit
/// of a tiered task that takes tiers next to each other, where the
/// placement was in order and the new tables hold the task's output.
pub proof fn lemma_tiers_commit_preserves_reads(
    s: StateView,
    task: TieredTaskView,
    new: Seq<SsTableView>,
    next: int,
    block_size: usize,
    target: usize,
    a: int,
    b: int,
    key: Seq<u8>,
)
    requires
        consistent(s),
        ids_below(s, next),
        tiers_named(s, next),
        takes_tiers(s, task, a, b),
        all_sorted(task_input_streams(s.tables, CompactionTaskView::Tiered(task))),
        tables_hold(
            new,
            output_runs(
                task_stream(s.tables, CompactionTaskView::Tiered(task)),
                task.bottom_tier_included,
                block_size,
                target,
            ),
            next,
        ),
    ensures
        read(committed(s, CompactionTaskView::Tiered(task), new), key) == read(s, key),
        !task.bottom_tier_included ==> search(
            committed(s, CompactionTaskView::Tiered(task), new),
            key,
        ) == search(s, key),
{
    let whole = CompactionTaskView::Tiered(task);
    let after = committed(s, whole, new);
    let out = table_ids(new);
    let opened = with_tables(s, new);
    let before_levels = tier_streams(s.tables, s.levels);
    let after_levels = tier_streams(after.tables, after.levels);
    let inputs = task_input_streams(s.tables, whole);
    let answer = compacted_answer(s.tables, whole, key);
    let mid = output_tier(out);
    lemma_tiers_after(opened, task, out, a, b);
    lemma_commit_keeps_ids(s, whole, new, next);
    lemma_compaction_preserves_lookups(s.tables, whole, block_size, target, new, next, key);
    assert(after.levels == s.levels.take(a) + mid + s.levels.skip(b));
    assert forall|x: usize| placed_in(after, x) implies #[trigger] after.tables.contains_key(x) by {}
    assert forall|x: usize| placed_in(s, x) implies #[trigger] s.tables.contains_key(x) by {}
    // The tiers that the task does not take are as they were.
    assert forall|l: int| 0 <= l < a || b <= l < s.levels.len() implies run_stream(
        after.tables,
        (#[trigger] s.levels[l]).1,
    ) == run_stream(s.tables, s.levels[l].1) by {
        let ids = s.levels[l].1;
        let m = if l < a {
            l
        } else {
            a + mid.len() + (l - b)
        };
        assert(after.levels[m] == s.levels[l]);
        assert forall|i: int| 0 <= i < ids.len() implies s.tables.contains_key(#[trigger] ids[i])
            && after.tables.contains_key(ids[i]) by {
            assert(s.levels[l].1.contains(ids[i]));
            assert(after.levels[m].1.contains(ids[i]));
            assert(placed_in(s, ids[i]));
            assert(placed_in(after, ids[i]));
        }
        lemma_kept_tables(s, whole, new, next, ids);
        lemma_run_stream_frame(s.tables, after.tables, ids);
    }
    assert(s.l0 == after.l0);
    assert forall|i: int| 0 <= i < s.l0.len() implies s.tables.contains_key(#[trigger] s.l0[i])
        && after.tables.contains_key(s.l0[i]) by {
        assert(s.l0.contains(s.l0[i]));
        assert(placed_in(s, s.l0[i]));
        assert(placed_in(after, s.l0[i]));
    }
    lemma_kept_tables(s, whole, new, next, s.l0);
    lemma_run_stream_frame(s.tables, after.tables, s.l0);
    let head = before_levels.take(a);
    let seg = before_levels.subrange(a, b);
    let tail = before_levels.skip(b);
    assert(before_levels =~= head + seg + tail);
    assert(inputs =~= seg) by {
        assert forall|i: int| 0 <= i < seg.len() implies inputs[i] == seg[i] by {
            assert(task.tiers[i] == s.levels[a + i]);
        }
    }
    // The stream of the tier that the output forms.
    let mid_streams = tier_streams(after.tables, mid);
    assert(after_levels =~= head + mid_streams + tail) by {
        assert forall|m: int| 0 <= m < after_levels.len() implies after_levels[m] == (head
            + mid_streams + tail)[m] by {
            if m < a {
                assert(after.levels[m] == s.levels[m]);
            } else if m < a + mid.len() {
                assert(after.levels[m] == mid[m - a]);
            } else {
                let l = b + (m - a - mid.len());
                assert(after.levels[m] == s.levels[l]);
            }
        }
    }
    assert(first_hit(mid_streams, key) == answer) by {
        if out.len() > 0 {
            assert(after.levels[a] == mid[0]);
            assert forall|i: int| 0 <= i < new.len() implies after.tables.contains_key(
                (#[trigger] new[i]).id,
            ) by {
                assert(out[i] == new[i].id);
                assert(after.levels[a].1.contains(out[i]));
                assert(placed_in(after, new[i].id));
            }
            lemma_output_run_stream(s, whole, new, next);
            assert(mid_streams =~= seq![tables_entries_from(new, 0)]);
            lemma_first_hit_one(tables_entries_from(new, 0), key);
        } else {
            assert(new.len() == 0);
            assert(mid_streams =~= Seq::<Seq<Entry>>::empty());
        }
    }
    lemma_first_hit_concat(head + seg, tail, key);
    lemma_first_hit_concat(head, seg, key);
    lemma_first_hit_concat(head + mid_streams, tail, key);
    lemma_first_hit_concat(head, mid_streams, key);
    if task.bottom_tier_included {
        assert(tail =~= Seq::<Seq<Entry>>::empty());
    }
}

/// What a reader gets for any key is the same before and after the
/// commit of a task that the simple leveled or the tiered strategy
/// generates, where the placement was in order and the new tables hold
/// the task's output.
pub proof fn lemma_generated_commit_preserves_reads(
    ctrl: CompactionController,
    s: StateView,
    task: CompactionTaskView,
    new: Seq<SsTableView>,
    next: int,
    block_size: usize,
    target: usize,
    key: Seq<u8>,
)
    requires
        ctrl is Simple || ctrl is Tiered,
        ctrl.admits(s),
        ctrl.generated(s, Some(task)),
        consistent(s),
        ids_below(s, next),
        ctrl is Tiered ==> tiers_named(s, next),
        levels_sorted(s),
        l0_sound(s),
        tables_hold(
            new,
            output_runs(
                task_stream(s.tables, task),
                task.compact_to_bottom_level(),
                block_size,
                target,
            ),
            next,
        ),
    ensures
        read(committed(s, task, new), key) == read(s, key),
{
    crate::compact::order::lemma_generated_inputs_sorted(ctrl, s, task);
    crate::compact::placement::lemma_generated_fits(ctrl, s, task);
    match ctrl {
        CompactionController::Simple(c) => {
            let t = task->Simple_0;
            let i = choose|i: int|
                {
                    &&& 0 <= i < c.options.max_levels
                    &&& #[trigger] c.options.triggers(s, i)
                    &&& forall|j: int| 0 <= j < i ==> !c.options.triggers(s, j)
                    &&& t == c.options.task_at(s, i)
                };
            assert(takes_adjacent_levels(s, task));
            lemma_levels_commit_preserves_reads(s, task, new, next, block_size, target, key);
        },
        CompactionController::Tiered(c) => {
            let t = task->Tiered_0;
            let n = s.levels.len() as int;
            let (a, b) = if c.options.space_amplification_triggers(s) {
                (0int, n)
            } else if exists|k: int| c.options.size_ratio_triggers(s, k) {
                let k = choose|k: int|
                    {
                        &&& #[trigger] c.options.first_size_ratio_width(s, k)
                        &&& Some(t) == Some(
                            TieredTaskView {
                                tiers: s.levels.take(k),
                                bottom_tier_included: false,
                            },
                        )
                    };
                (0int, k)
            } else {
                (c.options.sorted_runs_start(), n)
            };
            assert(t.tiers =~= s.levels.subrange(a, b));
            lemma_tiers_commit_preserves_reads(s, t, new, next, block_size, target, a, b, key);
        },
        _ => {},
    }
}

/// What a reader gets for any key is the same before and after a full
/// compaction is committed, where the placement has the one level that
/// the compaction fills, was in order, and the new tables hold the
/// output.
pub proof fn lemma_full_commit_preserves_reads(
    s: StateView,
    new: Seq<SsTableView>,
    next: int,
    block_size: usize,
    target: usize,
    key: Seq<u8>,
)
    requires
        s.levels.len() == 1,
        consistent(s),
        ids_below(s, next),
        levels_sorted(s),
        l0_sound(s),
        tables_hold(
            new,
            output_runs(
                task_stream(
                    s.tables,
                    CompactionTaskView::ForceFullCompaction {
                        l0_sstables: s.l0,
                        l1_sstables: s.levels[0].1,
                    },
                ),
                true,
                block_size,
                target,
            ),
            next,
        ),
    ensures
        read(
            committed(
                s,
                CompactionTaskView::ForceFullCompaction {
                    l0_sstables: s.l0,
                    l1_sstables: s.levels[0].1,
                },
                new,
            ),
            key,
        ) == read(s, key),
{
    let task = CompactionTaskView::ForceFullCompaction {
        l0_sstables: s.l0,
        l1_sstables: s.levels[0].1,
    };
    crate::compact::order::lemma_full_inputs_sorted(s);
    assert forall|i: int| 0 <= i < s.l0.len() implies s.l0.contains(#[trigger] s.l0[i]) by {}
    lemma_levels_commit_preserves_reads(s, task, new, next, block_size, target, key);
}

} // verus!
