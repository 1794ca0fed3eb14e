//! Why a leveled compaction does not change what a reader sees, though
//! it takes only some tables of the levels it works on.

use vstd::prelude::*;
use crate::block::Entry;
use crate::compact::{CompactionController, CompactionTaskView};
use crate::compact::executor::{
    committed, id_tables, output_runs, run_stream, table_ids, tables_hold, task_stream,
    tier_streams, with_tables,
};
use crate::compact::laws::{
    compacted_answer, lemma_compaction_preserves_lookups, lemma_first_hit_concat,
    lemma_first_hit_one, task_input_streams,
};
use crate::compact::leveled::{
    key_range, merge_by_first_key, merge_by_first_key_from, overlaps, LeveledTaskView,
};
use crate::compact::leveled_order::{
    apart, holds_key, lemma_first_hit_some, lemma_key_in_table, lemma_leveled_parts,
    lemma_untouched_apart, leveled_selects,
};
use crate::compact::order::{l0_sound, levels_sorted, run_sorted, table_sound};
use crate::compact::placement::{
    consistent, ids_below, lemma_commit_keeps_ids, lemma_without_contains, lemma_without_self,
    placed_in, task_fits,
};
use crate::compact::reads::{
    lemma_first_hit_split, lemma_kept_tables, lemma_run_stream_frame, level0_streams, read,
};
use crate::iterators::lookup;
use crate::iterators::concat_iterator::tables_entries_from;
use crate::iterators::laws::{all_sorted, first_hit, lemma_concat_lookup, or_else, visible};
use crate::key::{key_lt, lemma_key_le_lt};
use crate::lsm_storage::{without, StateView};
use crate::table::SsTableView;

verus! {

/// What the run of the tables `ids` says of `key`.
pub open spec fn run_answer(tables: Map<usize, SsTableView>, ids: Seq<usize>, key: Seq<u8>) -> Option<
    Seq<u8>,
> {
    lookup(run_stream(tables, ids), key)
}

/// The pairs of tables placed behind other tables, from a table of the
/// latter on.
proof fn lemma_entries_shift(v: Seq<SsTableView>, w: Seq<SsTableView>, j: int)
    requires
        0 <= j <= w.len(),
    ensures
        tables_entries_from(v + w, v.len() + j) == tables_entries_from(w, j),
    decreases w.len() - j,
{
    if j < w.len() {
        lemma_entries_shift(v, w, j + 1);
        assert((v + w)[v.len() + j] == w[j]);
    }
}

/// The pairs of tables followed by further tables are the pairs of the
/// first followed by those of the others.
proof fn lemma_entries_concat(v: Seq<SsTableView>, w: Seq<SsTableView>, i: int)
    requires
        0 <= i <= v.len(),
    ensures
        tables_entries_from(v + w, i) == tables_entries_from(v, i) + tables_entries_from(w, 0),
    decreases v.len() - i,
{
    if i < v.len() {
        lemma_entries_concat(v, w, i + 1);
        assert((v + w)[i] == v[i]);
        assert(tables_entries_from(v + w, i) =~= tables_entries_from(v, i) + tables_entries_from(
            w,
            0,
        ));
    } else {
        lemma_entries_shift(v, w, 0);
        assert(tables_entries_from(v, i) =~= Seq::<Entry>::empty());
        assert(tables_entries_from(v + w, i) =~= tables_entries_from(v, i) + tables_entries_from(
            w,
            0,
        ));
    }
}

/// A run followed by another answers as the first does, or else as the
/// second does.
pub proof fn lemma_run_answer_concat(
    tables: Map<usize, SsTableView>,
    a: Seq<usize>,
    b: Seq<usize>,
    key: Seq<u8>,
)
    ensures
        run_stream(tables, a + b) == run_stream(tables, a) + run_stream(tables, b),
        run_answer(tables, a + b, key) == or_else(
            run_answer(tables, a, key),
            run_answer(tables, b, key),
        ),
{
    assert(id_tables(tables, a + b) =~= id_tables(tables, a) + id_tables(tables, b));
    lemma_entries_concat(id_tables(tables, a), id_tables(tables, b), 0);
    lemma_concat_lookup(run_stream(tables, a), run_stream(tables, b), key);
}

/// A run of one table answers as the table does, and an empty run says
/// nothing.
pub proof fn lemma_run_answer_one(tables: Map<usize, SsTableView>, x: usize, key: Seq<u8>)
    ensures
        run_stream(tables, seq![x]) == tables[x].entries(),
        run_answer(tables, seq![x], key) == lookup(tables[x].entries(), key),
        run_answer(tables, Seq::empty(), key) is None,
{
    let v = id_tables(tables, seq![x]);
    assert(v[0] == tables[x]);
    assert(tables_entries_from(v, 1) =~= Seq::<Entry>::empty());
    assert(run_stream(tables, seq![x]) =~= tables[x].entries());
    assert(id_tables(tables, Seq::<usize>::empty()) =~= Seq::<SsTableView>::empty());
}

/// Two sound tables that lie apart do not both hold a key.
pub proof fn lemma_apart_exclusive(a: SsTableView, b: SsTableView, key: Seq<u8>)
    requires
        table_sound(a),
        table_sound(b),
        apart(a, b),
    ensures
        !(holds_key(a.entries(), key) && holds_key(b.entries(), key)),
{
    if holds_key(a.entries(), key) && holds_key(b.entries(), key) {
        lemma_key_in_table(a, key);
        lemma_key_in_table(b, key);
        if key_lt(a.last_key, b.first_key) {
            lemma_key_le_lt(key, a.last_key, b.first_key);
        } else {
            lemma_key_le_lt(key, b.last_key, a.first_key);
        }
    }
}

/// No table of the run holds the key.
pub open spec fn none_holds(tables: Map<usize, SsTableView>, ids: Seq<usize>, key: Seq<u8>) -> bool {
    forall|i: int| 0 <= i < ids.len() ==> !holds_key(tables[#[trigger] ids[i]].entries(), key)
}

/// A run none of whose tables holds the key says nothing of it, and a run
/// that says something has a table that holds the key.
pub proof fn lemma_run_answer_none(tables: Map<usize, SsTableView>, ids: Seq<usize>, key: Seq<u8>)
    ensures
        none_holds(tables, ids, key) <==> run_answer(tables, ids, key) is None,
    decreases ids.len(),
{
    if ids.len() == 0 {
        lemma_run_answer_one(tables, 0, key);
        assert(ids =~= Seq::<usize>::empty());
    } else {
        let init = ids.drop_last();
        let last = ids.last();
        assert(ids =~= init + seq![last]);
        lemma_run_answer_concat(tables, init, seq![last], key);
        lemma_run_answer_one(tables, last, key);
        lemma_run_answer_none(tables, init, key);
        if none_holds(tables, ids, key) {
            assert forall|i: int| 0 <= i < init.len() implies !holds_key(
                tables[#[trigger] init[i]].entries(),
                key,
            ) by {
                assert(init[i] == ids[i]);
            }
            assert(!holds_key(tables[ids[ids.len() - 1]].entries(), key));
        }
        if run_answer(tables, ids, key) is None {
            assert forall|i: int| 0 <= i < ids.len() implies !holds_key(
                tables[#[trigger] ids[i]].entries(),
                key,
            ) by {
                if i < init.len() {
                    assert(init[i] == ids[i]);
                }
            }
        }
    }
}

/// A sorted run answers as the tables of it that a filter lets through
/// do, or else as the others do.
pub proof fn lemma_partition_answer(
    tables: Map<usize, SsTableView>,
    ids: Seq<usize>,
    keep: spec_fn(usize) -> bool,
    key: Seq<u8>,
)
    requires
        run_sorted(tables, ids),
    ensures
        run_answer(tables, ids, key) == or_else(
            run_answer(tables, ids.filter(keep), key),
            run_answer(tables, ids.filter(|x: usize| !keep(x)), key),
        ),
        run_answer(tables, ids.filter(keep), key) is Some ==> run_answer(
            tables,
            ids.filter(|x: usize| !keep(x)),
            key,
        ) is None,
    decreases ids.len(),
{
    reveal(Seq::filter);
    let drop = |x: usize| !keep(x);
    if ids.len() == 0 {
        lemma_run_answer_one(tables, 0, key);
        assert(ids =~= Seq::<usize>::empty());
        assert(ids.filter(keep) =~= Seq::<usize>::empty());
        assert(ids.filter(drop) =~= Seq::<usize>::empty());
    } else {
        let init = ids.drop_last();
        let last = ids.last();
        assert(ids =~= init + seq![last]);
        assert(run_sorted(tables, init)) by {
            assert forall|i: int| 0 <= i < init.len() implies tables.contains_key(
                #[trigger] init[i],
            ) && table_sound(tables[init[i]]) by {
                assert(init[i] == ids[i]);
            }
            assert forall|i: int, j: int| 0 <= i < j < init.len() implies key_lt(
                tables[#[trigger] init[i]].last_key,
                tables[#[trigger] init[j]].first_key,
            ) by {
                assert(init[i] == ids[i] && init[j] == ids[j]);
            }
        }
        lemma_partition_answer(tables, init, keep, key);
        lemma_run_answer_concat(tables, init, seq![last], key);
        lemma_run_answer_one(tables, last, key);
        let kept = init.filter(keep);
        let dropped = init.filter(drop);
        if keep(last) {
            assert(ids.filter(keep) =~= kept + seq![last]);
            assert(ids.filter(drop) == dropped);
            lemma_run_answer_concat(tables, kept, seq![last], key);
        } else {
            assert(ids.filter(drop) =~= dropped + seq![last]);
            assert(ids.filter(keep) == kept);
            lemma_run_answer_concat(tables, dropped, seq![last], key);
        }
        // Where the last table holds the key, no earlier one does.
        if holds_key(tables[last].entries(), key) {
            assert forall|i: int| 0 <= i < init.len() implies !holds_key(
                tables[#[trigger] init[i]].entries(),
                key,
            ) by {
                assert(init[i] == ids[i]);
                assert(key_lt(tables[ids[i]].last_key, tables[ids[ids.len() - 1]].first_key));
                lemma_apart_exclusive(tables[ids[i]], tables[last], key);
            }
            lemma_run_answer_none(tables, init, key);
        }
    }
}

/// Two runs whose tables lie apart from each other, merged by first key,
/// answer as the first run does, or else as the second does.
pub proof fn lemma_merge_answer(
    tables: Map<usize, SsTableView>,
    a: Seq<usize>,
    b: Seq<usize>,
    i: int,
    j: int,
    key: Seq<u8>,
)
    requires
        0 <= i <= a.len(),
        0 <= j <= b.len(),
        forall|x: int| 0 <= x < a.len() ==> table_sound(tables[#[trigger] a[x]]),
        forall|y: int| 0 <= y < b.len() ==> table_sound(tables[#[trigger] b[y]]),
        forall|x: int, y: int|
            0 <= x < a.len() && 0 <= y < b.len() ==> apart(
                tables[#[trigger] a[x]],
                tables[#[trigger] b[y]],
            ),
    ensures
        run_answer(tables, merge_by_first_key_from(tables, a, b, i, j), key) == or_else(
            run_answer(tables, a.skip(i), key),
            run_answer(tables, b.skip(j), key),
        ),
    decreases a.len() - i + b.len() - j,
{
    let m = merge_by_first_key_from(tables, a, b, i, j);
    if i >= a.len() {
        assert(a.skip(i) =~= Seq::<usize>::empty());
        lemma_run_answer_one(tables, 0, key);
    } else if j >= b.len() {
        assert(b.skip(j) =~= Seq::<usize>::empty());
        lemma_run_answer_one(tables, 0, key);
    } else if key_lt(tables[b[j]].first_key, tables[a[i]].first_key) {
        let rest = merge_by_first_key_from(tables, a, b, i, j + 1);
        lemma_merge_answer(tables, a, b, i, j + 1, key);
        lemma_run_answer_concat(tables, seq![b[j]], rest, key);
        lemma_run_answer_one(tables, b[j], key);
        assert(b.skip(j) =~= seq![b[j]] + b.skip(j + 1));
        lemma_run_answer_concat(tables, seq![b[j]], b.skip(j + 1), key);
        // Where the table of the second run holds the key, no table of
        // the first run does.
        if holds_key(tables[b[j]].entries(), key) {
            let a_rest = a.skip(i);
            assert forall|x: int| 0 <= x < a_rest.len() implies !holds_key(
                tables[#[trigger] a_rest[x]].entries(),
                key,
            ) by {
                assert(a_rest[x] == a[i + x]);
                assert(apart(tables[a[i + x]], tables[b[j]]));
                lemma_apart_exclusive(tables[a[i + x]], tables[b[j]], key);
            }
            lemma_run_answer_none(tables, a_rest, key);
        }
    } else {
        let rest = merge_by_first_key_from(tables, a, b, i + 1, j);
        lemma_merge_answer(tables, a, b, i + 1, j, key);
        lemma_run_answer_concat(tables, seq![a[i]], rest, key);
        lemma_run_answer_one(tables, a[i], key);
        assert(a.skip(i) =~= seq![a[i]] + a.skip(i + 1));
        lemma_run_answer_concat(tables, seq![a[i]], a.skip(i + 1), key);
    }
}

/// Filters that agree on every element of a list leave the same of it.
pub proof fn lemma_filter_agree<A>(list: Seq<A>, p: spec_fn(A) -> bool, q: spec_fn(A) -> bool)
    requires
        forall|i: int| 0 <= i < list.len() ==> p(#[trigger] list[i]) == q(list[i]),
    ensures
        list.filter(p) == list.filter(q),
    decreases list.len(),
{
    reveal(Seq::filter);
    if list.len() > 0 {
        let init = list.drop_last();
        assert forall|i: int| 0 <= i < init.len() implies p(#[trigger] init[i]) == q(init[i]) by {
            assert(init[i] == list[i]);
        }
        lemma_filter_agree(init, p, q);
        assert(p(list[list.len() - 1]) == q(list[list.len() - 1]));
    }
}

/// Of a list without duplicates a filter that lets just one of its
/// elements through leaves just that element.
pub proof fn lemma_filter_single(list: Seq<usize>, m: usize)
    requires
        list.no_duplicates(),
        list.contains(m),
    ensures
        list.filter(|x: usize| seq![m].contains(x)) == seq![m],
    decreases list.len(),
{
    reveal(Seq::filter);
    let only = |x: usize| seq![m].contains(x);
    let init = list.drop_last();
    let last = list.last();
    assert(seq![m][0] == m);
    assert forall|x: usize| #[trigger] seq![m].contains(x) == (x == m) by {
        if seq![m].contains(x) {
            let i = choose|i: int| 0 <= i < seq![m].len() && seq![m][i] == x;
        }
    }
    let k = choose|k: int| 0 <= k < list.len() && list[k] == m;
    if last == m {
        assert forall|i: int| 0 <= i < init.len() implies !only(#[trigger] init[i]) by {
            assert(init[i] == list[i]);
            assert(list[i] != list[list.len() - 1]);
        }
        crate::compact::reads::lemma_filter_all_or_none(init, only);
        assert(list.filter(only) =~= seq![m]);
    } else {
        assert(init[k] == m);
        assert(init.no_duplicates()) by {
            assert forall|i: int, j: int|
                0 <= i < init.len() && 0 <= j < init.len() && i != j implies init[i] != init[j] by {
                assert(init[i] == list[i] && init[j] == list[j]);
            }
        }
        lemma_filter_single(init, m);
    }
}

/// Exhausted streams say nothing.
pub proof fn lemma_first_hit_all_empty(streams: Seq<Seq<Entry>>, key: Seq<u8>)
    requires
        forall|i: int| 0 <= i < streams.len() ==> (#[trigger] streams[i]).len() == 0,
    ensures
        first_hit(streams, key) is None,
    decreases streams.len(),
{
    if streams.len() > 0 {
        assert forall|i: int| 0 <= i < streams.skip(1).len() implies (#[trigger] streams.skip(
            1,
        )[i]).len() == 0 by {
            assert(streams.skip(1)[i] == streams[i + 1]);
        }
        lemma_first_hit_all_empty(streams.skip(1), key);
    }
}

/// The leveled task works on levels that lie next to each other: it
/// takes all of level zero and the levels above its lower level are
/// empty, or it takes one table of the level right above its lower
/// level.  Where tombstones are dropped the lower level is the last
/// one.
pub open spec fn leveled_adjacent(s: StateView, task: LeveledTaskView) -> bool {
    &&& match task.upper_level {
        None => task.upper_level_sst_ids == s.l0 && forall|l: int|
            0 <= l < task.lower_level - 1 ==> (#[trigger] s.levels[l]).1.len() == 0,
        Some(u) => task.lower_level == u + 1 && task.upper_level_sst_ids.len() == 1,
    }
    &&& task.is_lower_level_bottom_level ==> task.lower_level == s.levels.len()
}

/// What the lower level says of a key before and after a leveled task is
/// committed: before, what the tables that the task takes say, or else
/// what the others say; after, what the others say, or else what the
/// output says.  Where the tables that the task takes hold the key the
/// others do not.
pub proof fn lemma_lower_level_answers(
    s: StateView,
    task: LeveledTaskView,
    new: Seq<SsTableView>,
    next: int,
    block_size: usize,
    target: usize,
    key: Seq<u8>,
)
    requires
        consistent(s),
        ids_below(s, next),
        task_fits(s, CompactionTaskView::Leveled(task)),
        leveled_selects(s, task),
        levels_sorted(s),
        all_sorted(task_input_streams(s.tables, CompactionTaskView::Leveled(task))),
        tables_hold(
            new,
            output_runs(
                task_stream(s.tables, CompactionTaskView::Leveled(task)),
                task.is_lower_level_bottom_level,
                block_size,
                target,
            ),
            next,
        ),
    ensures
        ({
            let whole = CompactionTaskView::Leveled(task);
            let after = committed(s, whole, new);
            let t = task.lower_level - 1;
            let taken = run_answer(s.tables, task.lower_level_sst_ids, key);
            let others = run_answer(
                s.tables,
                without(s.levels[t].1, task.lower_level_sst_ids),
                key,
            );
            &&& run_answer(s.tables, s.levels[t].1, key) == or_else(taken, others)
            &&& taken is Some ==> others is None
            &&& run_answer(after.tables, after.levels[t].1, key) == or_else(
                others,
                compacted_answer(s.tables, whole, key),
            )
        }),
{
    let whole = CompactionTaskView::Leveled(task);
    let after = committed(s, whole, new);
    let opened = with_tables(s, new);
    let out = table_ids(new);
    let t = task.lower_level - 1;
    let level = s.levels[t].1;
    let low = task.lower_level_sst_ids;
    let rest = without(level, low);
    let range = key_range(s.tables, task.upper_level_sst_ids);
    let reach = |id: usize| overlaps(s.tables[id], range);
    let merged = merge_by_first_key(opened.tables, rest, out);
    lemma_leveled_parts(s, task, new, next, block_size, target);
    lemma_commit_keeps_ids(s, whole, new, next);
    lemma_compaction_preserves_lookups(s.tables, whole, block_size, target, new, next, key);
    // Before the commit.
    assert(run_sorted(s.tables, level));
    lemma_partition_answer(s.tables, level, reach, key);
    assert(rest == level.filter(|x: usize| !reach(x))) by {
        assert forall|i: int| 0 <= i < level.len() implies !low.contains(#[trigger] level[i])
            == !reach(level[i]) by {
            if reach(level[i]) {
                level.lemma_filter_contains(reach, i);
            }
            if low.contains(level[i]) {
                let k = choose|k: int| 0 <= k < low.len() && low[k] == level[i];
                level.lemma_filter_pred(reach, k);
            }
        }
        lemma_filter_agree(level, |x: usize| !low.contains(x), |x: usize| !reach(x));
    }
    // After the commit.
    assert(after.levels[t].1 == merged);
    assert forall|x: usize| placed_in(after, x) implies #[trigger] after.tables.contains_key(x) by {}
    assert forall|i: int| 0 <= i < merged.len() implies after.tables[#[trigger] merged[i]]
        == opened.tables[merged[i]] by {
        assert(after.levels[t].1.contains(merged[i]));
        assert(placed_in(after, merged[i]));
    }
    lemma_run_stream_frame(opened.tables, after.tables, merged);
    assert forall|x: int| 0 <= x < rest.len() implies table_sound(
        opened.tables[#[trigger] rest[x]],
    ) by {
        assert(opened.tables.contains_key(rest[x]));
    }
    assert forall|y: int| 0 <= y < out.len() implies table_sound(
        opened.tables[#[trigger] out[y]],
    ) by {
        assert(opened.tables.contains_key(out[y]));
    }
    lemma_merge_answer(opened.tables, rest, out, 0, 0, key);
    assert(rest.skip(0) =~= rest);
    assert(out.skip(0) =~= out);
    assert forall|i: int| 0 <= i < rest.len() implies opened.tables[#[trigger] rest[i]]
        == s.tables[rest[i]] by {
        assert(s.tables.contains_key(rest[i]));
    }
    lemma_run_stream_frame(s.tables, opened.tables, rest);
    assert(id_tables(opened.tables, out) =~= new);
}

/// The levels that a leveled task does not name say after the commit
/// what they said before, and so does level zero unless the task takes
/// it.
pub proof fn lemma_unnamed_levels_kept(
    s: StateView,
    task: LeveledTaskView,
    new: Seq<SsTableView>,
    next: int,
)
    requires
        consistent(s),
        ids_below(s, next),
        task_fits(s, CompactionTaskView::Leveled(task)),
        forall|i: int| 0 <= i < new.len() ==> (#[trigger] new[i]).id == next + i,
    ensures
        ({
            let after = committed(s, CompactionTaskView::Leveled(task), new);
            let before_levels = tier_streams(s.tables, s.levels);
            let after_levels = tier_streams(after.tables, after.levels);
            &&& after_levels.len() == before_levels.len()
            &&& forall|l: int|
                0 <= l < s.levels.len() && l != task.lower_level - 1 && !(task.upper_level is Some
                    && task.upper_level->0 == l + 1) ==> #[trigger] after_levels[l]
                    == before_levels[l]
            &&& task.upper_level is Some ==> level0_streams(after) == level0_streams(s)
        }),
{
    let whole = CompactionTaskView::Leveled(task);
    let after = committed(s, whole, new);
    let before_levels = tier_streams(s.tables, s.levels);
    let after_levels = tier_streams(after.tables, after.levels);
    lemma_commit_keeps_ids(s, whole, new, next);
    assert forall|x: usize| placed_in(after, x) implies #[trigger] after.tables.contains_key(x) by {}
    assert forall|x: usize| placed_in(s, x) implies #[trigger] s.tables.contains_key(x) by {}
    assert forall|l: int|
        0 <= l < s.levels.len() && l != task.lower_level - 1 && !(task.upper_level is Some
            && task.upper_level->0 == l + 1) implies #[trigger] after_levels[l]
        == before_levels[l] by {
        let ids = s.levels[l].1;
        assert(after.levels[l].1 == ids);
        assert forall|i: int| 0 <= i < ids.len() implies s.tables.contains_key(#[trigger] ids[i])
            && after.tables.contains_key(ids[i]) by {
            assert(s.levels[l].1.contains(ids[i]));
            assert(after.levels[l].1.contains(ids[i]));
            assert(placed_in(s, ids[i]));
            assert(placed_in(after, ids[i]));
        }
        lemma_kept_tables(s, whole, new, next, ids);
        lemma_run_stream_frame(s.tables, after.tables, ids);
    }
    if task.upper_level is Some {
        assert(s.l0 == after.l0);
        assert forall|i: int| 0 <= i < s.l0.len() implies s.tables.contains_key(#[trigger] s.l0[i])
            && after.tables.contains_key(s.l0[i]) by {
            assert(s.l0.contains(s.l0[i]));
            assert(placed_in(s, s.l0[i]));
            assert(placed_in(after, s.l0[i]));
        }
        lemma_kept_tables(s, whole, new, next, s.l0);
        lemma_run_stream_frame(s.tables, after.tables, s.l0);
    }
}

/// A key that an upper table of a leveled task holds is held by none of
/// the tables that the task leaves in the lower level.
pub proof fn lemma_others_silent(s: StateView, task: LeveledTaskView, i: int, key: Seq<u8>)
    requires
        leveled_selects(s, task),
        run_sorted(s.tables, s.levels[task.lower_level - 1].1),
        0 <= i < task.upper_level_sst_ids.len(),
        holds_key(s.tables[task.upper_level_sst_ids[i]].entries(), key),
    ensures
        run_answer(
            s.tables,
            without(s.levels[task.lower_level - 1].1, task.lower_level_sst_ids),
            key,
        ) is None,
{
    let level = s.levels[task.lower_level - 1].1;
    let low = task.lower_level_sst_ids;
    let rest = without(level, low);
    assert forall|j: int| 0 <= j < rest.len() implies !holds_key(
        s.tables[#[trigger] rest[j]].entries(),
        key,
    ) by {
        let x = rest[j];
        assert(rest.contains(x));
        lemma_without_contains(level, low, x);
        lemma_untouched_apart(s, task, x, key);
        let k = choose|k: int| 0 <= k < level.len() && level[k] == x;
        assert(table_sound(s.tables[level[k]]));
        if holds_key(s.tables[x].entries(), key) {
            lemma_key_in_table(s.tables[x], key);
        }
    }
    lemma_run_answer_none(s.tables, rest, key);
}

/// What the upper level says of a key before and after the commit of a
/// leveled task that takes one table of it: before, what the table says,
/// or else what the others say; after, what the others say.  Where the
/// table holds the key the others do not.
pub proof fn lemma_upper_level_answers(
    s: StateView,
    task: LeveledTaskView,
    new: Seq<SsTableView>,
    next: int,
    key: Seq<u8>,
)
    requires
        consistent(s),
        ids_below(s, next),
        task_fits(s, CompactionTaskView::Leveled(task)),
        levels_sorted(s),
        forall|i: int| 0 <= i < new.len() ==> (#[trigger] new[i]).id == next + i,
        task.upper_level is Some,
        task.upper_level_sst_ids.len() == 1,
    ensures
        ({
            let after = committed(s, CompactionTaskView::Leveled(task), new);
            let upper = task.upper_level->0 - 1;
            let table = lookup(s.tables[task.upper_level_sst_ids[0]].entries(), key);
            let others = run_answer(after.tables, after.levels[upper].1, key);
            &&& run_answer(s.tables, s.levels[upper].1, key) == or_else(table, others)
            &&& table is Some ==> others is None
            &&& run_stream(s.tables, task.upper_level_sst_ids) == s.tables[
                task.upper_level_sst_ids[0]
            ].entries()
        }),
{
    let whole = CompactionTaskView::Leveled(task);
    let after = committed(s, whole, new);
    let up = task.upper_level_sst_ids;
    let upper = task.upper_level->0 - 1;
    let m = up[0];
    let level_up = s.levels[upper].1;
    let keep = |x: usize| up.contains(x);
    lemma_commit_keeps_ids(s, whole, new, next);
    assert forall|x: usize| placed_in(after, x) implies #[trigger] after.tables.contains_key(x) by {}
    assert forall|x: usize| placed_in(s, x) implies #[trigger] s.tables.contains_key(x) by {}
    assert(up =~= seq![m]);
    assert(level_up.contains(m));
    assert(run_sorted(s.tables, level_up));
    lemma_partition_answer(s.tables, level_up, keep, key);
    lemma_filter_single(level_up, m);
    lemma_filter_agree(level_up, keep, |x: usize| seq![m].contains(x));
    lemma_filter_agree(level_up, |x: usize| !keep(x), |x: usize| !up.contains(x));
    lemma_run_answer_one(s.tables, m, key);
    let left = without(level_up, up);
    assert(after.levels[upper].1 == left);
    assert forall|i: int| 0 <= i < left.len() implies s.tables.contains_key(#[trigger] left[i])
        && after.tables.contains_key(left[i]) by {
        assert(left.contains(left[i]));
        lemma_without_contains(level_up, up, left[i]);
        assert(after.levels[upper].1.contains(left[i]));
        assert(placed_in(s, left[i]));
        assert(placed_in(after, left[i]));
    }
    lemma_kept_tables(s, whole, new, next, left);
    lemma_run_stream_frame(s.tables, after.tables, left);
}

/// How the answers of the levels that a compaction works on combine:
/// what is found before and after the commit reads the same.
///
/// `above` is what lies above the levels worked on, `upper` what the
/// tables taken from the upper level say, `left` what the rest of the
/// upper level says, `taken` what the tables taken from the lower level
/// say, `others` what the rest of the lower level says, and `below`
/// what lies below.
proof fn lemma_answers_combine(
    above: Option<Seq<u8>>,
    upper: Option<Seq<u8>>,
    left: Option<Seq<u8>>,
    taken: Option<Seq<u8>>,
    others: Option<Seq<u8>>,
    below: Option<Seq<u8>>,
    bottom: bool,
)
    requires
        upper is Some ==> left is None && others is None,
        taken is Some ==> others is None,
        bottom ==> below is None,
    ensures
        ({
            let merged = or_else(upper, taken);
            let answer = if bottom {
                visible(merged)
            } else {
                merged
            };
            visible(
                or_else(above, or_else(or_else(upper, left), or_else(or_else(taken, others), below))),
            ) == visible(or_else(above, or_else(left, or_else(or_else(others, answer), below))))
        }),
{
}

/// What the levels say of a key before and after the commit of a leveled
/// task that works on levels next to each other.
proof fn lemma_levels_say(
    s: StateView,
    task: LeveledTaskView,
    new: Seq<SsTableView>,
    next: int,
    block_size: usize,
    target: usize,
    key: Seq<u8>,
)
    requires
        consistent(s),
        ids_below(s, next),
        task_fits(s, CompactionTaskView::Leveled(task)),
        leveled_selects(s, task),
        leveled_adjacent(s, task),
        levels_sorted(s),
        all_sorted(task_input_streams(s.tables, CompactionTaskView::Leveled(task))),
        tables_hold(
            new,
            output_runs(
                task_stream(s.tables, CompactionTaskView::Leveled(task)),
                task.is_lower_level_bottom_level,
                block_size,
                target,
            ),
            next,
        ),
    ensures
        ({
            let whole = CompactionTaskView::Leveled(task);
            let after = committed(s, whole, new);
            let t = task.lower_level - 1;
            let first = if task.upper_level is Some {
                task.upper_level->0 - 1
            } else {
                t
            };
            let before_levels = tier_streams(s.tables, s.levels);
            let after_levels = tier_streams(after.tables, after.levels);
            let above = first_hit(before_levels.take(first), key);
            let below = first_hit(before_levels.skip(t + 1), key);
            let taken = run_answer(s.tables, task.lower_level_sst_ids, key);
            let others = run_answer(
                s.tables,
                without(s.levels[t].1, task.lower_level_sst_ids),
                key,
            );
            let lower_before = or_else(or_else(taken, others), below);
            let lower_after = or_else(
                or_else(others, compacted_answer(s.tables, whole, key)),
                below,
            );
            &&& taken is Some ==> others is None
            &&& task.is_lower_level_bottom_level ==> below is None
            &&& if task.upper_level is Some {
                let table = lookup(s.tables[task.upper_level_sst_ids[0]].entries(), key);
                let left = run_answer(after.tables, after.levels[first].1, key);
                &&& first_hit(before_levels, key) == or_else(
                    above,
                    or_else(or_else(table, left), lower_before),
                )
                &&& first_hit(after_levels, key) == or_else(above, or_else(left, lower_after))
                &&& table is Some ==> left is None
            } else {
                &&& above is None
                &&& first_hit(before_levels, key) == lower_before
                &&& first_hit(after_levels, key) == lower_after
            }
        }),
{
    let whole = CompactionTaskView::Leveled(task);
    let after = committed(s, whole, new);
    let t = task.lower_level - 1;
    let before_levels = tier_streams(s.tables, s.levels);
    let after_levels = tier_streams(after.tables, after.levels);
    lemma_lower_level_answers(s, task, new, next, block_size, target, key);
    lemma_unnamed_levels_kept(s, task, new, next);
    let rest_before = before_levels.skip(t + 1);
    let rest_after = after_levels.skip(t + 1);
    assert(rest_after =~= rest_before);
    if task.is_lower_level_bottom_level {
        assert(rest_before =~= Seq::<Seq<Entry>>::empty());
    }
    lemma_first_hit_split(before_levels, t, key);
    lemma_first_hit_split(after_levels, t, key);
    assert(before_levels.skip(t).skip(1) =~= rest_before);
    assert(after_levels.skip(t).skip(1) =~= rest_after);
    if task.upper_level is Some {
        let upper = task.upper_level->0 - 1;
        lemma_upper_level_answers(s, task, new, next, key);
        assert(after_levels.take(upper) =~= before_levels.take(upper));
        lemma_first_hit_split(before_levels.take(t), upper, key);
        lemma_first_hit_split(after_levels.take(t), upper, key);
        assert(before_levels.take(t).take(upper) =~= before_levels.take(upper));
        assert(after_levels.take(t).take(upper) =~= after_levels.take(upper));
        assert(before_levels.take(t).skip(upper) =~= seq![before_levels[upper]]);
        assert(after_levels.take(t).skip(upper) =~= seq![after_levels[upper]]);
        lemma_first_hit_one(before_levels[upper], key);
        lemma_first_hit_one(after_levels[upper], key);
    } else {
        assert forall|l: int| 0 <= l < t implies (#[trigger] before_levels.take(t)[l]).len()
            == 0 by {
            assert(s.levels[l].1.len() == 0);
            assert(id_tables(s.tables, s.levels[l].1) =~= Seq::<SsTableView>::empty());
        }
        assert(after_levels.take(t) =~= before_levels.take(t));
        lemma_first_hit_all_empty(before_levels.take(t), key);
    }
}

/// What the upper tables of a leveled task say of a key, and that what
/// they hold the rest of the lower level does not.
proof fn lemma_upper_says(s: StateView, task: LeveledTaskView, key: Seq<u8>)
    requires
        leveled_selects(s, task),
        leveled_adjacent(s, task),
        levels_sorted(s),
    ensures
        ({
            let whole = CompactionTaskView::Leveled(task);
            let t = task.lower_level - 1;
            let upper = if task.upper_level is Some {
                lookup(s.tables[task.upper_level_sst_ids[0]].entries(), key)
            } else {
                first_hit(level0_streams(s), key)
            };
            let taken = run_answer(s.tables, task.lower_level_sst_ids, key);
            let others = run_answer(
                s.tables,
                without(s.levels[t].1, task.lower_level_sst_ids),
                key,
            );
            &&& first_hit(task_input_streams(s.tables, whole), key) == or_else(upper, taken)
            &&& upper is Some ==> others is None
        }),
{
    let whole = CompactionTaskView::Leveled(task);
    let t = task.lower_level - 1;
    let up = task.upper_level_sst_ids;
    let low = task.lower_level_sst_ids;
    let inputs = task_input_streams(s.tables, whole);
    assert(run_sorted(s.tables, s.levels[t].1));
    lemma_first_hit_one(run_stream(s.tables, low), key);
    if task.upper_level is Some {
        lemma_run_answer_one(s.tables, up[0], key);
        assert(up =~= seq![up[0]]);
        assert(inputs == seq![run_stream(s.tables, up)] + seq![run_stream(s.tables, low)]);
        lemma_first_hit_concat(
            seq![run_stream(s.tables, up)],
            seq![run_stream(s.tables, low)],
            key,
        );
        lemma_first_hit_one(run_stream(s.tables, up), key);
        if holds_key(s.tables[up[0]].entries(), key) {
            lemma_others_silent(s, task, 0, key);
        }
    } else {
        let zero = level0_streams(s);
        assert(inputs == zero + seq![run_stream(s.tables, low)]);
        lemma_first_hit_concat(zero, seq![run_stream(s.tables, low)], key);
        if first_hit(zero, key) is Some {
            lemma_first_hit_some(zero, key);
            let j = choose|j: int| 0 <= j < zero.len() && holds_key(#[trigger] zero[j], key);
            assert(zero[j] == s.tables[up[j]].entries());
            lemma_others_silent(s, task, j, key);
        }
    }
}

/// What a reader gets for a key is the same before and after the commit
/// of a leveled task that works on levels next to each other, where the
/// placement was in order and the new tables hold the task's output.
pub proof fn lemma_leveled_commit_preserves_reads(
    s: StateView,
    task: LeveledTaskView,
    new: Seq<SsTableView>,
    next: int,
    block_size: usize,
    target: usize,
    key: Seq<u8>,
)
    requires
        consistent(s),
        ids_below(s, next),
        task_fits(s, CompactionTaskView::Leveled(task)),
        leveled_selects(s, task),
        leveled_adjacent(s, task),
        levels_sorted(s),
        l0_sound(s),
        all_sorted(task_input_streams(s.tables, CompactionTaskView::Leveled(task))),
        tables_hold(
            new,
            output_runs(
                task_stream(s.tables, CompactionTaskView::Leveled(task)),
                task.is_lower_level_bottom_level,
                block_size,
                target,
            ),
            next,
        ),
    ensures
        read(committed(s, CompactionTaskView::Leveled(task), new), key) == read(s, key),
{
    let whole = CompactionTaskView::Leveled(task);
    let after = committed(s, whole, new);
    let t = task.lower_level - 1;
    let before_levels = tier_streams(s.tables, s.levels);
    let taken = run_answer(s.tables, task.lower_level_sst_ids, key);
    let others = run_answer(s.tables, without(s.levels[t].1, task.lower_level_sst_ids), key);
    let below = first_hit(before_levels.skip(t + 1), key);
    lemma_levels_say(s, task, new, next, block_size, target, key);
    lemma_upper_says(s, task, key);
    if task.upper_level is Some {
        let first = task.upper_level->0 - 1;
        let table = lookup(s.tables[task.upper_level_sst_ids[0]].entries(), key);
        let left = run_answer(after.tables, after.levels[first].1, key);
        let zero = first_hit(level0_streams(s), key);
        let above = or_else(zero, first_hit(before_levels.take(first), key));
        assert(level0_streams(after) == level0_streams(s)) by {
            lemma_unnamed_levels_kept(s, task, new, next);
        }
        lemma_answers_combine(
            above,
            table,
            left,
            taken,
            others,
            below,
            task.is_lower_level_bottom_level,
        );
    } else {
        let zero = first_hit(level0_streams(s), key);
        assert(level0_streams(after) =~= Seq::<Seq<Entry>>::empty()) by {
            lemma_without_self(s.l0);
            assert(after.l0 =~= Seq::<usize>::empty());
        }
        lemma_answers_combine(
            None,
            zero,
            None,
            taken,
            others,
            below,
            task.is_lower_level_bottom_level,
        );
    }
}

/// No compaction of level zero skips a level that holds tables: under
/// the leveled strategy, whenever level zero is due, the levels above
/// the base level are empty.
pub open spec fn no_level_skipped(ctrl: CompactionController, s: StateView) -> bool {
    match ctrl {
        CompactionController::Leveled(c) => c.options.l0_triggers(s) ==> forall|b: int, l: int|
            #![trigger c.options.is_base_level(s, b), s.levels[l]]
            c.options.is_base_level(s, b) && 0 <= l < b - 1 ==> s.levels[l].1.len() == 0,
        _ => true,
    }
}

/// A leveled task that the strategy generates works on levels next to
/// each other, where no compaction of level zero skips a level that
/// holds tables.
pub proof fn lemma_generated_adjacent(
    ctrl: CompactionController,
    s: StateView,
    task: LeveledTaskView,
)
    requires
        ctrl.admits(s),
        ctrl.generated(s, Some(CompactionTaskView::Leveled(task))),
        no_level_skipped(ctrl, s),
    ensures
        leveled_adjacent(s, task),
{
    let c = ctrl->Leveled_0;
    if c.options.l0_triggers(s) {
        let b = choose|b: int|
            {
                &&& #[trigger] c.options.is_base_level(s, b)
                &&& Some(task) == Some(c.options.l0_task(s, b))
            };
        assert forall|l: int| 0 <= l < task.lower_level - 1 implies (#[trigger] s.levels[l]).1.len()
            == 0 by {
            assert(c.options.is_base_level(s, b));
        }
    } else {
        let (p, m) = choose|p: int, m: usize|
            {
                &&& #[trigger] c.options.highest_priority(s, p)
                &&& #[trigger] crate::compact::leveled::is_oldest(s.levels[p].1, m)
                &&& Some(task) == Some(c.options.level_task(s, p, m))
            };
        assert(c.options.over_target(s, p));
        assert(p + 1 < c.options.max_levels);
    }
}

/// What a reader gets for any key is the same before and after the
/// commit of a task that the strategy generates, where the placement was
/// in order, the new tables hold the task's output, and no compaction of
/// level zero skips a level that holds tables.
pub proof fn lemma_commit_preserves_reads(
    ctrl: CompactionController,
    s: StateView,
    task: CompactionTaskView,
    new: Seq<SsTableView>,
    next: int,
    block_size: usize,
    target: usize,
    key: Seq<u8>,
)
    requires
        ctrl.admits(s),
        ctrl.generated(s, Some(task)),
        no_level_skipped(ctrl, s),
        consistent(s),
        ids_below(s, next),
        ctrl is Tiered ==> crate::compact::placement::tiers_named(s, next),
        levels_sorted(s),
        l0_sound(s),
        tables_hold(
            new,
            output_runs(
                task_stream(s.tables, task),
                task.compact_to_bottom_level(),
                block_size,
                target,
            ),
            next,
        ),
    ensures
        read(committed(s, task, new), key) == read(s, key),
{
    match ctrl {
        CompactionController::Leveled(c) => {
            let t = task->Leveled_0;
            crate::compact::order::lemma_generated_inputs_sorted(ctrl, s, task);
            crate::compact::placement::lemma_generated_fits(ctrl, s, task);
            crate::compact::leveled_order::lemma_generated_selects(ctrl, s, t);
            lemma_generated_adjacent(ctrl, s, t);
            lemma_leveled_commit_preserves_reads(s, t, new, next, block_size, target, key);
        },
        CompactionController::NoCompaction => {},
        _ => {
            crate::compact::reads::lemma_generated_commit_preserves_reads(
                ctrl,
                s,
                task,
                new,
                next,
                block_size,
                target,
                key,
            );
        },
    }
}

} // verus!
