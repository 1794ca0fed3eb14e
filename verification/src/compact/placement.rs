//! The bookkeeping of table ids: which ids a placement names, and what a
//! committed compaction does to them.

use vstd::prelude::*;
use crate::compact::{CompactionController, CompactionTaskView};
use crate::compact::executor::{committed, insert_tables, table_ids, with_tables};
use crate::compact::leveled::{
    leveled_apply, merge_by_first_key, merge_by_first_key_from, LeveledTaskView,
};
use crate::compact::simple_leveled::SimpleLeveledTaskView;
use crate::compact::tiered::{
    oldest_removed_position, oldest_removed_tier, output_tier, surviving_tiers, tier_ids,
    tier_tables, tiered_apply, TieredTaskView,
};
use crate::lsm_storage::{without, StateView};
use crate::table::SsTableView;

verus! {

/// The placement names the table `id`, at level zero or in a level.
pub open spec fn placed_in(s: StateView, id: usize) -> bool {
    s.l0.contains(id) || exists|l: int|
        0 <= l < s.levels.len() && (#[trigger] s.levels[l]).1.contains(id)
}

/// No id occurs in both lists.
pub open spec fn disjoint(a: Seq<usize>, b: Seq<usize>) -> bool {
    forall|x: usize| #[trigger] a.contains(x) ==> !b.contains(x)
}

/// Every id of `a` occurs in `b`.
pub open spec fn within(a: Seq<usize>, b: Seq<usize>) -> bool {
    forall|i: int| 0 <= i < a.len() ==> b.contains(#[trigger] a[i])
}

/// The placement names no table twice.
pub open spec fn unique_placement(s: StateView) -> bool {
    &&& s.l0.no_duplicates()
    &&& forall|l: int|
        0 <= l < s.levels.len() ==> (#[trigger] s.levels[l]).1.no_duplicates() && disjoint(
            s.levels[l].1,
            s.l0,
        )
    &&& forall|l: int, m: int|
        0 <= l < m < s.levels.len() ==> disjoint(
            (#[trigger] s.levels[l]).1,
            (#[trigger] s.levels[m]).1,
        )
}

/// The open tables are exactly the tables that the placement names, each
/// named once and open under its own id.
pub open spec fn consistent(s: StateView) -> bool {
    &&& unique_placement(s)
    &&& forall|id: usize| #[trigger] s.tables.contains_key(id) <==> placed_in(s, id)
    &&& forall|id: usize| s.tables.contains_key(id) ==> (#[trigger] s.tables[id]).id == id
}

/// Every open table has an id below `next`.
pub open spec fn ids_below(s: StateView, next: int) -> bool {
    forall|id: usize| #[trigger] s.tables.contains_key(id) ==> id < next
}

/// The ids are distinct and the placement names none of them.
pub open spec fn fresh(s: StateView, out: Seq<usize>) -> bool {
    &&& out.no_duplicates()
    &&& forall|i: int| 0 <= i < out.len() ==> !placed_in(s, #[trigger] out[i])
}

/// The tiers have distinct ids, all below `next`.
pub open spec fn tiers_named(s: StateView, next: int) -> bool {
    &&& tier_ids(s.levels).no_duplicates()
    &&& forall|l: int| 0 <= l < s.levels.len() ==> (#[trigger] s.levels[l]).0 < next
}

/// The task speaks of the placement as it is: its inputs are tables of
/// the levels it names, and a level that it replaces as a whole holds
/// just the inputs that the task lists for it.
pub open spec fn task_fits(s: StateView, task: CompactionTaskView) -> bool {
    match task {
        CompactionTaskView::ForceFullCompaction { l0_sstables, l1_sstables } => {
            &&& s.levels.len() >= 1
            &&& s.levels[0].1 == l1_sstables
            &&& within(l0_sstables, s.l0)
        },
        CompactionTaskView::Simple(task) => {
            &&& 1 <= task.lower_level <= s.levels.len()
            &&& s.levels[task.lower_level - 1].1 == task.lower_level_sst_ids
            &&& match task.upper_level {
                None => within(task.upper_level_sst_ids, s.l0),
                Some(u) => {
                    &&& 1 <= u <= s.levels.len()
                    &&& u != task.lower_level
                    &&& within(task.upper_level_sst_ids, s.levels[u - 1].1)
                },
            }
        },
        CompactionTaskView::Leveled(task) => {
            &&& 1 <= task.lower_level <= s.levels.len()
            &&& within(task.lower_level_sst_ids, s.levels[task.lower_level - 1].1)
            &&& match task.upper_level {
                None => within(task.upper_level_sst_ids, s.l0),
                Some(u) => {
                    &&& 1 <= u <= s.levels.len()
                    &&& u != task.lower_level
                    &&& within(task.upper_level_sst_ids, s.levels[u - 1].1)
                },
            }
        },
        CompactionTaskView::Tiered(task) => {
            &&& tier_ids(s.levels).no_duplicates()
            &&& task.tiers.len() > 0
            &&& forall|i: int| 0 <= i < task.tiers.len() ==> is_tier_of(s, #[trigger] task.tiers[i])
        },
    }
}

/// `tier` is a tier of the placement.
pub open spec fn is_tier_of(s: StateView, tier: (usize, Seq<usize>)) -> bool {
    exists|l: int| 0 <= l < s.levels.len() && #[trigger] s.levels[l] == tier
}

/// What is left of a list after ids are taken out holds the ids of the
/// list that were not taken out.
pub proof fn lemma_without_contains(list: Seq<usize>, ids: Seq<usize>, x: usize)
    ensures
        without(list, ids).contains(x) <==> list.contains(x) && !ids.contains(x),
{
    let keep = |x: usize| !ids.contains(x);
    let f = list.filter(keep);
    if f.contains(x) {
        list.lemma_filter_contains_rev(keep, x);
        let i = choose|i: int| 0 <= i < f.len() && f[i] == x;
        list.lemma_filter_pred(keep, i);
    }
    if list.contains(x) && !ids.contains(x) {
        let i = choose|i: int| 0 <= i < list.len() && list[i] == x;
        list.lemma_filter_contains(keep, i);
    }
}

/// What holds between any earlier and any later element of a list holds
/// between any earlier and any later element of what a filter leaves of
/// it.
pub proof fn lemma_filter_keeps_order<A>(
    list: Seq<A>,
    keep: spec_fn(A) -> bool,
    related: spec_fn(A, A) -> bool,
)
    requires
        forall|i: int, j: int| 0 <= i < j < list.len() ==> related(list[i], list[j]),
    ensures
        forall|i: int, j: int|
            0 <= i < j < list.filter(keep).len() ==> related(
                #[trigger] list.filter(keep)[i],
                #[trigger] list.filter(keep)[j],
            ),
    decreases list.len(),
{
    reveal(Seq::filter);
    if list.len() > 0 {
        let init = list.drop_last();
        let f = list.filter(keep);
        let g = init.filter(keep);
        lemma_filter_keeps_order(init, keep, related);
        assert forall|i: int, j: int| 0 <= i < j < f.len() implies related(
            #[trigger] f[i],
            #[trigger] f[j],
        ) by {
            if j < g.len() {
                assert(f[i] == g[i] && f[j] == g[j]);
            } else {
                assert(f[j] == list.last());
                assert(f[i] == g[i]);
                assert(g.contains(g[i]));
                init.lemma_filter_contains_rev(keep, g[i]);
                let k = choose|k: int| 0 <= k < init.len() && init[k] == g[i];
                assert(related(list[k], list[list.len() - 1]));
            }
        }
    }
}

/// What is left of a list without duplicates has no duplicates.
pub proof fn lemma_without_no_duplicates(list: Seq<usize>, ids: Seq<usize>)
    requires
        list.no_duplicates(),
    ensures
        without(list, ids).no_duplicates(),
{
    let keep = |x: usize| !ids.contains(x);
    let differ = |a: usize, b: usize| a != b;
    lemma_filter_keeps_order(list, keep, differ);
}

/// Merging two lists by first key keeps the ids of both.
pub proof fn lemma_merge_contains(
    tables: Map<usize, SsTableView>,
    a: Seq<usize>,
    b: Seq<usize>,
    i: int,
    j: int,
    x: usize,
)
    requires
        0 <= i <= a.len(),
        0 <= j <= b.len(),
    ensures
        merge_by_first_key_from(tables, a, b, i, j).contains(x) <==> a.skip(i).contains(x)
            || b.skip(j).contains(x),
    decreases a.len() - i + b.len() - j,
{
    let m = merge_by_first_key_from(tables, a, b, i, j);
    if i >= a.len() {
        assert(a.skip(i) =~= Seq::<usize>::empty());
    } else if j >= b.len() {
        assert(b.skip(j) =~= Seq::<usize>::empty());
    } else if crate::key::key_lt(tables[b[j]].first_key, tables[a[i]].first_key) {
        let rest = merge_by_first_key_from(tables, a, b, i, j + 1);
        lemma_merge_contains(tables, a, b, i, j + 1, x);
        lemma_cons_contains(b[j], rest, x);
        assert(b.skip(j) =~= seq![b[j]] + b.skip(j + 1));
        lemma_cons_contains(b[j], b.skip(j + 1), x);
    } else {
        let rest = merge_by_first_key_from(tables, a, b, i + 1, j);
        lemma_merge_contains(tables, a, b, i + 1, j, x);
        lemma_cons_contains(a[i], rest, x);
        assert(a.skip(i) =~= seq![a[i]] + a.skip(i + 1));
        lemma_cons_contains(a[i], a.skip(i + 1), x);
    }
}

/// A list with an element put in front holds that element and those of
/// the list.
pub proof fn lemma_cons_contains(head: usize, rest: Seq<usize>, x: usize)
    ensures
        (seq![head] + rest).contains(x) <==> x == head || rest.contains(x),
{
    let s = seq![head] + rest;
    if s.contains(x) {
        let i = choose|i: int| 0 <= i < s.len() && s[i] == x;
        if i > 0 {
            assert(rest[i - 1] == x);
        }
    }
    if x == head {
        assert(s[0] == x);
    }
    if rest.contains(x) {
        let i = choose|i: int| 0 <= i < rest.len() && rest[i] == x;
        assert(s[i + 1] == x);
    }
}

/// A list without duplicates with a new element put in front has no
/// duplicates.
pub proof fn lemma_cons_no_duplicates(head: usize, rest: Seq<usize>)
    requires
        rest.no_duplicates(),
        !rest.contains(head),
    ensures
        (seq![head] + rest).no_duplicates(),
{
    let s = seq![head] + rest;
    assert forall|i: int, j: int| 0 <= i < s.len() && 0 <= j < s.len() && i != j implies s[i]
        != s[j] by {
        if i > 0 {
            assert(s[i] == rest[i - 1]);
        }
        if j > 0 {
            assert(s[j] == rest[j - 1]);
        }
    }
}

/// Merging two lists without duplicates that share no id gives a list
/// without duplicates.
pub proof fn lemma_merge_no_duplicates(
    tables: Map<usize, SsTableView>,
    a: Seq<usize>,
    b: Seq<usize>,
    i: int,
    j: int,
)
    requires
        0 <= i <= a.len(),
        0 <= j <= b.len(),
        a.no_duplicates(),
        b.no_duplicates(),
        disjoint(a, b),
    ensures
        merge_by_first_key_from(tables, a, b, i, j).no_duplicates(),
    decreases a.len() - i + b.len() - j,
{
    if i >= a.len() {
    } else if j >= b.len() {
    } else if crate::key::key_lt(tables[b[j]].first_key, tables[a[i]].first_key) {
        let rest = merge_by_first_key_from(tables, a, b, i, j + 1);
        lemma_merge_no_duplicates(tables, a, b, i, j + 1);
        lemma_merge_contains(tables, a, b, i, j + 1, b[j]);
        lemma_skip_contains(a, i, b[j]);
        lemma_skip_contains(b, j + 1, b[j]);
        assert(b.contains(b[j]));
        lemma_cons_no_duplicates(b[j], rest);
    } else {
        let rest = merge_by_first_key_from(tables, a, b, i + 1, j);
        lemma_merge_no_duplicates(tables, a, b, i + 1, j);
        lemma_merge_contains(tables, a, b, i + 1, j, a[i]);
        lemma_skip_contains(a, i + 1, a[i]);
        lemma_skip_contains(b, j, a[i]);
        assert(a.contains(a[i]));
        lemma_cons_no_duplicates(a[i], rest);
    }
}

/// What a list holds from position `i` on it holds, and what it holds
/// there once it holds nowhere else.
pub proof fn lemma_skip_contains(list: Seq<usize>, i: int, x: usize)
    requires
        0 <= i <= list.len(),
    ensures
        list.skip(i).contains(x) ==> list.contains(x),
        list.no_duplicates() && list.skip(i).contains(x) ==> forall|k: int|
            0 <= k < i ==> list[k] != x,
{
    if list.skip(i).contains(x) {
        let k = choose|k: int| 0 <= k < list.skip(i).len() && list.skip(i)[k] == x;
        assert(list[i + k] == x);
    }
}

/// Taking every id of a list out of the list leaves nothing.
pub proof fn lemma_without_self(list: Seq<usize>)
    ensures
        without(list, list) == Seq::<usize>::empty(),
{
    let rest = without(list, list);
    if rest.len() > 0 {
        assert(rest.contains(rest[0]));
        lemma_without_contains(list, list, rest[0]);
    }
    assert(rest =~= Seq::<usize>::empty());
}

/// The leveled task with the fields of a simple leveled task.
pub open spec fn simple_as_leveled(task: SimpleLeveledTaskView) -> LeveledTaskView {
    LeveledTaskView {
        upper_level: task.upper_level,
        upper_level_sst_ids: task.upper_level_sst_ids,
        lower_level: task.lower_level,
        lower_level_sst_ids: task.lower_level_sst_ids,
        is_lower_level_bottom_level: task.is_lower_level_bottom_level,
    }
}

/// The leveled task that does what a full compaction does.
pub open spec fn full_as_leveled(l0_sstables: Seq<usize>, l1_sstables: Seq<usize>) -> LeveledTaskView {
    LeveledTaskView {
        upper_level: None,
        upper_level_sst_ids: l0_sstables,
        lower_level: 1,
        lower_level_sst_ids: l1_sstables,
        is_lower_level_bottom_level: true,
    }
}

/// The task as a leveled task, for a task that names an upper and a
/// lower level.
pub open spec fn as_leveled(task: CompactionTaskView) -> LeveledTaskView {
    match task {
        CompactionTaskView::ForceFullCompaction { l0_sstables, l1_sstables } => full_as_leveled(
            l0_sstables,
            l1_sstables,
        ),
        CompactionTaskView::Simple(task) => simple_as_leveled(task),
        CompactionTaskView::Leveled(task) => task,
        CompactionTaskView::Tiered(_) => arbitrary(),
    }
}

/// A task that replaces its lower level as a whole places tables as the
/// leveled task with the same fields does.
pub proof fn lemma_apply_as_leveled(s: StateView, task: CompactionTaskView, output: Seq<usize>)
    requires
        !(task is Tiered),
        task_fits(s, task),
    ensures
        CompactionController::apply(s, task, output) == leveled_apply(s, as_leveled(task), output),
        task_fits(s, CompactionTaskView::Leveled(as_leveled(task))),
        task.inputs() == as_leveled(task).upper_level_sst_ids + as_leveled(
            task,
        ).lower_level_sst_ids,
{
    let t = as_leveled(task);
    let a = CompactionController::apply(s, task, output);
    let b = leveled_apply(s, t, output);
    if !(task is Leveled) {
        let lower = s.levels[t.lower_level - 1].1;
        assert(lower == t.lower_level_sst_ids);
        lemma_without_self(lower);
        assert(merge_by_first_key(s.tables, Seq::<usize>::empty(), output) =~= output);
        assert(a.levels =~= b.levels);
        assert forall|i: int| 0 <= i < lower.len() implies lower.contains(#[trigger] lower[i]) by {}
    }
}

/// Which tables a placement names after a leveled task has been applied:
/// the output, and what it named before but for the task's inputs.
pub proof fn lemma_leveled_members(
    s: StateView,
    task: LeveledTaskView,
    output: Seq<usize>,
    x: usize,
)
    requires
        unique_placement(s),
        task_fits(s, CompactionTaskView::Leveled(task)),
    ensures
        placed_in(leveled_apply(s, task, output), x) <==> output.contains(x) || (placed_in(s, x)
            && !task.upper_level_sst_ids.contains(x) && !task.lower_level_sst_ids.contains(x)),
{
    let new = leveled_apply(s, task, output);
    let up = task.upper_level_sst_ids;
    let low = task.lower_level_sst_ids;
    let t = task.lower_level - 1;
    let kept_lower = without(s.levels[t].1, low);
    lemma_without_contains(s.l0, up, x);
    lemma_without_contains(s.levels[t].1, low, x);
    lemma_merge_contains(s.tables, kept_lower, output, 0, 0, x);
    assert(kept_lower.skip(0) =~= kept_lower);
    assert(output.skip(0) =~= output);
    assert(new.levels[t].1 == merge_by_first_key(s.tables, kept_lower, output));
    if task.upper_level is Some {
        let u = task.upper_level->0 - 1;
        lemma_without_contains(s.levels[u].1, up, x);
        assert(new.levels[u].1 == without(s.levels[u].1, up));
    }
    // Where the inputs lie, for an id that occurs among them.
    if up.contains(x) {
        let i = choose|i: int| 0 <= i < up.len() && up[i] == x;
        assert(up[i] == x);
        if task.upper_level is Some {
            assert(s.levels[task.upper_level->0 - 1].1.contains(x));
        } else {
            assert(s.l0.contains(x));
        }
    }
    if low.contains(x) {
        let i = choose|i: int| 0 <= i < low.len() && low[i] == x;
        assert(low[i] == x);
        assert(s.levels[t].1.contains(x));
    }
    if placed_in(new, x) {
        if !new.l0.contains(x) {
            let l = choose|l: int| 0 <= l < new.levels.len() && (#[trigger] new.levels[l]).1.contains(
                x,
            );
            assert(new.levels[l].1.contains(x));
            if l != t {
                if task.upper_level is Some && task.upper_level->0 - 1 == l {
                    assert(new.levels[l].1 == without(s.levels[l].1, up));
                } else {
                    assert(new.levels[l].1 == s.levels[l].1);
                }
                assert(s.levels[l].1.contains(x));
                if t < l {
                    assert(disjoint(s.levels[t].1, s.levels[l].1));
                } else {
                    assert(disjoint(s.levels[l].1, s.levels[t].1));
                }
                if task.upper_level is Some && task.upper_level->0 - 1 != l {
                    let u = task.upper_level->0 - 1;
                    if u < l {
                        assert(disjoint(s.levels[u].1, s.levels[l].1));
                    } else {
                        assert(disjoint(s.levels[l].1, s.levels[u].1));
                    }
                }
                assert(disjoint(s.levels[l].1, s.l0));
            } else if !output.contains(x) {
                assert(s.levels[t].1.contains(x));
                assert(disjoint(s.levels[t].1, s.l0));
                if task.upper_level is Some {
                    let u = task.upper_level->0 - 1;
                    if u < t {
                        assert(disjoint(s.levels[u].1, s.levels[t].1));
                    } else {
                        assert(disjoint(s.levels[t].1, s.levels[u].1));
                    }
                }
            }
        } else {
            assert(disjoint(s.levels[t].1, s.l0));
            if task.upper_level is Some {
                assert(disjoint(s.levels[task.upper_level->0 - 1].1, s.l0));
            }
        }
    }
    if output.contains(x) {
        assert(new.levels[t].1.contains(x));
    }
    if placed_in(s, x) && !up.contains(x) && !low.contains(x) {
        if !s.l0.contains(x) {
            let l = choose|l: int| 0 <= l < s.levels.len() && (#[trigger] s.levels[l]).1.contains(x);
            assert(new.levels[l].1.contains(x));
        }
    }
}

/// A placement that named no table twice names none twice after a
/// leveled task has been applied with fresh output.
pub proof fn lemma_leveled_unique(s: StateView, task: LeveledTaskView, output: Seq<usize>)
    requires
        unique_placement(s),
        task_fits(s, CompactionTaskView::Leveled(task)),
        fresh(s, output),
    ensures
        unique_placement(leveled_apply(s, task, output)),
{
    let new = leveled_apply(s, task, output);
    let up = task.upper_level_sst_ids;
    let low = task.lower_level_sst_ids;
    let t = task.lower_level - 1;
    let kept_lower = without(s.levels[t].1, low);
    lemma_without_no_duplicates(s.l0, up);
    // No fresh id is a table of the placement.
    assert forall|x: usize| output.contains(x) implies !placed_in(s, x) by {
        let i = choose|i: int| 0 <= i < output.len() && output[i] == x;
        assert(output[i] == x);
    }
    // Each new level holds tables of the old level, or fresh ones.
    assert forall|l: int, x: usize|
        0 <= l < new.levels.len() && #[trigger] new.levels[l].1.contains(
            x,
        ) implies s.levels[l].1.contains(x) || (l == t && output.contains(x)) by {
        if l == t {
            lemma_merge_contains(s.tables, kept_lower, output, 0, 0, x);
            assert(kept_lower.skip(0) =~= kept_lower);
            assert(output.skip(0) =~= output);
            lemma_without_contains(s.levels[t].1, low, x);
        } else {
            lemma_without_contains(s.levels[l].1, up, x);
        }
    }
    assert forall|x: usize| new.l0.contains(x) implies s.l0.contains(x) by {
        lemma_without_contains(s.l0, up, x);
    }
    assert forall|l: int| 0 <= l < new.levels.len() implies (#[trigger] new.levels[
        l
    ]).1.no_duplicates() && disjoint(new.levels[l].1, new.l0) by {
        assert(s.levels[l].1.no_duplicates() && disjoint(s.levels[l].1, s.l0));
        if l == t {
            lemma_without_no_duplicates(s.levels[t].1, low);
            assert(disjoint(kept_lower, output)) by {
                assert forall|x: usize| #[trigger] kept_lower.contains(x) implies !output.contains(
                    x,
                ) by {
                    lemma_without_contains(s.levels[t].1, low, x);
                    assert(s.levels[t].1.contains(x));
                }
            }
            lemma_merge_no_duplicates(s.tables, kept_lower, output, 0, 0);
        } else {
            lemma_without_no_duplicates(s.levels[l].1, up);
        }
        assert forall|x: usize| #[trigger] new.levels[l].1.contains(x) implies !new.l0.contains(
            x,
        ) by {
            if new.l0.contains(x) {
                assert(s.l0.contains(x));
                assert(s.levels[l].1.contains(x) || output.contains(x));
            }
        }
    }
    assert forall|l: int, m: int| 0 <= l < m < new.levels.len() implies disjoint(
        (#[trigger] new.levels[l]).1,
        (#[trigger] new.levels[m]).1,
    ) by {
        assert(disjoint(s.levels[l].1, s.levels[m].1));
        assert forall|x: usize| #[trigger] new.levels[l].1.contains(x) implies !new.levels[
            m
        ].1.contains(x) by {
            if new.levels[m].1.contains(x) {
                assert(s.levels[l].1.contains(x) || output.contains(x));
                assert(s.levels[m].1.contains(x) || output.contains(x));
                if output.contains(x) {
                    assert(!placed_in(s, x));
                    assert(l != t || m != t);
                }
            }
        }
    }
}

/// The tables of tiers are the tables of each tier.
pub proof fn lemma_tier_tables_contains(tiers: Seq<(usize, Seq<usize>)>, x: usize)
    ensures
        tier_tables(tiers).contains(x) <==> exists|i: int|
            0 <= i < tiers.len() && (#[trigger] tiers[i]).1.contains(x),
    decreases tiers.len(),
{
    let lists = tiers.map_values(|t: (usize, Seq<usize>)| t.1);
    if tiers.len() == 0 {
        assert(lists.flatten() =~= Seq::<usize>::empty());
    } else {
        let init = tiers.drop_last();
        let init_lists = init.map_values(|t: (usize, Seq<usize>)| t.1);
        let last = tiers.last();
        assert(lists =~= init_lists.push(last.1));
        init_lists.lemma_flatten_push(last.1);
        lemma_tier_tables_contains(init, x);
        let all = tier_tables(tiers);
        let head = tier_tables(init);
        assert(all == head + last.1);
        if all.contains(x) {
            let k = choose|k: int| 0 <= k < all.len() && all[k] == x;
            if k < head.len() {
                assert(head[k] == x);
                let i = choose|i: int| 0 <= i < init.len() && (#[trigger] init[i]).1.contains(x);
                assert(tiers[i] == init[i]);
            } else {
                assert(last.1[k - head.len()] == x);
                assert(tiers[tiers.len() - 1].1.contains(x));
            }
        }
        if exists|i: int| 0 <= i < tiers.len() && (#[trigger] tiers[i]).1.contains(x) {
            let i = choose|i: int| 0 <= i < tiers.len() && (#[trigger] tiers[i]).1.contains(x);
            if i < init.len() {
                assert(init[i] == tiers[i]);
                assert(head.contains(x));
                let k = choose|k: int| 0 <= k < head.len() && head[k] == x;
                assert(all[k] == x);
            } else {
                let k = choose|k: int| 0 <= k < last.1.len() && last.1[k] == x;
                assert(all[head.len() + k] == x);
            }
        }
    }
}

/// A tier of the placement whose id is the id of a tier of the task is
/// that tier of the task.
proof fn lemma_removed_tier_is_task_tier(s: StateView, task: TieredTaskView, l: int)
    requires
        task_fits(s, CompactionTaskView::Tiered(task)),
        0 <= l < s.levels.len(),
        tier_ids(task.tiers).contains(s.levels[l].0),
    ensures
        exists|i: int| 0 <= i < task.tiers.len() && #[trigger] task.tiers[i] == s.levels[l],
{
    let ids = tier_ids(task.tiers);
    let i = choose|i: int| 0 <= i < ids.len() && ids[i] == s.levels[l].0;
    assert(is_tier_of(s, task.tiers[i]));
    let m = choose|m: int| 0 <= m < s.levels.len() && #[trigger] s.levels[m] == task.tiers[i];
    assert(tier_ids(s.levels)[m] == s.levels[m].0);
    assert(tier_ids(s.levels)[l] == s.levels[l].0);
    assert(task.tiers[i] == s.levels[l]);
}

/// A tier of the task is a tier of the placement whose id is the id of a
/// tier of the task.
proof fn lemma_task_tier_is_removed(s: StateView, task: TieredTaskView, i: int)
    requires
        task_fits(s, CompactionTaskView::Tiered(task)),
        0 <= i < task.tiers.len(),
    ensures
        exists|l: int|
            0 <= l < s.levels.len() && #[trigger] s.levels[l] == task.tiers[i] && tier_ids(
                task.tiers,
            ).contains(s.levels[l].0),
{
    assert(is_tier_of(s, task.tiers[i]));
    let l = choose|l: int| 0 <= l < s.levels.len() && #[trigger] s.levels[l] == task.tiers[i];
    assert(tier_ids(task.tiers)[i] == task.tiers[i].0);
    assert(s.levels[l] == task.tiers[i]);
}

/// Where the oldest removed tier of a fitting task lies.
pub proof fn lemma_tiered_position(s: StateView, task: TieredTaskView)
    requires
        task_fits(s, CompactionTaskView::Tiered(task)),
    ensures
        oldest_removed_tier(s, task, oldest_removed_position(s, task)),
{
    lemma_task_tier_is_removed(s, task, 0);
    let l = choose|l: int|
        0 <= l < s.levels.len() && #[trigger] s.levels[l] == task.tiers[0] && tier_ids(
            task.tiers,
        ).contains(s.levels[l].0);
    crate::compact::executor::lemma_oldest_removed_exists(s, task, l);
}

/// `tier` is a tier of the placement before position `p` that the task
/// does not remove.
pub open spec fn kept_tier_before(
    s: StateView,
    task: TieredTaskView,
    p: int,
    tier: (usize, Seq<usize>),
) -> bool {
    exists|l: int|
        0 <= l < p && #[trigger] s.levels[l] == tier && !tier_ids(task.tiers).contains(
            s.levels[l].0,
        )
}

/// Each tier of the placement after a tiered task has been applied is
/// the tier formed by the output or a tier that the placement had and
/// the task did not remove; and each such tier is still there.
pub proof fn lemma_tiered_tiers(s: StateView, task: TieredTaskView, output: Seq<usize>)
    requires
        task_fits(s, CompactionTaskView::Tiered(task)),
    ensures
        ({
            let new = tiered_apply(s, task, output);
            let p = oldest_removed_position(s, task);
            let before = surviving_tiers(s.levels.take(p), task.tiers);
            let mid = output_tier(output);
            &&& new.l0 == s.l0
            &&& new.levels == before + mid + s.levels.skip(p + 1)
            &&& forall|k: int|
                0 <= k < before.len() ==> kept_tier_before(s, task, p, #[trigger] before[k])
            &&& forall|l: int|
                0 <= l < p && !tier_ids(task.tiers).contains((#[trigger] s.levels[l]).0)
                    ==> before.contains(s.levels[l])
            &&& forall|l: int|
                p < l < s.levels.len() ==> !tier_ids(task.tiers).contains(
                    (#[trigger] s.levels[l]).0,
                )
            &&& 0 <= p < s.levels.len()
            &&& tier_ids(task.tiers).contains(s.levels[p].0)
        }),
{
    lemma_tiered_position(s, task);
    let p = oldest_removed_position(s, task);
    let front = s.levels.take(p);
    let keep = |t: (usize, Seq<usize>)| !tier_ids(task.tiers).contains(t.0);
    let before = front.filter(keep);
    assert forall|k: int| 0 <= k < before.len() implies kept_tier_before(
        s,
        task,
        p,
        #[trigger] before[k],
    ) by {
        front.lemma_filter_pred(keep, k);
        assert(before.contains(before[k]));
        front.lemma_filter_contains_rev(keep, before[k]);
        let l = choose|l: int| 0 <= l < front.len() && front[l] == before[k];
        assert(s.levels[l] == before[k]);
    }
    assert forall|l: int|
        0 <= l < p && !tier_ids(task.tiers).contains(
            (#[trigger] s.levels[l]).0,
        ) implies before.contains(s.levels[l]) by {
        assert(front[l] == s.levels[l]);
        front.lemma_filter_contains(keep, l);
    }
}

/// Which tables a placement names after a tiered task has been applied:
/// the output, and what it named before but for the task's inputs.
pub proof fn lemma_tiered_members(s: StateView, task: TieredTaskView, output: Seq<usize>, x: usize)
    requires
        unique_placement(s),
        task_fits(s, CompactionTaskView::Tiered(task)),
    ensures
        placed_in(tiered_apply(s, task, output), x) <==> output.contains(x) || (placed_in(s, x)
            && !tier_tables(task.tiers).contains(x)),
{
    let new = tiered_apply(s, task, output);
    let p = oldest_removed_position(s, task);
    let before = surviving_tiers(s.levels.take(p), task.tiers);
    let mid = output_tier(output);
    let after = s.levels.skip(p + 1);
    lemma_tiered_tiers(s, task, output);
    lemma_tier_tables_contains(task.tiers, x);
    // A table of the task lies in a removed tier of the placement.
    if tier_tables(task.tiers).contains(x) {
        let i = choose|i: int| 0 <= i < task.tiers.len() && (#[trigger] task.tiers[i]).1.contains(x);
        lemma_task_tier_is_removed(s, task, i);
        let r = choose|r: int|
            0 <= r < s.levels.len() && #[trigger] s.levels[r] == task.tiers[i] && tier_ids(
                task.tiers,
            ).contains(s.levels[r].0);
        assert(s.levels[r].1.contains(x));
        assert(disjoint(s.levels[r].1, s.l0));
        assert forall|l: int|
            0 <= l < s.levels.len() && !tier_ids(task.tiers).contains(
                (#[trigger] s.levels[l]).0,
            ) implies !s.levels[l].1.contains(x) by {
            if l < r {
                assert(disjoint(s.levels[l].1, s.levels[r].1));
            } else if r < l {
                assert(disjoint(s.levels[r].1, s.levels[l].1));
            }
        }
    }
    if placed_in(new, x) && !new.l0.contains(x) {
        let k = choose|k: int| 0 <= k < new.levels.len() && (#[trigger] new.levels[k]).1.contains(x);
        if k < before.len() {
            assert(new.levels[k] == before[k]);
            assert(kept_tier_before(s, task, p, before[k]));
            let l = choose|l: int|
                0 <= l < p && #[trigger] s.levels[l] == before[k] && !tier_ids(
                    task.tiers,
                ).contains(s.levels[l].0);
            assert(s.levels[l].1.contains(x));
        } else if k < before.len() + mid.len() {
            assert(new.levels[k] == mid[k - before.len()]);
        } else {
            let l = p + 1 + (k - before.len() - mid.len());
            assert(new.levels[k] == after[k - before.len() - mid.len()]);
            assert(s.levels[l].1.contains(x));
        }
    }
    if output.contains(x) {
        assert(mid.len() == 1);
        assert(new.levels[before.len() as int] == mid[0]);
        assert(new.levels[before.len() as int].1.contains(x));
    }
    if placed_in(s, x) && !tier_tables(task.tiers).contains(x) && !s.l0.contains(x) {
        let l = choose|l: int| 0 <= l < s.levels.len() && (#[trigger] s.levels[l]).1.contains(x);
        if tier_ids(task.tiers).contains(s.levels[l].0) {
            lemma_removed_tier_is_task_tier(s, task, l);
            let i = choose|i: int| 0 <= i < task.tiers.len() && #[trigger] task.tiers[i]
                == s.levels[l];
            assert(task.tiers[i].1.contains(x));
        }
        if l < p {
            assert(before.contains(s.levels[l]));
            let k = choose|k: int| 0 <= k < before.len() && before[k] == s.levels[l];
            assert(new.levels[k] == before[k]);
            assert(new.levels[k].1.contains(x));
        } else {
            let k = before.len() + mid.len() + (l - p - 1);
            assert(new.levels[k] == after[l - p - 1]);
            assert(new.levels[k].1.contains(x));
        }
    }
}

/// A placement that named no table twice names none twice after a tiered
/// task has been applied with fresh output, and its tiers keep distinct
/// ids, provided the first table of the output has an id that no tier
/// has.
pub proof fn lemma_tiered_unique(
    s: StateView,
    task: TieredTaskView,
    output: Seq<usize>,
    next: int,
)
    requires
        unique_placement(s),
        task_fits(s, CompactionTaskView::Tiered(task)),
        fresh(s, output),
        tiers_named(s, next),
        output.len() > 0 ==> next <= output[0],
    ensures
        unique_placement(tiered_apply(s, task, output)),
        tier_ids(tiered_apply(s, task, output).levels).no_duplicates(),
        forall|k: int|
            0 <= k < tiered_apply(s, task, output).levels.len() ==> (#[trigger] tiered_apply(
                s,
                task,
                output,
            ).levels[k]).0 < next || (output.len() > 0 && tiered_apply(
                s,
                task,
                output,
            ).levels[k].0 == output[0]),
{
    let new = tiered_apply(s, task, output);
    let p = oldest_removed_position(s, task);
    let front = s.levels.take(p);
    let keep = |t: (usize, Seq<usize>)| !tier_ids(task.tiers).contains(t.0);
    let before = front.filter(keep);
    let mid = output_tier(output);
    let after = s.levels.skip(p + 1);
    lemma_tiered_tiers(s, task, output);
    let apart = |a: (usize, Seq<usize>), b: (usize, Seq<usize>)| disjoint(a.1, b.1) && a.0 != b.0;
    assert forall|i: int, j: int| 0 <= i < j < front.len() implies apart(front[i], front[j]) by {
        assert(disjoint(s.levels[i].1, s.levels[j].1));
        assert(tier_ids(s.levels)[i] == s.levels[i].0);
        assert(tier_ids(s.levels)[j] == s.levels[j].0);
    }
    lemma_filter_keeps_order(front, keep, apart);
    assert forall|x: usize| output.contains(x) implies !placed_in(s, x) by {
        let i = choose|i: int| 0 <= i < output.len() && output[i] == x;
        assert(output[i] == x);
    }
    // Where each new tier comes from: position `origin(k)` of the old
    // tiers, or the output.
    assert forall|k: int| 0 <= k < new.levels.len() implies (exists|l: int|
        0 <= l < s.levels.len() && s.levels[l] == #[trigger] new.levels[k]) || (output.len() > 0
        && new.levels[k] == (output[0], output)) by {
        if k < before.len() {
            assert(new.levels[k] == before[k]);
            assert(kept_tier_before(s, task, p, before[k]));
        } else if k < before.len() + mid.len() {
            assert(new.levels[k] == mid[k - before.len()]);
        } else {
            assert(new.levels[k] == after[k - before.len() - mid.len()]);
            assert(s.levels[p + 1 + (k - before.len() - mid.len())] == new.levels[k]);
        }
    }
    assert forall|k: int| 0 <= k < new.levels.len() implies (#[trigger] new.levels[
        k
    ]).1.no_duplicates() && disjoint(new.levels[k].1, new.l0) && (new.levels[k].0 < next || (
    output.len() > 0 && new.levels[k].0 == output[0])) by {
        if exists|l: int| 0 <= l < s.levels.len() && s.levels[l] == new.levels[k] {
            let l = choose|l: int| 0 <= l < s.levels.len() && s.levels[l] == new.levels[k];
            assert(s.levels[l].1.no_duplicates() && disjoint(s.levels[l].1, s.l0));
            assert(s.levels[l].0 < next);
        } else {
            assert forall|x: usize| #[trigger] output.contains(x) implies !s.l0.contains(x) by {}
        }
    }
    assert forall|k: int, m: int| 0 <= k < m < new.levels.len() implies disjoint(
        (#[trigger] new.levels[k]).1,
        (#[trigger] new.levels[m]).1,
    ) && new.levels[k].0 != new.levels[m].0 by {
        let a = before.len() as int;
        let b = a + mid.len();
        if m < a {
            assert(new.levels[k] == before[k] && new.levels[m] == before[m]);
            assert(apart(before[k], before[m]));
        } else if k >= b {
            let lk = p + 1 + (k - b);
            let lm = p + 1 + (m - b);
            assert(new.levels[k] == s.levels[lk] && new.levels[m] == s.levels[lm]);
            assert(disjoint(s.levels[lk].1, s.levels[lm].1));
            assert(tier_ids(s.levels)[lk] == s.levels[lk].0);
            assert(tier_ids(s.levels)[lm] == s.levels[lm].0);
        } else if k < a && m >= b {
            assert(new.levels[k] == before[k]);
            assert(kept_tier_before(s, task, p, before[k]));
            let lk = choose|l: int|
                0 <= l < p && #[trigger] s.levels[l] == before[k] && !tier_ids(
                    task.tiers,
                ).contains(s.levels[l].0);
            let lm = p + 1 + (m - b);
            assert(new.levels[m] == s.levels[lm]);
            assert(disjoint(s.levels[lk].1, s.levels[lm].1));
            assert(tier_ids(s.levels)[lk] == s.levels[lk].0);
            assert(tier_ids(s.levels)[lm] == s.levels[lm].0);
        } else {
            // One of the two is the tier formed by the output.
            let (old, fresh_one) = if k < a || k >= b {
                (k, m)
            } else {
                (m, k)
            };
            assert(new.levels[fresh_one] == (output[0], output));
            assert(exists|l: int| 0 <= l < s.levels.len() && s.levels[l] == new.levels[old]) by {
                if old < a {
                    assert(new.levels[old] == before[old]);
                    assert(kept_tier_before(s, task, p, before[old]));
                } else {
                    assert(new.levels[old] == s.levels[p + 1 + (old - b)]);
                }
            }
            let l = choose|l: int| 0 <= l < s.levels.len() && s.levels[l] == new.levels[old];
            assert(s.levels[l].0 < next);
            assert forall|x: usize| s.levels[l].1.contains(x) implies !output.contains(x) by {
                if output.contains(x) {
                    assert(!placed_in(s, x));
                }
            }
        }
    }
    assert forall|k: int, m: int|
        0 <= k < tier_ids(new.levels).len() && 0 <= m < tier_ids(new.levels).len() && k
            != m implies tier_ids(new.levels)[k] != tier_ids(new.levels)[m] by {
        if k < m {
            assert(new.levels[k].0 != new.levels[m].0);
        } else {
            assert(new.levels[m].0 != new.levels[k].0);
        }
    }
}

/// A task that the strategy generates from a placement speaks of the
/// placement as it is.
pub proof fn lemma_generated_fits(ctrl: CompactionController, s: StateView, task: CompactionTaskView)
    requires
        ctrl.admits(s),
        ctrl.generated(s, Some(task)),
        ctrl is Tiered ==> tier_ids(s.levels).no_duplicates(),
    ensures
        task_fits(s, task),
{
    match ctrl {
        CompactionController::Simple(c) => {
            let t = task->Simple_0;
            let i = choose|i: int|
                {
                    &&& 0 <= i < c.options.max_levels
                    &&& #[trigger] c.options.triggers(s, i)
                    &&& forall|j: int| 0 <= j < i ==> !c.options.triggers(s, j)
                    &&& t == c.options.task_at(s, i)
                };
            let up = t.upper_level_sst_ids;
            assert forall|k: int| 0 <= k < up.len() implies up.contains(#[trigger] up[k]) by {}
        },
        CompactionController::Tiered(c) => {
            let t = task->Tiered_0;
            assert forall|i: int| 0 <= i < t.tiers.len() implies is_tier_of(
                s,
                #[trigger] t.tiers[i],
            ) by {
                if c.options.space_amplification_triggers(s) {
                    assert(s.levels[i] == t.tiers[i]);
                } else if exists|k: int| c.options.size_ratio_triggers(s, k) {
                    assert(s.levels[i] == t.tiers[i]);
                } else {
                    assert(s.levels[i + c.options.sorted_runs_start()] == t.tiers[i]);
                }
            }
        },
        CompactionController::Leveled(c) => {
            let t = task->Leveled_0;
            let up = t.upper_level_sst_ids;
            let low = t.lower_level_sst_ids;
            if c.options.l0_triggers(s) {
                let b = choose|b: int|
                    {
                        &&& #[trigger] c.options.is_base_level(s, b)
                        &&& Some(t) == Some(c.options.l0_task(s, b))
                    };
                assert forall|k: int| 0 <= k < up.len() implies up.contains(#[trigger] up[k]) by {}
                assert forall|k: int| 0 <= k < low.len() implies s.levels[b - 1].1.contains(
                    #[trigger] low[k],
                ) by {
                    assert(low.contains(low[k]));
                    s.levels[b - 1].1.lemma_filter_contains_rev(
                        |id: usize|
                            crate::compact::leveled::overlaps(
                                s.tables[id],
                                crate::compact::leveled::key_range(s.tables, s.l0),
                            ),
                        low[k],
                    );
                }
            } else {
                let (p, m) = choose|p: int, m: usize|
                    {
                        &&& #[trigger] c.options.highest_priority(s, p)
                        &&& #[trigger] crate::compact::leveled::is_oldest(s.levels[p].1, m)
                        &&& Some(t) == Some(c.options.level_task(s, p, m))
                    };
                assert(c.options.over_target(s, p));
                assert(p + 1 < c.options.max_levels);
                assert(up[0] == m);
                assert forall|k: int| 0 <= k < low.len() implies s.levels[p + 1].1.contains(
                    #[trigger] low[k],
                ) by {
                    assert(low.contains(low[k]));
                    s.levels[p + 1].1.lemma_filter_contains_rev(
                        |id: usize|
                            crate::compact::leveled::overlaps(
                                s.tables[id],
                                crate::compact::leveled::key_range(s.tables, seq![m]),
                            ),
                        low[k],
                    );
                }
            }
        },
        CompactionController::NoCompaction => {},
    }
}

/// The tables that are open after new ones have been opened: those that
/// were open and the new ones, each new one under its own id where the
/// new ids are distinct.
pub proof fn lemma_insert_tables_dom(tables: Map<usize, SsTableView>, new: Seq<SsTableView>, x: usize)
    ensures
        insert_tables(tables, new).contains_key(x) <==> tables.contains_key(x) || table_ids(
            new,
        ).contains(x),
        table_ids(new).no_duplicates() ==> forall|i: int|
            0 <= i < new.len() && (#[trigger] new[i]).id == x ==> insert_tables(tables, new)[x]
                == new[i],
    decreases new.len(),
{
    if new.len() > 0 {
        let init = new.drop_last();
        let last = new.last();
        lemma_insert_tables_dom(tables, init, x);
        let ids = table_ids(new);
        assert(ids[new.len() - 1] == last.id);
        if table_ids(init).contains(x) {
            let k = choose|k: int| 0 <= k < init.len() && table_ids(init)[k] == x;
            assert(ids[k] == x);
        }
        if ids.contains(x) {
            let k = choose|k: int| 0 <= k < ids.len() && ids[k] == x;
            if k < init.len() {
                assert(table_ids(init)[k] == x);
            }
        }
        if ids.no_duplicates() {
            assert forall|i: int, j: int|
                0 <= i < init.len() && 0 <= j < init.len() && i != j implies table_ids(init)[i]
                != table_ids(init)[j] by {
                assert(ids[i] == table_ids(init)[i] && ids[j] == table_ids(init)[j]);
            }
            assert forall|i: int| 0 <= i < new.len() && (#[trigger] new[i]).id == x implies insert_tables(
                tables,
                new,
            )[x] == new[i] by {
                if i < init.len() {
                    assert(init[i] == new[i]);
                    assert(ids[i] == x);
                    assert(last.id != x);
                }
            }
        }
    } else {
        assert(!table_ids(new).contains(x));
    }
}

/// The inputs of a fitting task are tables of the placement.
pub proof fn lemma_inputs_placed(s: StateView, task: CompactionTaskView, x: usize)
    requires
        task_fits(s, task),
        task.inputs().contains(x),
    ensures
        placed_in(s, x),
{
    match task {
        CompactionTaskView::Tiered(t) => {
            lemma_tier_tables_contains(t.tiers, x);
            let i = choose|i: int| 0 <= i < t.tiers.len() && (#[trigger] t.tiers[i]).1.contains(x);
            lemma_task_tier_is_removed(s, t, i);
        },
        _ => {
            lemma_apply_as_leveled(s, task, Seq::empty());
            let t = as_leveled(task);
            let up = t.upper_level_sst_ids;
            let low = t.lower_level_sst_ids;
            let all = up + low;
            let k = choose|k: int| 0 <= k < all.len() && all[k] == x;
            if k < up.len() {
                assert(up[k] == x);
                if t.upper_level is Some {
                    assert(s.levels[t.upper_level->0 - 1].1.contains(x));
                }
            } else {
                assert(low[k - up.len()] == x);
                assert(s.levels[t.lower_level - 1].1.contains(x));
            }
        },
    }
}

/// What a committed compaction does to the ids.
///
/// Where the open tables were exactly the tables placed, each once, with
/// ids below `next`, and the new tables are numbered from `next` on,
/// the same holds after the commit with the next free id. No new table
/// takes the id of a table that was open, and every input of the task
/// was open before the commit and is closed after it.
pub proof fn lemma_commit_keeps_ids(
    s: StateView,
    task: CompactionTaskView,
    new: Seq<SsTableView>,
    next: int,
)
    requires
        consistent(s),
        ids_below(s, next),
        task_fits(s, task),
        forall|i: int| 0 <= i < new.len() ==> (#[trigger] new[i]).id == next + i,
        task is Tiered ==> tiers_named(s, next),
    ensures
        consistent(committed(s, task, new)),
        ids_below(committed(s, task, new), next + new.len()),
        tiers_named(s, next) ==> tiers_named(committed(s, task, new), next + new.len()),
        forall|i: int| 0 <= i < new.len() ==> !s.tables.contains_key((#[trigger] new[i]).id),
        forall|x: usize| #[trigger]
            task.inputs().contains(x) ==> s.tables.contains_key(x) && x < next && !committed(
                s,
                task,
                new,
            ).tables.contains_key(x),
{
    let out = table_ids(new);
    let opened = with_tables(s, new);
    let mid = CompactionController::apply(opened, task, out);
    let after = committed(s, task, new);
    let closed = task.inputs().to_set();
    assert forall|i: int, j: int| 0 <= i < out.len() && 0 <= j < out.len() && i != j implies out[i]
        != out[j] by {
        assert(out[i] == new[i].id && out[j] == new[j].id);
    }
    assert(fresh(opened, out)) by {
        assert forall|i: int| 0 <= i < out.len() implies !placed_in(opened, #[trigger] out[i]) by {
            assert(out[i] == new[i].id);
            if placed_in(s, out[i]) {
                assert(s.tables.contains_key(out[i]));
            }
        }
    }
    assert(unique_placement(opened));
    assert(task_fits(opened, task));
    // Where each table is placed after the task has been applied.
    assert forall|x: usize|
        placed_in(mid, x) <==> out.contains(x) || (placed_in(s, x) && !task.inputs().contains(
            x,
        )) by {
        match task {
            CompactionTaskView::Tiered(t) => {
                lemma_tiered_members(opened, t, out, x);
            },
            _ => {
                lemma_apply_as_leveled(opened, task, out);
                let t = as_leveled(task);
                lemma_leveled_members(opened, t, out, x);
                let up = t.upper_level_sst_ids;
                let low = t.lower_level_sst_ids;
                if (up + low).contains(x) {
                    let k = choose|k: int| 0 <= k < (up + low).len() && (up + low)[k] == x;
                    if k < up.len() {
                        assert(up[k] == x);
                    } else {
                        assert(low[k - up.len()] == x);
                    }
                }
                if up.contains(x) {
                    let k = choose|k: int| 0 <= k < up.len() && up[k] == x;
                    assert((up + low)[k] == x);
                }
                if low.contains(x) {
                    let k = choose|k: int| 0 <= k < low.len() && low[k] == x;
                    assert((up + low)[up.len() + k] == x);
                }
            },
        }
    }
    match task {
        CompactionTaskView::Tiered(t) => {
            lemma_tiered_unique(opened, t, out, next);
            if out.len() > 0 {
                assert(out[0] == new[0].id);
            }
        },
        _ => {
            lemma_apply_as_leveled(opened, task, out);
            lemma_leveled_unique(opened, as_leveled(task), out);
            assert(tier_ids(mid.levels) =~= tier_ids(s.levels));
        },
    }
    assert(after.l0 == mid.l0 && after.levels == mid.levels);
    assert forall|x: usize| #[trigger] after.tables.contains_key(x) <==> placed_in(after, x) by {
        lemma_insert_tables_dom(s.tables, new, x);
        if task.inputs().contains(x) {
            lemma_inputs_placed(s, task, x);
        }
        if out.contains(x) {
            let k = choose|k: int| 0 <= k < out.len() && out[k] == x;
            assert(out[k] == new[k].id);
            if task.inputs().contains(x) {
                assert(s.tables.contains_key(x));
            }
        }
        assert(placed_in(after, x) == placed_in(mid, x));
    }
    assert forall|x: usize| after.tables.contains_key(x) implies (#[trigger] after.tables[x]).id
        == x by {
        lemma_insert_tables_dom(s.tables, new, x);
        if out.contains(x) {
            let k = choose|k: int| 0 <= k < out.len() && out[k] == x;
            assert(new[k].id == x);
        } else {
            crate::compact::executor::lemma_insert_tables_keeps(s.tables, new, x);
        }
    }
    assert forall|x: usize| #[trigger] after.tables.contains_key(x) implies x < next
        + new.len() by {
        lemma_insert_tables_dom(s.tables, new, x);
        if out.contains(x) {
            let k = choose|k: int| 0 <= k < out.len() && out[k] == x;
            assert(new[k].id == x);
        }
    }
    assert forall|i: int| 0 <= i < new.len() implies !s.tables.contains_key(
        (#[trigger] new[i]).id,
    ) by {}
    assert forall|x: usize| #[trigger] task.inputs().contains(x) implies s.tables.contains_key(x)
        && x < next && !after.tables.contains_key(x) by {
        lemma_inputs_placed(s, task, x);
        assert(closed.contains(x));
    }
    if tiers_named(s, next) {
        assert forall|l: int| 0 <= l < after.levels.len() implies (#[trigger] after.levels[l]).0
            < next + new.len() by {
            match task {
                CompactionTaskView::Tiered(t) => {
                    assert(after.levels[l] == tiered_apply(opened, t, out).levels[l]);
                    if out.len() > 0 {
                        assert(out[0] == new[0].id);
                    }
                },
                _ => {
                    lemma_apply_as_leveled(opened, task, out);
                    assert(after.levels[l].0 == s.levels[l].0);
                },
            }
        }
    }
}

/// `t` is one of the tables `new`.
pub open spec fn is_one_of(new: Seq<SsTableView>, t: SsTableView) -> bool {
    exists|i: int| 0 <= i < new.len() && #[trigger] new[i] == t
}

/// A table that is open after a commit is one of the new tables, open
/// under its id, or a table that was open before, unchanged.
pub proof fn lemma_committed_table(
    s: StateView,
    task: CompactionTaskView,
    new: Seq<SsTableView>,
    next: int,
    x: usize,
)
    requires
        ids_below(s, next),
        forall|i: int| 0 <= i < new.len() ==> (#[trigger] new[i]).id == next + i,
        committed(s, task, new).tables.contains_key(x),
    ensures
        if table_ids(new).contains(x) {
            is_one_of(new, committed(s, task, new).tables[x]) && committed(s, task, new).tables[x].id
                == x
        } else {
            s.tables.contains_key(x) && committed(s, task, new).tables[x] == s.tables[x]
        },
{
    let out = table_ids(new);
    assert forall|i: int, j: int| 0 <= i < out.len() && 0 <= j < out.len() && i != j implies out[i]
        != out[j] by {
        assert(out[i] == new[i].id && out[j] == new[j].id);
    }
    lemma_insert_tables_dom(s.tables, new, x);
    let opened = with_tables(s, new);
    let mid = CompactionController::apply(opened, task, out);
    assert(mid.tables == opened.tables);
    if out.contains(x) {
        let k = choose|k: int| 0 <= k < out.len() && out[k] == x;
        assert(new[k].id == x);
        assert(committed(s, task, new).tables[x] == new[k]);
    } else {
        crate::compact::executor::lemma_insert_tables_keeps(s.tables, new, x);
    }
}

/// Every table of the placement is open and is what its file says after
/// a commit, where that held before and holds of the new tables.
pub proof fn lemma_commit_keeps_open(
    s: StateView,
    task: CompactionTaskView,
    new: Seq<SsTableView>,
    next: int,
)
    requires
        consistent(s),
        ids_below(s, next),
        task_fits(s, task),
        forall|i: int| 0 <= i < new.len() ==> (#[trigger] new[i]).id == next + i,
        task is Tiered ==> tiers_named(s, next),
        crate::compact::executor::all_open(s),
        forall|i: int| 0 <= i < new.len() ==> (#[trigger] new[i]).wf(),
    ensures
        crate::compact::executor::all_open(committed(s, task, new)),
{
    let after = committed(s, task, new);
    lemma_commit_keeps_ids(s, task, new, next);
    assert forall|x: usize| placed_in(after, x) implies after.tables.contains_key(x)
        && (#[trigger] after.tables[x]).wf() by {
        assert(after.tables.contains_key(x));
        lemma_committed_table(s, task, new, next, x);
        if table_ids(new).contains(x) {
            let i = choose|i: int| 0 <= i < new.len() && #[trigger] new[i] == after.tables[x];
            assert(new[i].wf());
        } else {
            assert(placed_in(s, x));
            if s.l0.contains(x) {
                let k = choose|k: int| 0 <= k < s.l0.len() && s.l0[k] == x;
                assert(s.tables[s.l0[k]].wf());
            } else {
                let l = choose|l: int|
                    0 <= l < s.levels.len() && (#[trigger] s.levels[l]).1.contains(x);
                let k = choose|k: int| 0 <= k < s.levels[l].1.len() && s.levels[l].1[k] == x;
                assert(crate::compact::executor::ids_open(s.tables, s.levels[l].1));
                assert(s.tables[s.levels[l].1[k]].wf());
            }
        }
    }
    assert forall|i: int| 0 <= i < after.l0.len() implies after.tables.contains_key(
        #[trigger] after.l0[i],
    ) && after.tables[after.l0[i]].wf() by {
        assert(after.l0.contains(after.l0[i]));
        assert(placed_in(after, after.l0[i]));
    }
    assert forall|l: int| 0 <= l < after.levels.len() implies crate::compact::executor::ids_open(
        after.tables,
        (#[trigger] after.levels[l]).1,
    ) by {
        let ids = after.levels[l].1;
        assert forall|i: int| 0 <= i < ids.len() implies after.tables.contains_key(
            #[trigger] ids[i],
        ) && after.tables[ids[i]].wf() by {
            assert(after.levels[l].1.contains(ids[i]));
            assert(placed_in(after, ids[i]));
        }
    }
}

/// Every retired id lies below `next` and names no open table.
pub open spec fn retired_for_good(s: StateView, retired: Set<usize>, next: int) -> bool {
    forall|x: usize| #[trigger] retired.contains(x) ==> x < next && !s.tables.contains_key(x)
}

/// Ids are never used again: where the ids retired so far lie below the
/// next free id and name no open table, the same holds after a commit of
/// those ids together with the inputs of the task, which the commit
/// retires.
pub proof fn lemma_commit_never_reuses_ids(
    s: StateView,
    task: CompactionTaskView,
    new: Seq<SsTableView>,
    next: int,
    retired: Set<usize>,
)
    requires
        consistent(s),
        ids_below(s, next),
        task_fits(s, task),
        forall|i: int| 0 <= i < new.len() ==> (#[trigger] new[i]).id == next + i,
        task is Tiered ==> tiers_named(s, next),
        retired_for_good(s, retired, next),
    ensures
        retired_for_good(
            committed(s, task, new),
            retired.union(task.inputs().to_set()),
            next + new.len(),
        ),
{
    let after = committed(s, task, new);
    lemma_commit_keeps_ids(s, task, new, next);
    assert forall|x: usize| #[trigger]
        retired.union(task.inputs().to_set()).contains(x) implies x < next + new.len()
        && !after.tables.contains_key(x) by {
        if task.inputs().contains(x) {
            assert(!after.tables.contains_key(x));
        } else {
            assert(retired.contains(x));
            if after.tables.contains_key(x) {
                lemma_committed_table(s, task, new, next, x);
                if table_ids(new).contains(x) {
                    let k = choose|k: int| 0 <= k < new.len() && table_ids(new)[k] == x;
                    assert(new[k].id == x);
                }
            }
        }
    }
}

} // verus!
