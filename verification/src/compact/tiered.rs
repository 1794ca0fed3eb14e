//! Tiered (universal) compaction: every flush forms a new tier at the
//! head, and runs of adjacent tiers are merged into one.

use vstd::prelude::*;
use crate::lsm_storage::{append_ids, copy_ids, levels_view, LsmStorageState, StateView};

verus! {

#[derive(Debug, Clone, Copy)]
pub struct TieredCompactionOptions {
    /// The number of tiers above which the oldest ones are merged.
    pub num_tiers: usize,
    /// All tiers are merged once the tiers above the last one hold this
    /// many tables per hundred tables of the last one.
    pub max_size_amplification_percent: usize,
    /// The newest tiers are merged once they hold `100 + size_ratio`
    /// tables per hundred tables of the tier that follows them.
    pub size_ratio: usize,
    /// The least number of tiers that the size-ratio rule merges.
    pub min_merge_width: usize,
}

#[derive(Debug, Clone, PartialEq, Eq)]
pub struct TieredCompactionTask {
    /// The tiers to merge, each with its id and its tables.
    pub tiers: Vec<(usize, Vec<usize>)>,
    /// Whether the deepest tier is among them.
    pub bottom_tier_included: bool,
}

/// The mathematical content of a [`TieredCompactionTask`].
pub struct TieredTaskView {
    pub tiers: Seq<(usize, Seq<usize>)>,
    pub bottom_tier_included: bool,
}

impl View for TieredCompactionTask {
    type V = TieredTaskView;

    open spec fn view(&self) -> TieredTaskView {
        TieredTaskView {
            tiers: levels_view(self.tiers@),
            bottom_tier_included: self.bottom_tier_included,
        }
    }
}

/// The number of tables in the first `k` tiers.  The size of a tier is
/// the number of tables it holds.
pub open spec fn tiers_size(tiers: Seq<(usize, Seq<usize>)>, k: int) -> nat
    decreases k,
{
    if k <= 0 {
        0
    } else {
        tiers_size(tiers, k - 1) + tiers[k - 1].1.len()
    }
}

/// The ids of the tiers, in order.
pub open spec fn tier_ids(tiers: Seq<(usize, Seq<usize>)>) -> Seq<usize> {
    tiers.map_values(|t: (usize, Seq<usize>)| t.0)
}

/// The tables of the tiers, tier after tier.
pub open spec fn tier_tables(tiers: Seq<(usize, Seq<usize>)>) -> Seq<usize> {
    tiers.map_values(|t: (usize, Seq<usize>)| t.1).flatten()
}

/// The tiers of `levels` whose id is not the id of a tier of `removed`.
pub open spec fn surviving_tiers(
    levels: Seq<(usize, Seq<usize>)>,
    removed: Seq<(usize, Seq<usize>)>,
) -> Seq<(usize, Seq<usize>)> {
    levels.filter(|t: (usize, Seq<usize>)| !tier_ids(removed).contains(t.0))
}

/// The tier that the output of a compaction forms: none when there is no
/// output, else one tier named after its first table.
pub open spec fn output_tier(output: Seq<usize>) -> Seq<(usize, Seq<usize>)> {
    if output.len() == 0 {
        Seq::empty()
    } else {
        seq![(output[0], output)]
    }
}

impl TieredCompactionOptions {
    /// The space-amplification rule: the tiers above the last one hold at
    /// least `max_size_amplification_percent` tables per hundred tables
    /// of the last one.
    pub open spec fn space_amplification_triggers(self, s: StateView) -> bool {
        let n = s.levels.len() as int;
        n >= 1 && tiers_size(s.levels, n - 1) * 100 >= self.max_size_amplification_percent
            * s.levels[n - 1].1.len()
    }

    /// The size-ratio rule at width `k`: the first `k` tiers are at least
    /// `min_merge_width` many and hold at least `100 + size_ratio` tables
    /// per hundred tables of the tier that follows them.
    pub open spec fn size_ratio_triggers(self, s: StateView, k: int) -> bool {
        &&& 1 <= k < s.levels.len()
        &&& k >= self.min_merge_width
        &&& tiers_size(s.levels, k) * 100 >= (100 + self.size_ratio) * s.levels[k].1.len()
    }

    /// `k` is the least width at which the size-ratio rule triggers.
    pub open spec fn first_size_ratio_width(self, s: StateView, k: int) -> bool {
        &&& self.size_ratio_triggers(s, k)
        &&& forall|j: int| 1 <= j < k ==> !self.size_ratio_triggers(s, j)
    }

    /// The sorted-runs rule: there are more than `num_tiers` tiers.
    pub open spec fn sorted_runs_trigger(self, s: StateView) -> bool {
        s.levels.len() > self.num_tiers
    }

    /// The position of the first tier that the sorted-runs rule merges:
    /// with it and the tiers after it merged into one, `num_tiers` tiers
    /// remain.
    pub open spec fn sorted_runs_start(self) -> int {
        if self.num_tiers == 0 {
            0
        } else {
            self.num_tiers - 1
        }
    }
}

/// The view of a task that may be absent.
pub open spec fn tiered_view(r: Option<TieredCompactionTask>) -> Option<TieredTaskView> {
    match r {
        Some(task) => Some(task@),
        None => None,
    }
}

impl TieredCompactionOptions {
    /// What task generation may assume of a placement: the number of
    /// tables in all tiers together can be counted in a machine word.
    pub open spec fn admits(self, s: StateView) -> bool {
        tiers_size(s.levels, s.levels.len() as int) <= usize::MAX
    }

    /// `r` is what task generation gives on `s`.  The rules are tried in
    /// order and the first that triggers decides: space amplification
    /// merges all tiers; the size ratio merges the newest tiers up to the
    /// least width at which it triggers; the sorted-runs rule merges the
    /// oldest tiers so that `num_tiers` remain.
    pub open spec fn generated(self, s: StateView, r: Option<TieredTaskView>) -> bool {
        if self.space_amplification_triggers(s) {
            r == Some(TieredTaskView { tiers: s.levels, bottom_tier_included: true })
        } else if exists|k: int| self.size_ratio_triggers(s, k) {
            exists|k: int|
                {
                    &&& #[trigger] self.first_size_ratio_width(s, k)
                    &&& r == Some(
                        TieredTaskView { tiers: s.levels.take(k), bottom_tier_included: false },
                    )
                }
        } else if self.sorted_runs_trigger(s) {
            r == Some(
                TieredTaskView {
                    tiers: s.levels.skip(self.sorted_runs_start()),
                    bottom_tier_included: true,
                },
            )
        } else {
            r is None
        }
    }
}

/// Whether a tiered task can be carried out on `s`: some tier of the task
/// is a tier of `s`.
pub open spec fn tiered_applicable(s: StateView, task: TieredTaskView) -> bool {
    exists|p: int| oldest_removed_tier(s, task, p)
}

/// The position of the oldest tier of `s` that `task` removes.
pub open spec fn oldest_removed_position(s: StateView, task: TieredTaskView) -> int {
    choose|p: int| oldest_removed_tier(s, task, p)
}

/// The placement after a tiered task has been carried out: the task's
/// tiers are gone and the tier formed by the output stands where the
/// oldest of them stood.
pub open spec fn tiered_apply(s: StateView, task: TieredTaskView, output: Seq<usize>) -> StateView {
    tiered_apply_at(s, task, output, oldest_removed_position(s, task))
}

/// No two positions are that of the oldest removed tier.
pub proof fn lemma_oldest_removed_unique(s: StateView, task: TieredTaskView, p: int)
    requires
        oldest_removed_tier(s, task, p),
    ensures
        oldest_removed_position(s, task) == p,
{
    let q = oldest_removed_position(s, task);
    assert(oldest_removed_tier(s, task, q));
    if q < p {
        assert(!tier_ids(task.tiers).contains(s.levels[p].0));
    } else if p < q {
        assert(!tier_ids(task.tiers).contains(s.levels[q].0));
    }
}

/// `p` is the position of the oldest tier of `s` that `task` removes.
pub open spec fn oldest_removed_tier(s: StateView, task: TieredTaskView, p: int) -> bool {
    &&& 0 <= p < s.levels.len()
    &&& tier_ids(task.tiers).contains(s.levels[p].0)
    &&& forall|j: int| p < j < s.levels.len() ==> !tier_ids(task.tiers).contains(s.levels[j].0)
}

/// The placement after a tiered task has been carried out, `p` being the
/// position of the oldest removed tier: the task's tiers are gone and the
/// tier formed by the output stands where the oldest of them stood.
pub open spec fn tiered_apply_at(
    s: StateView,
    task: TieredTaskView,
    output: Seq<usize>,
    p: int,
) -> StateView {
    StateView {
        l0: s.l0,
        levels: surviving_tiers(s.levels.take(p), task.tiers) + output_tier(output)
            + s.levels.skip(p + 1),
        tables: s.tables,
    }
}

/// A copy of the tiers `from..to` of `levels`.
pub fn copy_levels(levels: &[(usize, Vec<usize>)], from: usize, to: usize) -> (out: Vec<
    (usize, Vec<usize>),
>)
    requires
        from <= to <= levels@.len(),
    ensures
        levels_view(out@) == levels_view(levels@).subrange(from as int, to as int),
{
    let mut out: Vec<(usize, Vec<usize>)> = Vec::new();
    let mut j: usize = from;
    let ghost all = levels_view(levels@);
    assert(levels_view(out@) =~= all.subrange(from as int, j as int));
    while j < to
        invariant
            from <= j <= to <= levels@.len(),
            all == levels_view(levels@),
            levels_view(out@) == all.subrange(from as int, j as int),
        decreases to - j,
    {
        let ids = copy_ids(levels[j].1.as_slice());
        let ghost before = out@;
        out.push((levels[j].0, ids));
        assert(levels_view(out@) =~= levels_view(before).push(all[j as int]));
        assert(all.subrange(from as int, j + 1) =~= all.subrange(from as int, j as int).push(
            all[j as int],
        ));
        j += 1;
    }
    out
}

/// Whether a tier of `tiers` has the id `id`.
pub fn has_tier(tiers: &[(usize, Vec<usize>)], id: usize) -> (found: bool)
    ensures
        found == tier_ids(levels_view(tiers@)).contains(id),
{
    let ghost ids = tier_ids(levels_view(tiers@));
    let mut i: usize = 0;
    while i < tiers.len()
        invariant
            i <= tiers@.len(),
            ids == tier_ids(levels_view(tiers@)),
            forall|j: int| 0 <= j < i ==> ids[j] != id,
        decreases tiers@.len() - i,
    {
        assert(ids[i as int] == tiers@[i as int].0);
        if tiers[i].0 == id {
            return true;
        }
        i += 1;
    }
    false
}

pub struct TieredCompactionController {
    pub options: TieredCompactionOptions,
}

impl TieredCompactionController {
    pub fn new(options: TieredCompactionOptions) -> (c: Self)
        ensures
            c.options == options,
    {
        Self { options }
    }

    /// Generates a compaction task.
    ///
    /// Returns `None` if no rule triggers, else the task of the first
    /// rule that does.
    pub fn generate_compaction_task(&self, snapshot: &LsmStorageState) -> (r: Option<
        TieredCompactionTask,
    >)
        requires
            self.options.admits(snapshot@),
        ensures
            self.options.generated(snapshot@, tiered_view(r)),
    {
        let n = snapshot.levels.len();
        let ghost s = snapshot@;
        let ghost tiers = snapshot@.levels;
        if n == 0 {
            return None;
        }
        proof {
            lemma_tiers_size_monotonic(tiers, n as int - 1, n as int);
        }
        // The tables above the last tier.
        let mut above: u128 = 0;
        let mut i: usize = 0;
        while i < n - 1
            invariant
                n == snapshot.levels@.len(),
                n >= 1,
                tiers == snapshot@.levels,
                i <= n - 1,
                above == tiers_size(tiers, i as int),
                tiers_size(tiers, n as int - 1) <= usize::MAX,
            decreases n - 1 - i,
        {
            proof {
                lemma_tiers_size_monotonic(tiers, i as int + 1, n as int - 1);
            }
            above = above + snapshot.levels[i].1.len() as u128;
            i += 1;
        }
        let last = snapshot.levels[n - 1].1.len() as u128;
        let limit = self.options.max_size_amplification_percent as u128;
        assert(limit * last <= 0xFFFF_FFFF_FFFF_FFFF * 0xFFFF_FFFF_FFFF_FFFF) by (nonlinear_arith)
            requires
                0 <= limit <= 0xFFFF_FFFF_FFFF_FFFF,
                0 <= last <= 0xFFFF_FFFF_FFFF_FFFF,
        ;
        if above * 100 >= limit * last {
            let task = TieredCompactionTask {
                tiers: copy_levels(snapshot.levels.as_slice(), 0, n),
                bottom_tier_included: true,
            };
            assert(tiers.subrange(0, n as int) =~= tiers);
            return Some(task);
        }
        assert(!self.options.space_amplification_triggers(s));
        // The least width at which the newest tiers outweigh the next one.
        let mut acc: u128 = 0;
        let mut k: usize = 1;
        while k < n
            invariant
                n == snapshot.levels@.len(),
                s == snapshot@,
                tiers == snapshot@.levels,
                1 <= k <= n,
                acc == tiers_size(tiers, k - 1),
                tiers_size(tiers, n as int) <= usize::MAX,
                !self.options.space_amplification_triggers(s),
                forall|j: int| 1 <= j < k ==> !self.options.size_ratio_triggers(s, j),
            decreases n - k,
        {
            proof {
                lemma_tiers_size_monotonic(tiers, k as int, n as int);
            }
            acc = acc + snapshot.levels[k - 1].1.len() as u128;
            let next = snapshot.levels[k].1.len() as u128;
            let ratio = 100 + self.options.size_ratio as u128;
            let outweighs = match ratio.checked_mul(next) {
                Some(bound) => acc * 100 >= bound,
                None => false,
            };
            assert(outweighs == (tiers_size(tiers, k as int) * 100 >= (100
                + self.options.size_ratio) * tiers[k as int].1.len()));
            if k >= self.options.min_merge_width && outweighs {
                let task = TieredCompactionTask {
                    tiers: copy_levels(snapshot.levels.as_slice(), 0, k),
                    bottom_tier_included: false,
                };
                assert(self.options.first_size_ratio_width(s, k as int));
                assert(tiers.subrange(0, k as int) =~= tiers.take(k as int));
                return Some(task);
            }
            k += 1;
        }
        assert(forall|j: int| !self.options.size_ratio_triggers(s, j));
        if n > self.options.num_tiers {
            let from = if self.options.num_tiers == 0 {
                0
            } else {
                self.options.num_tiers - 1
            };
            let task = TieredCompactionTask {
                tiers: copy_levels(snapshot.levels.as_slice(), from, n),
                bottom_tier_included: true,
            };
            assert(tiers.subrange(from as int, n as int) =~= tiers.skip(from as int));
            return Some(task);
        }
        None
    }

    /// Apply the compaction result.
    ///
    /// The task's tiers are removed and the tier formed by `output` takes
    /// the place of the oldest of them; the second component lists the
    /// tables to delete, which are the tables of the task's tiers.
    pub fn apply_compaction_result(
        &self,
        snapshot: &LsmStorageState,
        task: &TieredCompactionTask,
        output: &[usize],
    ) -> (r: (LsmStorageState, Vec<usize>))
        requires
            tiered_applicable(snapshot@, task@),
        ensures
            r.0@ == tiered_apply(snapshot@, task@, output@),
            r.1@ == tier_tables(task@.tiers),
    {
        let n = snapshot.levels.len();
        let ghost s = snapshot@;
        let ghost all = snapshot@.levels;
        let ghost removed = tier_ids(task@.tiers);
        // The position of the oldest removed tier.
        let mut p: usize = n;
        loop
            invariant_except_break
                p <= n,
                forall|j: int| p <= j < n ==> !removed.contains(all[j].0),
            invariant
                n == snapshot.levels@.len(),
                s == snapshot@,
                all == snapshot@.levels,
                removed == tier_ids(task@.tiers),
                exists|q: int| oldest_removed_tier(s, task@, q),
            ensures
                oldest_removed_tier(s, task@, p as int),
            decreases p,
        {
            if p == 0 {
                proof {
                    let q = choose|q: int| oldest_removed_tier(s, task@, q);
                    assert(!removed.contains(all[q].0));
                }
            }
            p -= 1;
            assert(all[p as int].0 == snapshot.levels@[p as int].0);
            if has_tier(task.tiers.as_slice(), snapshot.levels[p].0) {
                break;
            }
        }
        let ghost keep = |t: (usize, Seq<usize>)| !tier_ids(task@.tiers).contains(t.0);
        let mut levels: Vec<(usize, Vec<usize>)> = Vec::new();
        let mut j: usize = 0;
        proof {
            reveal(Seq::filter);
            assert(all.take(0).filter(keep) =~= Seq::<(usize, Seq<usize>)>::empty());
            assert(levels_view(levels@) =~= Seq::<(usize, Seq<usize>)>::empty());
        }
        while j < p
            invariant
                j <= p < n,
                n == snapshot.levels@.len(),
                all == snapshot@.levels,
                keep == (|t: (usize, Seq<usize>)| !tier_ids(task@.tiers).contains(t.0)),
                levels_view(levels@) == all.take(j as int).filter(keep),
            decreases p - j,
        {
            let tier = &snapshot.levels[j];
            proof {
                assert(all[j as int] == (tier.0, tier.1@));
                assert(all.take(j + 1) =~= all.take(j as int).push(all[j as int]));
                all.take(j as int).lemma_filter_push(all[j as int], keep);
            }
            if !has_tier(task.tiers.as_slice(), tier.0) {
                let ids = copy_ids(tier.1.as_slice());
                let ghost before = levels@;
                levels.push((tier.0, ids));
                assert(levels_view(levels@) =~= levels_view(before).push(all[j as int]));
            }
            j += 1;
        }
        if output.len() > 0 {
            let ghost before = levels@;
            levels.push((output[0], copy_ids(output)));
            assert(levels_view(levels@) =~= levels_view(before) + output_tier(output@));
        } else {
            assert(levels_view(levels@) =~= levels_view(levels@) + output_tier(output@));
        }
        let ghost head = surviving_tiers(all.take(p as int), task@.tiers) + output_tier(output@);
        let mut j: usize = p + 1;
        assert(levels_view(levels@) =~= head + all.subrange(p + 1, j as int));
        while j < n
            invariant
                p < j <= n,
                n == snapshot.levels@.len(),
                all == snapshot@.levels,
                levels_view(levels@) == head + all.subrange(p + 1, j as int),
            decreases n - j,
        {
            let tier = &snapshot.levels[j];
            let ids = copy_ids(tier.1.as_slice());
            let ghost before = levels@;
            levels.push((tier.0, ids));
            proof {
                assert(all[j as int] == (tier.0, tier.1@));
                assert(levels_view(levels@) =~= levels_view(before).push(all[j as int]));
                assert(all.subrange(p + 1, j + 1) =~= all.subrange(p + 1, j as int).push(
                    all[j as int],
                ));
                assert(levels_view(levels@) =~= head + all.subrange(p + 1, j + 1));
            }
            j += 1;
        }
        assert(all.subrange(p + 1, n as int) =~= all.skip(p + 1));
        // The tables of the task's tiers.
        let mut files_to_remove: Vec<usize> = Vec::new();
        let ghost lists = task@.tiers.map_values(|t: (usize, Seq<usize>)| t.1);
        let mut i: usize = 0;
        assert(lists.take(0) =~= Seq::<Seq<usize>>::empty());
        while i < task.tiers.len()
            invariant
                i <= task.tiers@.len(),
                lists == task@.tiers.map_values(|t: (usize, Seq<usize>)| t.1),
                files_to_remove@ == lists.take(i as int).flatten(),
            decreases task.tiers@.len() - i,
        {
            append_ids(&mut files_to_remove, task.tiers[i].1.as_slice());
            proof {
                assert(lists[i as int] == task.tiers@[i as int].1@);
                assert(lists.take(i + 1) =~= lists.take(i as int).push(lists[i as int]));
                lists.take(i as int).lemma_flatten_push(lists[i as int]);
            }
            i += 1;
        }
        assert(lists.take(i as int) =~= lists);
        let state = LsmStorageState {
            l0_sstables: copy_ids(snapshot.l0_sstables.as_slice()),
            levels,
            sstables: snapshot.sstables.clone(),
        };
        assert(state@.tables =~= s.tables);
        assert(state@ == tiered_apply_at(s, task@, output@, p as int));
        proof {
            lemma_oldest_removed_unique(s, task@, p as int);
        }
        (state, files_to_remove)
    }
}

/// The first `k` tiers hold no more tables than the first `n`.
pub proof fn lemma_tiers_size_monotonic(tiers: Seq<(usize, Seq<usize>)>, k: int, n: int)
    requires
        k <= n,
    ensures
        tiers_size(tiers, k) <= tiers_size(tiers, n),
    decreases n - k,
{
    if k < n {
        lemma_tiers_size_monotonic(tiers, k, n - 1);
    }
}

} // verus!
