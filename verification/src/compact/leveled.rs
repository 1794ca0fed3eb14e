//! Leveled compaction with dynamic level sizing: every level has a target
//! size derived from the deepest level, and the level that exceeds its
//! target the most is compacted, one table at a time, into the next.

use vstd::pervasive::unreached;
use vstd::prelude::*;
use vstd::std_specs::hash::group_hash_axioms;
use crate::key::{key_le, key_less, key_less_eq, key_lt};
use crate::lsm_storage::{append_ids, copy_ids, remove_ids, without, LsmStorageState, StateView};
use crate::table::{copy_bytes, SsTable, SsTableView};

verus! {

broadcast use group_hash_axioms;

#[derive(Debug, Clone, Copy)]
pub struct LeveledCompactionOptions {
    /// How many times larger a level's target is than that of the level
    /// above it.
    pub level_size_multiplier: usize,
    /// Level zero is compacted once it holds this many tables.
    pub level0_file_num_compaction_trigger: usize,
    /// The number of levels below level zero.
    pub max_levels: usize,
    /// The least target size of the deepest level, in mebibytes.
    pub base_level_size_mb: usize,
}

#[derive(Debug, Clone, PartialEq, Eq)]
pub struct LeveledCompactionTask {
    /// The level compacted from; `None` stands for level zero.
    pub upper_level: Option<usize>,
    pub upper_level_sst_ids: Vec<usize>,
    /// The level compacted into.
    pub lower_level: usize,
    pub lower_level_sst_ids: Vec<usize>,
    pub is_lower_level_bottom_level: bool,
}

/// The mathematical content of a [`LeveledCompactionTask`].
pub struct LeveledTaskView {
    pub upper_level: Option<usize>,
    pub upper_level_sst_ids: Seq<usize>,
    pub lower_level: usize,
    pub lower_level_sst_ids: Seq<usize>,
    pub is_lower_level_bottom_level: bool,
}

impl View for LeveledCompactionTask {
    type V = LeveledTaskView;

    open spec fn view(&self) -> LeveledTaskView {
        LeveledTaskView {
            upper_level: self.upper_level,
            upper_level_sst_ids: self.upper_level_sst_ids@,
            lower_level: self.lower_level,
            lower_level_sst_ids: self.lower_level_sst_ids@,
            is_lower_level_bottom_level: self.is_lower_level_bottom_level,
        }
    }
}

/// Every id of `ids` names an open table.
pub open spec fn ids_present(tables: Map<usize, SsTableView>, ids: Seq<usize>) -> bool {
    forall|i: int| 0 <= i < ids.len() ==> tables.contains_key(#[trigger] ids[i])
}

/// The bytes that the first `k` tables of `ids` take up together.
pub open spec fn tables_bytes(tables: Map<usize, SsTableView>, ids: Seq<usize>, k: int) -> nat
    decreases k,
{
    if k <= 0 {
        0
    } else {
        tables_bytes(tables, ids, k - 1) + tables[ids[k - 1]].file.size as nat
    }
}

/// The bytes held at the level stored at position `l` of `levels`.
pub open spec fn level_bytes(s: StateView, l: int) -> nat {
    tables_bytes(s.tables, s.levels[l].1, s.levels[l].1.len() as int)
}

/// The smaller of two keys.
pub open spec fn key_min(a: Seq<u8>, b: Seq<u8>) -> Seq<u8> {
    if key_lt(b, a) {
        b
    } else {
        a
    }
}

/// The larger of two keys.
pub open spec fn key_max(a: Seq<u8>, b: Seq<u8>) -> Seq<u8> {
    if key_lt(a, b) {
        b
    } else {
        a
    }
}

/// The smallest first key and the largest last key among the tables
/// `ids`; `None` when there is no table.
pub open spec fn key_range(tables: Map<usize, SsTableView>, ids: Seq<usize>) -> Option<
    (Seq<u8>, Seq<u8>),
>
    decreases ids.len(),
{
    if ids.len() == 0 {
        None
    } else {
        let t = tables[ids.last()];
        match key_range(tables, ids.drop_last()) {
            None => Some((t.first_key, t.last_key)),
            Some((lo, hi)) => Some((key_min(lo, t.first_key), key_max(hi, t.last_key))),
        }
    }
}

/// Whether the keys of table `t` and the key range reach into each other.
pub open spec fn overlaps(t: SsTableView, range: Option<(Seq<u8>, Seq<u8>)>) -> bool {
    match range {
        None => false,
        Some((lo, hi)) => key_le(t.first_key, hi) && key_le(lo, t.last_key),
    }
}

/// The tables of `ids` whose keys reach into `range`, in the order of
/// `ids`.
pub open spec fn overlapping(
    tables: Map<usize, SsTableView>,
    ids: Seq<usize>,
    range: Option<(Seq<u8>, Seq<u8>)>,
) -> Seq<usize> {
    ids.filter(|id: usize| overlaps(tables[id], range))
}

/// `m` is the smallest id of `ids`, the id of the oldest table.
pub open spec fn is_oldest(ids: Seq<usize>, m: usize) -> bool {
    &&& ids.contains(m)
    &&& forall|i: int| 0 <= i < ids.len() ==> m <= ids[i]
}

/// The tables `a` and `b` merged by first key from position `i` of `a`
/// and `j` of `b` on; among equal first keys those of `a` come first.
pub open spec fn merge_by_first_key_from(
    tables: Map<usize, SsTableView>,
    a: Seq<usize>,
    b: Seq<usize>,
    i: int,
    j: int,
) -> Seq<usize>
    decreases a.len() - i + b.len() - j,
{
    if i < 0 || j < 0 {
        Seq::empty()
    } else if i >= a.len() {
        b.skip(j)
    } else if j >= b.len() {
        a.skip(i)
    } else if key_lt(tables[b[j]].first_key, tables[a[i]].first_key) {
        seq![b[j]] + merge_by_first_key_from(tables, a, b, i, j + 1)
    } else {
        seq![a[i]] + merge_by_first_key_from(tables, a, b, i + 1, j)
    }
}

/// The tables `a` and `b` merged by first key.
pub open spec fn merge_by_first_key(
    tables: Map<usize, SsTableView>,
    a: Seq<usize>,
    b: Seq<usize>,
) -> Seq<usize> {
    merge_by_first_key_from(tables, a, b, 0, 0)
}

impl LeveledCompactionOptions {
    /// The least target size of the deepest level, in bytes.
    pub open spec fn base_bytes(self) -> nat {
        (self.base_level_size_mb * 1024 * 1024) as nat
    }

    /// The options make sense and the base size can be counted in 64
    /// bits.
    pub open spec fn wf(self) -> bool {
        &&& self.level_size_multiplier >= 1
        &&& self.max_levels >= 1
        &&& self.base_bytes() <= u64::MAX
    }

    /// The target size of the level at position `l`: for the deepest
    /// level its actual size or the base size, whichever is larger; for
    /// any other level the target of the level below divided by the
    /// multiplier while that target is above the base size, else zero.
    pub open spec fn target_size(self, s: StateView, l: int) -> nat
        decreases self.max_levels - l,
    {
        if l >= self.max_levels - 1 {
            if level_bytes(s, self.max_levels - 1) > self.base_bytes() {
                level_bytes(s, self.max_levels - 1)
            } else {
                self.base_bytes()
            }
        } else {
            let deeper = self.target_size(s, l + 1);
            if deeper > self.base_bytes() {
                deeper / self.level_size_multiplier as nat
            } else {
                0
            }
        }
    }

    /// `b` is the number of the base level: the shallowest level with a
    /// nonzero target, or the deepest level when no target is nonzero.
    pub open spec fn is_base_level(self, s: StateView, b: int) -> bool {
        &&& 1 <= b <= self.max_levels
        &&& b == self.max_levels || self.target_size(s, b - 1) > 0
        &&& forall|l: int| 0 <= l < b - 1 ==> self.target_size(s, l) == 0
    }

    /// Level zero holds enough tables to be compacted.
    pub open spec fn l0_triggers(self, s: StateView) -> bool {
        s.l0.len() >= self.level0_file_num_compaction_trigger
    }

    /// The task that compacts all of level zero into base level `b`.
    pub open spec fn l0_task(self, s: StateView, b: int) -> LeveledTaskView {
        LeveledTaskView {
            upper_level: None,
            upper_level_sst_ids: s.l0,
            lower_level: b as usize,
            lower_level_sst_ids: overlapping(
                s.tables,
                s.levels[b - 1].1,
                key_range(s.tables, s.l0),
            ),
            is_lower_level_bottom_level: b == self.max_levels,
        }
    }

    /// The level at position `l` holds more than its target.
    pub open spec fn over_target(self, s: StateView, l: int) -> bool {
        0 <= l < self.max_levels && level_bytes(s, l) > self.target_size(s, l)
    }

    /// The level at position `a` exceeds its target by a larger factor
    /// than the level at position `b` does.
    pub open spec fn exceeds_more(self, s: StateView, a: int, b: int) -> bool {
        level_bytes(s, a) * self.target_size(s, b) > level_bytes(s, b) * self.target_size(s, a)
    }

    /// The level at position `p` is the one to compact: it is over its
    /// target, no level exceeds its target by a larger factor, and every
    /// shallower level does so by a smaller one.
    pub open spec fn highest_priority(self, s: StateView, p: int) -> bool {
        &&& self.over_target(s, p)
        &&& forall|q: int|
            #![trigger self.over_target(s, q)]
            self.over_target(s, q) ==> {
                &&& q < p ==> self.exceeds_more(s, p, q)
                &&& q > p ==> !self.exceeds_more(s, q, p)
            }
    }

    /// The task that compacts table `m` of the level at position `p` into
    /// the next level.
    pub open spec fn level_task(self, s: StateView, p: int, m: usize) -> LeveledTaskView {
        LeveledTaskView {
            upper_level: Some((p + 1) as usize),
            upper_level_sst_ids: seq![m],
            lower_level: (p + 2) as usize,
            lower_level_sst_ids: overlapping(
                s.tables,
                s.levels[p + 1].1,
                key_range(s.tables, seq![m]),
            ),
            is_lower_level_bottom_level: p + 2 == self.max_levels,
        }
    }

    /// What task generation may assume of a placement: it has the
    /// configured number of levels, every table placed in it is open, and
    /// the bytes of each level can be counted in 64 bits.
    pub open spec fn admits(self, s: StateView) -> bool {
        &&& self.wf()
        &&& s.levels.len() == self.max_levels
        &&& ids_present(s.tables, s.l0)
        &&& forall|l: int|
            0 <= l < s.levels.len() ==> {
                &&& ids_present(s.tables, #[trigger] s.levels[l].1)
                &&& level_bytes(s, l) <= u64::MAX
            }
    }
}

/// The view of a task that may be absent.
pub open spec fn leveled_view(r: Option<LeveledCompactionTask>) -> Option<LeveledTaskView> {
    match r {
        Some(task) => Some(task@),
        None => None,
    }
}

impl LeveledCompactionOptions {
    /// `r` is what task generation gives on `s`.  When level zero holds
    /// enough tables, all of it is compacted into the base level together
    /// with the tables there that its keys reach.  Otherwise the level
    /// that exceeds its target by the largest factor (the shallowest of
    /// them, if several do alike) gives its oldest table, which is
    /// compacted into the next level together with the tables there that
    /// its keys reach.  There is no task when no level is over its
    /// target.
    pub open spec fn generated(self, s: StateView, r: Option<LeveledTaskView>) -> bool {
        if self.l0_triggers(s) {
            exists|b: int|
                {
                    &&& #[trigger] self.is_base_level(s, b)
                    &&& r == Some(self.l0_task(s, b))
                }
        } else if exists|l: int| self.over_target(s, l) {
            exists|p: int, m: usize|
                {
                    &&& #[trigger] self.highest_priority(s, p)
                    &&& #[trigger] is_oldest(s.levels[p].1, m)
                    &&& r == Some(self.level_task(s, p, m))
                }
        } else {
            r is None
        }
    }
}

/// Whether a leveled task can be carried out on `s` with these outputs:
/// the outputs and the tables of the lower level are open.
pub open spec fn leveled_applicable(s: StateView, task: LeveledTaskView, output: Seq<usize>) -> bool {
    &&& ids_present(s.tables, output)
    &&& 1 <= task.lower_level <= s.levels.len() ==> ids_present(
        s.tables,
        s.levels[task.lower_level - 1].1,
    )
}

/// The tables that a leveled task takes as input.
pub open spec fn leveled_inputs(task: LeveledTaskView) -> Seq<usize> {
    task.upper_level_sst_ids + task.lower_level_sst_ids
}

/// The placement after a leveled task has been carried out: the task's
/// tables are gone from their levels and the output is merged by first
/// key into what is left of the lower level.
pub open spec fn leveled_apply(s: StateView, task: LeveledTaskView, output: Seq<usize>) -> StateView {
    StateView {
        l0: if task.upper_level is None {
            without(s.l0, task.upper_level_sst_ids)
        } else {
            s.l0
        },
        levels: Seq::new(
            s.levels.len(),
            |j: int|
                (
                    s.levels[j].0,
                    if j + 1 == task.lower_level {
                        merge_by_first_key(
                            s.tables,
                            without(s.levels[j].1, task.lower_level_sst_ids),
                            output,
                        )
                    } else if task.upper_level is Some && task.upper_level->0 == j + 1 {
                        without(s.levels[j].1, task.upper_level_sst_ids)
                    } else {
                        s.levels[j].1
                    },
                ),
        ),
        tables: s.tables,
    }
}

/// The first `k` tables take up no more than the first `n`.
pub proof fn lemma_tables_bytes_monotonic(
    tables: Map<usize, SsTableView>,
    ids: Seq<usize>,
    k: int,
    n: int,
)
    requires
        k <= n,
    ensures
        tables_bytes(tables, ids, k) <= tables_bytes(tables, ids, n),
    decreases n - k,
{
    if k < n {
        lemma_tables_bytes_monotonic(tables, ids, k, n - 1);
    }
}

/// Between levels that are over their target, exceeding by a larger
/// factor carries over: if `a` exceeds more than `b`, and `c` does not
/// exceed more than `b`, then `a` exceeds more than `c`.
proof fn lemma_exceeds_more_chain(xa: int, ta: int, xb: int, tb: int, xc: int, tc: int)
    requires
        xa > ta >= 0,
        xb > tb >= 0,
        xc > tc >= 0,
        xa * tb > xb * ta,
        !(xc * tb > xb * tc),
    ensures
        xa * tc > xc * ta,
{
    assert(tb > 0) by (nonlinear_arith)
        requires
            xa * tb > xb * ta,
            xb >= 0,
            ta >= 0,
            tb >= 0,
    ;
    assert(tc > 0) by (nonlinear_arith)
        requires
            xc * tb <= xb * tc,
            xc > 0,
            tb > 0,
            tc >= 0,
    ;
    assert(xa * tb * tc > xb * ta * tc) by (nonlinear_arith)
        requires
            xa * tb > xb * ta,
            tc > 0,
    ;
    assert(xb * tc * ta >= xc * tb * ta) by (nonlinear_arith)
        requires
            xc * tb <= xb * tc,
            ta >= 0,
    ;
    assert(xa * tc > xc * ta) by (nonlinear_arith)
        requires
            xa * tb * tc > xb * ta * tc,
            xb * tc * ta >= xc * tb * ta,
            tb > 0,
    ;
}

/// The product of two 64-bit numbers can be counted in 128 bits.
proof fn lemma_product_fits(a: u64, b: u64)
    ensures
        a * b <= u128::MAX,
{
    assert(a * b <= 0xFFFF_FFFF_FFFF_FFFF * 0xFFFF_FFFF_FFFF_FFFF) by (nonlinear_arith)
        requires
            0 <= a <= 0xFFFF_FFFF_FFFF_FFFF,
            0 <= b <= 0xFFFF_FFFF_FFFF_FFFF,
    ;
}

/// The open table with the given id.
pub fn table_of(snapshot: &LsmStorageState, id: usize) -> (t: &SsTable)
    requires
        snapshot@.tables.contains_key(id),
    ensures
        t@ == snapshot@.tables[id],
{
    match snapshot.sstables.get(&id) {
        Some(t) => {
            assert(snapshot.sstables@[id] == *t);
            &**t
        },
        None => unreached(),
    }
}

/// The bytes that the tables `ids` take up together.
fn bytes_of(snapshot: &LsmStorageState, ids: &[usize]) -> (total: u64)
    requires
        ids_present(snapshot@.tables, ids@),
        tables_bytes(snapshot@.tables, ids@, ids@.len() as int) <= u64::MAX,
    ensures
        total == tables_bytes(snapshot@.tables, ids@, ids@.len() as int),
{
    let mut total: u64 = 0;
    let mut i: usize = 0;
    while i < ids.len()
        invariant
            i <= ids@.len(),
            ids_present(snapshot@.tables, ids@),
            tables_bytes(snapshot@.tables, ids@, ids@.len() as int) <= u64::MAX,
            total == tables_bytes(snapshot@.tables, ids@, i as int),
        decreases ids@.len() - i,
    {
        proof {
            lemma_tables_bytes_monotonic(snapshot@.tables, ids@, i + 1, ids@.len() as int);
        }
        total = total + table_of(snapshot, ids[i]).table_size();
        i += 1;
    }
    total
}

/// The key range that the tables `ids` span together.
fn range_of(snapshot: &LsmStorageState, ids: &[usize]) -> (range: Option<(Vec<u8>, Vec<u8>)>)
    requires
        ids_present(snapshot@.tables, ids@),
    ensures
        match range {
            Some((lo, hi)) => key_range(snapshot@.tables, ids@) == Some((lo@, hi@)),
            None => key_range(snapshot@.tables, ids@) is None,
        },
{
    if ids.len() == 0 {
        return None;
    }
    let first = table_of(snapshot, ids[0]);
    let mut lo = copy_bytes(first.first_key().as_slice());
    let mut hi = copy_bytes(first.last_key().as_slice());
    let mut i: usize = 1;
    proof {
        assert(ids@.take(1).drop_last() =~= Seq::<usize>::empty());
        assert(key_range(snapshot@.tables, ids@.take(1).drop_last()) is None);
    }
    while i < ids.len()
        invariant
            1 <= i <= ids@.len(),
            ids_present(snapshot@.tables, ids@),
            key_range(snapshot@.tables, ids@.take(i as int)) == Some((lo@, hi@)),
        decreases ids@.len() - i,
    {
        let t = table_of(snapshot, ids[i]);
        proof {
            assert(ids@.take(i + 1).drop_last() =~= ids@.take(i as int));
            assert(ids@.take(i + 1).last() == ids@[i as int]);
        }
        if key_less(t.first_key().as_slice(), lo.as_slice()) {
            lo = copy_bytes(t.first_key().as_slice());
        }
        if key_less(hi.as_slice(), t.last_key().as_slice()) {
            hi = copy_bytes(t.last_key().as_slice());
        }
        i += 1;
    }
    assert(ids@.take(i as int) =~= ids@);
    Some((lo, hi))
}

/// The tables of `ids` whose keys reach into `range`.
fn overlapping_tables(
    snapshot: &LsmStorageState,
    ids: &[usize],
    range: &Option<(Vec<u8>, Vec<u8>)>,
) -> (out: Vec<usize>)
    requires
        ids_present(snapshot@.tables, ids@),
    ensures
        out@ == overlapping(
            snapshot@.tables,
            ids@,
            match range {
                Some((lo, hi)) => Some((lo@, hi@)),
                None => None,
            },
        ),
{
    let ghost r: Option<(Seq<u8>, Seq<u8>)> = match range {
        Some((lo, hi)) => Some((lo@, hi@)),
        None => None,
    };
    let ghost tables = snapshot@.tables;
    let ghost pred = |id: usize| overlaps(tables[id], r);
    let mut out: Vec<usize> = Vec::new();
    let mut i: usize = 0;
    proof {
        reveal(Seq::filter);
        assert(ids@.take(0).filter(pred) =~= Seq::<usize>::empty());
    }
    while i < ids.len()
        invariant
            i <= ids@.len(),
            ids_present(snapshot@.tables, ids@),
            tables == snapshot@.tables,
            r == match range {
                Some((lo, hi)) => Some((lo@, hi@)),
                None => None::<(Seq<u8>, Seq<u8>)>,
            },
            pred == (|id: usize| overlaps(tables[id], r)),
            out@ == ids@.take(i as int).filter(pred),
        decreases ids@.len() - i,
    {
        let id = ids[i];
        let t = table_of(snapshot, id);
        let hit = match range {
            None => false,
            Some((lo, hi)) => key_less_eq(t.first_key().as_slice(), hi.as_slice()) && key_less_eq(
                lo.as_slice(),
                t.last_key().as_slice(),
            ),
        };
        proof {
            assert(hit == pred(id));
            assert(ids@.take(i + 1) =~= ids@.take(i as int).push(id));
            ids@.take(i as int).lemma_filter_push(id, pred);
        }
        if hit {
            out.push(id);
        }
        i += 1;
    }
    assert(ids@.take(i as int) =~= ids@);
    out
}

/// The smallest id of `ids`.
fn oldest_of(ids: &[usize]) -> (m: usize)
    requires
        ids@.len() > 0,
    ensures
        is_oldest(ids@, m),
{
    let mut m = ids[0];
    let mut i: usize = 1;
    assert(ids@.take(1)[0] == m);
    while i < ids.len()
        invariant
            1 <= i <= ids@.len(),
            ids@.take(i as int).contains(m),
            forall|j: int| 0 <= j < i ==> m <= ids@[j],
        decreases ids@.len() - i,
    {
        if ids[i] < m {
            m = ids[i];
        }
        assert(ids@.take(i + 1)[i as int] == ids@[i as int]);
        assert(forall|j: int| 0 <= j < i ==> ids@.take(i as int)[j] == ids@.take(i + 1)[j]);
        i += 1;
    }
    assert(ids@.take(i as int) =~= ids@);
    m
}

/// The tables `a` and `b` merged by first key.
fn merge_tables(snapshot: &LsmStorageState, a: &[usize], b: &[usize]) -> (out: Vec<usize>)
    requires
        ids_present(snapshot@.tables, a@),
        ids_present(snapshot@.tables, b@),
    ensures
        out@ == merge_by_first_key(snapshot@.tables, a@, b@),
{
    let ghost tables = snapshot@.tables;
    let mut out: Vec<usize> = Vec::new();
    let mut i: usize = 0;
    let mut j: usize = 0;
    assert(out@ + merge_by_first_key_from(tables, a@, b@, 0, 0) =~= merge_by_first_key(
        tables,
        a@,
        b@,
    ));
    while i < a.len() && j < b.len()
        invariant
            i <= a@.len(),
            j <= b@.len(),
            tables == snapshot@.tables,
            ids_present(tables, a@),
            ids_present(tables, b@),
            out@ + merge_by_first_key_from(tables, a@, b@, i as int, j as int)
                == merge_by_first_key(tables, a@, b@),
        decreases a@.len() - i + b@.len() - j,
    {
        let ta = table_of(snapshot, a[i]);
        let tb = table_of(snapshot, b[j]);
        let ghost before = out@;
        let ghost rest = merge_by_first_key_from(tables, a@, b@, i as int, j as int);
        if key_less(tb.first_key().as_slice(), ta.first_key().as_slice()) {
            out.push(b[j]);
            j += 1;
            assert(out@ + merge_by_first_key_from(tables, a@, b@, i as int, j as int) =~= before
                + rest);
        } else {
            out.push(a[i]);
            i += 1;
            assert(out@ + merge_by_first_key_from(tables, a@, b@, i as int, j as int) =~= before
                + rest);
        }
    }
    let ghost before = out@;
    if i < a.len() {
        let tail = vstd::slice::slice_subrange(a, i, a.len());
        append_ids(&mut out, tail);
        assert(out@ =~= before + a@.skip(i as int));
    } else {
        let tail = vstd::slice::slice_subrange(b, j, b.len());
        append_ids(&mut out, tail);
        assert(out@ =~= before + b@.skip(j as int));
    }
    out
}

pub struct LeveledCompactionController {
    pub options: LeveledCompactionOptions,
}

impl LeveledCompactionController {
    pub fn new(options: LeveledCompactionOptions) -> (c: Self)
        ensures
            c.options == options,
    {
        Self { options }
    }

    /// The actual size of every level and its target size, by position.
    fn level_sizes(&self, snapshot: &LsmStorageState) -> (r: (Vec<u64>, Vec<u64>))
        requires
            self.options.admits(snapshot@),
        ensures
            r.0@.len() == self.options.max_levels,
            r.1@.len() == self.options.max_levels,
            forall|l: int|
                0 <= l < self.options.max_levels ==> r.0@[l] == level_bytes(snapshot@, l),
            forall|l: int|
                0 <= l < self.options.max_levels ==> r.1@[l] == self.options.target_size(
                    snapshot@,
                    l,
                ),
    {
        let n = self.options.max_levels;
        let ghost s = snapshot@;
        let mut actual: Vec<u64> = Vec::new();
        let mut l: usize = 0;
        while l < n
            invariant
                l <= n,
                n == self.options.max_levels,
                s == snapshot@,
                self.options.admits(s),
                actual@.len() == l,
                forall|k: int| 0 <= k < l ==> actual@[k] == level_bytes(s, k),
            decreases n - l,
        {
            assert(ids_present(s.tables, s.levels[l as int].1));
            assert(s.levels[l as int].1 == snapshot.levels@[l as int].1@);
            let bytes = bytes_of(snapshot, snapshot.levels[l].1.as_slice());
            actual.push(bytes);
            l += 1;
        }
        let base = (self.options.base_level_size_mb as u128 * 1024 * 1024) as u64;
        let mut targets: Vec<u64> = Vec::new();
        let mut l: usize = 0;
        while l < n
            invariant
                l <= n,
                n == self.options.max_levels,
                targets@.len() == l,
            decreases n - l,
        {
            targets.push(0);
            l += 1;
        }
        let deepest = if actual[n - 1] > base {
            actual[n - 1]
        } else {
            base
        };
        targets.set(n - 1, deepest);
        let mut l: usize = n - 1;
        while l > 0
            invariant
                l < n,
                n == self.options.max_levels,
                s == snapshot@,
                self.options.wf(),
                base == self.options.base_bytes(),
                targets@.len() == n,
                forall|k: int| l <= k < n ==> targets@[k] == self.options.target_size(s, k),
            decreases l,
        {
            let deeper = targets[l];
            let target = if deeper > base {
                deeper / (self.options.level_size_multiplier as u64)
            } else {
                0
            };
            l -= 1;
            targets.set(l, target);
        }
        (actual, targets)
    }

    /// Generates a compaction task.
    ///
    /// Returns `None` when neither level zero is due nor any level is
    /// over its target.
    pub fn generate_compaction_task(&self, snapshot: &LsmStorageState) -> (r: Option<
        LeveledCompactionTask,
    >)
        requires
            self.options.admits(snapshot@),
        ensures
            self.options.generated(snapshot@, leveled_view(r)),
    {
        let n = self.options.max_levels;
        let ghost s = snapshot@;
        let (actual, targets) = self.level_sizes(snapshot);
        if snapshot.l0_sstables.len() >= self.options.level0_file_num_compaction_trigger {
            // The shallowest level with a nonzero target.
            let mut b: usize = 1;
            while b < n && targets[b - 1] == 0
                invariant
                    1 <= b <= n,
                    n == self.options.max_levels,
                    targets@.len() == n,
                    forall|l: int| 0 <= l < n ==> targets@[l] == self.options.target_size(s, l),
                    forall|l: int| 0 <= l < b - 1 ==> self.options.target_size(s, l) == 0,
                decreases n - b,
            {
                b += 1;
            }
            assert(self.options.is_base_level(s, b as int));
            let range = range_of(snapshot, snapshot.l0_sstables.as_slice());
            assert(ids_present(s.tables, s.levels[b - 1].1));
            assert(s.levels[b - 1].1 == snapshot.levels@[b - 1].1@);
            let lower = overlapping_tables(snapshot, snapshot.levels[b - 1].1.as_slice(), &range);
            let task = LeveledCompactionTask {
                upper_level: None,
                upper_level_sst_ids: copy_ids(snapshot.l0_sstables.as_slice()),
                lower_level: b,
                lower_level_sst_ids: lower,
                is_lower_level_bottom_level: b == n,
            };
            assert(task@ == self.options.l0_task(s, b as int));
            return Some(task);
        }
        // The level that exceeds its target by the largest factor.
        let mut best: Option<usize> = None;
        let mut l: usize = 0;
        while l < n
            invariant
                l <= n,
                n == self.options.max_levels,
                s == snapshot@,
                actual@.len() == n,
                targets@.len() == n,
                forall|k: int| 0 <= k < n ==> actual@[k] == level_bytes(s, k),
                forall|k: int| 0 <= k < n ==> targets@[k] == self.options.target_size(s, k),
                best is None ==> forall|q: int| 0 <= q < l ==> !self.options.over_target(s, q),
                best matches Some(p) ==> {
                    &&& p < l
                    &&& self.options.over_target(s, p as int)
                    &&& forall|q: int|
                        #![trigger self.options.over_target(s, q)]
                        0 <= q < l && self.options.over_target(s, q) ==> {
                            &&& q < p ==> self.options.exceeds_more(s, p as int, q)
                            &&& q > p ==> !self.options.exceeds_more(s, q, p as int)
                        }
                },
            decreases n - l,
        {
            if actual[l] > targets[l] {
                match best {
                    None => {
                        best = Some(l);
                    },
                    Some(p) => {
                        proof {
                            lemma_product_fits(actual@[l as int], targets@[p as int]);
                            lemma_product_fits(actual@[p as int], targets@[l as int]);
                        }
                        let mine = actual[l] as u128 * targets[p] as u128;
                        let theirs = actual[p] as u128 * targets[l] as u128;
                        if mine > theirs {
                            proof {
                                assert forall|q: int|
                                    #![trigger self.options.over_target(s, q)]
                                    0 <= q < l && self.options.over_target(
                                        s,
                                        q,
                                    ) implies self.options.exceeds_more(s, l as int, q) by {
                                    if q != p {
                                        lemma_exceeds_more_chain(
                                            level_bytes(s, l as int) as int,
                                            self.options.target_size(s, l as int) as int,
                                            level_bytes(s, p as int) as int,
                                            self.options.target_size(s, p as int) as int,
                                            level_bytes(s, q) as int,
                                            self.options.target_size(s, q) as int,
                                        );
                                    }
                                }
                            }
                            best = Some(l);
                        }
                    },
                }
            }
            l += 1;
        }
        match best {
            None => None,
            Some(p) => {
                assert(self.options.highest_priority(s, p as int));
                // The deepest level never exceeds its target.
                assert(p + 1 < n);
                assert(s.levels[p as int].1 == snapshot.levels@[p as int].1@);
                assert(s.levels[p + 1].1 == snapshot.levels@[p + 1].1@);
                assert(snapshot.levels@[p as int].1@.len() > 0);
                let m = oldest_of(snapshot.levels[p].1.as_slice());
                let picked: Vec<usize> = vec![m];
                assert(ids_present(s.tables, s.levels[p as int].1));
                assert(ids_present(s.tables, picked@));
                let range = range_of(snapshot, picked.as_slice());
                assert(ids_present(s.tables, s.levels[p + 1].1));
                let lower = overlapping_tables(
                    snapshot,
                    snapshot.levels[p + 1].1.as_slice(),
                    &range,
                );
                let task = LeveledCompactionTask {
                    upper_level: Some(p + 1),
                    upper_level_sst_ids: picked,
                    lower_level: p + 2,
                    lower_level_sst_ids: lower,
                    is_lower_level_bottom_level: p + 2 == n,
                };
                assert(picked@ =~= seq![m]);
                assert(task@ == self.options.level_task(s, p as int, m));
                Some(task)
            },
        }
    }

    /// Apply the compaction result.
    ///
    /// The task's tables are removed from their levels and `output` is
    /// merged by first key into what is left of the lower level; the
    /// second component lists the tables to delete, which are the task's
    /// inputs.
    pub fn apply_compaction_result(
        &self,
        snapshot: &LsmStorageState,
        task: &LeveledCompactionTask,
        output: &[usize],
    ) -> (r: (LsmStorageState, Vec<usize>))
        requires
            leveled_applicable(snapshot@, task@, output@),
        ensures
            r.0@ == leveled_apply(snapshot@, task@, output@),
            r.1@ == leveled_inputs(task@),
    {
        let ghost s = snapshot@;
        let l0_sstables = match task.upper_level {
            None => remove_ids(
                snapshot.l0_sstables.as_slice(),
                task.upper_level_sst_ids.as_slice(),
            ),
            Some(_) => copy_ids(snapshot.l0_sstables.as_slice()),
        };
        let mut levels: Vec<(usize, Vec<usize>)> = Vec::new();
        let ghost expected = leveled_apply(s, task@, output@);
        let mut j: usize = 0;
        while j < snapshot.levels.len()
            invariant
                j <= snapshot.levels@.len(),
                s == snapshot@,
                expected == leveled_apply(s, task@, output@),
                ids_present(s.tables, output@),
                1 <= task.lower_level <= s.levels.len() ==> ids_present(
                    s.tables,
                    s.levels[task.lower_level - 1].1,
                ),
                levels@.len() == j,
                forall|k: int|
                    0 <= k < j ==> (#[trigger] levels@[k]).0 == expected.levels[k].0 && levels@[k].1@
                        == expected.levels[k].1,
            decreases snapshot.levels@.len() - j,
        {
            let level = &snapshot.levels[j];
            assert(s.levels[j as int].1 == level.1@);
            let is_upper = match task.upper_level {
                Some(u) => j < usize::MAX && u == j + 1,
                None => false,
            };
            let ids = if j < usize::MAX && j + 1 == task.lower_level {
                let survivors = remove_ids(level.1.as_slice(), task.lower_level_sst_ids.as_slice());
                proof {
                    assert forall|i: int| 0 <= i < survivors@.len() implies s.tables.contains_key(
                        #[trigger] survivors@[i],
                    ) by {
                        let keep = |x: usize| !task.lower_level_sst_ids@.contains(x);
                        level.1@.lemma_filter_contains_rev(keep, survivors@[i]);
                    }
                }
                merge_tables(snapshot, survivors.as_slice(), output)
            } else if is_upper {
                remove_ids(level.1.as_slice(), task.upper_level_sst_ids.as_slice())
            } else {
                copy_ids(level.1.as_slice())
            };
            levels.push((level.0, ids));
            j += 1;
        }
        let mut files_to_remove = copy_ids(task.upper_level_sst_ids.as_slice());
        append_ids(&mut files_to_remove, task.lower_level_sst_ids.as_slice());
        let state = LsmStorageState { l0_sstables, levels, sstables: snapshot.sstables.clone() };
        assert(state@.levels =~= expected.levels);
        assert(state@.tables =~= expected.tables);
        (state, files_to_remove)
    }
}

} // verus!
