//! Simple leveled compaction: a level is merged into the next one when
//! the next one is too small in proportion.

use vstd::prelude::*;
use crate::lsm_storage::{append_ids, copy_ids, remove_ids, without, LsmStorageState, StateView};

verus! {

#[derive(Debug, Clone, Copy)]
pub struct SimpleLeveledCompactionOptions {
    /// A level is compacted into the next when the next holds fewer than
    /// this many tables per hundred tables of the level.
    pub size_ratio_percent: usize,
    /// Level zero is compacted once it holds this many tables.
    pub level0_file_num_compaction_trigger: usize,
    /// The number of levels below level zero.
    pub max_levels: usize,
}

#[derive(Debug, Clone, PartialEq, Eq)]
pub struct SimpleLeveledCompactionTask {
    /// The level compacted from; `None` stands for level zero.
    pub upper_level: Option<usize>,
    pub upper_level_sst_ids: Vec<usize>,
    /// The level compacted into.
    pub lower_level: usize,
    pub lower_level_sst_ids: Vec<usize>,
    pub is_lower_level_bottom_level: bool,
}

/// The mathematical content of a [`SimpleLeveledCompactionTask`].
pub struct SimpleLeveledTaskView {
    pub upper_level: Option<usize>,
    pub upper_level_sst_ids: Seq<usize>,
    pub lower_level: usize,
    pub lower_level_sst_ids: Seq<usize>,
    pub is_lower_level_bottom_level: bool,
}

impl View for SimpleLeveledCompactionTask {
    type V = SimpleLeveledTaskView;

    open spec fn view(&self) -> SimpleLeveledTaskView {
        SimpleLeveledTaskView {
            upper_level: self.upper_level,
            upper_level_sst_ids: self.upper_level_sst_ids@,
            lower_level: self.lower_level,
            lower_level_sst_ids: self.lower_level_sst_ids@,
            is_lower_level_bottom_level: self.is_lower_level_bottom_level,
        }
    }
}

impl SimpleLeveledCompactionOptions {
    /// Whether level `i` (zero for level zero) is due for compaction into
    /// level `i + 1`.
    pub open spec fn triggers(self, s: StateView, i: int) -> bool {
        if i == 0 {
            s.l0.len() >= self.level0_file_num_compaction_trigger
        } else {
            let upper = s.levels[i - 1].1.len();
            let lower = s.levels[i].1.len();
            upper > 0 && lower * 100 / upper < self.size_ratio_percent
        }
    }

    /// The task that compacts all of level `i` into level `i + 1`.
    pub open spec fn task_at(self, s: StateView, i: int) -> SimpleLeveledTaskView {
        SimpleLeveledTaskView {
            upper_level: if i == 0 {
                None
            } else {
                Some(i as usize)
            },
            upper_level_sst_ids: if i == 0 {
                s.l0
            } else {
                s.levels[i - 1].1
            },
            lower_level: (i + 1) as usize,
            lower_level_sst_ids: s.levels[i].1,
            is_lower_level_bottom_level: i + 1 == self.max_levels,
        }
    }
}

impl SimpleLeveledCompactionOptions {
    /// What task generation may assume of a placement: it has the
    /// configured number of levels.
    pub open spec fn admits(self, s: StateView) -> bool {
        s.levels.len() == self.max_levels
    }

    /// `r` is what task generation gives on `s`: nothing when no level is
    /// due, else the task for the shallowest level that is due.
    pub open spec fn generated(self, s: StateView, r: Option<SimpleLeveledTaskView>) -> bool {
        match r {
            None => forall|i: int| 0 <= i < self.max_levels ==> !self.triggers(s, i),
            Some(task) => exists|i: int|
                {
                    &&& 0 <= i < self.max_levels
                    &&& #[trigger] self.triggers(s, i)
                    &&& forall|j: int| 0 <= j < i ==> !self.triggers(s, j)
                    &&& task == self.task_at(s, i)
                },
        }
    }
}

/// The view of a task that may be absent.
pub open spec fn simple_leveled_view(r: Option<SimpleLeveledCompactionTask>) -> Option<
    SimpleLeveledTaskView,
> {
    match r {
        Some(task) => Some(task@),
        None => None,
    }
}

/// The tables that a simple leveled task takes as input.
pub open spec fn simple_leveled_inputs(task: SimpleLeveledTaskView) -> Seq<usize> {
    task.upper_level_sst_ids + task.lower_level_sst_ids
}

/// The placement after a simple leveled task has been carried out: the
/// task's upper tables are gone from their level and the lower level
/// holds exactly the output.
pub open spec fn simple_leveled_apply(
    s: StateView,
    task: SimpleLeveledTaskView,
    output: Seq<usize>,
) -> StateView {
    StateView {
        l0: if task.upper_level is None {
            without(s.l0, task.upper_level_sst_ids)
        } else {
            s.l0
        },
        levels: Seq::new(
            s.levels.len(),
            |j: int|
                (
                    s.levels[j].0,
                    if j + 1 == task.lower_level {
                        output
                    } else if task.upper_level is Some && task.upper_level->0 == j + 1 {
                        without(s.levels[j].1, task.upper_level_sst_ids)
                    } else {
                        s.levels[j].1
                    },
                ),
        ),
        tables: s.tables,
    }
}

pub struct SimpleLeveledCompactionController {
    pub options: SimpleLeveledCompactionOptions,
}

impl SimpleLeveledCompactionController {
    pub fn new(options: SimpleLeveledCompactionOptions) -> (c: Self)
        ensures
            c.options == options,
    {
        Self { options }
    }

    /// Generates a compaction task.
    ///
    /// Returns `None` if no compaction needs to be scheduled. Otherwise
    /// the task compacts the shallowest level that is due.
    pub fn generate_compaction_task(&self, snapshot: &LsmStorageState) -> (r: Option<
        SimpleLeveledCompactionTask,
    >)
        requires
            self.options.admits(snapshot@),
        ensures
            self.options.generated(snapshot@, simple_leveled_view(r)),
    {
        let mut i: usize = 0;
        while i < self.options.max_levels
            invariant
                i <= self.options.max_levels,
                snapshot.levels@.len() == self.options.max_levels,
                forall|j: int| 0 <= j < i ==> !self.options.triggers(snapshot@, j),
            decreases self.options.max_levels - i,
        {
            let due = if i == 0 {
                snapshot.l0_sstables.len() >= self.options.level0_file_num_compaction_trigger
            } else {
                let upper = snapshot.levels[i - 1].1.len() as u128;
                let lower = snapshot.levels[i].1.len() as u128;
                upper > 0 && lower * 100 / upper < self.options.size_ratio_percent as u128
            };
            assert(due == self.options.triggers(snapshot@, i as int));
            if due {
                let task = SimpleLeveledCompactionTask {
                    upper_level: if i == 0 {
                        None
                    } else {
                        Some(i)
                    },
                    upper_level_sst_ids: if i == 0 {
                        copy_ids(snapshot.l0_sstables.as_slice())
                    } else {
                        copy_ids(snapshot.levels[i - 1].1.as_slice())
                    },
                    lower_level: i + 1,
                    lower_level_sst_ids: copy_ids(snapshot.levels[i].1.as_slice()),
                    is_lower_level_bottom_level: i + 1 == self.options.max_levels,
                };
                assert(task@ == self.options.task_at(snapshot@, i as int));
                assert(self.options.triggers(snapshot@, i as int));
                return Some(task);
            }
            i += 1;
        }
        None
    }

    /// Apply the compaction result.
    ///
    /// The new placement has the task's upper tables removed and the
    /// lower level replaced by `output`; the second component lists the
    /// tables to delete, which are the task's inputs.
    pub fn apply_compaction_result(
        &self,
        snapshot: &LsmStorageState,
        task: &SimpleLeveledCompactionTask,
        output: &[usize],
    ) -> (r: (LsmStorageState, Vec<usize>))
        ensures
            r.0@ == simple_leveled_apply(snapshot@, task@, output@),
            r.1@ == simple_leveled_inputs(task@),
    {
        let l0_sstables = match task.upper_level {
            None => remove_ids(
                snapshot.l0_sstables.as_slice(),
                task.upper_level_sst_ids.as_slice(),
            ),
            Some(_) => copy_ids(snapshot.l0_sstables.as_slice()),
        };
        let mut levels: Vec<(usize, Vec<usize>)> = Vec::new();
        let ghost expected = simple_leveled_apply(snapshot@, task@, output@);
        let mut j: usize = 0;
        while j < snapshot.levels.len()
            invariant
                j <= snapshot.levels@.len(),
                expected == simple_leveled_apply(snapshot@, task@, output@),
                levels@.len() == j,
                forall|k: int|
                    0 <= k < j ==> (#[trigger] levels@[k]).0 == expected.levels[k].0 && levels@[k].1@
                        == expected.levels[k].1,
            decreases snapshot.levels@.len() - j,
        {
            let level = &snapshot.levels[j];
            let is_upper = match task.upper_level {
                Some(u) => j < usize::MAX && u == j + 1,
                None => false,
            };
            let ids = if j < usize::MAX && j + 1 == task.lower_level {
                copy_ids(output)
            } else if is_upper {
                remove_ids(level.1.as_slice(), task.upper_level_sst_ids.as_slice())
            } else {
                copy_ids(level.1.as_slice())
            };
            levels.push((level.0, ids));
            j += 1;
        }
        let mut files_to_remove = copy_ids(task.upper_level_sst_ids.as_slice());
        append_ids(&mut files_to_remove, task.lower_level_sst_ids.as_slice());
        let state = LsmStorageState { l0_sstables, levels, sstables: snapshot.sstables.clone() };
        assert(state@.levels =~= expected.levels);
        assert(state@.tables =~= expected.tables);
        (state, files_to_remove)
    }
}

} // verus!
