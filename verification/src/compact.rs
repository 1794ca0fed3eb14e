//! Compaction: the task descriptors, the strategies that produce them and
//! the controller that dispatches between the strategies.

pub mod executor;
pub mod laws;
pub mod leveled;
pub mod leveled_order;
pub mod leveled_reads;
pub mod order;
pub mod placement;
pub mod reads;
pub mod simple_leveled;
pub mod tiered;

pub use leveled::{LeveledCompactionController, LeveledCompactionOptions, LeveledCompactionTask};
pub use simple_leveled::{
    SimpleLeveledCompactionController, SimpleLeveledCompactionOptions, SimpleLeveledCompactionTask,
};
pub use tiered::{TieredCompactionController, TieredCompactionOptions, TieredCompactionTask};

use vstd::prelude::*;
use crate::compact::leveled::{leveled_applicable, leveled_apply, leveled_inputs, LeveledTaskView};
use crate::compact::simple_leveled::{
    simple_leveled_apply, simple_leveled_inputs, SimpleLeveledTaskView,
};
use crate::compact::tiered::{tier_tables, tiered_applicable, tiered_apply, TieredTaskView};
use crate::lsm_storage::{append_ids, copy_ids, remove_ids, without, LsmStorageState, StateView};

verus! {

/// One compaction: which tables go in and where the result is placed.
#[derive(Debug, Clone, PartialEq, Eq)]
pub enum CompactionTask {
    Leveled(LeveledCompactionTask),
    Tiered(TieredCompactionTask),
    Simple(SimpleLeveledCompactionTask),
    ForceFullCompaction { l0_sstables: Vec<usize>, l1_sstables: Vec<usize> },
}

/// The mathematical content of a [`CompactionTask`].
pub enum CompactionTaskView {
    Leveled(LeveledTaskView),
    Tiered(TieredTaskView),
    Simple(SimpleLeveledTaskView),
    ForceFullCompaction { l0_sstables: Seq<usize>, l1_sstables: Seq<usize> },
}

impl View for CompactionTask {
    type V = CompactionTaskView;

    open spec fn view(&self) -> CompactionTaskView {
        match self {
            CompactionTask::Leveled(task) => CompactionTaskView::Leveled(task@),
            CompactionTask::Tiered(task) => CompactionTaskView::Tiered(task@),
            CompactionTask::Simple(task) => CompactionTaskView::Simple(task@),
            CompactionTask::ForceFullCompaction { l0_sstables, l1_sstables } => {
                CompactionTaskView::ForceFullCompaction {
                    l0_sstables: l0_sstables@,
                    l1_sstables: l1_sstables@,
                }
            },
        }
    }
}

impl CompactionTaskView {
    /// Whether the output lands at the deepest level, below which there
    /// is nothing that a tombstone could still hide.
    pub open spec fn compact_to_bottom_level(self) -> bool {
        match self {
            CompactionTaskView::ForceFullCompaction { .. } => true,
            CompactionTaskView::Leveled(task) => task.is_lower_level_bottom_level,
            CompactionTaskView::Simple(task) => task.is_lower_level_bottom_level,
            CompactionTaskView::Tiered(task) => task.bottom_tier_included,
        }
    }

    /// The tables that the task takes as input, those of higher priority
    /// first.
    pub open spec fn inputs(self) -> Seq<usize> {
        match self {
            CompactionTaskView::ForceFullCompaction { l0_sstables, l1_sstables } => l0_sstables
                + l1_sstables,
            CompactionTaskView::Leveled(task) => leveled_inputs(task),
            CompactionTaskView::Simple(task) => simple_leveled_inputs(task),
            CompactionTaskView::Tiered(task) => tier_tables(task.tiers),
        }
    }
}

impl CompactionTask {
    /// Whether the output lands at the deepest level.
    pub fn compact_to_bottom_level(&self) -> (b: bool)
        ensures
            b == self@.compact_to_bottom_level(),
    {
        match self {
            CompactionTask::ForceFullCompaction { .. } => true,
            CompactionTask::Leveled(task) => task.is_lower_level_bottom_level,
            CompactionTask::Simple(task) => task.is_lower_level_bottom_level,
            CompactionTask::Tiered(task) => task.bottom_tier_included,
        }
    }
}

/// The view of a task that may be absent.
pub open spec fn task_view(r: Option<CompactionTask>) -> Option<CompactionTaskView> {
    match r {
        Some(task) => Some(task@),
        None => None,
    }
}

/// The placement after a full compaction: the compacted tables are gone
/// from level zero and the first level holds exactly the output.
pub open spec fn force_full_apply(s: StateView, l0_sstables: Seq<usize>, output: Seq<usize>) -> StateView {
    StateView {
        l0: without(s.l0, l0_sstables),
        levels: Seq::new(
            s.levels.len(),
            |j: int|
                (
                    s.levels[j].0,
                    if j == 0 {
                        output
                    } else {
                        s.levels[j].1
                    },
                ),
        ),
        tables: s.tables,
    }
}

/// Carries out a full compaction on the placement: see
/// [`force_full_apply`].  The second component lists the tables to
/// delete, which are the compacted ones.
pub fn apply_force_full_compaction(
    snapshot: &LsmStorageState,
    l0_sstables: &[usize],
    l1_sstables: &[usize],
    output: &[usize],
) -> (r: (LsmStorageState, Vec<usize>))
    ensures
        r.0@ == force_full_apply(snapshot@, l0_sstables@, output@),
        r.1@ == l0_sstables@ + l1_sstables@,
{
    let l0 = remove_ids(snapshot.l0_sstables.as_slice(), l0_sstables);
    let mut levels: Vec<(usize, Vec<usize>)> = Vec::new();
    let ghost expected = force_full_apply(snapshot@, l0_sstables@, output@);
    let mut j: usize = 0;
    while j < snapshot.levels.len()
        invariant
            j <= snapshot.levels@.len(),
            expected == force_full_apply(snapshot@, l0_sstables@, output@),
            levels@.len() == j,
            forall|k: int|
                0 <= k < j ==> (#[trigger] levels@[k]).0 == expected.levels[k].0 && levels@[k].1@
                    == expected.levels[k].1,
        decreases snapshot.levels@.len() - j,
    {
        let level = &snapshot.levels[j];
        let ids = if j == 0 {
            copy_ids(output)
        } else {
            copy_ids(level.1.as_slice())
        };
        levels.push((level.0, ids));
        j += 1;
    }
    let mut files_to_remove = copy_ids(l0_sstables);
    append_ids(&mut files_to_remove, l1_sstables);
    let state = LsmStorageState { l0_sstables: l0, levels, sstables: snapshot.sstables.clone() };
    assert(state@.levels =~= expected.levels);
    assert(state@.tables =~= expected.tables);
    (state, files_to_remove)
}

/// The strategy in force, with its options.
pub enum CompactionController {
    Leveled(LeveledCompactionController),
    Tiered(TieredCompactionController),
    Simple(SimpleLeveledCompactionController),
    NoCompaction,
}

impl CompactionController {
    /// What task generation may assume of a placement under the strategy
    /// in force.
    pub open spec fn admits(&self, s: StateView) -> bool {
        match self {
            CompactionController::Leveled(ctrl) => ctrl.options.admits(s),
            CompactionController::Tiered(ctrl) => ctrl.options.admits(s),
            CompactionController::Simple(ctrl) => ctrl.options.admits(s),
            CompactionController::NoCompaction => true,
        }
    }

    /// `r` is what task generation gives on `s`: what the strategy in
    /// force gives, and never a task without a strategy.
    pub open spec fn generated(&self, s: StateView, r: Option<CompactionTaskView>) -> bool {
        match self {
            CompactionController::Leveled(ctrl) => match r {
                None => ctrl.options.generated(s, None),
                Some(CompactionTaskView::Leveled(task)) => ctrl.options.generated(s, Some(task)),
                Some(_) => false,
            },
            CompactionController::Tiered(ctrl) => match r {
                None => ctrl.options.generated(s, None),
                Some(CompactionTaskView::Tiered(task)) => ctrl.options.generated(s, Some(task)),
                Some(_) => false,
            },
            CompactionController::Simple(ctrl) => match r {
                None => ctrl.options.generated(s, None),
                Some(CompactionTaskView::Simple(task)) => ctrl.options.generated(s, Some(task)),
                Some(_) => false,
            },
            CompactionController::NoCompaction => r is None,
        }
    }

    /// Whether `task` can be carried out under the strategy in force: it
    /// is a full compaction, or a task of that strategy which the
    /// strategy can apply.
    pub open spec fn applicable(
        &self,
        s: StateView,
        task: CompactionTaskView,
        output: Seq<usize>,
    ) -> bool {
        match (self, task) {
            (_, CompactionTaskView::ForceFullCompaction { .. }) => true,
            (CompactionController::Leveled(_), CompactionTaskView::Leveled(task)) => {
                leveled_applicable(s, task, output)
            },
            (CompactionController::Simple(_), CompactionTaskView::Simple(_)) => true,
            (CompactionController::Tiered(_), CompactionTaskView::Tiered(task)) => {
                tiered_applicable(s, task)
            },
            _ => false,
        }
    }

    /// The placement after `task` has been carried out on `s` with the
    /// given output.
    pub open spec fn apply(s: StateView, task: CompactionTaskView, output: Seq<usize>) -> StateView {
        match task {
            CompactionTaskView::ForceFullCompaction { l0_sstables, l1_sstables } => {
                force_full_apply(s, l0_sstables, output)
            },
            CompactionTaskView::Leveled(task) => leveled_apply(s, task, output),
            CompactionTaskView::Simple(task) => simple_leveled_apply(s, task, output),
            CompactionTaskView::Tiered(task) => tiered_apply(s, task, output),
        }
    }

    /// Asks the strategy in force for a task.  Without a strategy there
    /// is never one.
    pub fn generate_compaction_task(&self, snapshot: &LsmStorageState) -> (r: Option<
        CompactionTask,
    >)
        requires
            self.admits(snapshot@),
        ensures
            self.generated(snapshot@, task_view(r)),
    {
        match self {
            CompactionController::Leveled(ctrl) => match ctrl.generate_compaction_task(snapshot) {
                Some(task) => Some(CompactionTask::Leveled(task)),
                None => None,
            },
            CompactionController::Simple(ctrl) => match ctrl.generate_compaction_task(snapshot) {
                Some(task) => Some(CompactionTask::Simple(task)),
                None => None,
            },
            CompactionController::Tiered(ctrl) => match ctrl.generate_compaction_task(snapshot) {
                Some(task) => Some(CompactionTask::Tiered(task)),
                None => None,
            },
            CompactionController::NoCompaction => None,
        }
    }

    /// Carries out `task` on the placement.  The first component is the
    /// new placement, the second lists the tables to delete, which are
    /// the task's inputs.
    pub fn apply_compaction_result(
        &self,
        snapshot: &LsmStorageState,
        task: &CompactionTask,
        output: &[usize],
    ) -> (r: (LsmStorageState, Vec<usize>))
        requires
            self.applicable(snapshot@, task@, output@),
        ensures
            r.0@ == Self::apply(snapshot@, task@, output@),
            r.1@ == task@.inputs(),
    {
        match (self, task) {
            (_, CompactionTask::ForceFullCompaction { l0_sstables, l1_sstables }) => {
                apply_force_full_compaction(
                    snapshot,
                    l0_sstables.as_slice(),
                    l1_sstables.as_slice(),
                    output,
                )
            },
            (CompactionController::Leveled(ctrl), CompactionTask::Leveled(task)) => {
                ctrl.apply_compaction_result(snapshot, task, output)
            },
            (CompactionController::Simple(ctrl), CompactionTask::Simple(task)) => {
                ctrl.apply_compaction_result(snapshot, task, output)
            },
            (CompactionController::Tiered(ctrl), CompactionTask::Tiered(task)) => {
                ctrl.apply_compaction_result(snapshot, task, output)
            },
            _ => vstd::pervasive::unreached(),
        }
    }

    /// Whether a flushed memtable becomes a table of level zero; under
    /// the tiered strategy it forms a tier of its own instead.
    pub fn flush_to_l0(&self) -> (b: bool)
        ensures
            b == !(self is Tiered),
    {
        match self {
            CompactionController::Leveled(_) => true,
            CompactionController::Simple(_) => true,
            CompactionController::NoCompaction => true,
            CompactionController::Tiered(_) => false,
        }
    }
}

/// The strategy to run, with its options.
#[derive(Debug, Clone, Copy)]
pub enum CompactionOptions {
    /// Leveled compaction with partial compaction + dynamic level support (= RocksDB's Leveled
    /// Compaction)
    Leveled(LeveledCompactionOptions),
    /// Tiered compaction (= RocksDB's universal compaction)
    Tiered(TieredCompactionOptions),
    /// Simple leveled compaction
    Simple(SimpleLeveledCompactionOptions),
    /// No compaction: flushed tables pile up in level zero
    NoCompaction,
}

impl CompactionController {
    /// The controller that runs the strategy which `options` name.
    pub fn new(options: CompactionOptions) -> (c: Self)
        ensures
            match options {
                CompactionOptions::Leveled(o) => c matches CompactionController::Leveled(ctrl)
                    && ctrl.options == o,
                CompactionOptions::Tiered(o) => c matches CompactionController::Tiered(ctrl)
                    && ctrl.options == o,
                CompactionOptions::Simple(o) => c matches CompactionController::Simple(ctrl)
                    && ctrl.options == o,
                CompactionOptions::NoCompaction => c is NoCompaction,
            },
    {
        match options {
            CompactionOptions::Leveled(o) => CompactionController::Leveled(
                LeveledCompactionController::new(o),
            ),
            CompactionOptions::Tiered(o) => CompactionController::Tiered(
                TieredCompactionController::new(o),
            ),
            CompactionOptions::Simple(o) => CompactionController::Simple(
                SimpleLeveledCompactionController::new(o),
            ),
            CompactionOptions::NoCompaction => CompactionController::NoCompaction,
        }
    }
}

} // verus!
