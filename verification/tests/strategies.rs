use std::collections::HashMap;
use std::sync::Arc;

use mini_lsm::compact::{
    CompactionController, CompactionOptions, CompactionTask, LeveledCompactionController,
    LeveledCompactionOptions, LeveledCompactionTask, SimpleLeveledCompactionController,
    SimpleLeveledCompactionOptions, SimpleLeveledCompactionTask, TieredCompactionController,
    TieredCompactionOptions, TieredCompactionTask,
};
use mini_lsm::lsm_storage::LsmStorageState;
use mini_lsm::table::SsTable;

fn state(l0: Vec<usize>, levels: Vec<Vec<usize>>) -> LsmStorageState {
    LsmStorageState {
        l0_sstables: l0,
        levels: levels.into_iter().enumerate().map(|(i, ids)| (i + 1, ids)).collect(),
        sstables: HashMap::new(),
    }
}

fn mock(state: &mut LsmStorageState, id: usize, size: u64, first: &str, last: &str) {
    state.sstables.insert(
        id,
        Arc::new(SsTable::create_meta_only(
            id,
            size,
            first.as_bytes().to_vec(),
            last.as_bytes().to_vec(),
        )),
    );
}

fn simple(ratio: usize, trigger: usize, max_levels: usize) -> SimpleLeveledCompactionController {
    SimpleLeveledCompactionController::new(SimpleLeveledCompactionOptions {
        size_ratio_percent: ratio,
        level0_file_num_compaction_trigger: trigger,
        max_levels,
    })
}

#[test]
fn simple_leveled_compacts_level_zero_at_the_trigger() {
    let ctrl = simple(200, 2, 3);
    assert_eq!(ctrl.generate_compaction_task(&state(vec![9], vec![vec![], vec![], vec![]])), None);
    let task = ctrl
        .generate_compaction_task(&state(vec![9, 8], vec![vec![1, 2], vec![], vec![]]))
        .unwrap();
    assert_eq!(
        task,
        SimpleLeveledCompactionTask {
            upper_level: None,
            upper_level_sst_ids: vec![9, 8],
            lower_level: 1,
            lower_level_sst_ids: vec![1, 2],
            is_lower_level_bottom_level: false,
        }
    );
}

#[test]
fn simple_leveled_compacts_the_shallowest_level_whose_lower_level_is_too_small() {
    let ctrl = simple(200, 2, 3);
    // |L2| * 100 / |L1| = 3 * 100 / 2 = 150 < 200.
    let task = ctrl
        .generate_compaction_task(&state(vec![], vec![vec![1, 2], vec![3, 4, 5], vec![]]))
        .unwrap();
    assert_eq!(
        task,
        SimpleLeveledCompactionTask {
            upper_level: Some(1),
            upper_level_sst_ids: vec![1, 2],
            lower_level: 2,
            lower_level_sst_ids: vec![3, 4, 5],
            is_lower_level_bottom_level: false,
        }
    );
    // |L2| * 100 / |L1| = 200 is not below 200; |L3| * 100 / |L2| = 0.
    let task = ctrl
        .generate_compaction_task(&state(vec![], vec![vec![1], vec![3, 4], vec![]]))
        .unwrap();
    assert_eq!(
        task,
        SimpleLeveledCompactionTask {
            upper_level: Some(2),
            upper_level_sst_ids: vec![3, 4],
            lower_level: 3,
            lower_level_sst_ids: vec![],
            is_lower_level_bottom_level: true,
        }
    );
    // An empty level is never compacted.
    assert_eq!(
        ctrl.generate_compaction_task(&state(vec![], vec![vec![], vec![], vec![7]])),
        None
    );
}

#[test]
fn simple_leveled_apply_moves_the_inputs_out_and_the_output_in() {
    let ctrl = simple(200, 2, 3);
    let before = state(vec![11, 9, 8], vec![vec![1, 2], vec![3], vec![]]);
    let task = SimpleLeveledCompactionTask {
        upper_level: None,
        upper_level_sst_ids: vec![9, 8],
        lower_level: 1,
        lower_level_sst_ids: vec![1, 2],
        is_lower_level_bottom_level: false,
    };
    let (after, removed) = ctrl.apply_compaction_result(&before, &task, &[20, 21]);
    assert_eq!(after.l0_sstables, vec![11]);
    assert_eq!(after.levels, vec![(1, vec![20, 21]), (2, vec![3]), (3, vec![])]);
    assert_eq!(removed, vec![9, 8, 1, 2]);

    let task = SimpleLeveledCompactionTask {
        upper_level: Some(1),
        upper_level_sst_ids: vec![1, 2],
        lower_level: 2,
        lower_level_sst_ids: vec![3],
        is_lower_level_bottom_level: false,
    };
    let (after, removed) = ctrl.apply_compaction_result(&before, &task, &[30]);
    assert_eq!(after.l0_sstables, vec![11, 9, 8]);
    assert_eq!(after.levels, vec![(1, vec![]), (2, vec![30]), (3, vec![])]);
    assert_eq!(removed, vec![1, 2, 3]);
}

fn tiers(sizes: &[usize]) -> LsmStorageState {
    let mut next = 1;
    let mut levels = Vec::new();
    for (i, n) in sizes.iter().enumerate() {
        let ids: Vec<usize> = (next..next + n).collect();
        next += n;
        levels.push((100 + i, ids));
    }
    LsmStorageState { l0_sstables: vec![], levels, sstables: HashMap::new() }
}

fn tiered(
    num_tiers: usize,
    max_amp: usize,
    size_ratio: usize,
    min_merge_width: usize,
) -> TieredCompactionController {
    TieredCompactionController::new(TieredCompactionOptions {
        num_tiers,
        max_size_amplification_percent: max_amp,
        size_ratio,
        min_merge_width,
    })
}

#[test]
fn tiered_space_amplification_compacts_all_tiers() {
    let s = tiers(&[10, 10, 10, 10]);
    let task = tiered(4, 200, 100, 2).generate_compaction_task(&s).unwrap();
    assert_eq!(task, TieredCompactionTask { tiers: s.levels.clone(), bottom_tier_included: true });
    // 300 tables above per 100 below: just at the limit still triggers.
    assert!(tiered(4, 300, 1000, 2).generate_compaction_task(&s).unwrap().bottom_tier_included);
    assert_eq!(tiered(4, 301, 1000, 2).generate_compaction_task(&s), None);
}

#[test]
fn tiered_size_ratio_compacts_the_newest_tiers_only() {
    let s = tiers(&[1, 1, 1, 100]);
    let task = tiered(4, 200, 100, 2).generate_compaction_task(&s).unwrap();
    assert_eq!(
        task,
        TieredCompactionTask { tiers: s.levels[..2].to_vec(), bottom_tier_included: false }
    );
    assert!(task.tiers.iter().all(|(id, _)| *id != 103));
    // With a least width of three the rule does not trigger: 3 tables
    // against 100.
    assert_eq!(tiered(4, 200, 100, 3).generate_compaction_task(&s), None);
}

#[test]
fn tiered_reduces_sorted_runs_from_the_oldest_end() {
    let s = tiers(&[1, 4, 16, 64, 512]);
    let task = tiered(3, 10_000, 1_000_000, 2).generate_compaction_task(&s).unwrap();
    assert_eq!(
        task,
        TieredCompactionTask { tiers: s.levels[2..].to_vec(), bottom_tier_included: true }
    );
    assert_eq!(tiered(5, 10_000, 1_000_000, 2).generate_compaction_task(&s), None);
}

#[test]
fn tiered_without_tiers_has_no_task() {
    assert_eq!(tiered(1, 0, 0, 0).generate_compaction_task(&tiers(&[])), None);
}

#[test]
fn tiered_apply_puts_the_new_tier_where_the_oldest_removed_tier_stood() {
    let s = tiers(&[1, 2, 3, 4]);
    let ctrl = tiered(4, 200, 100, 2);
    let task = TieredCompactionTask { tiers: s.levels[1..3].to_vec(), bottom_tier_included: false };
    let (after, removed) = ctrl.apply_compaction_result(&s, &task, &[50, 51]);
    assert_eq!(
        after.levels,
        vec![(100, vec![1]), (50, vec![50, 51]), (103, vec![7, 8, 9, 10])]
    );
    assert_eq!(removed, vec![2, 3, 4, 5, 6]);
    // Without output the tiers just go away.
    let (after, removed) = ctrl.apply_compaction_result(&s, &task, &[]);
    assert_eq!(after.levels, vec![(100, vec![1]), (103, vec![7, 8, 9, 10])]);
    assert_eq!(removed, vec![2, 3, 4, 5, 6]);
    // A tier that was flushed in the meantime stays at the head.
    let mut later = tiers(&[1, 2, 3, 4]);
    later.levels.insert(0, (999, vec![77]));
    let task = TieredCompactionTask { tiers: s.levels.clone(), bottom_tier_included: true };
    let (after, _) = ctrl.apply_compaction_result(&later, &task, &[60]);
    assert_eq!(after.levels, vec![(999, vec![77]), (60, vec![60])]);
}

fn leveled(
    multiplier: usize,
    trigger: usize,
    max_levels: usize,
    base_mb: usize,
) -> LeveledCompactionController {
    LeveledCompactionController::new(LeveledCompactionOptions {
        level_size_multiplier: multiplier,
        level0_file_num_compaction_trigger: trigger,
        max_levels,
        base_level_size_mb: base_mb,
    })
}

const MB: u64 = 1024 * 1024;

#[test]
fn leveled_level_zero_selects_the_overlapping_tables_of_the_base_level() {
    let mut s = state(vec![10], vec![vec![1, 2, 3]]);
    mock(&mut s, 10, MB, "b", "f");
    mock(&mut s, 1, MB, "a", "c");
    mock(&mut s, 2, MB, "e", "g");
    mock(&mut s, 3, MB, "m", "o");
    let ctrl = leveled(10, 1, 1, 128);
    let task = ctrl.generate_compaction_task(&s).unwrap();
    assert_eq!(
        task,
        LeveledCompactionTask {
            upper_level: None,
            upper_level_sst_ids: vec![10],
            lower_level: 1,
            lower_level_sst_ids: vec![1, 2],
            is_lower_level_bottom_level: true,
        }
    );
    // The output replaces the two selected tables in place.
    mock(&mut s, 20, 2 * MB, "a", "g");
    let (after, removed) = ctrl.apply_compaction_result(&s, &task, &[20]);
    assert_eq!(after.l0_sstables, Vec::<usize>::new());
    assert_eq!(after.levels, vec![(1, vec![20, 3])]);
    assert_eq!(removed, vec![10, 1, 2]);
}

#[test]
fn leveled_level_zero_goes_to_the_shallowest_level_with_a_target() {
    // Deepest level: 300 MB against a base of 200 MB, multiplier 10.
    // Targets: L3 = 300 MB, L2 = 30 MB, L1 = 0.
    let mut s = state(vec![10, 9], vec![vec![], vec![1], vec![2]]);
    mock(&mut s, 10, MB, "a", "k");
    mock(&mut s, 9, MB, "j", "z");
    mock(&mut s, 1, 10 * MB, "l", "p");
    mock(&mut s, 2, 300 * MB, "a", "z");
    let task = leveled(10, 2, 3, 200).generate_compaction_task(&s).unwrap();
    assert_eq!(
        task,
        LeveledCompactionTask {
            upper_level: None,
            upper_level_sst_ids: vec![10, 9],
            lower_level: 2,
            lower_level_sst_ids: vec![1],
            is_lower_level_bottom_level: false,
        }
    );
    // On an empty store the base level is the deepest level.
    let mut s = state(vec![10], vec![vec![], vec![], vec![]]);
    mock(&mut s, 10, MB, "a", "k");
    let task = leveled(10, 1, 3, 200).generate_compaction_task(&s).unwrap();
    assert_eq!(task.lower_level, 3);
    assert!(task.is_lower_level_bottom_level);
    assert_eq!(task.lower_level_sst_ids, Vec::<usize>::new());
}

#[test]
fn leveled_picks_the_level_that_exceeds_its_target_the_most() {
    // Targets: L3 = 1000 MB, L2 = 100 MB, L1 = 10 MB (base 5 MB).
    // L1 holds 30 MB (factor 3), L2 holds 250 MB (factor 2.5).
    let mut s = state(vec![], vec![vec![5, 4, 6], vec![7, 8], vec![9]]);
    mock(&mut s, 5, 10 * MB, "d", "f");
    mock(&mut s, 4, 10 * MB, "a", "c");
    mock(&mut s, 6, 10 * MB, "g", "i");
    mock(&mut s, 7, 125 * MB, "a", "b");
    mock(&mut s, 8, 125 * MB, "c", "z");
    mock(&mut s, 9, 1000 * MB, "a", "z");
    let task = leveled(10, 4, 3, 5).generate_compaction_task(&s).unwrap();
    // The oldest table of L1 is table 4, whose keys a..c reach both
    // tables of L2.
    assert_eq!(
        task,
        LeveledCompactionTask {
            upper_level: Some(1),
            upper_level_sst_ids: vec![4],
            lower_level: 2,
            lower_level_sst_ids: vec![7, 8],
            is_lower_level_bottom_level: false,
        }
    );
    // With L2 at factor 4 it is L2's turn.
    mock(&mut s, 7, 200 * MB, "a", "b");
    mock(&mut s, 8, 200 * MB, "c", "z");
    let task = leveled(10, 4, 3, 5).generate_compaction_task(&s).unwrap();
    assert_eq!(
        task,
        LeveledCompactionTask {
            upper_level: Some(2),
            upper_level_sst_ids: vec![7],
            lower_level: 3,
            lower_level_sst_ids: vec![9],
            is_lower_level_bottom_level: true,
        }
    );
}

#[test]
fn leveled_has_no_task_when_no_level_is_over_its_target() {
    let mut s = state(vec![10], vec![vec![1], vec![2]]);
    mock(&mut s, 10, MB, "a", "b");
    mock(&mut s, 1, 10 * MB, "a", "c");
    mock(&mut s, 2, 100 * MB, "a", "z");
    assert_eq!(leveled(10, 2, 2, 50).generate_compaction_task(&s), None);
}

#[test]
fn leveled_apply_keeps_the_lower_level_sorted_by_first_key() {
    let mut s = state(vec![], vec![vec![1], vec![2, 3, 4, 5]]);
    mock(&mut s, 1, MB, "f", "k");
    mock(&mut s, 2, MB, "a", "c");
    mock(&mut s, 3, MB, "e", "g");
    mock(&mut s, 4, MB, "j", "l");
    mock(&mut s, 5, MB, "x", "z");
    mock(&mut s, 20, MB, "e", "h");
    mock(&mut s, 21, MB, "i", "l");
    let task = LeveledCompactionTask {
        upper_level: Some(1),
        upper_level_sst_ids: vec![1],
        lower_level: 2,
        lower_level_sst_ids: vec![3, 4],
        is_lower_level_bottom_level: true,
    };
    let (after, removed) =
        leveled(10, 2, 2, 50).apply_compaction_result(&s, &task, &[20, 21]);
    assert_eq!(after.levels, vec![(1, vec![]), (2, vec![2, 20, 21, 5])]);
    assert_eq!(removed, vec![1, 3, 4]);
}

#[test]
fn controller_dispatches_to_the_strategy() {
    let options = SimpleLeveledCompactionOptions {
        size_ratio_percent: 200,
        level0_file_num_compaction_trigger: 1,
        max_levels: 1,
    };
    let ctrl = CompactionController::new(CompactionOptions::Simple(options));
    let s = state(vec![5], vec![vec![1]]);
    let task = ctrl.generate_compaction_task(&s).unwrap();
    let expected = CompactionTask::Simple(SimpleLeveledCompactionTask {
        upper_level: None,
        upper_level_sst_ids: vec![5],
        lower_level: 1,
        lower_level_sst_ids: vec![1],
        is_lower_level_bottom_level: true,
    });
    assert_eq!(task, expected);
    assert!(task.compact_to_bottom_level());
    let (after, removed) = ctrl.apply_compaction_result(&s, &task, &[8]);
    assert_eq!(after.levels, vec![(1, vec![8])]);
    assert_eq!(removed, vec![5, 1]);

    let none = CompactionController::new(CompactionOptions::NoCompaction);
    assert_eq!(none.generate_compaction_task(&s), None);
}

#[test]
fn controller_applies_a_full_compaction_under_any_strategy() {
    let s = state(vec![7, 6, 5], vec![vec![1, 2], vec![3]]);
    let task = CompactionTask::ForceFullCompaction {
        l0_sstables: vec![6, 5],
        l1_sstables: vec![1, 2],
    };
    assert!(task.compact_to_bottom_level());
    let (after, removed) =
        CompactionController::NoCompaction.apply_compaction_result(&s, &task, &[9]);
    assert_eq!(after.l0_sstables, vec![7]);
    assert_eq!(after.levels, vec![(1, vec![9]), (2, vec![3])]);
    assert_eq!(removed, vec![6, 5, 1, 2]);
}

#[test]
fn flush_to_l0_unless_tiered() {
    let tiered = TieredCompactionOptions {
        num_tiers: 3,
        max_size_amplification_percent: 200,
        size_ratio: 1,
        min_merge_width: 2,
    };
    assert!(!CompactionController::new(CompactionOptions::Tiered(tiered)).flush_to_l0());
    assert!(CompactionController::new(CompactionOptions::NoCompaction).flush_to_l0());
    let simple = SimpleLeveledCompactionOptions {
        size_ratio_percent: 200,
        level0_file_num_compaction_trigger: 2,
        max_levels: 3,
    };
    assert!(CompactionController::new(CompactionOptions::Simple(simple)).flush_to_l0());
    let leveled = LeveledCompactionOptions {
        level_size_multiplier: 10,
        level0_file_num_compaction_trigger: 2,
        max_levels: 3,
        base_level_size_mb: 128,
    };
    assert!(CompactionController::new(CompactionOptions::Leveled(leveled)).flush_to_l0());
}

#[test]
fn compact_to_bottom_level_follows_the_task() {
    let task = |bottom| {
        CompactionTask::Leveled(LeveledCompactionTask {
            upper_level: Some(1),
            upper_level_sst_ids: vec![1],
            lower_level: 2,
            lower_level_sst_ids: vec![],
            is_lower_level_bottom_level: bottom,
        })
    };
    assert!(task(true).compact_to_bottom_level());
    assert!(!task(false).compact_to_bottom_level());
    let tiered = |bottom| {
        CompactionTask::Tiered(TieredCompactionTask { tiers: vec![], bottom_tier_included: bottom })
    };
    assert!(tiered(true).compact_to_bottom_level());
    assert!(!tiered(false).compact_to_bottom_level());
}
