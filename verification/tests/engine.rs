use std::sync::Arc;

use mini_lsm::compact::{
    CompactionOptions, SimpleLeveledCompactionOptions, TieredCompactionOptions,
};
use mini_lsm::error::Error;
use mini_lsm::iterators::StorageIterator;
use mini_lsm::lsm_storage::{LsmStorageInner, LsmStorageOptions, LsmStorageState};
use mini_lsm::table::{SsTable, SsTableBuilder, SsTableIterator};

fn options(compaction_options: CompactionOptions) -> LsmStorageOptions {
    LsmStorageOptions {
        block_size: 32,
        target_sst_size: 1 << 20,
        num_memtable_limit: 2,
        compaction_options,
    }
}

fn filled(entries: &[(&str, &str)]) -> SsTableBuilder {
    let mut builder = SsTableBuilder::new(32);
    for (k, v) in entries {
        builder.add(k.as_bytes(), v.as_bytes());
    }
    builder
}

fn contents(table: &Arc<SsTable>) -> Vec<(String, String)> {
    let mut it = SsTableIterator::create_and_seek_to_first(table.clone()).unwrap();
    let mut out = Vec::new();
    while it.is_valid() {
        out.push((
            String::from_utf8(it.key().to_vec()).unwrap(),
            String::from_utf8(it.value().to_vec()).unwrap(),
        ));
        it.next().unwrap();
    }
    out
}

fn owned(entries: &[(&str, &str)]) -> Vec<(String, String)> {
    entries.iter().map(|(k, v)| (k.to_string(), v.to_string())).collect()
}

#[test]
fn a_new_engine_has_the_levels_of_its_strategy() {
    let simple = CompactionOptions::Simple(SimpleLeveledCompactionOptions {
        size_ratio_percent: 200,
        level0_file_num_compaction_trigger: 2,
        max_levels: 3,
    });
    let inner = LsmStorageInner::new(options(simple));
    assert_eq!(inner.next_sst_id, 0);
    assert!(inner.state.l0_sstables.is_empty());
    assert_eq!(inner.state.levels, vec![(1, vec![]), (2, vec![]), (3, vec![])]);
    assert!(inner.state.sstables.is_empty());
    assert!(inner.compaction_controller.flush_to_l0());

    let inner = LsmStorageInner::new(options(CompactionOptions::NoCompaction));
    assert_eq!(inner.state.levels, vec![(1, vec![])]);

    let tiered = CompactionOptions::Tiered(TieredCompactionOptions {
        num_tiers: 3,
        max_size_amplification_percent: 200,
        size_ratio: 1,
        min_merge_width: 2,
    });
    let inner = LsmStorageInner::new(options(tiered));
    assert!(inner.state.levels.is_empty());
    assert!(!inner.compaction_controller.flush_to_l0());
}

#[test]
fn flushed_tables_go_to_the_head_of_level_zero() {
    let mut inner = LsmStorageInner::new(options(CompactionOptions::NoCompaction));
    let first = inner.add_flushed_sst(filled(&[("a", "1"), ("b", "2")])).unwrap();
    let second = inner.add_flushed_sst(filled(&[("a", "3")])).unwrap();
    assert_eq!(first.sst_id(), 0);
    assert_eq!(second.sst_id(), 1);
    assert_eq!(inner.state.l0_sstables, vec![1, 0]);
    assert_eq!(inner.state.levels, vec![(1, vec![])]);
    assert_eq!(inner.next_sst_id, 2);
    assert_eq!(contents(&inner.state.sstables[&0]), owned(&[("a", "1"), ("b", "2")]));
    assert_eq!(contents(&inner.state.sstables[&1]), owned(&[("a", "3")]));
    let rec = inner.force_full_compaction().unwrap();
    assert_eq!(contents(&rec.new_ssts[0]), owned(&[("a", "3"), ("b", "2")]));
    assert_eq!(inner.state.levels, vec![(1, vec![2])]);
}

#[test]
fn flushed_tables_form_tiers_under_the_tiered_strategy() {
    let tiered = CompactionOptions::Tiered(TieredCompactionOptions {
        num_tiers: 2,
        max_size_amplification_percent: 200,
        size_ratio: 100,
        min_merge_width: 2,
    });
    let mut inner = LsmStorageInner::new(options(tiered));
    inner.add_flushed_sst(filled(&[("a", "old"), ("c", "old")])).unwrap();
    inner.add_flushed_sst(filled(&[("a", ""), ("b", "mid")])).unwrap();
    assert_eq!(inner.state.levels, vec![(1, vec![1]), (0, vec![0])]);
    assert!(inner.state.l0_sstables.is_empty());
    assert!(inner.trigger_compaction().unwrap().is_none());
    inner.add_flushed_sst(filled(&[("c", "new")])).unwrap();
    // Two tables above the last tier, which holds one: all tiers are
    // merged, and at the bottom the tombstone goes.
    let rec = inner.trigger_compaction().unwrap().unwrap();
    assert!(rec.task.compact_to_bottom_level());
    assert_eq!(contents(&rec.new_ssts[0]), owned(&[("b", "mid"), ("c", "new")]));
    assert_eq!(inner.state.levels, vec![(3, vec![3])]);
    assert_eq!(rec.removed, vec![2, 1, 0]);
}

#[test]
fn flushing_fails_when_the_ids_are_used_up() {
    let mut inner = LsmStorageInner::new(options(CompactionOptions::NoCompaction));
    inner.next_sst_id = usize::MAX;
    assert!(matches!(inner.add_flushed_sst(filled(&[("a", "1")])), Err(Error::InvariantViolation)));
    assert!(inner.state.l0_sstables.is_empty());
    assert_eq!(inner.next_sst_id(), None);
    inner.next_sst_id = 7;
    assert_eq!(inner.next_sst_id(), Some(7));
    assert_eq!(inner.next_sst_id, 8);
}

#[test]
fn a_snapshot_is_not_touched_by_later_commits() {
    let mut inner = LsmStorageInner::new(options(CompactionOptions::NoCompaction));
    inner.add_flushed_sst(filled(&[("a", "1")])).unwrap();
    inner.add_flushed_sst(filled(&[("b", "2")])).unwrap();
    let before: LsmStorageState = inner.state.snapshot();
    inner.force_full_compaction().unwrap();
    assert_eq!(before.l0_sstables, vec![1, 0]);
    assert_eq!(before.levels, vec![(1, vec![])]);
    assert_eq!(contents(&before.sstables[&0]), owned(&[("a", "1")]));
    assert_eq!(contents(&before.sstables[&1]), owned(&[("b", "2")]));
    assert!(inner.state.l0_sstables.is_empty());
    assert_eq!(contents(&inner.state.sstables[&2]), owned(&[("a", "1"), ("b", "2")]));
}
