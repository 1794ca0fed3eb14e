use std::collections::HashMap;
use std::sync::Arc;

use mini_lsm::compact::executor::CompactionRecord;
use mini_lsm::compact::{
    CompactionController, CompactionOptions, CompactionTask, LeveledCompactionOptions,
    SimpleLeveledCompactionOptions, TieredCompactionOptions, TieredCompactionTask,
};
use mini_lsm::error::Error;
use mini_lsm::iterators::merge_iterator::MergeIterator;
use mini_lsm::iterators::StorageIterator;
use mini_lsm::lsm_storage::{LsmStorageInner, LsmStorageOptions, LsmStorageState};
use mini_lsm::table::{SsTable, SsTableBuilder, SsTableIterator};

type Pairs = Vec<(Vec<u8>, Vec<u8>)>;

fn pair(k: &str, v: &str) -> (Vec<u8>, Vec<u8>) {
    (k.as_bytes().to_vec(), v.as_bytes().to_vec())
}

fn table(id: usize, entries: &[(&str, &str)]) -> Arc<SsTable> {
    let mut builder = SsTableBuilder::new(64);
    for (k, v) in entries {
        builder.add(k.as_bytes(), v.as_bytes());
    }
    Arc::new(builder.build(id))
}

fn contents(table: &Arc<SsTable>) -> Pairs {
    let mut it = SsTableIterator::create_and_seek_to_first(table.clone()).unwrap();
    let mut out = Vec::new();
    while it.is_valid() {
        out.push((it.key().to_vec(), it.value().to_vec()));
        it.next().unwrap();
    }
    out
}

fn engine(
    options: CompactionOptions,
    target_sst_size: usize,
    l0: Vec<Arc<SsTable>>,
    levels: Vec<(usize, Vec<Arc<SsTable>>)>,
    next_sst_id: usize,
) -> LsmStorageInner {
    let mut sstables = HashMap::new();
    let mut l0_ids = Vec::new();
    for t in l0 {
        l0_ids.push(t.sst_id());
        sstables.insert(t.sst_id(), t);
    }
    let mut level_ids = Vec::new();
    for (n, tables) in levels {
        let mut ids = Vec::new();
        for t in tables {
            ids.push(t.sst_id());
            sstables.insert(t.sst_id(), t);
        }
        level_ids.push((n, ids));
    }
    LsmStorageInner {
        state: LsmStorageState { l0_sstables: l0_ids, levels: level_ids, sstables },
        options: LsmStorageOptions {
            block_size: 64,
            target_sst_size,
            num_memtable_limit: 3,
            compaction_options: options,
        },
        compaction_controller: CompactionController::new(options),
        next_sst_id,
    }
}

fn live_ids(inner: &LsmStorageInner) -> Vec<usize> {
    let mut ids: Vec<usize> = inner.state.sstables.keys().copied().collect();
    ids.sort();
    ids
}

#[test]
fn force_full_compaction_drops_tombstones_and_masks_older_values() {
    let a = table(2, &[("k1", "v1"), ("k2", "")]);
    let b = table(1, &[("k1", "v0"), ("k3", "v3")]);
    let mut inner =
        engine(CompactionOptions::NoCompaction, 1 << 20, vec![a, b], vec![(1, vec![])], 3);
    let rec: CompactionRecord = inner.force_full_compaction().unwrap();
    assert_eq!(rec.new_ssts.len(), 1);
    assert_eq!(contents(&rec.new_ssts[0]), vec![pair("k1", "v1"), pair("k3", "v3")]);
    assert_eq!(rec.output, vec![3]);
    assert_eq!(rec.removed, vec![2, 1]);
    assert_eq!(
        rec.task,
        CompactionTask::ForceFullCompaction { l0_sstables: vec![2, 1], l1_sstables: vec![] }
    );
    assert_eq!(inner.state.l0_sstables, Vec::<usize>::new());
    assert_eq!(inner.state.levels, vec![(1, vec![3])]);
    assert_eq!(live_ids(&inner), vec![3]);
    assert_eq!(inner.next_sst_id, 4);
    assert_eq!(rec.new_ssts[0].first_key(), &b"k1".to_vec());
    assert_eq!(rec.new_ssts[0].last_key(), &b"k3".to_vec());
}

#[test]
fn force_full_compaction_merges_level_one_below_level_zero() {
    let a = table(5, &[("b", "new"), ("d", "")]);
    let l1a = table(1, &[("a", "1"), ("b", "old")]);
    let l1b = table(2, &[("c", "3"), ("d", "4"), ("e", "5")]);
    let mut inner =
        engine(CompactionOptions::NoCompaction, 1 << 20, vec![a], vec![(1, vec![l1a, l1b])], 6);
    let rec = inner.force_full_compaction().unwrap();
    assert_eq!(rec.new_ssts.len(), 1);
    assert_eq!(
        contents(&rec.new_ssts[0]),
        vec![pair("a", "1"), pair("b", "new"), pair("c", "3"), pair("e", "5")]
    );
    assert_eq!(rec.removed, vec![5, 1, 2]);
    assert_eq!(inner.state.levels, vec![(1, vec![6])]);
    assert_eq!(live_ids(&inner), vec![6]);
}

#[test]
fn force_full_compaction_of_tombstones_only_leaves_no_table() {
    let a = table(1, &[("a", ""), ("b", "")]);
    let mut inner =
        engine(CompactionOptions::NoCompaction, 1 << 20, vec![a], vec![(1, vec![])], 2);
    let rec = inner.force_full_compaction().unwrap();
    assert!(rec.new_ssts.is_empty());
    assert_eq!(inner.state.levels, vec![(1, vec![])]);
    assert_eq!(live_ids(&inner), Vec::<usize>::new());
    assert_eq!(inner.next_sst_id, 2);
}

#[test]
fn pairs_below_the_target_size_give_one_table() {
    let a = table(1, &[("a", "1"), ("b", "2"), ("c", "3")]);
    let mut inner =
        engine(CompactionOptions::NoCompaction, 1 << 20, vec![a], vec![(1, vec![])], 2);
    let rec = inner.force_full_compaction().unwrap();
    assert_eq!(rec.new_ssts.len(), 1);
}

#[test]
fn tables_are_cut_at_the_target_size() {
    let entries: Vec<(String, String)> =
        (0..10).map(|i| (format!("key{}", i), format!("val{}", i))).collect();
    let refs: Vec<(&str, &str)> = entries.iter().map(|(k, v)| (k.as_str(), v.as_str())).collect();
    let a = table(1, &refs);
    // A table with one pair takes 12 bytes of data and 16 of metadata, so
    // with a target of 20 every pair fills a table.
    let mut inner = engine(CompactionOptions::NoCompaction, 20, vec![a], vec![(1, vec![])], 2);
    let rec = inner.force_full_compaction().unwrap();
    assert_eq!(rec.new_ssts.len(), 10);
    assert_eq!(rec.output, (2..12).collect::<Vec<usize>>());
    for (i, t) in rec.new_ssts.iter().enumerate() {
        assert_eq!(t.sst_id(), 2 + i);
        assert_eq!(contents(t), vec![pair(refs[i].0, refs[i].1)]);
    }
    assert_eq!(inner.next_sst_id, 12);
    // With a target of 29 a table is full after two pairs: 24 bytes of
    // data and, in one block, 16 of metadata.
    let a = table(1, &refs);
    let mut inner = engine(CompactionOptions::NoCompaction, 29, vec![a], vec![(1, vec![])], 2);
    let rec = inner.force_full_compaction().unwrap();
    assert_eq!(rec.new_ssts.len(), 5);
    let all: Pairs = rec.new_ssts.iter().flat_map(contents).collect();
    let expected: Pairs = refs.iter().map(|(k, v)| pair(k, v)).collect();
    assert_eq!(all, expected);
}

#[test]
fn compaction_fails_when_the_ids_are_used_up() {
    let a = table(1, &[("a", "1")]);
    let mut inner =
        engine(CompactionOptions::NoCompaction, 1 << 20, vec![a], vec![(1, vec![])], usize::MAX);
    assert!(matches!(inner.force_full_compaction(), Err(Error::InvariantViolation)));
    assert_eq!(inner.state.l0_sstables, vec![1]);
    assert_eq!(live_ids(&inner), vec![1]);
}

#[test]
fn simple_leveled_compacts_level_zero_into_level_one() {
    let options = CompactionOptions::Simple(SimpleLeveledCompactionOptions {
        size_ratio_percent: 200,
        level0_file_num_compaction_trigger: 2,
        max_levels: 2,
    });
    let newer = table(2, &[("a", "a2"), ("c", "")]);
    let older = table(1, &[("a", "a1"), ("b", "b1"), ("c", "c1")]);
    let mut inner =
        engine(options, 1 << 20, vec![newer, older], vec![(1, vec![]), (2, vec![])], 3);
    let rec = inner.trigger_compaction().unwrap().unwrap();
    assert_eq!(inner.state.l0_sstables.len(), 0);
    assert!(inner.state.levels[0].1.len() >= 1);
    assert_eq!(rec.removed, vec![2, 1]);
    assert!(!rec.task.compact_to_bottom_level());
    // Not the bottom level: the tombstone stays.
    assert_eq!(
        contents(&rec.new_ssts[0]),
        vec![pair("a", "a2"), pair("b", "b1"), pair("c", "")]
    );
    assert_eq!(live_ids(&inner), vec![3]);
    // L2 is empty, so L1 is due next, into the bottom level.
    let rec = inner.trigger_compaction().unwrap().unwrap();
    assert!(rec.task.compact_to_bottom_level());
    assert_eq!(contents(&rec.new_ssts[0]), vec![pair("a", "a2"), pair("b", "b1")]);
    assert_eq!(inner.state.levels, vec![(1, vec![]), (2, vec![4])]);
    assert_eq!(live_ids(&inner), vec![4]);
    assert!(inner.trigger_compaction().unwrap().is_none());
}

#[test]
fn no_compaction_never_compacts() {
    let a = table(1, &[("a", "1")]);
    let b = table(2, &[("a", "2")]);
    let mut inner =
        engine(CompactionOptions::NoCompaction, 1 << 20, vec![b, a], vec![(1, vec![])], 3);
    assert!(inner.trigger_compaction().unwrap().is_none());
    assert_eq!(inner.state.l0_sstables, vec![2, 1]);
}

#[test]
fn tiered_compaction_merges_the_tiers_newest_first() {
    // Two tables above the last tier, which holds two: 100 per hundred.
    let options = CompactionOptions::Tiered(TieredCompactionOptions {
        num_tiers: 2,
        max_size_amplification_percent: 100,
        size_ratio: 100,
        min_merge_width: 2,
    });
    let t3 = table(3, &[("a", "a3"), ("d", "")]);
    let t2 = table(2, &[("a", "a2"), ("b", "b2")]);
    let t1a = table(1, &[("b", "b1"), ("c", "c1")]);
    let t1b = table(0, &[("d", "d1"), ("e", "e1")]);
    let mut inner = engine(
        options,
        1 << 20,
        vec![],
        vec![(3, vec![t3]), (2, vec![t2]), (1, vec![t1a, t1b])],
        4,
    );
    let rec = inner.trigger_compaction().unwrap().unwrap();
    assert_eq!(
        rec.task,
        CompactionTask::Tiered(TieredCompactionTask {
            tiers: vec![(3, vec![3]), (2, vec![2]), (1, vec![1, 0])],
            bottom_tier_included: true,
        })
    );
    assert_eq!(
        contents(&rec.new_ssts[0]),
        vec![pair("a", "a3"), pair("b", "b2"), pair("c", "c1"), pair("e", "e1")]
    );
    assert_eq!(rec.removed, vec![3, 2, 1, 0]);
    assert_eq!(inner.state.levels, vec![(4, vec![4])]);
    assert_eq!(live_ids(&inner), vec![4]);
}

#[test]
fn tiered_compaction_of_the_oldest_tiers_keeps_the_newer_ones() {
    let options = CompactionOptions::Tiered(TieredCompactionOptions {
        num_tiers: 2,
        max_size_amplification_percent: 200,
        size_ratio: 100,
        min_merge_width: 2,
    });
    let t3 = table(3, &[("a", "a3"), ("d", "")]);
    let t2 = table(2, &[("a", "a2"), ("b", "b2")]);
    let t1a = table(1, &[("b", "b1"), ("c", "c1")]);
    let t1b = table(0, &[("d", "d1"), ("e", "e1")]);
    let mut inner = engine(
        options,
        1 << 20,
        vec![],
        vec![(3, vec![t3]), (2, vec![t2]), (1, vec![t1a, t1b])],
        4,
    );
    let rec = inner.trigger_compaction().unwrap().unwrap();
    assert_eq!(
        rec.task,
        CompactionTask::Tiered(TieredCompactionTask {
            tiers: vec![(2, vec![2]), (1, vec![1, 0])],
            bottom_tier_included: true,
        })
    );
    assert_eq!(
        contents(&rec.new_ssts[0]),
        vec![pair("a", "a2"), pair("b", "b2"), pair("c", "c1"), pair("d", "d1"), pair("e", "e1")]
    );
    assert_eq!(inner.state.levels, vec![(3, vec![3]), (4, vec![4])]);
    assert_eq!(live_ids(&inner), vec![3, 4]);
}

#[test]
fn leveled_compaction_rewrites_the_overlapping_tables_in_place() {
    let options = CompactionOptions::Leveled(LeveledCompactionOptions {
        level_size_multiplier: 10,
        level0_file_num_compaction_trigger: 1,
        max_levels: 1,
        base_level_size_mb: 1,
    });
    let l0 = table(10, &[("b", "B"), ("f", "")]);
    let l1a = table(1, &[("a", "1"), ("c", "2")]);
    let l1b = table(2, &[("e", "3"), ("f", "4"), ("g", "5")]);
    let l1c = table(3, &[("m", "6"), ("o", "7")]);
    let mut inner = engine(options, 1 << 20, vec![l0], vec![(1, vec![l1a, l1b, l1c])], 11);
    let rec = inner.trigger_compaction().unwrap().unwrap();
    assert_eq!(rec.removed, vec![10, 1, 2]);
    assert_eq!(
        contents(&rec.new_ssts[0]),
        vec![pair("a", "1"), pair("b", "B"), pair("c", "2"), pair("e", "3"), pair("g", "5")]
    );
    assert_eq!(inner.state.l0_sstables, Vec::<usize>::new());
    assert_eq!(inner.state.levels, vec![(1, vec![11, 3])]);
    assert_eq!(live_ids(&inner), vec![3, 11]);
}

#[test]
fn compact_leaves_the_placement_alone() {
    let a = table(2, &[("a", "2")]);
    let b = table(1, &[("a", "1"), ("b", "1")]);
    let mut inner =
        engine(CompactionOptions::NoCompaction, 1 << 20, vec![a, b], vec![(1, vec![])], 3);
    let task = CompactionTask::ForceFullCompaction { l0_sstables: vec![2, 1], l1_sstables: vec![] };
    let new_ssts = inner.compact(&task).unwrap();
    assert_eq!(contents(&new_ssts[0]), vec![pair("a", "2"), pair("b", "1")]);
    assert_eq!(inner.state.l0_sstables, vec![2, 1]);
    assert_eq!(live_ids(&inner), vec![1, 2]);
    assert_eq!(inner.next_sst_id, 4);
    let (output, removed) = inner.commit(&task, &new_ssts);
    assert_eq!(output, vec![3]);
    assert_eq!(removed, vec![2, 1]);
    assert_eq!(inner.state.levels, vec![(1, vec![3])]);
    assert_eq!(live_ids(&inner), vec![3]);
}

#[test]
fn compact_generate_sst_from_iter_keeps_tombstones_above_the_bottom() {
    let a = table(1, &[("a", ""), ("b", "1")]);
    let mut inner =
        engine(CompactionOptions::NoCompaction, 1 << 20, vec![], vec![(1, vec![])], 7);
    let it = MergeIterator::create(vec![SsTableIterator::create_and_seek_to_first(a.clone())
        .unwrap()]);
    let out = inner.compact_generate_sst_from_iter(it, false).unwrap();
    assert_eq!(out.len(), 1);
    assert_eq!(out[0].sst_id(), 7);
    assert_eq!(contents(&out[0]), vec![pair("a", ""), pair("b", "1")]);
    let it = MergeIterator::create(vec![SsTableIterator::create_and_seek_to_first(a).unwrap()]);
    let out = inner.compact_generate_sst_from_iter(it, true).unwrap();
    assert_eq!(contents(&out[0]), vec![pair("b", "1")]);
    assert_eq!(out[0].sst_id(), 8);
    let it = MergeIterator::<SsTableIterator>::create(vec![]);
    assert!(inner.compact_generate_sst_from_iter(it, true).unwrap().is_empty());
}

#[test]
fn trigger_flush_at_the_memtable_limit() {
    let inner = engine(CompactionOptions::NoCompaction, 1 << 20, vec![], vec![(1, vec![])], 1);
    assert!(!inner.trigger_flush(0));
    assert!(!inner.trigger_flush(2));
    assert!(inner.trigger_flush(3));
    assert!(inner.trigger_flush(4));
}
