use std::collections::{BTreeMap, BTreeSet};

use mini_lsm::compact::{
    CompactionOptions, LeveledCompactionOptions, SimpleLeveledCompactionOptions,
    TieredCompactionOptions,
};
use mini_lsm::iterators::StorageIterator;
use mini_lsm::lsm_storage::{LsmStorageInner, LsmStorageOptions, LsmStorageState};
use mini_lsm::table::{SsTableBuilder, SsTableIterator};

fn engine(compaction_options: CompactionOptions, target_sst_size: usize) -> LsmStorageInner {
    LsmStorageInner::new(LsmStorageOptions {
        block_size: 32,
        target_sst_size,
        num_memtable_limit: 2,
        compaction_options,
    })
}

fn pairs_of(state: &LsmStorageState, id: usize) -> Vec<(Vec<u8>, Vec<u8>)> {
    let mut it = SsTableIterator::create_and_seek_to_first(state.sstables[&id].clone()).unwrap();
    let mut out = Vec::new();
    while it.is_valid() {
        out.push((it.key().to_vec(), it.value().to_vec()));
        it.next().unwrap();
    }
    out
}

/// What a reader gets for every key: level zero newest first, then level
/// by level; a tombstone hides the key.
fn visible(state: &LsmStorageState) -> BTreeMap<Vec<u8>, Vec<u8>> {
    let mut found: BTreeMap<Vec<u8>, Vec<u8>> = BTreeMap::new();
    let order = state.l0_sstables.iter().chain(state.levels.iter().flat_map(|l| l.1.iter()));
    for id in order {
        for (k, v) in pairs_of(state, *id) {
            found.entry(k).or_insert(v);
        }
    }
    found.into_iter().filter(|(_, v)| !v.is_empty()).collect()
}

fn placed(state: &LsmStorageState) -> Vec<usize> {
    state.l0_sstables.iter().chain(state.levels.iter().flat_map(|l| l.1.iter())).copied().collect()
}

fn check_in_order(inner: &LsmStorageInner, retired: &BTreeSet<usize>) {
    let state = &inner.state;
    // Every table placed is open, each once, and no other table is open.
    let ids = placed(state);
    let distinct: BTreeSet<usize> = ids.iter().copied().collect();
    assert_eq!(distinct.len(), ids.len());
    let open: BTreeSet<usize> = state.sstables.keys().copied().collect();
    assert_eq!(distinct, open);
    // No id in use was retired before, and all lie below the next id.
    assert!(open.iter().all(|id| *id < inner.next_sst_id && !retired.contains(id)));
    // Every level is a run of tables in key order without overlap.
    for (_, level) in state.levels.iter() {
        let mut last: Option<Vec<u8>> = None;
        for id in level {
            let t = &state.sstables[id];
            assert!(t.first_key() <= t.last_key());
            if let Some(last) = &last {
                assert!(last < t.first_key());
            }
            last = Some(t.last_key().clone());
            let pairs = pairs_of(state, *id);
            assert!(pairs.windows(2).all(|w| w[0].0 < w[1].0));
        }
    }
}

fn flush(inner: &mut LsmStorageInner, round: usize, keys: &[usize]) {
    let mut builder = SsTableBuilder::new(32);
    for k in keys {
        let key = format!("key{:03}", k);
        // Every seventh write of a round is a delete.
        let value = if (k + round) % 7 == 0 { String::new() } else { format!("v{}-{}", round, k) };
        builder.add(key.as_bytes(), value.as_bytes());
    }
    inner.add_flushed_sst(builder).unwrap();
}

fn run(options: CompactionOptions, skip_free: bool) {
    let mut inner = engine(options, 96);
    let mut retired: BTreeSet<usize> = BTreeSet::new();
    for round in 0..12usize {
        let keys: Vec<usize> = (0..40).filter(|k| (k * 7 + round * 3) % 5 < 2).collect();
        flush(&mut inner, round, &keys);
        check_in_order(&inner, &retired);
        for _ in 0..8 {
            let before = visible(&inner.state);
            let next_before = inner.next_sst_id;
            let Some(rec) = inner.trigger_compaction().unwrap() else { break };
            check_in_order(&inner, &retired);
            // New ids are fresh, and what left the placement stays out.
            assert!(rec.output.iter().all(|id| *id >= next_before && !retired.contains(id)));
            for id in rec.removed.iter() {
                assert!(*id < next_before);
                assert!(!inner.state.sstables.contains_key(id));
                assert!(retired.insert(*id));
            }
            if rec.task.compact_to_bottom_level() {
                for id in rec.output.iter() {
                    assert!(pairs_of(&inner.state, *id).iter().all(|(_, v)| !v.is_empty()));
                }
            }
            if skip_free {
                assert_eq!(visible(&inner.state), before);
            }
        }
    }
    assert!(!retired.is_empty());
}

#[test]
fn simple_leveled_history_keeps_the_engine_in_order() {
    run(
        CompactionOptions::Simple(SimpleLeveledCompactionOptions {
            size_ratio_percent: 200,
            level0_file_num_compaction_trigger: 2,
            max_levels: 3,
        }),
        true,
    );
}

#[test]
fn tiered_history_keeps_the_engine_in_order() {
    run(
        CompactionOptions::Tiered(TieredCompactionOptions {
            num_tiers: 3,
            max_size_amplification_percent: 200,
            size_ratio: 1,
            min_merge_width: 2,
        }),
        true,
    );
}

#[test]
fn leveled_history_keeps_the_engine_in_order() {
    // With one level below level zero no level can be skipped.
    run(
        CompactionOptions::Leveled(LeveledCompactionOptions {
            level_size_multiplier: 2,
            level0_file_num_compaction_trigger: 2,
            max_levels: 1,
            base_level_size_mb: 1,
        }),
        true,
    );
    // With more levels the placement stays in order all the same.
    run(
        CompactionOptions::Leveled(LeveledCompactionOptions {
            level_size_multiplier: 2,
            level0_file_num_compaction_trigger: 2,
            max_levels: 3,
            base_level_size_mb: 0,
        }),
        false,
    );
}

#[test]
fn full_compaction_keeps_what_readers_see() {
    let mut inner = engine(CompactionOptions::NoCompaction, 64);
    for round in 0..5usize {
        let keys: Vec<usize> = (0..30).filter(|k| (k + round) % 3 != 0).collect();
        flush(&mut inner, round, &keys);
        let before = visible(&inner.state);
        let rec = inner.force_full_compaction().unwrap();
        assert_eq!(visible(&inner.state), before);
        assert!(inner.state.l0_sstables.is_empty());
        assert_eq!(inner.state.levels[0].1, rec.output);
        check_in_order(&inner, &BTreeSet::new());
    }
}
