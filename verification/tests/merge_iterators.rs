use std::sync::Arc;

use mini_lsm::iterators::concat_iterator::SstConcatIterator;
use mini_lsm::iterators::merge_iterator::MergeIterator;
use mini_lsm::iterators::two_merge_iterator::TwoMergeIterator;
use mini_lsm::iterators::StorageIterator;
use mini_lsm::table::{SsTable, SsTableBuilder, SsTableIterator};

type Pairs = Vec<(Vec<u8>, Vec<u8>)>;

fn pair(k: &str, v: &str) -> (Vec<u8>, Vec<u8>) {
    (k.as_bytes().to_vec(), v.as_bytes().to_vec())
}

fn table(id: usize, entries: &[(&str, &str)]) -> Arc<SsTable> {
    let mut builder = SsTableBuilder::new(16);
    for (k, v) in entries {
        builder.add(k.as_bytes(), v.as_bytes());
    }
    Arc::new(builder.build(id))
}

fn cursor(id: usize, entries: &[(&str, &str)]) -> SsTableIterator {
    SsTableIterator::create_and_seek_to_first(table(id, entries)).unwrap()
}

fn drain<I: StorageIterator>(mut it: I) -> Pairs {
    let mut out = Vec::new();
    while it.is_valid() {
        out.push((it.key().to_vec(), it.value().to_vec()));
        it.next().unwrap();
    }
    out
}

#[test]
fn merge_over_no_inputs_is_invalid_at_once() {
    let it = MergeIterator::<SsTableIterator>::create(vec![]);
    assert!(!it.is_valid());
}

#[test]
fn merge_of_identical_key_sequences_keeps_the_lower_index() {
    let a = cursor(1, &[("a", "a1"), ("b", "b1"), ("c", "c1")]);
    let b = cursor(2, &[("a", "a2"), ("b", "b2"), ("c", "c2")]);
    let merged = drain(MergeIterator::create(vec![a, b]));
    assert_eq!(merged, vec![pair("a", "a1"), pair("b", "b1"), pair("c", "c1")]);
    let a = cursor(1, &[("a", "a1"), ("b", "b1"), ("c", "c1")]);
    let b = cursor(2, &[("a", "a2"), ("b", "b2"), ("c", "c2")]);
    let merged = drain(MergeIterator::create(vec![b, a]));
    assert_eq!(merged, vec![pair("a", "a2"), pair("b", "b2"), pair("c", "c2")]);
}

#[test]
fn merge_interleaves_and_masks() {
    let a = cursor(1, &[("b", "b1"), ("d", ""), ("f", "f1")]);
    let b = cursor(2, &[("a", "a2"), ("b", "b2"), ("e", "e2")]);
    let c = cursor(3, &[("b", "b3"), ("d", "d3"), ("g", "g3")]);
    let merged = drain(MergeIterator::create(vec![a, b, c]));
    assert_eq!(
        merged,
        vec![
            pair("a", "a2"),
            pair("b", "b1"),
            pair("d", ""),
            pair("e", "e2"),
            pair("f", "f1"),
            pair("g", "g3"),
        ]
    );
}

#[test]
fn merge_of_one_input_is_that_input() {
    let entries = [("a", "1"), ("b", "2"), ("c", "3"), ("d", "4")];
    let merged = drain(MergeIterator::create(vec![cursor(1, &entries)]));
    let expected: Pairs = entries.iter().map(|(k, v)| pair(k, v)).collect();
    assert_eq!(merged, expected);
}

#[test]
fn two_merge_prefers_the_first_on_equal_keys() {
    let a = cursor(1, &[("a", "a1"), ("c", "c1")]);
    let b = cursor(2, &[("a", "a2"), ("b", "b2"), ("c", "c2"), ("d", "d2")]);
    let merged = drain(TwoMergeIterator::create(a, b));
    assert_eq!(
        merged,
        vec![pair("a", "a1"), pair("b", "b2"), pair("c", "c1"), pair("d", "d2")]
    );
}

#[test]
fn two_merge_with_an_exhausted_side() {
    let a = MergeIterator::<SsTableIterator>::create(vec![]);
    let b = cursor(2, &[("a", "a2"), ("b", "b2")]);
    assert_eq!(drain(TwoMergeIterator::create(a, b)), vec![pair("a", "a2"), pair("b", "b2")]);
    let a = cursor(2, &[("a", "a2"), ("b", "b2")]);
    let b = MergeIterator::<SsTableIterator>::create(vec![]);
    assert_eq!(drain(TwoMergeIterator::create(a, b)), vec![pair("a", "a2"), pair("b", "b2")]);
    let a = MergeIterator::<SsTableIterator>::create(vec![]);
    let b = MergeIterator::<SsTableIterator>::create(vec![]);
    assert!(!TwoMergeIterator::create(a, b).is_valid());
}

#[test]
fn concat_runs_through_the_tables_in_order() {
    let tables = vec![
        table(1, &[("a", "1"), ("b", "2"), ("c", "3")]),
        table(2, &[("e", "4")]),
        table(3, &[("m", "5"), ("n", "6")]),
    ];
    let it = SstConcatIterator::create_and_seek_to_first(tables).unwrap();
    assert_eq!(
        drain(it),
        vec![
            pair("a", "1"),
            pair("b", "2"),
            pair("c", "3"),
            pair("e", "4"),
            pair("m", "5"),
            pair("n", "6"),
        ]
    );
}

#[test]
fn concat_over_no_tables_is_invalid_at_once() {
    let it = SstConcatIterator::create_and_seek_to_first(vec![]).unwrap();
    assert!(!it.is_valid());
}

#[test]
fn table_cursor_crosses_blocks() {
    let entries: Vec<(String, String)> =
        (0..40).map(|i| (format!("k{:03}", i), format!("v{}", i))).collect();
    let refs: Vec<(&str, &str)> = entries.iter().map(|(k, v)| (k.as_str(), v.as_str())).collect();
    let t = table(1, &refs);
    assert!(t.num_of_blocks() > 1);
    let got = drain(SsTableIterator::create_and_seek_to_first(t).unwrap());
    let expected: Pairs = refs.iter().map(|(k, v)| pair(k, v)).collect();
    assert_eq!(got, expected);
}
