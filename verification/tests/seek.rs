use std::sync::Arc;

use mini_lsm::iterators::concat_iterator::SstConcatIterator;
use mini_lsm::iterators::StorageIterator;
use mini_lsm::table::{SsTable, SsTableBuilder, SsTableIterator};

fn table(id: usize, keys: &[&str]) -> Arc<SsTable> {
    // Each record takes 4 + 2 + 2 bytes, so a block holds two pairs.
    let mut builder = SsTableBuilder::new(16);
    for k in keys {
        builder.add(k.as_bytes(), k.to_uppercase().as_bytes());
    }
    Arc::new(builder.build(id))
}

fn keys_of<I: StorageIterator>(mut it: I) -> Vec<String> {
    let mut out = Vec::new();
    while it.is_valid() {
        assert_eq!(it.value(), String::from_utf8(it.key().to_vec()).unwrap().to_uppercase().as_bytes());
        out.push(String::from_utf8(it.key().to_vec()).unwrap());
        it.next().unwrap();
    }
    out
}

fn seek(t: &Arc<SsTable>, key: &str) -> Vec<String> {
    keys_of(SsTableIterator::create_and_seek_to_key(t.clone(), key.as_bytes()).unwrap())
}

#[test]
fn table_cursor_seeks_to_the_first_key_not_below() {
    let t = table(1, &["bb", "dd", "ff", "hh", "jj"]);
    assert_eq!(t.num_of_blocks(), 3);
    assert_eq!(seek(&t, "aa"), vec!["bb", "dd", "ff", "hh", "jj"]);
    assert_eq!(seek(&t, "bb"), vec!["bb", "dd", "ff", "hh", "jj"]);
    assert_eq!(seek(&t, "cc"), vec!["dd", "ff", "hh", "jj"]);
    assert_eq!(seek(&t, "dd"), vec!["dd", "ff", "hh", "jj"]);
    // Past the end of the first block: the cursor starts with the next.
    assert_eq!(seek(&t, "ee"), vec!["ff", "hh", "jj"]);
    assert_eq!(seek(&t, "ff"), vec!["ff", "hh", "jj"]);
    assert_eq!(seek(&t, "ii"), vec!["jj"]);
    assert_eq!(seek(&t, "jj"), vec!["jj"]);
    assert_eq!(seek(&t, "kk"), Vec::<String>::new());
    assert_eq!(seek(&t, ""), vec!["bb", "dd", "ff", "hh", "jj"]);
}

fn seek_run(tables: &[Arc<SsTable>], key: &str) -> Vec<String> {
    keys_of(SstConcatIterator::create_and_seek_to_key(tables.to_vec(), key.as_bytes()).unwrap())
}

#[test]
fn concat_cursor_seeks_across_tables() {
    let tables = vec![
        table(1, &["bb", "dd", "ff"]),
        table(2, &["hh"]),
        table(3, &["mm", "oo", "qq"]),
    ];
    assert_eq!(seek_run(&tables, "aa"), vec!["bb", "dd", "ff", "hh", "mm", "oo", "qq"]);
    assert_eq!(seek_run(&tables, "dd"), vec!["dd", "ff", "hh", "mm", "oo", "qq"]);
    // Between two tables: the cursor starts with the later one.
    assert_eq!(seek_run(&tables, "gg"), vec!["hh", "mm", "oo", "qq"]);
    assert_eq!(seek_run(&tables, "hh"), vec!["hh", "mm", "oo", "qq"]);
    assert_eq!(seek_run(&tables, "ii"), vec!["mm", "oo", "qq"]);
    assert_eq!(seek_run(&tables, "pp"), vec!["qq"]);
    assert_eq!(seek_run(&tables, "zz"), Vec::<String>::new());
    assert_eq!(seek_run(&[], "aa"), Vec::<String>::new());
}
