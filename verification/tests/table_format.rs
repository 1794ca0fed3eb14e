use std::sync::Arc;

use mini_lsm::block::Block;
use mini_lsm::error::{Error, FormatError};
use mini_lsm::iterators::StorageIterator;
use mini_lsm::table::{BlockMeta, FileObject, SsTable, SsTableBuilder, SsTableIterator};

fn pairs(n: usize) -> Vec<(Vec<u8>, Vec<u8>)> {
    (0..n)
        .map(|i| {
            (
                format!("key_{:05}", i).into_bytes(),
                format!("value_{:05}", i).into_bytes(),
            )
        })
        .collect()
}

fn build(id: usize, block_size: usize, entries: &[(Vec<u8>, Vec<u8>)]) -> SsTable {
    let mut builder = SsTableBuilder::new(block_size);
    for (k, v) in entries {
        builder.add(k, v);
    }
    builder.build(id)
}

fn read_all(table: SsTable) -> Vec<(Vec<u8>, Vec<u8>)> {
    let mut it = SsTableIterator::create_and_seek_to_first(Arc::new(table)).unwrap();
    let mut out = Vec::new();
    while it.is_valid() {
        out.push((it.key().to_vec(), it.value().to_vec()));
        it.next().unwrap();
    }
    out
}

#[test]
fn block_encode_layout() {
    let block = Block { entries: vec![(b"k1".to_vec(), b"v".to_vec()), (b"k2".to_vec(), vec![])] };
    assert_eq!(
        block.encode(),
        vec![0, 2, b'k', b'1', 0, 1, b'v', 0, 2, b'k', b'2', 0, 0]
    );
}

#[test]
fn block_decode_round_trips() {
    let block = Block { entries: pairs(20) };
    let bytes = block.encode();
    assert_eq!(Block::decode(&bytes), Ok(block));
}

#[test]
fn block_decode_rejects_empty_and_cut_blocks() {
    assert_eq!(Block::decode(&[]), Err(Error::Format(FormatError::Truncated)));
    let bytes = Block { entries: pairs(2) }.encode();
    for cut in 1..bytes.len() {
        let whole_records = cut == bytes.len() / 2;
        let r = Block::decode(&bytes[..cut]);
        if whole_records {
            assert_eq!(r, Ok(Block { entries: pairs(1) }));
        } else {
            assert_eq!(r, Err(Error::Format(FormatError::Truncated)), "cut at {}", cut);
        }
    }
}

#[test]
fn file_object_read_and_size() {
    let file = FileObject::create(vec![10, 11, 12, 13, 14]);
    assert_eq!(file.size(), 5);
    assert!(file.has_contents());
    assert_eq!(file.contents(), Some(&vec![10, 11, 12, 13, 14]));
    assert_eq!(file.read(1, 3), Ok(vec![11, 12, 13]));
    assert_eq!(file.read(0, 5), Ok(vec![10, 11, 12, 13, 14]));
    assert_eq!(file.read(5, 0), Ok(vec![]));
    assert_eq!(file.read(3, 3), Err(Error::Io));
    assert_eq!(file.read(6, 0), Err(Error::Io));
    assert_eq!(file.read(u64::MAX, 2), Err(Error::Io));
}

#[test]
fn builder_writes_the_documented_layout() {
    let table = build(3, 4096, &[(b"a".to_vec(), b"1".to_vec()), (b"b".to_vec(), b"22".to_vec())]);
    let bytes = table.file().contents().unwrap().clone();
    let data = vec![0, 1, b'a', 0, 1, b'1', 0, 1, b'b', 0, 2, b'2', b'2'];
    let mut expected = data.clone();
    expected.extend_from_slice(&[0, 0, 0, 0, 0, 1, b'a', 0, 1, b'b']);
    expected.extend_from_slice(&[0, 0, 0, data.len() as u8]);
    assert_eq!(bytes, expected);
    assert_eq!(table.table_size(), expected.len() as u64);
    assert_eq!(table.sst_id(), 3);
    assert_eq!(table.max_ts(), 0);
    assert_eq!(table.num_of_blocks(), 1);
    assert_eq!(table.first_key(), &b"a".to_vec());
    assert_eq!(table.last_key(), &b"b".to_vec());
}

#[test]
fn estimated_size_is_file_size_without_trailer() {
    let mut builder = SsTableBuilder::new(64);
    assert!(builder.is_empty());
    assert_eq!(builder.estimated_size(), 0);
    for (k, v) in pairs(50) {
        builder.add(&k, &v);
    }
    assert!(!builder.is_empty());
    let estimate = builder.estimated_size();
    let table = builder.build(1);
    assert_eq!(table.table_size(), estimate as u64 + 4);
}

#[test]
fn builder_starts_a_new_block_when_the_block_size_would_be_exceeded() {
    // Each record takes 4 + 9 + 11 = 24 bytes.
    let entries = pairs(10);
    assert_eq!(build(1, 48, &entries).num_of_blocks(), 5);
    assert_eq!(build(1, 47, &entries).num_of_blocks(), 10);
    assert_eq!(build(1, 1, &entries).num_of_blocks(), 10);
    assert_eq!(build(1, 240, &entries).num_of_blocks(), 1);
    assert_eq!(build(1, 239, &entries).num_of_blocks(), 2);
}

#[test]
fn written_pairs_are_read_back() {
    for block_size in [1usize, 30, 100, 4096] {
        for n in [1usize, 2, 7, 100] {
            let entries = pairs(n);
            assert_eq!(read_all(build(9, block_size, &entries)), entries);
        }
    }
}

#[test]
fn open_reads_metas_and_keys() {
    let entries = pairs(30);
    let built = build(1, 100, &entries);
    let bytes = built.file().contents().unwrap().clone();
    let opened = SsTable::open(77, FileObject::create(bytes)).unwrap();
    assert_eq!(opened.sst_id(), 77);
    assert_eq!(opened.num_of_blocks(), built.num_of_blocks());
    assert_eq!(opened.first_key(), &entries[0].0);
    assert_eq!(opened.last_key(), &entries[29].0);
    assert_eq!(opened.table_size(), built.table_size());
    assert_eq!(read_all(opened), entries);
}

#[test]
fn open_reports_each_format_error() {
    assert!(matches!(
        SsTable::open(1, FileObject::create(vec![0, 0, 0])),
        Err(Error::Format(FormatError::Truncated))
    ));
    assert!(matches!(
        SsTable::open(1, FileObject::create(vec![])),
        Err(Error::Format(FormatError::Truncated))
    ));
    // The trailer claims that the metas start behind the trailer itself.
    assert!(matches!(
        SsTable::open(1, FileObject::create(vec![9, 9, 0, 0, 0, 3])),
        Err(Error::Format(FormatError::MetaOffsetOutOfRange))
    ));
    // A meta region of zero bytes describes no block.
    assert!(matches!(
        SsTable::open(1, FileObject::create(vec![9, 9, 0, 0, 0, 2])),
        Err(Error::Format(FormatError::NoBlocks))
    ));
    assert!(matches!(
        SsTable::open(1, FileObject::create(vec![0, 0, 0, 0])),
        Err(Error::Format(FormatError::NoBlocks))
    ));
    // A meta region that ends inside a record.
    assert!(matches!(
        SsTable::open(1, FileObject::create(vec![0, 0, 0, 0, 0, 1, 0, 0, 0, 0])),
        Err(Error::Format(FormatError::Truncated))
    ));
}

#[test]
fn open_without_contents_is_an_io_error() {
    let mock = SsTable::create_meta_only(1, 100, b"a".to_vec(), b"b".to_vec());
    assert_eq!(mock.table_size(), 100);
    assert_eq!(mock.num_of_blocks(), 0);
    assert!(!mock.file().has_contents());
    assert!(matches!(
        SsTableIterator::create_and_seek_to_first(Arc::new(mock)),
        Err(Error::Io)
    ));
}

#[test]
fn read_block_reads_each_block() {
    let entries = pairs(6);
    let table = build(1, 48, &entries);
    assert_eq!(table.num_of_blocks(), 3);
    for i in 0..3 {
        let block = table.read_block(i).unwrap();
        assert_eq!(block.entries, entries[2 * i..2 * i + 2].to_vec());
        let again = table.read_block_cached(i, None).unwrap();
        assert_eq!(again.entries, block.entries);
    }
    let hit = Arc::new(Block { entries: pairs(1) });
    let got = table.read_block_cached(2, Some(hit.clone())).unwrap();
    assert!(Arc::ptr_eq(&got, &hit));
}

#[test]
fn read_block_reports_bad_bounds_and_bad_blocks() {
    // One block of a single record, then metas, then the trailer.
    let good = build(1, 4096, &[(b"k".to_vec(), b"v".to_vec())]);
    let bytes = good.file().contents().unwrap().clone();
    let data_len = 6usize;
    // A meta whose offset lies behind the end of the data region.
    let mut metas = Vec::new();
    BlockMeta::encode_block_metas(
        &[BlockMeta { offset: data_len + 1, first_key: b"k".to_vec(), last_key: b"k".to_vec() }],
        &mut metas,
    );
    let mut file = bytes[..data_len].to_vec();
    file.extend_from_slice(&metas);
    file.extend_from_slice(&(data_len as u32).to_be_bytes());
    let table = SsTable::open(1, FileObject::create(file)).unwrap();
    assert!(matches!(table.read_block(0), Err(Error::Io)));
    // A block that ends inside a record.
    let mut metas = Vec::new();
    BlockMeta::encode_block_metas(
        &[BlockMeta { offset: 1, first_key: b"k".to_vec(), last_key: b"k".to_vec() }],
        &mut metas,
    );
    let mut file = bytes[..data_len].to_vec();
    file.extend_from_slice(&metas);
    file.extend_from_slice(&(data_len as u32).to_be_bytes());
    let table = SsTable::open(1, FileObject::create(file)).unwrap();
    assert!(matches!(table.read_block(0), Err(Error::Format(FormatError::Truncated))));
}

#[test]
fn find_block_idx_picks_the_last_block_not_above_the_key() {
    let entries = pairs(6);
    let table = build(1, 48, &entries);
    // Blocks start with key_00000, key_00002 and key_00004.
    assert_eq!(table.find_block_idx(b"a"), 0);
    assert_eq!(table.find_block_idx(b"key_00000"), 0);
    assert_eq!(table.find_block_idx(b"key_00001"), 0);
    assert_eq!(table.find_block_idx(b"key_00002"), 1);
    assert_eq!(table.find_block_idx(b"key_00003x"), 1);
    assert_eq!(table.find_block_idx(b"key_00004"), 2);
    assert_eq!(table.find_block_idx(b"zzz"), 2);
    let mock = SsTable::create_meta_only(1, 100, b"a".to_vec(), b"b".to_vec());
    assert_eq!(mock.find_block_idx(b"a"), 0);
}
