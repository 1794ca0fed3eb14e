use mini_lsm::error::{Error, FormatError};
use mini_lsm::table::BlockMeta;

fn meta(offset: usize, first: &[u8], last: &[u8]) -> BlockMeta {
    BlockMeta { offset, first_key: first.to_vec(), last_key: last.to_vec() }
}

#[test]
fn encode_block_metas_writes_big_endian_records() {
    let metas = vec![meta(0x0102_0304, b"ab", b"xyz")];
    let mut buf = vec![0xEE];
    BlockMeta::encode_block_metas(&metas, &mut buf);
    assert_eq!(
        buf,
        vec![0xEE, 1, 2, 3, 4, 0, 2, b'a', b'b', 0, 3, b'x', b'y', b'z']
    );
}

#[test]
fn encode_block_metas_of_nothing_appends_nothing() {
    let mut buf = vec![1, 2, 3];
    BlockMeta::encode_block_metas(&[], &mut buf);
    assert_eq!(buf, vec![1, 2, 3]);
}

#[test]
fn decode_block_metas_round_trips() {
    let metas = vec![meta(0, b"a", b"c"), meta(40, b"e", b"g"), meta(90, b"", b"zz")];
    let mut buf = Vec::new();
    BlockMeta::encode_block_metas(&metas, &mut buf);
    assert_eq!(BlockMeta::decode_block_metas(&buf), Ok(metas));
}

#[test]
fn decode_block_metas_reads_largest_offset_and_long_keys() {
    let long = vec![7u8; 0xFFFF];
    let metas = vec![meta(0xFFFF_FFFF, &long, &long)];
    let mut buf = Vec::new();
    BlockMeta::encode_block_metas(&metas, &mut buf);
    assert_eq!(buf.len(), 8 + 2 * 0xFFFF);
    assert_eq!(&buf[..6], &[0xFF, 0xFF, 0xFF, 0xFF, 0xFF, 0xFF]);
    assert_eq!(BlockMeta::decode_block_metas(&buf), Ok(metas));
}

#[test]
fn decode_block_metas_of_empty_region_is_empty() {
    assert_eq!(BlockMeta::decode_block_metas(&[]), Ok(vec![]));
}

#[test]
fn decode_block_metas_rejects_a_cut_record() {
    let metas = vec![meta(5, b"key", b"kez")];
    let mut buf = Vec::new();
    BlockMeta::encode_block_metas(&metas, &mut buf);
    for cut in 1..buf.len() {
        assert_eq!(
            BlockMeta::decode_block_metas(&buf[..cut]),
            Err(Error::Format(FormatError::Truncated)),
            "cut at {}",
            cut
        );
    }
}

#[test]
fn decode_block_metas_reads_offset_big_endian() {
    let bytes = [0x00, 0x00, 0x01, 0x02, 0, 1, b'k', 0, 1, b'l'];
    assert_eq!(
        BlockMeta::decode_block_metas(&bytes),
        Ok(vec![meta(0x0102, b"k", b"l")])
    );
}
