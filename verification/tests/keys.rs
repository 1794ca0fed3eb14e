use mini_lsm::key::{compare_keys, key_equal, key_less, key_less_eq, KeyOrder};

#[test]
fn compare_keys_is_lexicographic() {
    assert_eq!(compare_keys(b"", b""), KeyOrder::Equal);
    assert_eq!(compare_keys(b"", b"a"), KeyOrder::Less);
    assert_eq!(compare_keys(b"a", b""), KeyOrder::Greater);
    assert_eq!(compare_keys(b"a", b"b"), KeyOrder::Less);
    assert_eq!(compare_keys(b"ab", b"a"), KeyOrder::Greater);
    assert_eq!(compare_keys(b"ab", b"b"), KeyOrder::Less);
    assert_eq!(compare_keys(b"abc", b"abc"), KeyOrder::Equal);
    assert_eq!(compare_keys(&[0xFF], &[0x00, 0x01]), KeyOrder::Greater);
}

#[test]
fn compare_keys_agrees_with_slice_order() {
    let keys: Vec<&[u8]> = vec![b"", b"a", b"aa", b"ab", b"b", b"ba", &[0, 255], &[255], &[255, 0]];
    for a in &keys {
        for b in &keys {
            let expected = if a < b {
                KeyOrder::Less
            } else if a == b {
                KeyOrder::Equal
            } else {
                KeyOrder::Greater
            };
            assert_eq!(compare_keys(a, b), expected);
            assert_eq!(key_less(a, b), a < b);
            assert_eq!(key_less_eq(a, b), a <= b);
            assert_eq!(key_equal(a, b), a == b);
        }
    }
}
