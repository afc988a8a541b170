use rsstable::sst::key_order::{compare_keys, compare_strs, KeyOrder};

#[test]
fn keys_are_ordered_byte_by_byte() {
    assert_eq!(compare_keys(b"a", b"b"), KeyOrder::Before);
    assert_eq!(compare_keys(b"b", b"a"), KeyOrder::After);
    assert_eq!(compare_keys(b"abc", b"abc"), KeyOrder::Same);
    assert_eq!(compare_keys(b"abc", b"abd"), KeyOrder::Before);
    assert_eq!(compare_keys(b"abd", b"abc"), KeyOrder::After);
    assert_eq!(compare_keys(&[0x7f], &[0x80]), KeyOrder::Before);
    assert_eq!(compare_keys(&[0xff], &[0x00, 0xff]), KeyOrder::After);
}

#[test]
fn a_prefix_comes_before_the_longer_key() {
    assert_eq!(compare_keys(b"", b""), KeyOrder::Same);
    assert_eq!(compare_keys(b"", b"a"), KeyOrder::Before);
    assert_eq!(compare_keys(b"a", b""), KeyOrder::After);
    assert_eq!(compare_keys(b"key-1", b"key-10"), KeyOrder::Before);
    assert_eq!(compare_keys(b"key-10", b"key-1"), KeyOrder::After);
}

#[test]
fn numbers_in_keys_are_text() {
    assert_eq!(compare_strs("key-10", "key-2"), KeyOrder::Before);
    assert_eq!(compare_strs("key-2", "key-10"), KeyOrder::After);
    assert_eq!(compare_strs("key-2", "key-2"), KeyOrder::Same);
}

#[test]
fn text_is_ordered_by_its_utf8_bytes() {
    assert_eq!(compare_strs("z", "\u{e9}"), KeyOrder::Before);
    assert_eq!(compare_strs("\u{e9}", "\u{3042}"), KeyOrder::Before);
    assert_eq!(compare_strs("\u{3042}", "\u{3042}"), KeyOrder::Same);
    assert_eq!(compare_strs("Z", "a"), KeyOrder::Before);
}

#[test]
fn the_order_agrees_with_the_order_of_strings() {
    let keys = ["", "a", "ab", "b", "key-1", "key-10", "key-2", "\u{e9}", "~"];
    for a in keys {
        for b in keys {
            let expected = if a < b {
                KeyOrder::Before
            } else if a == b {
                KeyOrder::Same
            } else {
                KeyOrder::After
            };
            assert_eq!(compare_strs(a, b), expected);
        }
    }
}
