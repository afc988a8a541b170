use rsstable::sst::split::{find_byte, LF};

#[test]
fn the_first_separator_is_found() {
    assert_eq!(find_byte(b"ab\ncd\n", 0, LF), 2);
    assert_eq!(find_byte(b"ab\ncd\n", 2, LF), 2);
    assert_eq!(find_byte(b"ab\ncd\n", 3, LF), 5);
    assert_eq!(find_byte(b"a\tb", 0, 9), 1);
}

#[test]
fn without_a_separator_the_end_is_found() {
    assert_eq!(find_byte(b"abc", 0, LF), 3);
    assert_eq!(find_byte(b"abc", 3, LF), 3);
    assert_eq!(find_byte(b"", 0, LF), 0);
    assert_eq!(find_byte(b"ab\n", 3, LF), 3);
}
