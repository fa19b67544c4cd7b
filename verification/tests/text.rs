use xbpf::text::{chars_of, decimal, strip_and_trim, white_space};

#[test]
fn white_space_is_that_of_unicode() {
    for c in '\0'..=char::MAX {
        assert_eq!(white_space(c), c.is_whitespace(), "{:?}", c);
    }
}

#[test]
fn decimal_writes_digits() {
    assert_eq!(decimal(0), "0");
    assert_eq!(decimal(9), "9");
    assert_eq!(decimal(10), "10");
    assert_eq!(decimal(264), "264");
    assert_eq!(decimal(usize::MAX), format!("{}", usize::MAX));
    for n in 0..5000 {
        assert_eq!(decimal(n), n.to_string());
    }
}

#[test]
fn characters_come_in_order() {
    assert_eq!(chars_of("a\u{20ac}b"), vec!['a', '\u{20ac}', 'b']);
    assert_eq!(chars_of(""), Vec::<char>::new());
}

#[test]
fn prefixes_are_stripped_before_space() {
    assert_eq!(strip_and_trim("ababa x ", "ab"), "a x");
    assert_eq!(strip_and_trim(" ab", "ab"), "ab");
    assert_eq!(strip_and_trim(" \n\t ", "ab"), "");
    assert_eq!(strip_and_trim("ab", ""), "ab");
}
