use dejavu::text::{
    characters, decimal, shared_length, starts_with, trim, trim_end_matches, white,
};

#[test]
fn white_space_is_that_of_the_standard_library() {
    let mut seen = 0;
    for code in 0..=0x10FFFFu32 {
        if let Some(c) = char::from_u32(code) {
            assert_eq!(white(c), c.is_whitespace(), "U+{:04X}", code);
            if white(c) {
                seen += 1;
            }
        }
    }
    assert_eq!(seen, 25);
}

#[test]
fn trim_removes_white_space_at_both_ends() {
    for text in [
        "", " ", "\t\n", "a", " a", "a ", " a b ", "\u{3000}x\u{A0}", "\u{200B}y\u{200B}", "é\u{2028}",
        "  two  words  ",
    ] {
        assert_eq!(trim(text), text.trim());
        assert_eq!(trim(&trim(text)), trim(text));
    }
    assert_eq!(trim("\r\n refunds \u{85}"), "refunds");
}

#[test]
fn trailing_characters_are_removed() {
    for text in ["", "/", "///", "http://h/v1", "http://h/v1/", "http://h/v1///", "a/b"] {
        assert_eq!(trim_end_matches(text, '/'), text.trim_end_matches('/'));
    }
    assert_eq!(trim_end_matches("http://h/v1//", '/'), "http://h/v1");
}

#[test]
fn prefixes_are_compared_by_character() {
    assert!(starts_with("payments", "pay"));
    assert!(starts_with("payments", ""));
    assert!(starts_with("é", "é"));
    assert!(!starts_with("pay", "payments"));
    assert!(!starts_with("payments", "paz"));
    assert!(!starts_with("e\u{301}", "é"));
    assert_eq!(shared_length("payments", "payroll"), 3);
    assert_eq!(shared_length("straße", "straßen"), 6);
    assert_eq!(shared_length("a", "b"), 0);
    assert_eq!(shared_length("", "b"), 0);
    assert_eq!(characters("añb"), vec!['a', 'ñ', 'b']);
}

#[test]
fn numbers_are_written_in_decimal() {
    for n in [0usize, 1, 9, 10, 42, 99, 100, 12345, usize::MAX] {
        assert_eq!(decimal(n), n.to_string());
    }
}
