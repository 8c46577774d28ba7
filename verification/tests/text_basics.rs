use dotsync::text::{chars_of, str_concat, is_whitespace, lines_of, pieces_of, str_eq, string_of, trim_bounds};

#[test]
fn whitespace_agrees_with_std_on_every_char() {
    for c in (0u32..=0x10FFFF).filter_map(char::from_u32) {
        assert_eq!(is_whitespace(c), c.is_whitespace(), "{:?}", c);
    }
}

#[test]
fn trimming_agrees_with_std() {
    for s in ["", "  ", " a ", "\u{3000}x\u{85}", "a b", "\r\n\tq\u{2029}"] {
        let cs = chars_of(s);
        let (a, b) = trim_bounds(&cs, 0, cs.len());
        assert_eq!(string_of(&cs, a, b), s.trim());
    }
}

#[test]
fn pieces_and_lines() {
    assert_eq!(pieces_of("a/b//c/", '/'), vec!["a", "b", "", "c", ""]);
    assert_eq!(pieces_of("", '/'), vec![""]);
    assert_eq!(lines_of("x\ny\n"), vec!["x", "y", ""]);
}

#[test]
fn strings() {
    assert_eq!(str_concat("ab", "cd"), "abcd");
    assert!(str_eq("é", "é"));
    assert!(!str_eq("a", "ab"));
}
