use mc_server_manager::text::{
    cat, contains_str, decimal_str, find_char, is_whitespace, nonblank_lines, replace_char_str,
    split_lines, starts_with_char, substring, trim_str,
};

#[test]
fn whitespace_agrees_with_std_for_every_char() {
    for u in 0u32..=0x10FFFF {
        if let Some(c) = char::from_u32(u) {
            assert_eq!(is_whitespace(c), c.is_whitespace(), "U+{:04X}", u);
        }
    }
}

#[test]
fn trim_agrees_with_std() {
    for s in ["", "  ", " a ", "\t\na b\r\n", "\u{3000}x\u{85}", "abc", "\u{a0}"] {
        assert_eq!(trim_str(s), s.trim());
    }
}

#[test]
fn lines_agree_with_std() {
    for s in ["", "a", "a\n", "a\nb", "foo\r\nbar\n\nbaz\r", "\n\n", "x\r", "\r\n"] {
        let expected: Vec<String> = s.lines().map(String::from).collect();
        assert_eq!(split_lines(s), expected, "{:?}", s);
    }
}

#[test]
fn nonblank_lines_drop_blank_ones() {
    assert_eq!(nonblank_lines("a\n  \n\nb \r\n"), vec!["a".to_string(), "b ".to_string()]);
}

#[test]
fn decimal_agrees_with_to_string() {
    for n in [0u64, 7, 10, 99, 100, 25565, u64::MAX] {
        assert_eq!(decimal_str(n), n.to_string());
    }
}

#[test]
fn search_and_replace() {
    assert_eq!(find_char("ab=c=d", '='), Some(2));
    assert_eq!(find_char("abc", '='), None);
    assert!(contains_str("cat: No such file or directory", "No such file"));
    assert!(!contains_str("No such", "No such file"));
    assert!(contains_str("abc", ""));
    assert_eq!(replace_char_str("1.20.4", '.', "-"), "1-20-4");
    assert!(starts_with_char("~/mc", '~'));
    assert!(!starts_with_char("", '~'));
    assert_eq!(substring("héllo", 1, 3), "él");
    assert_eq!(cat("a", "b"), "ab");
}
