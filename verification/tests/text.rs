use sophist::text::{chars_equal, contains_str, first_index_of, last_index_of, trim};

#[test]
fn trim_white_space() {
    assert_eq!(trim("  hello \n"), "hello");
    assert_eq!(trim("\t\r\n"), "");
    assert_eq!(trim(""), "");
    assert_eq!(trim("a b"), "a b");
    assert_eq!(trim("\u{3000}x\u{a0}"), "x");
    for s in [" 12 ", "\n\nq\t", "\u{2003}z\u{205f}", "nothing"] {
        assert_eq!(trim(s), s.trim());
    }
}

#[test]
fn char_searches() {
    assert_eq!(first_index_of("a/b/c", '/'), Some(1));
    assert_eq!(last_index_of("a/b/c", '/'), Some(3));
    assert_eq!(first_index_of("abc", '/'), None);
    assert_eq!(last_index_of("", '/'), None);
    assert_eq!(first_index_of("é.txt", '.'), Some(1));
}

#[test]
fn string_comparisons() {
    assert!(chars_equal("abc", "abc"));
    assert!(!chars_equal("abc", "abd"));
    assert!(!chars_equal("abc", "ab"));
    assert!(contains_str("GEMINI_API_KEY=1", "API"));
    assert!(contains_str("abc", ""));
    assert!(!contains_str("ab", "abc"));
    assert!(contains_str("xxabc", "abc"));
    assert!(!contains_str("xxabd", "abc"));
}
