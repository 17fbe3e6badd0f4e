use minigrep::contains;
use minigrep::split_lines;

#[test]
fn contains_finds_inner_substrings() {
    assert!(contains("hello world", "o w"));
    assert!(contains("hello world", "hello"));
    assert!(contains("hello world", "world"));
    assert!(contains("aaa", "aa"));
}

#[test]
fn contains_of_empty_needle_is_true() {
    assert!(contains("anything", ""));
    assert!(contains("", ""));
}

#[test]
fn contains_misses_absent_substrings() {
    assert!(!contains("", "a"));
    assert!(!contains("abc", "abd"));
    assert!(!contains("abc", "abcd"));
    assert!(!contains("Duct", "duct"));
}

#[test]
fn split_lines_follows_the_line_convention() {
    assert_eq!(vec!["x", "y"], split_lines("x\ny"));
    assert_eq!(vec!["x", "y"], split_lines("x\r\ny"));
    assert_eq!(vec!["x"], split_lines("x\n"));
    assert_eq!(vec!["", "x"], split_lines("\nx"));
    assert_eq!(Vec::<&str>::new(), split_lines(""));
}
