use benchreport::names::{normalize_name, str_contains, str_eq, str_lex_leq};

#[test]
fn path_with_marker_normalizes_to_tail() {
    assert_eq!(normalize_name("C:\\proj\\testcases\\foo.ini"), "foo.ini");
}

#[test]
fn identifier_without_marker_is_unchanged() {
    assert_eq!(normalize_name("bar.ini"), "bar.ini");
}

#[test]
fn last_marker_wins() {
    assert_eq!(normalize_name("a\\testcases\\b\\testcases\\c.csb"), "c.csb");
}

#[test]
fn marker_at_start_strips_everything_before_tail() {
    assert_eq!(normalize_name("\\testcases\\x"), "x");
}

#[test]
fn trailing_marker_normalizes_to_empty() {
    assert_eq!(normalize_name("suite\\testcases\\"), "");
}

#[test]
fn forward_slash_paths_are_left_alone() {
    assert_eq!(normalize_name("proj/testcases/foo.ini"), "proj/testcases/foo.ini");
}

#[test]
fn substring_matching() {
    assert!(str_contains("c:\\suite\\testcases\\foo.ini", "foo"));
    assert!(str_contains("abc", ""));
    assert!(!str_contains("abc", "abd"));
    assert!(str_contains("abc", "abc"));
    assert!(!str_contains("ab", "abc"));
}

#[test]
fn lexicographic_order() {
    assert!(str_lex_leq("aaa", "aab"));
    assert!(!str_lex_leq("aab", "aaa"));
    assert!(str_lex_leq("", "a"));
    assert!(str_lex_leq("abc", "abc"));
    assert!(str_lex_leq("ab", "abc"));
    assert!(!str_lex_leq("abc", "ab"));
}

#[test]
fn string_equality() {
    assert!(str_eq("foo.ini", "foo.ini"));
    assert!(!str_eq("foo.ini", "foo.inj"));
    assert!(!str_eq("foo", "fooo"));
    assert!(str_eq("", ""));
}
