use lct::text::{find_char, find_sub, parse_u32_range, str_eq};

#[test]
fn string_equality_is_by_characters() {
    assert!(str_eq("abc", "abc"));
    assert!(!str_eq("abc", "abd"));
    assert!(!str_eq("abc", "ab"));
    assert!(str_eq("", ""));
}

#[test]
fn find_char_returns_first_hit_at_or_after_start() {
    assert_eq!(find_char("a/b/c", '/', 0), Some(1));
    assert_eq!(find_char("a/b/c", '/', 2), Some(3));
    assert_eq!(find_char("a/b/c", '/', 4), None);
}

#[test]
fn find_sub_returns_first_occurrence() {
    assert_eq!(find_sub("xxLH:5", "LH:", 0), Some(2));
    assert_eq!(find_sub("xxLH:5", "LH:", 3), None);
    assert_eq!(find_sub("ab", "abc", 0), None);
}

#[test]
fn counts_parse_as_plain_decimal() {
    assert_eq!(parse_u32_range("LH:57\n", 3, 5), Some(57));
    assert_eq!(parse_u32_range("+9", 0, 2), Some(9));
    assert_eq!(parse_u32_range("4294967295", 0, 10), Some(u32::MAX));
    assert_eq!(parse_u32_range("4294967296", 0, 10), None);
    assert_eq!(parse_u32_range("", 0, 0), None);
    assert_eq!(parse_u32_range("+", 0, 1), None);
    assert_eq!(parse_u32_range("1 2", 0, 3), None);
}
