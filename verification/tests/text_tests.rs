use shellcore::text::join_strings;
use shellcore::text::parse_i32;
use shellcore::text::sort_strings;
use shellcore::text::split_whitespace;
use shellcore::text::str_eq;
use shellcore::text::str_le;
use shellcore::text::trim_str;

#[test]
fn trimming_strips_surrounding_whitespace_only() {
    assert_eq!(trim_str("  ls -l \t\n"), "ls -l");
    assert_eq!(trim_str("ls"), "ls");
    assert_eq!(trim_str("   "), "");
    assert_eq!(trim_str(""), "");
}

#[test]
fn whitespace_splitting_merges_runs() {
    assert_eq!(
        split_whitespace(" a  bb\tccc \n"),
        vec!["a".to_string(), "bb".to_string(), "ccc".to_string()]
    );
    assert_eq!(split_whitespace(""), Vec::<String>::new());
    assert_eq!(split_whitespace("single"), vec!["single".to_string()]);
}

#[test]
fn joining_inserts_the_separator_between_parts() {
    assert_eq!(join_strings(&vec!["a".to_string(), "b".to_string()], "  "), "a  b");
    assert_eq!(join_strings(&vec!["a".to_string()], "  "), "a");
    assert_eq!(join_strings(&Vec::new(), "  "), "");
}

#[test]
fn decimal_parsing_matches_i32_semantics() {
    assert_eq!(parse_i32("3"), Some(3));
    assert_eq!(parse_i32("+5"), Some(5));
    assert_eq!(parse_i32("-7"), Some(-7));
    assert_eq!(parse_i32("0"), Some(0));
    assert_eq!(parse_i32("2147483647"), Some(i32::MAX));
    assert_eq!(parse_i32("-2147483648"), Some(i32::MIN));
    assert_eq!(parse_i32("2147483648"), None);
    assert_eq!(parse_i32("-2147483649"), None);
    assert_eq!(parse_i32("99999999999999999999"), None);
    assert_eq!(parse_i32(""), None);
    assert_eq!(parse_i32("+"), None);
    assert_eq!(parse_i32("-"), None);
    assert_eq!(parse_i32("12a"), None);
    assert_eq!(parse_i32(" 3"), None);
    assert_eq!(parse_i32("3 "), None);
}

#[test]
fn lexicographic_order_and_equality() {
    assert!(str_le("abc", "abd"));
    assert!(str_le("ab", "abc"));
    assert!(str_le("abc", "abc"));
    assert!(!str_le("b", "abc"));
    assert!(str_eq("same", "same"));
    assert!(!str_eq("same", "sam"));
    assert!(!str_eq("same", "samx"));
}

#[test]
fn sorting_orders_lexicographically() {
    let sorted = sort_strings(&vec![
        "clone".to_string(),
        "cd".to_string(),
        "clear".to_string(),
    ]);
    assert_eq!(sorted, vec!["cd".to_string(), "clear".to_string(), "clone".to_string()]);
    assert_eq!(sort_strings(&Vec::new()), Vec::<String>::new());
}
