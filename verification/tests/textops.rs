use patchkeeper::cmd::{conflicting_options, enabled_options, missing_option,
    missing_or_conflicting_options};
use patchkeeper::print::marker;
use patchkeeper::text::{parse_id, parse_u64, split_lines, str_eq, str_lt, trim, u64_to_string};

#[test]
fn trim_strips_outer_whitespace() {
    assert_eq!(trim("  a b \t\r\n"), "a b");
    assert_eq!(trim(""), "");
    assert_eq!(trim(" \t "), "");
    assert_eq!(trim("x"), "x");
}

#[test]
fn string_comparisons() {
    assert!(str_eq("abc", "abc"));
    assert!(!str_eq("abc", "abd"));
    assert!(!str_eq("abc", "ab"));
    assert!(str_lt("ab", "abc"));
    assert!(str_lt("aab", "ab"));
    assert!(!str_lt("b", "ab"));
    assert!(!str_lt("a", "a"));
}

#[test]
fn u64_parsing_accepts_plus_and_rejects_junk() {
    assert_eq!(parse_u64("0"), Some(0));
    assert_eq!(parse_u64("42"), Some(42));
    assert_eq!(parse_u64("+42"), Some(42));
    assert_eq!(parse_u64("007"), Some(7));
    assert_eq!(parse_u64("18446744073709551615"), Some(u64::MAX));
    assert_eq!(parse_u64("18446744073709551616"), None);
    assert_eq!(parse_u64(""), None);
    assert_eq!(parse_u64("+"), None);
    assert_eq!(parse_u64("-1"), None);
    assert_eq!(parse_u64("4 2"), None);
}

#[test]
fn u64_formatting_round_trips() {
    assert_eq!(u64_to_string(0), "0");
    assert_eq!(u64_to_string(7), "7");
    assert_eq!(u64_to_string(1234567890), "1234567890");
    assert_eq!(u64_to_string(u64::MAX), "18446744073709551615");
    assert_eq!(parse_u64(&u64_to_string(987654321)), Some(987654321));
}

#[test]
fn identifiers_are_canonicalized() {
    let full = "0123456789abcdef0123456789abcdef01234567";
    assert_eq!(parse_id(full), Some(full.to_string()));
    assert_eq!(parse_id("ABC"), Some(format!("abc{}", "0".repeat(37))));
    assert_eq!(parse_id(""), Some("0".repeat(40)));
    assert_eq!(parse_id("xyz"), None);
    assert_eq!(parse_id(&"a".repeat(41)), None);
}

#[test]
fn lines_split_on_newlines() {
    assert_eq!(split_lines("a\nb"), vec!["a".to_string(), "b".to_string()]);
    assert_eq!(split_lines("a\n"), vec!["a".to_string(), "".to_string()]);
    assert_eq!(split_lines(""), vec!["".to_string()]);
    assert_eq!(
        split_lines("\n%x\n"),
        vec!["".to_string(), "%x".to_string(), "".to_string()]
    );
}

#[test]
fn option_checks_and_messages() {
    let none_on = vec![("-a", false), ("<revspec>", false)];
    let e = missing_option(&none_on).unwrap_err();
    assert_eq!(e.message(), "missing option: -a or <revspec>");
    conflicting_options(&none_on).unwrap();

    let one_on = vec![("-a", true), ("-n", false)];
    missing_option(&one_on).unwrap();
    conflicting_options(&one_on).unwrap();
    missing_or_conflicting_options(&one_on).unwrap();

    let two_on = vec![("-a", true), ("-n", true), ("-x", false)];
    let e = conflicting_options(&two_on).unwrap_err();
    assert_eq!(e.message(), "conflicting options: -a and -n");
    assert!(missing_or_conflicting_options(&two_on).is_err());
    assert!(missing_or_conflicting_options(&none_on).is_err());

    assert_eq!(enabled_options(&two_on), vec!["-a", "-n"]);
}

#[test]
fn markers_for_listings() {
    assert_eq!(marker(true), "*");
    assert_eq!(marker(false), " ");
}
