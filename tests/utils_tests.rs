use fragstrings::fmt_strings::FormatEnding::{Closed, Open};
use fragstrings::fmt_strings::FormatItemOpt::{Mandatory, Optional};
use fragstrings::fmt_strings::FormatItemType::{Int, Str};
use fragstrings::fmt_strings::{
    parse_format_string, parse_format_string_ex, FormatEnding, FormatItemOpt, FormatItemType,
    FormatString,
};
use fragstrings::literals::parse_string_literal;

#[test]
fn test_parse_string_literal() {
    assert_eq!(parse_string_literal(r#####""""#####), Some(""));
    assert_eq!(parse_string_literal(r#####""foo""#####), Some("foo"));
    assert_eq!(parse_string_literal(r#####"b"foo""#####), Some("foo"));
    assert_eq!(parse_string_literal(r#####"r"foo""#####), Some("foo"));
    assert_eq!(parse_string_literal(r#####"r#"foo"#"#####), Some("foo"));
    assert_eq!(parse_string_literal(r#####"r##"foo"##"#####), Some("foo"));
    assert_eq!(parse_string_literal(r#####"r###"foo"###"#####), Some("foo"));

    assert_eq!(parse_string_literal(r#####""#####), None);
    assert_eq!(parse_string_literal(r#####"""#####), None);
    assert_eq!(parse_string_literal(r#####"'foo'"#####), None);
    assert_eq!(parse_string_literal(r#####"'foo"#####), None);
    assert_eq!(parse_string_literal(r#####"foo'"#####), None);
    assert_eq!(parse_string_literal(r#####""foo"#####), None);
    assert_eq!(parse_string_literal(r#####"foo""#####), None);
    assert_eq!(parse_string_literal(r#####"r#"foo""#####), None);
    assert_eq!(parse_string_literal(r#####"r"foo"#"#####), None);
}

#[test]
fn test_parse_format_string() {
    assert_eq!(parse_format_string(""), None);

    assert_eq!(parse_format_string("%s"), Some(vec![Str]));
    assert_eq!(parse_format_string("%d"), Some(vec![Int]));
    assert_eq!(parse_format_string("%s%d"), Some(vec![Str, Int]));
    assert_eq!(parse_format_string("%d%s"), Some(vec![Int, Str]));
    assert_eq!(parse_format_string("%s%s"), Some(vec![Str, Str]));
    assert_eq!(parse_format_string("%d%d"), Some(vec![Int, Int]));

    assert_eq!(parse_format_string("%"), None);
    assert_eq!(parse_format_string("%%"), None);
    assert_eq!(parse_format_string("%f"), None);
    assert_eq!(parse_format_string("%b"), None);
    assert_eq!(parse_format_string("%x"), None);
    assert_eq!(parse_format_string("%s%x"), None);
    assert_eq!(parse_format_string("%sx"), None);
    assert_eq!(parse_format_string("%sxx"), None);
    assert_eq!(parse_format_string("%s foo"), None);
    assert_eq!(parse_format_string("%s "), None);
    assert_eq!(parse_format_string(" %s"), None);
}

/// Parses a descriptor whose items must all be mandatory.
fn pm(s: &str) -> Option<(Vec<FormatItemType>, FormatEnding)> {
    parse_format_string_ex(s).map(|FormatString(items, ending)| {
        let ok = items.iter().all(|item| item.1 == Mandatory);
        assert!(ok, "All items in this format string supposed to be parsed as mandatory: {}", s);
        let items = items.into_iter().map(|item| item.0).collect::<Vec<_>>();
        (items, ending)
    })
}

/// Parses a descriptor that may have optional items.
fn po(s: &str) -> Option<(Vec<(FormatItemType, FormatItemOpt)>, FormatEnding)> {
    parse_format_string_ex(s).map(|FormatString(items, ending)| {
        let items = items.into_iter().map(|item| (item.0, item.1)).collect::<Vec<_>>();
        (items, ending)
    })
}

#[test]
fn test_parse_format_string_ex() {
    assert_eq!(pm(""), None);

    assert_eq!(pm("%s"), Some((vec![Str], Closed)));
    assert_eq!(pm("%d"), Some((vec![Int], Closed)));
    assert_eq!(pm("%s%d"), Some((vec![Str, Int], Closed)));
    assert_eq!(pm("%d%s"), Some((vec![Int, Str], Closed)));
    assert_eq!(pm("%s%s"), Some((vec![Str, Str], Closed)));
    assert_eq!(pm("%d%d"), Some((vec![Int, Int], Closed)));

    assert_eq!(pm("*"), None);
    assert_eq!(pm("*%s"), None);
    assert_eq!(pm("*%d"), None);
    assert_eq!(pm("%s*"), Some((vec![Str], Open)));
    assert_eq!(pm("%d*"), Some((vec![Int], Open)));
    assert_eq!(pm("%s%d*"), Some((vec![Str, Int], Open)));

    assert_eq!(po("?"), None);
    assert_eq!(po("*?"), None);
    assert_eq!(po("?*"), None);
    assert_eq!(po("%?"), None);
    assert_eq!(po("?%s"), None);
    assert_eq!(po("%s?"), None);
    assert_eq!(po("%d?"), None);
    assert_eq!(po("%s?*"), None);
    assert_eq!(po("%d?*"), None);
    assert_eq!(po("%s?%s?"), None);
    assert_eq!(po("%d?%d?"), None);
    assert_eq!(po("%s?%s?*"), None);
    assert_eq!(po("%d?%d?*"), None);
    assert_eq!(po("%s%d?"), Some((vec![(Str, Mandatory), (Int, Optional)], Closed)));
    assert_eq!(po("%d%s?"), Some((vec![(Int, Mandatory), (Str, Optional)], Closed)));
    assert_eq!(po("%s%d?*"), Some((vec![(Str, Mandatory), (Int, Optional)], Open)));
    assert_eq!(po("%d%s?*"), Some((vec![(Int, Mandatory), (Str, Optional)], Open)));
    assert_eq!(po("%s%s%d?"), Some((vec![(Str, Mandatory), (Str, Mandatory), (Int, Optional)], Closed)));
    assert_eq!(po("%s%s?%d?"), Some((vec![(Str, Mandatory), (Str, Optional), (Int, Optional)], Closed)));
    assert_eq!(po("%s%s%d?*"), Some((vec![(Str, Mandatory), (Str, Mandatory), (Int, Optional)], Open)));
    assert_eq!(po("%s%s?%d?*"), Some((vec![(Str, Mandatory), (Str, Optional), (Int, Optional)], Open)));
    assert_eq!(po("%s?%s"), None);
    assert_eq!(po("%s?%s*"), None);
}
