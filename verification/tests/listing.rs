use blocklist::listing::{
    parse_handle, parse_rule, parse_rules, space, split_fields, split_rows, HANDLE_FIELDS,
    RULE_FIELDS,
};

const PLAIN: &str = "table bridge filter {\n\tchain forward {\n\t\ttype filter hook forward priority 0; policy accept;\n\t\tip saddr 10.0.0.5 drop\n\t\tip saddr 10.0.0.6 drop\n\t\tip saddr 10.0.0.5 drop\n\t}\n}\n";

#[test]
fn white_space_is_the_unicode_property() {
    for c in [
        '\t', '\n', '\u{b}', '\u{c}', '\r', ' ', '\u{85}', '\u{a0}', '\u{1680}', '\u{2000}',
        '\u{2005}', '\u{200a}', '\u{2028}', '\u{2029}', '\u{202f}', '\u{205f}', '\u{3000}',
    ] {
        assert!(space(c));
        assert!(c.is_whitespace());
    }
    for c in ['a', '0', '.', '#', '\u{8}', '\u{e}', '\u{1f}', '\u{200b}', '\u{180e}', '\u{feff}'] {
        assert!(!space(c));
        assert!(!c.is_whitespace());
    }
}

#[test]
fn white_space_agrees_with_std_on_every_character() {
    let mut n: u32 = 0;
    while n <= 0x10ffff {
        if let Some(c) = char::from_u32(n) {
            assert_eq!(space(c), c.is_whitespace());
        }
        n += 1;
    }
}

#[test]
fn rows_are_cut_at_line_feeds() {
    assert_eq!(split_rows(""), vec![""]);
    assert_eq!(split_rows("a"), vec!["a"]);
    assert_eq!(split_rows("a\nb"), vec!["a", "b"]);
    assert_eq!(split_rows("a\n"), vec!["a", ""]);
    assert_eq!(split_rows("\n\n"), vec!["", "", ""]);
    assert_eq!(split_rows("ip saddr 1.2.3.4 drop\r\nx"), vec!["ip saddr 1.2.3.4 drop\r", "x"]);
}

#[test]
fn fields_are_runs_without_white_space() {
    assert!(split_fields("").is_empty());
    assert!(split_fields(" \t ").is_empty());
    assert_eq!(split_fields("a"), vec!["a"]);
    assert_eq!(split_fields("  ip  saddr\t10.0.0.5 drop "), vec!["ip", "saddr", "10.0.0.5", "drop"]);
    assert_eq!(split_fields("a\u{a0}b\u{3000}c"), vec!["a", "b", "c"]);
    assert_eq!(split_fields("a\u{200b}b"), vec!["a\u{200b}b"]);
}

#[test]
fn fields_agree_with_std() {
    for row in ["", "x", " x", "x ", "ab  cd", "\tip saddr 10.0.0.5 drop # handle 12\r", "\u{2003}a\u{85}b"] {
        let expected: Vec<&str> = row.split_whitespace().collect();
        assert_eq!(split_fields(row), expected);
    }
}

#[test]
fn a_rule_row_reads_ip_saddr_address_drop() {
    assert_eq!(RULE_FIELDS, 4);
    assert_eq!(parse_rule("ip saddr 10.0.0.5 drop"), Some("10.0.0.5".to_string()));
    assert_eq!(parse_rule("\t\tip saddr 10.0.0.5 drop\r"), Some("10.0.0.5".to_string()));
    assert_eq!(parse_rule("ip saddr y drop"), Some("y".to_string()));
}

#[test]
fn rows_of_another_shape_are_passed_over() {
    assert_eq!(parse_rule(""), None);
    assert_eq!(parse_rule("ip saddr 10.0.0.5"), None);
    assert_eq!(parse_rule("ip saddr 10.0.0.5 drop now"), None);
    assert_eq!(parse_rule("ip6 saddr ::1 drop"), None);
    assert_eq!(parse_rule("IP saddr 10.0.0.5 drop"), None);
    assert_eq!(parse_rule("table bridge filter {"), None);
    assert_eq!(parse_rule("ip saddr 10.0.0.5 drop # handle 5"), None);
}

#[test]
fn a_rule_of_another_match_or_verdict_is_passed_over() {
    assert_eq!(parse_rule("ip x y z"), None);
    assert_eq!(parse_rule("ip daddr 10.0.0.9 accept"), None);
    assert_eq!(parse_rule("ip daddr 10.0.0.9 drop"), None);
    assert_eq!(parse_rule("ip saddr 10.0.0.9 accept"), None);
    assert_eq!(parse_rule("ip saddr 10.0.0.5 counter drop"), None);
    assert_eq!(parse_rule("ip saddr 10.0.0.5 drops"), None);
    assert_eq!(parse_rule("ip Saddr 10.0.0.5 drop"), None);
    assert_eq!(parse_handle("ip a b c d e f"), None);
    assert_eq!(parse_handle("ip daddr 10.0.0.9 accept # handle 3"), None);
    assert_eq!(parse_handle("ip saddr 10.0.0.9 accept # handle 3"), None);
    assert_eq!(parse_handle("ip saddr 10.0.0.9 drop ; handle 3"), None);
    assert_eq!(parse_handle("ip saddr 10.0.0.9 drop # handles 3"), None);
    assert_eq!(parse_handle("ip saddr 10.0.0.9 drop # comment 3"), None);
}

#[test]
fn rows_that_are_not_drop_rules_give_no_address() {
    assert!(parse_rules("ip daddr 10.0.0.9 accept\nip saddr 10.0.0.5 counter drop\n").is_empty());
    assert_eq!(
        parse_rules("ip daddr 10.0.0.9 accept\nip saddr 10.0.0.5 drop\nip saddr 10.0.0.6 accept\n"),
        vec!["10.0.0.5"]
    );
}

#[test]
fn a_handle_row_reads_the_rule_then_its_handle() {
    assert_eq!(HANDLE_FIELDS, 7);
    assert_eq!(
        parse_handle("\t\tip saddr 10.0.0.5 drop # handle 5"),
        Some(("10.0.0.5".to_string(), "5".to_string()))
    );
    assert_eq!(
        parse_handle("ip saddr b drop # handle f"),
        Some(("b".to_string(), "f".to_string()))
    );
    assert_eq!(parse_handle("ip saddr 10.0.0.5 drop"), None);
    assert_eq!(parse_handle("ip saddr 10.0.0.5 drop # handle 5 6"), None);
    assert_eq!(parse_handle("chain forward { # handle 1 x y"), None);
    assert_eq!(parse_handle(""), None);
}

#[test]
fn the_plain_listing_yields_every_rule_row() {
    assert_eq!(parse_rules(PLAIN), vec!["10.0.0.5", "10.0.0.6", "10.0.0.5"]);
    assert!(parse_rules("").is_empty());
    assert!(parse_rules("table bridge filter {\n}\n").is_empty());
    assert_eq!(parse_rules("ip saddr 1.1.1.1 drop"), vec!["1.1.1.1"]);
}

#[test]
fn a_row_is_not_joined_with_the_next() {
    assert!(parse_rules("ip saddr\n10.0.0.5 drop\n").is_empty());
    assert_eq!(parse_rules("ip saddr 10.0.0.5 drop\nip saddr"), vec!["10.0.0.5"]);
}
