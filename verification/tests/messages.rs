use highway::rule::Rule;
use highway::rule_parser::{parse_rule, try_parse_rule, RuleError};

fn message(input: &str) -> String {
    Rule::parse(input).unwrap_err().message
}

#[test]
fn errors_show_as_invalid_match_rules() {
    let e = Rule::parse("Host(`a`) Host(`b`)").unwrap_err();
    assert_eq!(e.to_string(), "invalid match rule: unexpected trailing Ident(\"Host\")");
}

#[test]
fn lone_ampersand_is_reported_at_its_byte_position() {
    assert_eq!(message("Host(`a`) &"), "expected `&&` at position 10");
}

#[test]
fn positions_count_bytes_not_characters() {
    // `é` takes two bytes, so the `|` at character 10 is at byte 11.
    assert_eq!(message("Host(`é`) |x"), "expected `||` at position 11");
}

#[test]
fn unterminated_values_are_reported_where_they_start() {
    assert_eq!(message("Host(`a"), "unterminated backtick value starting at position 5");
    assert_eq!(message(r#"Host("a"#), "unterminated quoted value starting at position 5");
    assert_eq!(message(r#"Host("a\"#), "unterminated escape in value starting at position 5");
}

#[test]
fn unexpected_characters_are_named() {
    assert_eq!(message("Host('a')"), "unexpected character `'` at position 5");
    assert_eq!(message("Host(`a`)\u{200b}"), "unexpected character `\u{200b}` at position 9");
}

#[test]
fn syntax_errors_name_what_was_found() {
    assert_eq!(message("Host(`a`) Host(`b`)"), "unexpected trailing Ident(\"Host\")");
    assert_eq!(message("Host(`a`) &&"), "expected a matcher or `(`, found end of input");
    assert_eq!(message(""), "expected a matcher or `(`, found end of input");
    assert_eq!(message("Host(`a`"), "expected `,` or `)`, found end of input");
    assert_eq!(message("Host`a`)"), "expected LParen, found Value(\"a\")");
    assert_eq!(message("(Host(`a`)"), "expected RParen, found end of input");
    assert_eq!(message("Host(,)"), "expected a value, found Comma");
    assert_eq!(message("Host(`a`,)"), "expected a value, found RParen");
    assert_eq!(message("Host(`a` `b`)"), "expected `,` or `)`, found Value(\"b\")");
    assert_eq!(message(")"), "expected a matcher or `(`, found RParen");
}

#[test]
fn trailing_values_are_shown_escaped() {
    assert_eq!(
        message(r#"Host(`a`) "x\"y""#),
        "unexpected trailing Value(\"x\\\"y\")"
    );
}

#[test]
fn unicode_whitespace_separates_tokens() {
    let rule = Rule::parse("Host(`a`)\u{3000}&&\t\nPath(`/`)").unwrap();
    assert_eq!(rule.to_string(), "Host(`a`) && Path(`/`)");
}

#[test]
fn routing_rules_refuse_other_matchers() {
    match try_parse_rule("Host(`a`) && Header(`X`, `y`)") {
        Err(RuleError::Unsupported(m)) => {
            assert_eq!(m.name, "Header");
            assert_eq!(m.args, vec!["X".to_string(), "y".to_string()]);
        }
        other => panic!("unexpected {other:?}"),
    }
    match try_parse_rule("Host(`a`, `b`)") {
        Err(RuleError::Unsupported(m)) => assert_eq!(m.name, "Host"),
        other => panic!("unexpected {other:?}"),
    }
    assert!(Rule::parse("Host(`a`, `b`)").is_ok());
}

#[test]
fn routing_rules_report_syntax_errors_first() {
    match try_parse_rule("Host(`a`) &&") {
        Err(RuleError::Invalid(e)) => {
            assert_eq!(e.message, "expected a matcher or `(`, found end of input")
        }
        other => panic!("unexpected {other:?}"),
    }
    assert_eq!(
        parse_rule("Host(`a`) &&").unwrap_err().message,
        "expected a matcher or `(`, found end of input"
    );
}
