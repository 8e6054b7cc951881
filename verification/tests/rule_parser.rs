use highway::rule::{Matcher, Rule};
use highway::rule_parser::parse_rule;

fn not(rule: Rule) -> Rule {
    Rule::Not(Box::new(rule))
}

fn or(a: Rule, b: Rule) -> Rule {
    Rule::Or(Box::new(a), Box::new(b))
}

fn and(a: Rule, b: Rule) -> Rule {
    Rule::And(Box::new(a), Box::new(b))
}

fn make_rule(matcher: Matcher) -> Rule {
    Rule::Matcher(matcher)
}

#[test]
fn rule_parser_single_matcher() {
    let rule = parse_rule("Host(`example.com`)").unwrap();
    assert_eq!(rule, make_rule(Matcher::Host("example.com".to_string())));
}

#[test]
fn rule_parser_escaped_double_quote_values() {
    let rule = parse_rule(r#"Host("example.com")"#).unwrap();
    assert_eq!(rule, make_rule(Matcher::Host("example.com".to_string())));
}

#[test]
fn rule_parser_negation() {
    let rule = parse_rule("!Path(`/foo`)").unwrap();
    assert_eq!(rule, not(make_rule(Matcher::Path("/foo".to_string()))));
}

#[test]
fn rule_parser_and_or_precedence() {
    // && binds tighter than ||, so this parses as a || (b && c).
    let rule = parse_rule("Host(`a`) || Host(`b`) && Path(`/c`)").unwrap();
    assert_eq!(
        rule,
        or(
            make_rule(Matcher::Host("a".to_string())),
            and(
                make_rule(Matcher::Host("b".to_string())),
                make_rule(Matcher::Path("/c".to_string()))
            )
        )
    );
}

#[test]
fn rule_parser_parentheses_override_precedence() {
    let rule = parse_rule("(Host(`a`) || Host(`b`)) && Path(`/c`)").unwrap();
    assert_eq!(
        rule,
        and(
            or(
                make_rule(Matcher::Host("a".to_string())),
                make_rule(Matcher::Host("b".to_string()))
            ),
            make_rule(Matcher::Path("/c".to_string()))
        )
    );
}

#[test]
fn rule_parser_and_is_left_associative() {
    let rule = parse_rule("Host(`a`) && Host(`b`) && Host(`c`)").unwrap();
    assert_eq!(
        rule,
        and(
            and(
                make_rule(Matcher::Host("a".to_string())),
                make_rule(Matcher::Host("b".to_string())),
            ),
            make_rule(Matcher::Host("c".to_string()))
        )
    );
}

#[test]
fn rule_parser_negated_group() {
    let rule = parse_rule("!(Host(`a`) || Host(`b`))").unwrap();
    assert_eq!(
        rule,
        not(or(
            make_rule(Matcher::Host("a".to_string())),
            make_rule(Matcher::Host("b".to_string()))
        ))
    );
}

#[test]
fn rule_parser_display_round_trips() {
    for input in [
        "Host(`a`) || Host(`b`) && Path(`/c`)",
        "(Host(`a`) || Host(`b`)) && Path(`/c`)",
        "!Path(`/foo`)",
        "!(Host(`a`) || Host(`b`))",
    ] {
        let rule = parse_rule(input).unwrap();
        let rendered = rule.to_string();
        let reparsed = parse_rule(&rendered).unwrap();
        assert_eq!(
            rule, reparsed,
            "round trip failed for {input:?} -> {rendered:?}"
        );
    }
}

#[test]
fn rule_parser_errors_on_garbage() {
    assert!(parse_rule("Host(`a`) &&").is_err());
    assert!(parse_rule("Host(`a`").is_err());
    assert!(parse_rule("Host`a`)").is_err());
    assert!(parse_rule("Host(`a`) Host(`b`)").is_err());
    assert!(parse_rule("").is_err());
    assert!(parse_rule("Host('a')").is_err()); // single quotes not allowed
}
