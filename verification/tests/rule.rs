use highway::rule::{Matcher, Rule};

fn matcher(name: &str, args: &[&str]) -> Rule {
    Rule::Matcher(Matcher {
        name: name.to_string(),
        args: args.iter().map(|a| a.to_string()).collect(),
    })
}

#[test]
fn rule_single_matcher() {
    let rule = Rule::parse("Host(`example.com`)").unwrap();
    assert_eq!(rule, matcher("Host", &["example.com"]));
}

#[test]
fn multiple_arguments() {
    let rule = Rule::parse("Header(`X-Foo`, `bar`)").unwrap();
    assert_eq!(rule, matcher("Header", &["X-Foo", "bar"]));
}

#[test]
fn rule_escaped_double_quote_values() {
    let rule = Rule::parse(r#"Host("example.com")"#).unwrap();
    assert_eq!(rule, matcher("Host", &["example.com"]));

    let rule = Rule::parse(r#"Header("X", "a\"b")"#).unwrap();
    assert_eq!(rule, matcher("Header", &["X", "a\"b"]));
}

#[test]
fn rule_negation() {
    let rule = Rule::parse("!Path(`/foo`)").unwrap();
    assert_eq!(rule, Rule::Not(Box::new(matcher("Path", &["/foo"]))));
}

#[test]
fn rule_and_or_precedence() {
    // && binds tighter than ||, so this parses as a || (b && c).
    let rule = Rule::parse("Host(`a`) || Host(`b`) && Path(`/c`)").unwrap();
    assert_eq!(
        rule,
        Rule::Or(
            Box::new(matcher("Host", &["a"])),
            Box::new(Rule::And(
                Box::new(matcher("Host", &["b"])),
                Box::new(matcher("Path", &["/c"])),
            )),
        )
    );
}

#[test]
fn rule_parentheses_override_precedence() {
    let rule = Rule::parse("(Host(`a`) || Host(`b`)) && Path(`/c`)").unwrap();
    assert_eq!(
        rule,
        Rule::And(
            Box::new(Rule::Or(
                Box::new(matcher("Host", &["a"])),
                Box::new(matcher("Host", &["b"])),
            )),
            Box::new(matcher("Path", &["/c"])),
        )
    );
}

#[test]
fn rule_and_is_left_associative() {
    let rule = Rule::parse("Host(`a`) && Host(`b`) && Host(`c`)").unwrap();
    assert_eq!(
        rule,
        Rule::And(
            Box::new(Rule::And(
                Box::new(matcher("Host", &["a"])),
                Box::new(matcher("Host", &["b"])),
            )),
            Box::new(matcher("Host", &["c"])),
        )
    );
}

#[test]
fn rule_negated_group() {
    let rule = Rule::parse("!(Host(`a`) || Host(`b`))").unwrap();
    assert_eq!(
        rule,
        Rule::Not(Box::new(Rule::Or(
            Box::new(matcher("Host", &["a"])),
            Box::new(matcher("Host", &["b"])),
        )))
    );
}

#[test]
fn rule_display_round_trips() {
    for input in [
        "Host(`a`) || Host(`b`) && Path(`/c`)",
        "(Host(`a`) || Host(`b`)) && Path(`/c`)",
        "!Path(`/foo`)",
        "!(Host(`a`) || Host(`b`))",
        "Header(`X-Foo`, `bar`)",
    ] {
        let rule = Rule::parse(input).unwrap();
        let rendered = rule.to_string();
        let reparsed = Rule::parse(&rendered).unwrap();
        assert_eq!(
            rule, reparsed,
            "round trip failed for {input:?} -> {rendered:?}"
        );
    }
}

#[test]
fn rule_errors_on_garbage() {
    assert!(Rule::parse("Host(`a`) &&").is_err());
    assert!(Rule::parse("Host(`a`").is_err());
    assert!(Rule::parse("Host`a`)").is_err());
    assert!(Rule::parse("Host(`a`) Host(`b`)").is_err());
    assert!(Rule::parse("").is_err());
    assert!(Rule::parse("Host('a')").is_err()); // single quotes not allowed
}
