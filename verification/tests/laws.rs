use highway::lexer::tokenize;
use highway::rule::{Matcher, Rule};
use highway::rule_parser::parse_rule;

fn leaf(m: Matcher) -> Rule {
    Rule::Matcher(m)
}

#[test]
fn rendering_a_rule_and_parsing_it_gives_the_rule() {
    let rule = Rule::And(
        Box::new(leaf(Matcher::Host("a".to_string()))),
        Box::new(Rule::Or(
            Box::new(leaf(Matcher::Path("/x".to_string()))),
            Box::new(Rule::Not(Box::new(leaf(Matcher::Method("GET".to_string()))))),
        )),
    );
    let text = rule.to_string();
    assert_eq!(text, "Host(`a`) && (Path(`/x`) || !Method(`GET`))");
    assert_eq!(Rule::parse(&text).unwrap(), rule);
    assert_eq!(parse_rule(&text).unwrap(), rule);
}

#[test]
fn rendering_uses_the_fewest_parentheses() {
    let rule = Rule::Not(Box::new(Rule::Not(Box::new(Rule::And(
        Box::new(leaf(Matcher::PathPrefix("/p".to_string()))),
        Box::new(leaf(Matcher {
            name: "Header".to_string(),
            args: vec!["X".to_string(), "y".to_string(), "z".to_string()],
        })),
    )))));
    let text = rule.to_string();
    assert_eq!(text, "!!(PathPrefix(`/p`) && Header(`X`, `y`, `z`))");
    assert_eq!(Rule::parse(&text).unwrap(), rule);
    let empty = leaf(Matcher { name: "Any".to_string(), args: vec![] });
    assert_eq!(empty.to_string(), "Any()");
    assert_eq!(Rule::parse("Any()").unwrap(), empty);
}

#[test]
fn parsed_rules_read_back_from_their_rendering() {
    for input in [
        "Host(`a`)||Path(`/b`)&&!Method(`PUT`)",
        "((Host(`a`)))",
        "!(!Path(\"/x\") && PathRegexp(`^/y`)) || Host(`c`) || Host(`d`)",
    ] {
        let rule = Rule::parse(input).unwrap();
        assert_eq!(Rule::parse(&rule.to_string()).unwrap(), rule);
        assert_eq!(parse_rule(&rule.to_string()).unwrap(), rule);
    }
}

#[test]
fn right_nested_chains_do_not_read_back() {
    // Parentheses in the text make a right operand of the same operator;
    // the rendering leaves them out, and the text regroups to the left.
    let rule = Rule::parse("Host(`a`) && (Host(`b`) && Host(`c`))").unwrap();
    let text = rule.to_string();
    assert_eq!(text, "Host(`a`) && Host(`b`) && Host(`c`)");
    assert_ne!(Rule::parse(&text).unwrap(), rule);
    // A value with a backtick cannot be written between backticks.
    let rule = Rule::parse(r#"Host("a`b")"#).unwrap();
    assert!(Rule::parse(&rule.to_string()).is_err());
}

#[test]
fn routing_parse_agrees_with_plain_parse() {
    for input in [
        "Host(`a`) || Path(`/b`) && !Method(`PUT`)",
        "PathPrefix(`/p`) && PathRegexp(`x+`)",
    ] {
        assert_eq!(parse_rule(input).unwrap(), Rule::parse(input).unwrap());
    }
}

#[test]
fn texts_joined_by_a_space_tokenize_as_both() {
    for (a, b) in [
        ("Host(`a`)", "&& Path(`/b`)"),
        ("Host", "(\"x y\")"),
        ("!", "(Method(`GET`)||PathPrefix(`/`))"),
        ("", "Host(`a`)"),
    ] {
        let ta = tokenize(a).unwrap();
        let tb = tokenize(b).unwrap();
        let joined = tokenize(&format!("{a} {b}")).unwrap();
        assert_eq!(format!("{joined:?}"), format!("{:?}", ta.into_iter().chain(tb).collect::<Vec<_>>()));
    }
}

#[test]
fn a_space_ends_an_identifier() {
    // Without the space the two identifiers would run together.
    let joined = tokenize("Ho st").unwrap();
    assert_eq!(format!("{joined:?}"), "[Ident(\"Ho\"), Ident(\"st\")]");
    let run = tokenize("Host").unwrap();
    assert_eq!(format!("{run:?}"), "[Ident(\"Host\")]");
}

#[test]
fn cloned_rules_are_equal() {
    let rule = Rule::parse("!(Host(`a`) || Header(`X`, `y`)) && Path(`/p`)").unwrap();
    assert_eq!(rule.clone(), rule);
}
