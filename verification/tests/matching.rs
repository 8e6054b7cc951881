use highway::k8s::{NamedRoute, Route};
use highway::request::{match_routes, Request};
use highway::rule::Rule;
use highway::rule_parser::RuleError;

fn request() -> Request {
    Request::new("https://App.Example.com/api/users?page=2", "GET".to_string()).unwrap()
}

fn holds(rule: &str) -> bool {
    Rule::parse(rule).unwrap().match_request(&request())
}

#[test]
fn requests_hold_host_and_path_of_the_url() {
    let r = request();
    assert_eq!(r.host.as_deref(), Some("app.example.com"));
    assert_eq!(r.path, "/api/users");
    assert_eq!(r.method, "GET");
    let socket = Request::new("unix:/run/foo.socket", "GET".to_string()).unwrap();
    assert_eq!(socket.host, None);
    assert!(!Rule::parse("Host(`x`)").unwrap().match_request(&socket));
}

#[test]
fn invalid_urls_are_refused() {
    assert!(Request::new("not a url", "GET".to_string()).is_err());
    assert!(Request::new("/relative/path", "GET".to_string()).is_err());
}

#[test]
fn host_ignores_ascii_case() {
    assert!(holds("Host(`app.example.com`)"));
    assert!(holds("Host(`APP.Example.COM`)"));
    assert!(!holds("Host(`example.com`)"));
}

#[test]
fn paths_and_methods() {
    assert!(holds("Path(`/api/users`)"));
    assert!(!holds("Path(`/api`)"));
    assert!(holds("PathPrefix(`/api`)"));
    assert!(holds("PathPrefix(`/api/users`)"));
    assert!(!holds("PathPrefix(`/api/users/`)"));
    assert!(holds("PathRegexp(`^/api/u.*s$`)"));
    assert!(holds("PathRegexp(`users`)"));
    assert!(!holds("PathRegexp(`^/users`)"));
    assert!(!holds("PathRegexp(`(`)"));
    assert!(holds("Method(`GET`)"));
    assert!(!holds("Method(`get`)"));
    assert!(!holds("Header(`X`, `y`)"));
    assert!(!holds("Host(`app.example.com`, `x`)"));
}

#[test]
fn operators_combine_matchers() {
    assert!(holds("Host(`app.example.com`) && PathPrefix(`/api`)"));
    assert!(!holds("Host(`app.example.com`) && Method(`POST`)"));
    assert!(holds("Method(`POST`) || Path(`/api/users`)"));
    assert!(holds("!Method(`POST`)"));
    assert!(!holds("!(Method(`POST`) || Path(`/api/users`))"));
}

fn named(name: &str, rule: &str) -> NamedRoute {
    NamedRoute {
        name: name.to_string(),
        route: Route { match_rule: rule.to_string(), priority_override: None, services: None },
    }
}

#[test]
fn the_first_matching_route_wins() {
    let routes = vec![
        named("a", "Host(`other.com`)"),
        named("b", "PathPrefix(`/api`)"),
        named("c", "Host(`app.example.com`)"),
    ];
    assert_eq!(match_routes(&routes, &request()).unwrap(), Some(1));
    let none = vec![named("a", "Host(`other.com`)")];
    assert_eq!(match_routes(&none, &request()).unwrap(), None);
}

#[test]
fn a_broken_rule_before_the_match_is_an_error() {
    let routes = vec![named("a", "Host(`x`"), named("b", "PathPrefix(`/api`)")];
    match match_routes(&routes, &request()) {
        Err(RuleError::Invalid(e)) => assert_eq!(e.message, "expected `,` or `)`, found end of input"),
        other => panic!("unexpected {other:?}"),
    }
    let routes = vec![named("a", "Header(`X`, `y`)"), named("b", "PathPrefix(`/api`)")];
    assert!(matches!(match_routes(&routes, &request()), Err(RuleError::Unsupported(_))));
    let routes = vec![named("b", "PathPrefix(`/api`)"), named("a", "Host(`x`")];
    assert_eq!(match_routes(&routes, &request()).unwrap(), Some(0));
}
