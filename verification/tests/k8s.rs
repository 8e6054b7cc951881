use highway::k8s::{build_routes, IngressRoute, IngressRouteSpec, Metadata, ResourceList, Route, Service};

fn route(rule: &str, priority: Option<i64>, services: &[&str]) -> Route {
    Route {
        match_rule: rule.to_string(),
        priority_override: priority,
        services: Some(
            services
                .iter()
                .map(|s| Service { name: s.to_string(), port: None, weight: None })
                .collect(),
        ),
    }
}

fn ingress(name: &str, routes: Vec<Route>) -> IngressRoute {
    IngressRoute {
        metadata: Metadata { name: name.to_string() },
        spec: IngressRouteSpec { routes },
    }
}

#[test]
fn priority_is_the_override_or_the_rule_length_in_bytes() {
    assert_eq!(route("Host(`a`)", Some(5), &[]).priority(), 5);
    assert_eq!(route("Host(`a`)", None, &[]).priority(), 9);
    // `é` takes two bytes.
    assert_eq!(route("Host(`é`)", None, &[]).priority(), 10);
}

#[test]
fn routes_are_listed_with_priority_and_services() {
    assert_eq!(
        route("Host(`a`)", None, &["svc-a", "svc-b"]).to_string(),
        "Host(`a`) (9)\n\t- svc-a\n\t- svc-b"
    );
    assert_eq!(route("Path(`/`)", Some(-3), &[]).to_string(), "Path(`/`) (-3)");
    let bare = Route { match_rule: "Host(`b`)".to_string(), priority_override: Some(120), services: None };
    assert_eq!(bare.to_string(), "Host(`b`) (120)");
}

#[test]
fn routes_are_ordered_by_priority_keeping_ties_in_order() {
    let list = ResourceList {
        api_version: "v1".to_string(),
        items: vec![
            ingress("one", vec![route("Host(`r1`)", Some(1), &[]), route("Host(`r2`)", Some(9), &[])]),
            ingress("two", vec![route("Host(`r3`)", Some(9), &[]), route("Host(`a`) && Path(`/r4`)", None, &[])]),
            ingress("three", vec![]),
        ],
    };
    let routes = build_routes(list);
    let seen: Vec<(&str, &str)> = routes
        .iter()
        .map(|r| (r.name.as_str(), r.route.match_rule.as_str()))
        .collect();
    assert_eq!(
        seen,
        vec![
            ("two", "Host(`a`) && Path(`/r4`)"),
            ("one", "Host(`r2`)"),
            ("two", "Host(`r3`)"),
            ("one", "Host(`r1`)"),
        ]
    );
}

#[test]
fn an_empty_list_has_no_routes() {
    let list: ResourceList<IngressRoute> = ResourceList { api_version: "v1".to_string(), items: vec![] };
    assert!(build_routes(list).is_empty());
}
