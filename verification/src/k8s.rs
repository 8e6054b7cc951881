//! The Traefik `IngressRoute` resources that routing reads, their
//! priorities, and the order in which their routes are tried.

use crate::text::{i64_text, signed_decimal};
use vstd::prelude::*;
use vstd::utf8::encode_utf8;

verus! {

#[derive(Debug)]
pub struct IngressRoute {
    pub metadata: Metadata,
    pub spec: IngressRouteSpec,
}

#[derive(Debug)]
pub struct Metadata {
    pub name: String,
}

#[derive(Debug)]
pub struct IngressRouteSpec {
    pub routes: Vec<Route>,
}

#[derive(Debug)]
pub struct Route {
    /// The match rule, in the rule syntax.
    pub match_rule: String,
    /// An explicit priority, which takes the place of the rule's length.
    pub priority_override: Option<i64>,
    pub services: Option<Vec<Service>>,
}

#[derive(Debug)]
pub struct Service {
    pub name: String,
    pub port: Option<String>,
    pub weight: Option<i64>,
}

#[derive(Debug)]
pub struct ResourceList<T> {
    pub api_version: String,
    pub items: Vec<T>,
}

/// A route together with the name of the `IngressRoute` that holds it.
#[derive(Debug)]
pub struct NamedRoute {
    pub name: String,
    pub route: Route,
}

/// Traefik's priority of a route: its explicit priority if it has one, else
/// the length in bytes of its match rule.
pub open spec fn priority_of(r: Route) -> int {
    match r.priority_override {
        Some(p) => p as int,
        None => ((encode_utf8(r.match_rule@).len() as usize) as i64) as int,
    }
}

impl Route {
    pub fn priority(&self) -> (p: i64)
        ensures
            p == priority_of(*self),
            self.priority_override matches Some(q) ==> p == q,
    {
        match self.priority_override {
            Some(p) => p,
            None => self.match_rule.as_str().len() as i64,
        }
    }
}

/// An explicit priority is the route's priority, whatever its value.
pub proof fn law_explicit_priority(r: Route, q: i64)
    requires
        r.priority_override == Some(q),
    ensures
        priority_of(r) == q,
{
}

/// Without an explicit priority, a route's priority is the number of bytes
/// of its rule in UTF-8 (for any rule whose length fits in `usize` and in
/// `i64`).
pub proof fn law_default_priority(r: Route)
    requires
        r.priority_override is None,
        encode_utf8(r.match_rule@).len() <= i64::MAX,
        encode_utf8(r.match_rule@).len() <= usize::MAX,
    ensures
        priority_of(r) == encode_utf8(r.match_rule@).len(),
{
}

/// The lines that list a route's services.
pub open spec fn services_text(s: Seq<Service>) -> Seq<char>
    decreases s.len(),
{
    if s.len() == 0 {
        seq![]
    } else {
        services_text(s.drop_last()) + "\n\t- "@ + s.last().name@
    }
}

/// A route as listed: its rule and priority, then one line per service.
pub open spec fn route_text(r: Route) -> Seq<char> {
    r.match_rule@ + " ("@ + signed_decimal(priority_of(r)) + ")"@ + match r.services {
        Some(v) => services_text(v@),
        None => seq![],
    }
}

impl Route {
    /// The route as listed: `rule (priority)`, then a line `\t- name` for
    /// each service.
    pub fn to_string(&self) -> (s: String)
        ensures
            s@ == route_text(*self),
    {
        let mut s = String::new();
        s.append(self.match_rule.as_str());
        s.append(" (");
        let p = i64_text(self.priority());
        s.append(p.as_str());
        s.append(")");
        let ghost head = s@;
        if let Some(services) = &self.services {
            let n = services.len();
            let mut i: usize = 0;
            while i < n
                invariant
                    n == services@.len(),
                    i <= n,
                    s@ == head + services_text(services@.take(i as int)),
                decreases n - i,
            {
                assert(services@.take(i + 1).drop_last() == services@.take(i as int));
                s.append("\n\t- ");
                s.append(services[i].name.as_str());
                i = i + 1;
            }
            assert(services@.take(n as int) == services@);
        }
        s
    }
}

/// The routes of a list of `IngressRoute`s, each named after the resource
/// that holds it, in the order of the list.
pub open spec fn named_routes(items: Seq<IngressRoute>) -> Seq<NamedRoute>
    decreases items.len(),
{
    if items.len() == 0 {
        seq![]
    } else {
        let last = items.last();
        named_routes(items.drop_last()) + last.spec.routes@.map_values(
            |r: Route| NamedRoute { name: last.metadata.name, route: r },
        )
    }
}

/// The priority by which a named route is ordered.
pub open spec fn route_key(x: NamedRoute) -> int {
    priority_of(x.route)
}

/// The routes of priority `p`.
pub open spec fn has_priority(p: int) -> spec_fn(NamedRoute) -> bool {
    |x: NamedRoute| route_key(x) == p
}

/// Highest priority first.
pub open spec fn is_by_priority(s: Seq<NamedRoute>) -> bool {
    forall|i: int, j: int| 0 <= i < j < s.len() ==> route_key(s[i]) >= route_key(s[j])
}

/// `out` holds the routes of `input`, highest priority first, and routes of
/// equal priority in the order that `input` has them (a stable sort).
pub open spec fn is_stable_priority_order(out: Seq<NamedRoute>, input: Seq<NamedRoute>) -> bool {
    &&& out.len() == input.len()
    &&& is_by_priority(out)
    &&& forall|p: int| #[trigger] out.filter(has_priority(p)) == input.filter(has_priority(p))
}

/// No route has priority `i64::MIN`: routes are sorted by their negated
/// priority, and negating that value overflows.
pub open spec fn has_negatable_priorities(s: Seq<NamedRoute>) -> bool {
    forall|i: int| 0 <= i < s.len() ==> route_key(#[trigger] s[i]) != i64::MIN
}

proof fn lemma_filter_none(s: Seq<NamedRoute>, p: int)
    requires
        forall|i: int| 0 <= i < s.len() ==> route_key(#[trigger] s[i]) != p,
    ensures
        s.filter(has_priority(p)) == Seq::<NamedRoute>::empty(),
    decreases s.len(),
{
    reveal(Seq::filter);
    if s.len() > 0 {
        lemma_filter_none(s.drop_last(), p);
    }
}

/// Inserts `x` after every route of priority at least its own.
fn insert_by_priority(out: &mut Vec<NamedRoute>, x: NamedRoute)
    requires
        is_by_priority(old(out)@),
    ensures
        is_by_priority(final(out)@),
        final(out)@.len() == old(out)@.len() + 1,
        forall|p: int| #[trigger]
            final(out)@.filter(has_priority(p)) == old(out)@.push(x).filter(has_priority(p)),
{
    let key = x.route.priority();
    let mut k = out.len();
    while k > 0 && out[k - 1].route.priority() < key
        invariant
            k <= out@.len(),
            forall|i: int| k <= i < out@.len() ==> route_key(#[trigger] out@[i]) < key,
        decreases k,
    {
        k = k - 1;
    }
    let ghost old_out = out@;
    out.insert(k, x);
    proof {
        let pre = old_out.subrange(0, k as int);
        let suf = old_out.subrange(k as int, old_out.len() as int);
        assert(old_out == pre + suf);
        assert forall|p: int| #[trigger]
            out@.filter(has_priority(p)) == old_out.push(x).filter(has_priority(p)) by {
            Seq::filter_distributes_over_add(pre + seq![x], suf, has_priority(p));
            Seq::filter_distributes_over_add(pre, seq![x], has_priority(p));
            Seq::filter_distributes_over_add(pre, suf, has_priority(p));
            old_out.lemma_filter_push(x, has_priority(p));
            pre.lemma_filter_push(x, has_priority(p));
            if p == key {
                lemma_filter_none(suf, p);
                assert(pre.filter(has_priority(p)) + Seq::<NamedRoute>::empty() == pre.filter(
                    has_priority(p),
                ));
            } else {
                reveal_with_fuel(Seq::filter, 2);
                assert(pre.filter(has_priority(p)) + Seq::<NamedRoute>::empty() == pre.filter(
                    has_priority(p),
                ));
            }
        }
    }
}

/// The routes of all `IngressRoute`s of a list, each named after its
/// resource, highest priority first; routes of equal priority keep the order
/// of the list.
pub fn build_routes(list: ResourceList<IngressRoute>) -> (routes: Vec<NamedRoute>)
    requires
        has_negatable_priorities(named_routes(list.items@)),
    ensures
        is_stable_priority_order(routes@, named_routes(list.items@)),
{
    let ghost all = named_routes(list.items@);
    let mut routes: Vec<NamedRoute> = Vec::new();
    let mut items = list.items;
    let ghost items0 = items@;
    let ghost mut done: Seq<NamedRoute> = seq![];
    for ingress_route in it: items
        invariant
            all == named_routes(items0),
            it.seq() == items0,
            done == named_routes(items0.take(it.index() as int)),
            routes@.len() == done.len(),
            is_by_priority(routes@),
            forall|p: int| #[trigger] routes@.filter(has_priority(p)) == done.filter(has_priority(p)),
    {
        let ghost i = it.index();
        let name = ingress_route.metadata.name;
        let ghost before = done;
        let ghost rs = ingress_route.spec.routes@;
        let ghost f = |r: Route| NamedRoute { name: name, route: r };
        for route in rt: ingress_route.spec.routes
            invariant
                rt.seq() == rs,
                forall|r: Route| #[trigger] f(r) == (NamedRoute { name: name, route: r }),
                done == before + rs.take(rt.index() as int).map_values(f),
                routes@.len() == done.len(),
                is_by_priority(routes@),
                forall|p: int| #[trigger]
                    routes@.filter(has_priority(p)) == done.filter(has_priority(p)),
        {
            let ghost j = rt.index();
            let copy = name.clone();
            let named = NamedRoute { name: copy, route };
            let ghost nm = named;
            let ghost prior = routes@;
            insert_by_priority(&mut routes, named);
            proof {
                assert forall|p: int| #[trigger]
                    routes@.filter(has_priority(p)) == done.push(nm).filter(has_priority(p)) by {
                    prior.lemma_filter_push(nm, has_priority(p));
                    done.lemma_filter_push(nm, has_priority(p));
                }
                done = done.push(nm);
            }
        }
        proof {
            assert(rs.map_values(f) =~= rs.map_values(
                |r: Route| NamedRoute { name: items0[i as int].metadata.name, route: r },
            ));
            assert(items0.take(i + 1).drop_last() =~= items0.take(i as int));
        }
    }
    proof {
        assert(items0.take(items0.len() as int) =~= items0);
    }
    routes
}

} // verus!
