//! Requests, and which rules and routes they match.

use crate::k8s::NamedRoute;
use crate::rule::{texts, Matcher, Rule, RuleModel};
use crate::rule_parser::{
    failure_message, spec_parse, try_parse_rule, ParseFailure, RuleError, SyntaxFailure,
};
use crate::text::{chars_of, is_ascii_letter, text_eq};
use url::ParseError as UrlError;
use vstd::prelude::*;

verus! {

/// The `url` crate's parse error, carried through as the error of
/// `Request::new`.
#[verifier::external_type_specification]
#[verifier::external_body]
pub struct ExUrlError(UrlError);

/// The host and the path of a URL as the `url` crate parses it (WHATWG URL
/// parsing: the host without port, lower-cased and punycode-encoded for
/// special schemes; the path percent-encoded), or none when the text is not
/// an absolute URL.
pub uninterp spec fn url_host_and_path(url: Seq<char>) -> Option<(Option<Seq<char>>, Seq<char>)>;

/// The characters of an optional text.
pub open spec fn opt_text(t: Option<String>) -> Option<Seq<char>> {
    match t {
        Some(s) => Some(s@),
        None => None,
    }
}

/// `url::Url::parse`, read through `Url::host_str` and `Url::path`.
#[verifier::external_body]
fn parse_url(url: &str) -> (res: Result<(Option<String>, String), UrlError>)
    ensures
        match res {
            Ok((host, path)) => url_host_and_path(url@) == Some((opt_text(host), path@)),
            Err(_) => url_host_and_path(url@) is None,
        },
{
    url::Url::parse(url).map(|u| (u.host_str().map(|h| h.to_string()), u.path().to_string()))
}

/// Whether the `regex` crate finds a match of `pattern` anywhere in `text`,
/// or none when `pattern` does not compile.
pub uninterp spec fn regex_finds(pattern: Seq<char>, text: Seq<char>) -> Option<bool>;

/// `regex::Regex::new(pattern)`, then `Regex::is_match(text)` on the
/// compiled pattern.
#[verifier::external_body]
fn regex_search(pattern: &str, text: &str) -> (res: Option<bool>)
    ensures
        res == regex_finds(pattern@, text@),
{
    match regex::Regex::new(pattern) {
        Ok(re) => Some(re.is_match(text)),
        Err(_) => None,
    }
}

/// An HTTP request as routing sees it.
pub struct Request {
    /// The host of the request URL, if it has one.
    pub host: Option<String>,
    /// The path of the request URL.
    pub path: String,
    /// The HTTP method.
    pub method: String,
}

/// The mathematical value of a request.
pub struct RequestModel {
    pub host: Option<Seq<char>>,
    pub path: Seq<char>,
    pub method: Seq<char>,
}

impl View for Request {
    type V = RequestModel;

    open spec fn view(&self) -> RequestModel {
        RequestModel { host: opt_text(self.host), path: self.path@, method: self.method@ }
    }
}

impl Request {
    /// The request for `url` with `method`, or the `url` crate's error when
    /// `url` is not an absolute URL.
    pub fn new(url: &str, method: String) -> (res: Result<Request, UrlError>)
        ensures
            match url_host_and_path(url@) {
                Some((host, path)) => res matches Ok(r) && r@ == (RequestModel {
                    host,
                    path,
                    method: method@,
                }),
                None => res is Err,
            },
    {
        match parse_url(url) {
            Ok((host, path)) => Ok(Request { host, path, method }),
            Err(e) => Err(e),
        }
    }
}

/// A letter in lower case, for ASCII letters.
pub open spec fn ascii_lower(c: char) -> char {
    if 'A' <= c && c <= 'Z' {
        ((c as u32) + 32) as char
    } else {
        c
    }
}

/// Equal texts up to the case of ASCII letters.
pub open spec fn same_ignoring_case(a: Seq<char>, b: Seq<char>) -> bool {
    &&& a.len() == b.len()
    &&& forall|i: int| 0 <= i < a.len() ==> ascii_lower(#[trigger] a[i]) == ascii_lower(b[i])
}

/// Whether a matcher holds of a request: `Host` compares the host without
/// regard to ASCII case, `Path` and `Method` compare exactly, `PathPrefix`
/// tests a prefix of the path, and `PathRegexp` searches the path with the
/// regular expression (a pattern that does not compile matches nothing).
/// Other matchers, and those without exactly one argument, hold of no
/// request.
pub open spec fn matcher_holds(name: Seq<char>, args: Seq<Seq<char>>, req: RequestModel) -> bool {
    if args.len() != 1 {
        false
    } else if name == "Host"@ {
        req.host matches Some(h) && same_ignoring_case(h, args[0])
    } else if name == "Path"@ {
        req.path == args[0]
    } else if name == "PathPrefix"@ {
        args[0].is_prefix_of(req.path)
    } else if name == "PathRegexp"@ {
        regex_finds(args[0], req.path) == Some(true)
    } else if name == "Method"@ {
        req.method == args[0]
    } else {
        false
    }
}

/// Whether a rule holds of a request.
pub open spec fn rule_holds(r: RuleModel, req: RequestModel) -> bool
    decreases r,
{
    match r {
        RuleModel::Matcher(name, args) => matcher_holds(name, args, req),
        RuleModel::Not(x) => !rule_holds(*x, req),
        RuleModel::And(a, b) => rule_holds(*a, req) && rule_holds(*b, req),
        RuleModel::Or(a, b) => rule_holds(*a, req) || rule_holds(*b, req),
    }
}

fn lower(c: char) -> (d: char)
    ensures
        d == ascii_lower(c),
{
    if 'A' <= c && c <= 'Z' {
        let u = (c as u8) + 32;
        u as char
    } else {
        c
    }
}

fn same_ignoring_case_exec(a: &str, b: &str) -> (r: bool)
    ensures
        r == same_ignoring_case(a@, b@),
{
    let x = chars_of(a);
    let y = chars_of(b);
    if x.len() != y.len() {
        return false;
    }
    let n = x.len();
    let mut i: usize = 0;
    while i < n
        invariant
            n == x@.len() == y@.len(),
            x@ == a@,
            y@ == b@,
            i <= n,
            forall|k: int| 0 <= k < i ==> ascii_lower(#[trigger] x@[k]) == ascii_lower(y@[k]),
        decreases n - i,
    {
        if lower(x[i]) != lower(y[i]) {
            return false;
        }
        i = i + 1;
    }
    true
}

fn starts_with(text: &str, prefix: &str) -> (r: bool)
    ensures
        r == prefix@.is_prefix_of(text@),
{
    let t = chars_of(text);
    let p = chars_of(prefix);
    if p.len() > t.len() {
        return false;
    }
    let n = p.len();
    let mut i: usize = 0;
    while i < n
        invariant
            n == p@.len() <= t@.len(),
            p@ == prefix@,
            t@ == text@,
            i <= n,
            forall|k: int| 0 <= k < i ==> p@[k] == t@[k],
        decreases n - i,
    {
        if p[i] != t[i] {
            return false;
        }
        i = i + 1;
    }
    true
}

impl Matcher {
    /// Whether the matcher holds of a request.
    pub fn match_request(&self, request: &Request) -> (b: bool)
        ensures
            b == matcher_holds(self.name@, texts(self.args@), request@),
    {
        if self.args.len() != 1 {
            return false;
        }
        let arg = self.args[0].as_str();
        let name = self.name.as_str();
        if text_eq(name, "Host") {
            match &request.host {
                Some(h) => same_ignoring_case_exec(h.as_str(), arg),
                None => false,
            }
        } else if text_eq(name, "Path") {
            text_eq(request.path.as_str(), arg)
        } else if text_eq(name, "PathPrefix") {
            starts_with(request.path.as_str(), arg)
        } else if text_eq(name, "PathRegexp") {
            regex_search(arg, request.path.as_str()) == Some(true)
        } else if text_eq(name, "Method") {
            text_eq(request.method.as_str(), arg)
        } else {
            false
        }
    }
}

impl Rule {
    /// Whether the rule holds of a request.
    pub fn match_request(&self, request: &Request) -> (b: bool)
        ensures
            b == rule_holds(self@, request@),
        decreases self,
    {
        match self {
            Rule::Matcher(m) => m.match_request(request),
            Rule::Not(x) => !x.match_request(request),
            Rule::And(a, b) => a.match_request(request) && b.match_request(request),
            Rule::Or(a, b) => a.match_request(request) || b.match_request(request),
        }
    }
}

/// The first route, from index `i` on, whose rule (read as a routing rule)
/// holds of the request; a rule met before it that does not parse ends the
/// search with its index and failure.
pub open spec fn first_matching_route(routes: Seq<NamedRoute>, req: RequestModel, i: int) -> Result<
    Option<int>,
    (int, ParseFailure),
>
    decreases routes.len() - i,
{
    if i >= routes.len() {
        Ok(None)
    } else {
        match spec_parse(routes[i].route.match_rule@, true) {
            Err(f) => Err((i, f)),
            Ok(r) => if rule_holds(r, req) {
                Ok(Some(i))
            } else {
                first_matching_route(routes, req, i + 1)
            },
        }
    }
}

/// The index of the first route, in the given order, whose rule holds of the
/// request; or the error of the first rule met before it that is not a
/// routing rule.
pub fn match_routes(routes: &Vec<NamedRoute>, request: &Request) -> (res: Result<
    Option<usize>,
    RuleError,
>)
    ensures
        match first_matching_route(routes@, request@, 0) {
            Ok(found) => res matches Ok(x) && found == match x {
                Some(k) => Some(k as int),
                None => None,
            },
            Err((_, ParseFailure::Syntax(SyntaxFailure::Unsupported(name, args)))) => res matches Err(
                RuleError::Unsupported(m),
            ) && m.name@ == name && texts(m.args@) == args,
            Err((k, f)) => res matches Err(RuleError::Invalid(e)) && e.message@ == failure_message(
                routes@[k].route.match_rule@,
                f,
            ),
        },
{
    let mut i: usize = 0;
    while i < routes.len()
        invariant
            i <= routes@.len(),
            first_matching_route(routes@, request@, 0) == first_matching_route(
                routes@,
                request@,
                i as int,
            ),
        decreases routes@.len() - i,
    {
        let rule = match try_parse_rule(routes[i].route.match_rule.as_str()) {
            Ok(r) => r,
            Err(e) => return Err(e),
        };
        if rule.match_request(request) {
            return Ok(Some(i));
        }
        i = i + 1;
    }
    Ok(None)
}

/// Two characters are the same letter in either case: equal, or ASCII
/// letters whose codes differ by the distance between the cases.
pub open spec fn same_letter(x: char, y: char) -> bool {
    ||| x == y
    ||| is_ascii_letter(x) && is_ascii_letter(y) && (x as u32 - y as u32 == 32 || y as u32 - x as u32
        == 32)
}

/// `Host` holds when the request has a host that equals the value letter by
/// letter, either case.
pub proof fn law_host_matcher(v: Seq<char>, req: RequestModel)
    ensures
        matcher_holds("Host"@, seq![v], req) <==> (req.host matches Some(h) && h.len() == v.len()
            && forall|k: int| 0 <= k < v.len() ==> same_letter(#[trigger] h[k], v[k])),
{
    reveal_strlit("Host");
    if let Some(h) = req.host {
        if h.len() == v.len() {
            assert forall|k: int| 0 <= k < v.len() implies (same_letter(#[trigger] h[k], v[k])
                <==> ascii_lower(h[k]) == ascii_lower(v[k])) by {
                broadcast use vstd::utf8::char_u32_cast;

                let x = h[k];
                let y = v[k];
                let lx = ascii_lower(x);
                let ly = ascii_lower(y);
                assert(lx as u32 == if 'A' <= x && x <= 'Z' { x as u32 + 32 } else { x as u32 as int });
                assert(ly as u32 == if 'A' <= y && y <= 'Z' { y as u32 + 32 } else { y as u32 as int });
            }
        }
    }
}

/// `Path` holds when the request path equals the value.
pub proof fn law_path_matcher(v: Seq<char>, req: RequestModel)
    ensures
        matcher_holds("Path"@, seq![v], req) <==> req.path == v,
{
    reveal_strlit("Host");
    reveal_strlit("Path");
    assert("Path"@[0] != "Host"@[0]);
    assert(seq![v][0] == v);
}

/// `PathPrefix` holds when the request path starts with every character of
/// the value.
pub proof fn law_path_prefix_matcher(v: Seq<char>, req: RequestModel)
    ensures
        matcher_holds("PathPrefix"@, seq![v], req) <==> (v.len() <= req.path.len() && forall|k: int|
            0 <= k < v.len() ==> v[k] == #[trigger] req.path[k]),
{
    reveal_strlit("Host");
    reveal_strlit("Path");
    reveal_strlit("PathPrefix");
    assert(seq![v][0] == v);
    assert("PathPrefix"@.len() != "Path"@.len());
    assert("PathPrefix"@.len() != "Host"@.len());
    if v.len() <= req.path.len() {
        if forall|k: int| 0 <= k < v.len() ==> v[k] == #[trigger] req.path[k] {
            assert(v =~= req.path.subrange(0, v.len() as int));
        }
        if v =~= req.path.subrange(0, v.len() as int) {
            assert forall|k: int| 0 <= k < v.len() implies v[k] == #[trigger] req.path[k] by {
                assert(req.path.subrange(0, v.len() as int)[k] == req.path[k]);
            }
        }
    }
}

/// `PathRegexp` holds when the regular expression finds a match in the
/// request path.
pub proof fn law_path_regexp_matcher(v: Seq<char>, req: RequestModel)
    ensures
        matcher_holds("PathRegexp"@, seq![v], req) <==> regex_finds(v, req.path) == Some(true),
{
    assert(seq![v][0] == v);
    reveal_strlit("Host");
    reveal_strlit("Path");
    reveal_strlit("PathPrefix");
    reveal_strlit("PathRegexp");
    assert("PathRegexp"@[4] != "PathPrefix"@[4]);
    assert("PathRegexp"@.len() != "Path"@.len());
    assert("PathRegexp"@.len() != "Host"@.len());
}

/// `Method` holds when the request method equals the value.
pub proof fn law_method_matcher(v: Seq<char>, req: RequestModel)
    ensures
        matcher_holds("Method"@, seq![v], req) <==> req.method == v,
{
    reveal_strlit("Host");
    reveal_strlit("Path");
    reveal_strlit("PathPrefix");
    reveal_strlit("PathRegexp");
    reveal_strlit("Method");
    assert("Method"@[0] != "Path"@[0]);
    assert(seq![v][0] == v);
}

/// A matcher holds of no request unless it has exactly one argument.
pub proof fn law_matcher_arity(name: Seq<char>, args: Seq<Seq<char>>, req: RequestModel)
    requires
        args.len() != 1,
    ensures
        !matcher_holds(name, args, req),
{
}

/// `!`, `&&` and `||` are negation, conjunction and disjunction of what their
/// operands say of the request.
pub proof fn law_rule_operators(a: RuleModel, b: RuleModel, req: RequestModel)
    ensures
        rule_holds(RuleModel::Not(Box::new(a)), req) <==> !rule_holds(a, req),
        rule_holds(RuleModel::And(Box::new(a), Box::new(b)), req) <==> (rule_holds(a, req)
            && rule_holds(b, req)),
        rule_holds(RuleModel::Or(Box::new(a), Box::new(b)), req) <==> (rule_holds(a, req)
            || rule_holds(b, req)),
{
}

/// Route `j` reads as a routing rule that does not hold of the request.
pub open spec fn route_misses(routes: Seq<NamedRoute>, req: RequestModel, j: int) -> bool {
    spec_parse(routes[j].route.match_rule@, true) matches Ok(r) && !rule_holds(r, req)
}

proof fn lemma_search_passes(routes: Seq<NamedRoute>, req: RequestModel, i: int, k: int)
    requires
        0 <= i <= k <= routes.len(),
        forall|j: int| 0 <= j < k ==> route_misses(routes, req, j),
    ensures
        first_matching_route(routes, req, i) == first_matching_route(routes, req, k),
    decreases k - i,
{
    if i < k {
        assert(route_misses(routes, req, i));
        lemma_search_passes(routes, req, i + 1, k);
    }
}

/// The search stops at the first route whose rule holds, whichever its
/// place in the list, the last included.
pub proof fn law_first_match_wins(routes: Seq<NamedRoute>, req: RequestModel, k: int)
    requires
        0 <= k < routes.len(),
        forall|j: int| 0 <= j < k ==> route_misses(routes, req, j),
        spec_parse(routes[k].route.match_rule@, true) matches Ok(r) && rule_holds(r, req),
    ensures
        first_matching_route(routes, req, 0) == Ok::<_, (int, ParseFailure)>(Some(k)),
{
    lemma_search_passes(routes, req, 0, k);
}

/// When no rule holds, no route is found.
pub proof fn law_no_match(routes: Seq<NamedRoute>, req: RequestModel)
    requires
        forall|j: int| 0 <= j < routes.len() ==> route_misses(routes, req, j),
    ensures
        first_matching_route(routes, req, 0) == Ok::<Option<int>, (int, ParseFailure)>(None),
{
    lemma_search_passes(routes, req, 0, routes.len() as int);
}

/// A rule that does not parse, met before any match, ends the search with
/// its index and failure.
pub proof fn law_first_failure_stops(routes: Seq<NamedRoute>, req: RequestModel, k: int, f: ParseFailure)
    requires
        0 <= k < routes.len(),
        forall|j: int| 0 <= j < k ==> route_misses(routes, req, j),
        spec_parse(routes[k].route.match_rule@, true) == Err::<RuleModel, _>(f),
    ensures
        first_matching_route(routes, req, 0) == Err::<Option<int>, _>((k, f)),
{
    lemma_search_passes(routes, req, 0, k);
}

} // verus!