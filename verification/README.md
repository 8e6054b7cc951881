# highway

A small CLI for inspecting [Traefik](https://traefik.io/) routing in a
Kubernetes cluster: it reads the `IngressRoute` resources of the current
cluster through `kubectl`, lists the routes by routing priority, and finds the
route that a request would take.

The library under `src/` is verified with [Verus](https://github.com/verus-lang/verus):

- `lexer.rs` and `rule_parser.rs`: the match-rule syntax (`Host`, `Path`,
  `PathPrefix`, `PathRegexp`, `Method`, combined with `&&`, `||`, `!` and
  parentheses), specified as spec functions over characters and tokens, and
  the tokenizer and recursive-descent parser proved against them, error
  messages included.
- `rule.rs`: the rule tree, its model, and the renderer (`Rule::to_string`).
- `round_trip.rs`: parsing a rendered rule gives the rule back, for rules
  whose values hold no backtick and in which no `&&` (`||`) has another
  `&&` (`||`) as its right operand: the text of such a rule leaves out the
  parentheses that it needs, and regroups to the left.
- `routing_laws.rs`: the routing parse (`parse_rule`) agrees with the plain
  parse (`Rule::parse`) on rules whose matchers all route requests.
- `k8s.rs`: the resources, route priorities, and the stable ordering of
  routes by priority.
- `request.rs`: requests, and which rule and which route a request matches.
- `text.rs`: character helpers and the few standard-library calls that the
  library relies on.

`app/` holds the command line: `kubectl`, YAML decoding and printing.
`tests/` holds the tests.
