//! The abstract syntax tree of a Traefik match rule, its mathematical model,
//! and the renderer that writes a rule back in the rule syntax.
//!
//! Grammar (in order of increasing precedence):
//!
//! ```text
//! expr    := or
//! or      := and ( "||" and )*
//! and     := unary ( "&&" unary )*
//! unary   := "!" unary | primary
//! primary := "(" expr ")" | matcher
//! matcher := IDENT "(" ( value ( "," value )* )? ")"
//! value   := "`" ... "`" | "\"" ... "\""
//! ```

use vstd::prelude::*;

verus! {

/// The parsed abstract syntax tree of a Traefik match rule.
#[derive(Debug, PartialEq, Eq)]
pub enum Rule {
    /// A leaf matcher such as `Host(`example.com`)`.
    Matcher(Matcher),
    /// Negation, e.g. `!Path(`/foo`)`.
    Not(Box<Rule>),
    /// Logical AND of two rules.
    And(Box<Rule>, Box<Rule>),
    /// Logical OR of two rules.
    Or(Box<Rule>, Box<Rule>),
}

/// A single matcher function call, e.g. `Header(`X-Foo`, `bar`)`.
#[derive(Debug, PartialEq, Eq)]
pub struct Matcher {
    pub name: String,
    pub args: Vec<String>,
}

/// The mathematical value of a rule: names and arguments as character
/// sequences.
pub enum RuleModel {
    Matcher(Seq<char>, Seq<Seq<char>>),
    Not(Box<RuleModel>),
    And(Box<RuleModel>, Box<RuleModel>),
    Or(Box<RuleModel>, Box<RuleModel>),
}

/// The character sequences of a list of strings.
pub open spec fn texts(v: Seq<String>) -> Seq<Seq<char>> {
    v.map_values(|a: String| a@)
}

impl Matcher {
    /// The model of the matcher as a leaf rule.
    pub open spec fn model(&self) -> RuleModel {
        RuleModel::Matcher(self.name@, texts(self.args@))
    }
}

impl View for Matcher {
    type V = RuleModel;

    open spec fn view(&self) -> RuleModel {
        self.model()
    }
}

impl Clone for Matcher {
    fn clone(&self) -> (m: Self)
        ensures
            m@ == self@,
    {
        let mut args: Vec<String> = Vec::new();
        let n = self.args.len();
        let mut i: usize = 0;
        while i < n
            invariant
                n == self.args@.len(),
                i <= n,
                texts(args@) == texts(self.args@).take(i as int),
            decreases n - i,
        {
            let a = self.args[i].clone();
            let ghost prev = args@;
            args.push(a);
            assert(texts(args@) =~= texts(prev).push(a@));
            assert(texts(self.args@).take(i + 1) =~= texts(self.args@).take(i as int).push(a@));
            i = i + 1;
        }
        assert(texts(self.args@).take(n as int) =~= texts(self.args@));
        Matcher { name: self.name.clone(), args }
    }
}

impl Clone for Rule {
    fn clone(&self) -> (r: Self)
        ensures
            r@ == self@,
        decreases self,
    {
        match self {
            Rule::Matcher(m) => Rule::Matcher(m.clone()),
            Rule::Not(x) => Rule::Not(Box::new((**x).clone())),
            Rule::And(a, b) => Rule::And(Box::new((**a).clone()), Box::new((**b).clone())),
            Rule::Or(a, b) => Rule::Or(Box::new((**a).clone()), Box::new((**b).clone())),
        }
    }
}

/// A matcher of one argument, named `name`.
fn unary_matcher(name: &str, value: String) -> (m: Matcher)
    ensures
        m.name@ == name@,
        texts(m.args@) == seq![value@],
{
    let mut args: Vec<String> = Vec::new();
    args.push(value);
    Matcher { name: name.to_owned(), args }
}

/// The matchers that route requests, by the names they have in the rule
/// syntax.
#[allow(non_snake_case)]
impl Matcher {
    /// `Host(`value`)`: the request's host is `value`.
    pub fn Host(value: String) -> (m: Matcher)
        ensures
            m.name@ == "Host"@,
            texts(m.args@) == seq![value@],
    {
        unary_matcher("Host", value)
    }

    /// `Path(`value`)`: the request's path is `value`.
    pub fn Path(value: String) -> (m: Matcher)
        ensures
            m.name@ == "Path"@,
            texts(m.args@) == seq![value@],
    {
        unary_matcher("Path", value)
    }

    /// `PathPrefix(`value`)`: the request's path starts with `value`.
    pub fn PathPrefix(value: String) -> (m: Matcher)
        ensures
            m.name@ == "PathPrefix"@,
            texts(m.args@) == seq![value@],
    {
        unary_matcher("PathPrefix", value)
    }

    /// `PathRegexp(`value`)`: the regular expression `value` matches in the
    /// request's path.
    pub fn PathRegexp(value: String) -> (m: Matcher)
        ensures
            m.name@ == "PathRegexp"@,
            texts(m.args@) == seq![value@],
    {
        unary_matcher("PathRegexp", value)
    }

    /// `Method(`value`)`: the request's method is `value`.
    pub fn Method(value: String) -> (m: Matcher)
        ensures
            m.name@ == "Method"@,
            texts(m.args@) == seq![value@],
    {
        unary_matcher("Method", value)
    }
}

impl Rule {
    pub open spec fn model(&self) -> RuleModel
        decreases self,
    {
        match self {
            Rule::Matcher(m) => m.model(),
            Rule::Not(x) => RuleModel::Not(Box::new(x.model())),
            Rule::And(a, b) => RuleModel::And(Box::new(a.model()), Box::new(b.model())),
            Rule::Or(a, b) => RuleModel::Or(Box::new(a.model()), Box::new(b.model())),
        }
    }
}

impl View for Rule {
    type V = RuleModel;

    open spec fn view(&self) -> RuleModel {
        self.model()
    }
}

/// Binding strength of a rule's outermost operator: `||` binds loosest,
/// a matcher tightest.
pub open spec fn precedence(r: RuleModel) -> nat {
    match r {
        RuleModel::Or(..) => 1,
        RuleModel::And(..) => 2,
        RuleModel::Not(..) => 3,
        RuleModel::Matcher(..) => 4,
    }
}

/// A value written between backticks.
pub open spec fn quoted(a: Seq<char>) -> Seq<char> {
    seq!['`'] + a + seq!['`']
}

/// The argument list of a matcher: each value quoted, separated by `, `.
pub open spec fn render_args(args: Seq<Seq<char>>) -> Seq<char>
    decreases args.len(),
{
    if args.len() == 0 {
        seq![]
    } else if args.len() == 1 {
        quoted(args[0])
    } else {
        render_args(args.drop_last()) + seq![',', ' '] + quoted(args.last())
    }
}

/// The text of a rule, in a context whose operator binds with strength
/// `parent`: the rule is put in parentheses when it binds less strongly.
pub open spec fn render(r: RuleModel, parent: nat) -> Seq<char>
    decreases r,
{
    let body = match r {
        RuleModel::Matcher(name, args) => name + seq!['('] + render_args(args) + seq![')'],
        RuleModel::Not(x) => seq!['!'] + render(*x, 3),
        RuleModel::And(a, b) => render(*a, 2) + seq![' ', '&', '&', ' '] + render(*b, 2),
        RuleModel::Or(a, b) => render(*a, 1) + seq![' ', '|', '|', ' '] + render(*b, 1),
    };
    if precedence(r) < parent {
        seq!['('] + body + seq![')']
    } else {
        body
    }
}

/// A rule is written in parentheses exactly when it binds less strongly
/// than its context; inside them, and in any other context, its text is the
/// same. (`fmt_prec` writes `render(r, parent)`.)
pub proof fn law_render_parenthesizes(r: RuleModel, parent: nat)
    ensures
        render(r, parent) == if precedence(r) < parent {
            seq!['('] + render(r, 0) + seq![')']
        } else {
            render(r, 0)
        },
{
}

impl Rule {
    fn precedence(&self) -> (p: u8)
        ensures
            p == precedence(self@),
    {
        match self {
            Rule::Or(..) => 1,
            Rule::And(..) => 2,
            Rule::Not(..) => 3,
            Rule::Matcher(..) => 4,
        }
    }

    /// Render the rule, parenthesizing children whose precedence is lower
    /// than the surrounding context.
    fn fmt_prec(&self, f: &mut String, parent: u8)
        ensures
            final(f)@ == old(f)@ + render(self@, parent as nat),
        decreases self,
    {
        let needs_parens = self.precedence() < parent;
        if needs_parens {
            f.append("(");
        }
        match self {
            Rule::Matcher(m) => {
                f.append(m.name.as_str());
                f.append("(");
                let ghost before = f@;
                let n = m.args.len();
                let mut i: usize = 0;
                while i < n
                    invariant
                        n == m.args@.len(),
                        i <= n,
                        f@ == before + render_args(texts(m.args@).take(i as int)),
                    decreases n - i,
                {
                    proof {
                        assert(texts(m.args@).take(i + 1).drop_last() == texts(m.args@).take(
                            i as int,
                        ));
                        reveal_strlit(", ");
                        reveal_strlit("`");
                    }
                    if i > 0 {
                        f.append(", ");
                    }
                    f.append("`");
                    f.append(m.args[i].as_str());
                    f.append("`");
                    i = i + 1;
                }
                assert(texts(m.args@).take(n as int) == texts(m.args@));
                f.append(")");
            },
            Rule::Not(inner) => {
                f.append("!");
                inner.fmt_prec(f, 3);
            },
            Rule::And(lhs, rhs) => {
                lhs.fmt_prec(f, 2);
                f.append(" && ");
                rhs.fmt_prec(f, 2);
            },
            Rule::Or(lhs, rhs) => {
                lhs.fmt_prec(f, 1);
                f.append(" || ");
                rhs.fmt_prec(f, 1);
            },
        }
        if needs_parens {
            f.append(")");
        }
        proof {
            reveal_strlit("(");
            reveal_strlit(")");
            reveal_strlit("!");
            reveal_strlit(" && ");
            reveal_strlit(" || ");
        }
    }

    /// The rule in the match-rule syntax, with the fewest parentheses that
    /// keep its structure.
    pub fn to_string(&self) -> (s: String)
        ensures
            s@ == render(self@, 0),
    {
        let mut s = String::new();
        self.fmt_prec(&mut s, 0);
        s
    }
}

} // verus!
