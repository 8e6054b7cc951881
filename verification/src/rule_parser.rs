//! Parser for the Traefik HTTP router match rule syntax: the grammar as
//! spec functions over tokens, and the recursive-descent parser proved
//! against it.

use crate::lexer::{lex, lex_message, token_models, token_text, tokenize, LexFailure, Token, TokenModel};
use crate::rule::{texts, Matcher, Rule, RuleModel};
use crate::text::{text_eq};
use vstd::prelude::*;

verus! {

/// An error produced while tokenizing or parsing a match rule.
#[derive(Debug, Clone, PartialEq, Eq)]
pub struct ParseError {
    pub message: String,
}

impl ParseError {
    pub fn new(message: String) -> (e: ParseError)
        ensures
            e.message == message,
    {
        ParseError { message }
    }

    /// The error as it is shown: `invalid match rule: ` and the message.
    pub fn to_string(&self) -> (s: String)
        ensures
            s@ == "invalid match rule: "@ + self.message@,
    {
        let mut s = String::new();
        s.append("invalid match rule: ");
        s.append(self.message.as_str());
        s
    }
}

/// Why a token list is not a rule.
pub enum SyntaxFailure {
    /// A whole rule was read, and this token follows it.
    Trailing(TokenModel),
    /// The first token was needed, the second (if any) was found.
    Expected(TokenModel, Option<TokenModel>),
    ExpectedPrimary(Option<TokenModel>),
    ExpectedValue(Option<TokenModel>),
    ExpectedCommaOrParen(Option<TokenModel>),
    /// In a rule that routes requests, a matcher other than `Host`, `Path`,
    /// `PathPrefix`, `PathRegexp` or `Method` with one argument.
    Unsupported(Seq<char>, Seq<Seq<char>>),
}

/// Why a text is not a rule.
pub enum ParseFailure {
    Lex(LexFailure),
    Syntax(SyntaxFailure),
}

/// The token at position `p`, if there is one.
pub open spec fn token_at(ts: Seq<TokenModel>, p: int) -> Option<TokenModel> {
    if 0 <= p < ts.len() {
        Some(ts[p])
    } else {
        None
    }
}

/// The matchers that a routing rule may use: `Host`, `Path`, `PathPrefix`,
/// `PathRegexp` and `Method`, each with exactly one argument.
pub open spec fn is_supported_matcher(name: Seq<char>, args: Seq<Seq<char>>) -> bool {
    &&& args.len() == 1
    &&& {
        ||| name == "Host"@
        ||| name == "Path"@
        ||| name == "PathPrefix"@
        ||| name == "PathRegexp"@
        ||| name == "Method"@
    }
}

/// `or := and ( "||" and )*`: the rule that starts at `pos`, and the position
/// after it. With `typed`, only supported matchers are accepted.
pub open spec fn parse_or(ts: Seq<TokenModel>, pos: int, typed: bool) -> Result<
    (RuleModel, int),
    SyntaxFailure,
>
    decreases ts.len() - pos, 3int,
{
    match parse_and(ts, pos, typed) {
        Ok((l, p)) => if pos < p <= ts.len() {
            or_tail(ts, p, l, typed)
        } else {
            Ok((l, p))
        },
        Err(e) => Err(e),
    }
}

/// The `( "||" and )*` part: `left` is what was read so far.
pub open spec fn or_tail(ts: Seq<TokenModel>, pos: int, left: RuleModel, typed: bool) -> Result<
    (RuleModel, int),
    SyntaxFailure,
>
    decreases ts.len() - pos, 4int,
{
    if token_at(ts, pos) == Some(TokenModel::Or) {
        match parse_and(ts, pos + 1, typed) {
            Ok((r, p)) => if pos < p <= ts.len() {
                or_tail(ts, p, RuleModel::Or(Box::new(left), Box::new(r)), typed)
            } else {
                Ok((left, pos))
            },
            Err(e) => Err(e),
        }
    } else {
        Ok((left, pos))
    }
}

/// `and := unary ( "&&" unary )*`.
pub open spec fn parse_and(ts: Seq<TokenModel>, pos: int, typed: bool) -> Result<
    (RuleModel, int),
    SyntaxFailure,
>
    decreases ts.len() - pos, 2int,
{
    match parse_unary(ts, pos, typed) {
        Ok((l, p)) => if pos < p <= ts.len() {
            and_tail(ts, p, l, typed)
        } else {
            Ok((l, p))
        },
        Err(e) => Err(e),
    }
}

/// The `( "&&" unary )*` part: `left` is what was read so far.
pub open spec fn and_tail(ts: Seq<TokenModel>, pos: int, left: RuleModel, typed: bool) -> Result<
    (RuleModel, int),
    SyntaxFailure,
>
    decreases ts.len() - pos, 4int,
{
    if token_at(ts, pos) == Some(TokenModel::And) {
        match parse_unary(ts, pos + 1, typed) {
            Ok((r, p)) => if pos < p <= ts.len() {
                and_tail(ts, p, RuleModel::And(Box::new(left), Box::new(r)), typed)
            } else {
                Ok((left, pos))
            },
            Err(e) => Err(e),
        }
    } else {
        Ok((left, pos))
    }
}

/// `unary := "!" unary | primary`.
pub open spec fn parse_unary(ts: Seq<TokenModel>, pos: int, typed: bool) -> Result<
    (RuleModel, int),
    SyntaxFailure,
>
    decreases ts.len() - pos, 1int,
{
    if token_at(ts, pos) == Some(TokenModel::Not) {
        match parse_unary(ts, pos + 1, typed) {
            Ok((r, p)) => Ok((RuleModel::Not(Box::new(r)), p)),
            Err(e) => Err(e),
        }
    } else {
        parse_primary(ts, pos, typed)
    }
}

/// `primary := "(" expr ")" | matcher`.
pub open spec fn parse_primary(ts: Seq<TokenModel>, pos: int, typed: bool) -> Result<
    (RuleModel, int),
    SyntaxFailure,
>
    decreases ts.len() - pos, 0int,
{
    match token_at(ts, pos) {
        Some(TokenModel::LParen) => match parse_or(ts, pos + 1, typed) {
            Ok((r, p)) => if token_at(ts, p) == Some(TokenModel::RParen) {
                Ok((r, p + 1))
            } else {
                Err(SyntaxFailure::Expected(TokenModel::RParen, token_at(ts, p)))
            },
            Err(e) => Err(e),
        },
        Some(TokenModel::Ident(name)) => if token_at(ts, pos + 1) == Some(TokenModel::LParen) {
            match parse_args(ts, pos + 2) {
                Ok((args, p)) => if typed && !is_supported_matcher(name, args) {
                    Err(SyntaxFailure::Unsupported(name, args))
                } else {
                    Ok((RuleModel::Matcher(name, args), p))
                },
                Err(e) => Err(e),
            }
        } else {
            Err(SyntaxFailure::Expected(TokenModel::LParen, token_at(ts, pos + 1)))
        },
        t => Err(SyntaxFailure::ExpectedPrimary(t)),
    }
}

/// The arguments of a matcher, after its `(`: the values and the position
/// after the closing `)`.
pub open spec fn parse_args(ts: Seq<TokenModel>, pos: int) -> Result<
    (Seq<Seq<char>>, int),
    SyntaxFailure,
> {
    if token_at(ts, pos) == Some(TokenModel::RParen) {
        Ok((seq![], pos + 1))
    } else {
        parse_values(ts, pos)
    }
}

/// `value ( "," value )* ")"`.
pub open spec fn parse_values(ts: Seq<TokenModel>, pos: int) -> Result<
    (Seq<Seq<char>>, int),
    SyntaxFailure,
>
    decreases ts.len() - pos,
{
    match token_at(ts, pos) {
        Some(TokenModel::Value(v)) => match token_at(ts, pos + 1) {
            Some(TokenModel::Comma) => match parse_values(ts, pos + 2) {
                Ok((vs, p)) => Ok((seq![v] + vs, p)),
                Err(e) => Err(e),
            },
            Some(TokenModel::RParen) => Ok((seq![v], pos + 2)),
            t => Err(SyntaxFailure::ExpectedCommaOrParen(t)),
        },
        t => Err(SyntaxFailure::ExpectedValue(t)),
    }
}

/// The position after a value list lies past its start, within the tokens.
pub proof fn lemma_values_advance(ts: Seq<TokenModel>, pos: int)
    requires
        0 <= pos,
    ensures
        parse_values(ts, pos) matches Ok((_, p)) ==> pos < p <= ts.len(),
    decreases ts.len() - pos,
{
    if pos + 1 < ts.len() && ts[pos + 1] == TokenModel::Comma {
        lemma_values_advance(ts, pos + 2);
    }
}

/// Each part of the grammar, when it reads something, ends past where it
/// started and within the tokens.
pub proof fn lemma_or_advances(ts: Seq<TokenModel>, pos: int, typed: bool)
    requires
        0 <= pos,
    ensures
        parse_or(ts, pos, typed) matches Ok((_, p)) ==> pos < p <= ts.len(),
    decreases ts.len() - pos, 3int,
{
    lemma_and_advances(ts, pos, typed);
    if let Ok((l, p)) = parse_and(ts, pos, typed) {
        lemma_or_tail_advances(ts, p, l, typed);
    }
}

pub proof fn lemma_or_tail_advances(ts: Seq<TokenModel>, pos: int, left: RuleModel, typed: bool)
    requires
        0 <= pos <= ts.len(),
    ensures
        or_tail(ts, pos, left, typed) matches Ok((_, p)) ==> pos <= p <= ts.len(),
    decreases ts.len() - pos, 4int,
{
    if token_at(ts, pos) == Some(TokenModel::Or) {
        lemma_and_advances(ts, pos + 1, typed);
        if let Ok((r, p)) = parse_and(ts, pos + 1, typed) {
            lemma_or_tail_advances(ts, p, RuleModel::Or(Box::new(left), Box::new(r)), typed);
        }
    }
}

pub proof fn lemma_and_advances(ts: Seq<TokenModel>, pos: int, typed: bool)
    requires
        0 <= pos,
    ensures
        parse_and(ts, pos, typed) matches Ok((_, p)) ==> pos < p <= ts.len(),
    decreases ts.len() - pos, 2int,
{
    lemma_unary_advances(ts, pos, typed);
    if let Ok((l, p)) = parse_unary(ts, pos, typed) {
        lemma_and_tail_advances(ts, p, l, typed);
    }
}

pub proof fn lemma_and_tail_advances(ts: Seq<TokenModel>, pos: int, left: RuleModel, typed: bool)
    requires
        0 <= pos <= ts.len(),
    ensures
        and_tail(ts, pos, left, typed) matches Ok((_, p)) ==> pos <= p <= ts.len(),
    decreases ts.len() - pos, 4int,
{
    if token_at(ts, pos) == Some(TokenModel::And) {
        lemma_unary_advances(ts, pos + 1, typed);
        if let Ok((r, p)) = parse_unary(ts, pos + 1, typed) {
            lemma_and_tail_advances(ts, p, RuleModel::And(Box::new(left), Box::new(r)), typed);
        }
    }
}

pub proof fn lemma_unary_advances(ts: Seq<TokenModel>, pos: int, typed: bool)
    requires
        0 <= pos,
    ensures
        parse_unary(ts, pos, typed) matches Ok((_, p)) ==> pos < p <= ts.len(),
    decreases ts.len() - pos, 1int,
{
    if token_at(ts, pos) == Some(TokenModel::Not) {
        lemma_unary_advances(ts, pos + 1, typed);
    } else {
        lemma_primary_advances(ts, pos, typed);
    }
}

pub proof fn lemma_primary_advances(ts: Seq<TokenModel>, pos: int, typed: bool)
    requires
        0 <= pos,
    ensures
        parse_primary(ts, pos, typed) matches Ok((_, p)) ==> pos < p <= ts.len(),
    decreases ts.len() - pos, 0int,
{
    match token_at(ts, pos) {
        Some(TokenModel::LParen) => lemma_or_advances(ts, pos + 1, typed),
        Some(TokenModel::Ident(_)) => lemma_values_advance(ts, pos + 2),
        _ => {},
    }
}

/// What parsing a whole rule text gives: the rule, or why there is none.
/// With `typed`, only supported matchers are accepted.
pub open spec fn spec_parse(cs: Seq<char>, typed: bool) -> Result<RuleModel, ParseFailure> {
    match lex(cs) {
        Err(e) => Err(ParseFailure::Lex(e)),
        Ok(ts) => match parse_or(ts, 0, typed) {
            Err(e) => Err(ParseFailure::Syntax(e)),
            Ok((r, p)) => if p < ts.len() {
                Err(ParseFailure::Syntax(SyntaxFailure::Trailing(ts[p])))
            } else {
                Ok(r)
            },
        },
    }
}

/// Whether parsing stops at a matcher that a routing rule may not use.
pub open spec fn stops_at_unsupported(cs: Seq<char>) -> bool {
    spec_parse(cs, true) matches Err(ParseFailure::Syntax(SyntaxFailure::Unsupported(..)))
}

/// "found" and what was found, in messages.
pub open spec fn found_text(t: Option<TokenModel>) -> Seq<char> {
    match t {
        Some(t) => ", found "@ + token_text(t),
        None => ", found end of input"@,
    }
}

/// The message that a syntax failure is reported with.
pub open spec fn syntax_message(e: SyntaxFailure) -> Seq<char> {
    match e {
        SyntaxFailure::Trailing(t) => "unexpected trailing "@ + token_text(t),
        SyntaxFailure::Expected(x, t) => "expected "@ + token_text(x) + found_text(t),
        SyntaxFailure::ExpectedPrimary(t) => "expected a matcher or `(`"@ + found_text(t),
        SyntaxFailure::ExpectedValue(t) => "expected a value"@ + found_text(t),
        SyntaxFailure::ExpectedCommaOrParen(t) => "expected `,` or `)`"@ + found_text(t),
        SyntaxFailure::Unsupported(name, _) => name + " is not supported"@,
    }
}

/// The message that a parse failure is reported with.
pub open spec fn failure_message(cs: Seq<char>, f: ParseFailure) -> Seq<char> {
    match f {
        ParseFailure::Lex(e) => lex_message(cs, e),
        ParseFailure::Syntax(e) => syntax_message(e),
    }
}

/// A syntax failure, as the parser meets it.
enum Fault {
    Trailing(Token),
    Expected(Token, Option<Token>),
    ExpectedPrimary(Option<Token>),
    ExpectedValue(Option<Token>),
    ExpectedCommaOrParen(Option<Token>),
    Unsupported(Matcher),
}

spec fn opt_model(t: Option<Token>) -> Option<TokenModel> {
    match t {
        Some(t) => Some(t@),
        None => None,
    }
}

impl View for Fault {
    type V = SyntaxFailure;

    closed spec fn view(&self) -> SyntaxFailure {
        match self {
            Fault::Trailing(t) => SyntaxFailure::Trailing(t@),
            Fault::Expected(x, t) => SyntaxFailure::Expected(x@, opt_model(*t)),
            Fault::ExpectedPrimary(t) => SyntaxFailure::ExpectedPrimary(opt_model(*t)),
            Fault::ExpectedValue(t) => SyntaxFailure::ExpectedValue(opt_model(*t)),
            Fault::ExpectedCommaOrParen(t) => SyntaxFailure::ExpectedCommaOrParen(opt_model(*t)),
            Fault::Unsupported(m) => SyntaxFailure::Unsupported(m.name@, texts(m.args@)),
        }
    }
}

/// The parser's result agrees with the grammar's: the same rule and end
/// position, or the same failure.
spec fn agrees(res: Result<Rule, Fault>, end: int, spec: Result<(RuleModel, int), SyntaxFailure>) -> bool {
    match spec {
        Ok((r, p)) => res matches Ok(x) && x@ == r && end == p,
        Err(e) => res matches Err(f) && f@ == e,
    }
}

struct Parser {
    tokens: Vec<Token>,
    pos: usize,
    typed: bool,
}

impl Parser {
    spec fn model(&self) -> Seq<TokenModel> {
        token_models(self.tokens@)
    }

    spec fn kept(&self, old: &Parser) -> bool {
        &&& self.tokens@ == old.tokens@
        &&& self.typed == old.typed
        &&& self.pos <= self.tokens@.len()
    }

    fn peek(&self) -> (t: Option<&Token>)
        ensures
            match t {
                Some(x) => self.pos < self.tokens@.len() && x@ == self.model()[self.pos as int],
                None => self.pos >= self.tokens@.len(),
            },
            opt_ref_model(t) == token_at(self.model(), self.pos as int),
    {
        if self.pos < self.tokens.len() {
            Some(&self.tokens[self.pos])
        } else {
            None
        }
    }

    fn advance(&mut self) -> (token: Option<Token>)
        requires
            old(self).pos <= old(self).tokens@.len(),
        ensures
            final(self).kept(old(self)),
            opt_model(token) == token_at(old(self).model(), old(self).pos as int),
            final(self).pos == if token is Some {
                old(self).pos + 1
            } else {
                old(self).pos as int
            },
    {
        if self.pos < self.tokens.len() {
            let token = self.tokens[self.pos].copy();
            self.pos += 1;
            Some(token)
        } else {
            None
        }
    }

    fn expect(&mut self, expected: &Token) -> (res: Result<(), Fault>)
        requires
            old(self).pos <= old(self).tokens@.len(),
        ensures
            final(self).kept(old(self)),
            final(self).pos == if old(self).pos < old(self).tokens@.len() {
                old(self).pos + 1
            } else {
                old(self).pos as int
            },
            if token_at(old(self).model(), old(self).pos as int) == Some(expected@) {
                res is Ok
            } else {
                res matches Err(f) && f@ == SyntaxFailure::Expected(
                    expected@,
                    token_at(old(self).model(), old(self).pos as int),
                )
            },
    {
        match self.advance() {
            Some(token) => {
                if token.same(expected) {
                    Ok(())
                } else {
                    Err(Fault::Expected(expected.copy(), Some(token)))
                }
            },
            None => Err(Fault::Expected(expected.copy(), None)),
        }
    }
}

/// Puts values in front of a parsed argument list.
pub open spec fn with_args_prefix(
    a: Seq<Seq<char>>,
    r: Result<(Seq<Seq<char>>, int), SyntaxFailure>,
) -> Result<(Seq<Seq<char>>, int), SyntaxFailure> {
    match r {
        Ok((vs, p)) => Ok((a + vs, p)),
        Err(e) => Err(e),
    }
}

/// Whether `name` with `count` arguments is a matcher that routing rules
/// may use.
fn is_supported(name: &str, count: usize) -> (b: bool)
    ensures
        forall|args: Seq<Seq<char>>|
            args.len() == count ==> (b == #[trigger] is_supported_matcher(name@, args)),
{
    count == 1 && (text_eq(name, "Host") || text_eq(name, "Path") || text_eq(name, "PathPrefix")
        || text_eq(name, "PathRegexp") || text_eq(name, "Method"))
}

impl Parser {
    fn parse_or(&mut self) -> (res: Result<Rule, Fault>)
        requires
            old(self).pos <= old(self).tokens@.len(),
        ensures
            final(self).kept(old(self)),
            agrees(
                res,
                final(self).pos as int,
                parse_or(old(self).model(), old(self).pos as int, old(self).typed),
            ),
            res is Ok ==> old(self).pos < final(self).pos,
            res matches Err(Fault::Unsupported(_)) ==> old(self).typed,
        decreases old(self).tokens@.len() - old(self).pos, 3int,
    {
        let ghost ts = self.model();
        let ghost start = self.pos as int;
        let mut left = match self.parse_and() {
            Ok(r) => r,
            Err(f) => return Err(f),
        };
        while matches!(self.peek(), Some(Token::Or))
            invariant
                self.kept(old(self)),
                self.model() == ts,
                ts == old(self).model(),
                start == old(self).pos,
                start < self.pos,
                parse_or(ts, start, self.typed) == or_tail(ts, self.pos as int, left@, self.typed),
            decreases self.tokens@.len() - self.pos,
        {
            self.advance();
            let right = match self.parse_and() {
                Ok(r) => r,
                Err(f) => return Err(f),
            };
            left = Rule::Or(Box::new(left), Box::new(right));
        }
        Ok(left)
    }

    fn parse_and(&mut self) -> (res: Result<Rule, Fault>)
        requires
            old(self).pos <= old(self).tokens@.len(),
        ensures
            final(self).kept(old(self)),
            agrees(
                res,
                final(self).pos as int,
                parse_and(old(self).model(), old(self).pos as int, old(self).typed),
            ),
            res is Ok ==> old(self).pos < final(self).pos,
            res matches Err(Fault::Unsupported(_)) ==> old(self).typed,
        decreases old(self).tokens@.len() - old(self).pos, 2int,
    {
        let ghost ts = self.model();
        let ghost start = self.pos as int;
        let mut left = match self.parse_unary() {
            Ok(r) => r,
            Err(f) => return Err(f),
        };
        while matches!(self.peek(), Some(Token::And))
            invariant
                self.kept(old(self)),
                self.model() == ts,
                ts == old(self).model(),
                start == old(self).pos,
                start < self.pos,
                parse_and(ts, start, self.typed) == and_tail(ts, self.pos as int, left@, self.typed),
            decreases self.tokens@.len() - self.pos,
        {
            self.advance();
            let right = match self.parse_unary() {
                Ok(r) => r,
                Err(f) => return Err(f),
            };
            left = Rule::And(Box::new(left), Box::new(right));
        }
        Ok(left)
    }

    fn parse_unary(&mut self) -> (res: Result<Rule, Fault>)
        requires
            old(self).pos <= old(self).tokens@.len(),
        ensures
            final(self).kept(old(self)),
            agrees(
                res,
                final(self).pos as int,
                parse_unary(old(self).model(), old(self).pos as int, old(self).typed),
            ),
            res is Ok ==> old(self).pos < final(self).pos,
            res matches Err(Fault::Unsupported(_)) ==> old(self).typed,
        decreases old(self).tokens@.len() - old(self).pos, 1int,
    {
        if matches!(self.peek(), Some(Token::Not)) {
            self.advance();
            let inner = match self.parse_unary() {
                Ok(r) => r,
                Err(f) => return Err(f),
            };
            Ok(Rule::Not(Box::new(inner)))
        } else {
            self.parse_primary()
        }
    }

    fn parse_primary(&mut self) -> (res: Result<Rule, Fault>)
        requires
            old(self).pos <= old(self).tokens@.len(),
        ensures
            final(self).kept(old(self)),
            agrees(
                res,
                final(self).pos as int,
                parse_primary(old(self).model(), old(self).pos as int, old(self).typed),
            ),
            res is Ok ==> old(self).pos < final(self).pos,
            res matches Err(Fault::Unsupported(_)) ==> old(self).typed,
        decreases old(self).tokens@.len() - old(self).pos, 0int,
    {
        match self.advance() {
            Some(Token::LParen) => {
                let rule = match self.parse_or() {
                    Ok(r) => r,
                    Err(f) => return Err(f),
                };
                match self.expect(&Token::RParen) {
                    Ok(()) => Ok(rule),
                    Err(f) => Err(f),
                }
            },
            Some(Token::Ident(name)) => {
                match self.expect(&Token::LParen) {
                    Ok(()) => {},
                    Err(f) => return Err(f),
                }
                let args = match self.parse_args() {
                    Ok(a) => a,
                    Err(f) => return Err(f),
                };
                if self.typed && !is_supported(name.as_str(), args.len()) {
                    Err(Fault::Unsupported(Matcher { name, args }))
                } else {
                    Ok(Rule::Matcher(Matcher { name, args }))
                }
            },
            Some(token) => Err(Fault::ExpectedPrimary(Some(token))),
            None => Err(Fault::ExpectedPrimary(None)),
        }
    }

    fn parse_args(&mut self) -> (res: Result<Vec<String>, Fault>)
        requires
            old(self).pos <= old(self).tokens@.len(),
        ensures
            final(self).kept(old(self)),
            match parse_args(old(self).model(), old(self).pos as int) {
                Ok((vs, p)) => res matches Ok(v) && texts(v@) == vs && final(self).pos == p,
                Err(e) => res matches Err(f) && f@ == e,
            },
            res is Ok ==> old(self).pos < final(self).pos,
            !(res matches Err(Fault::Unsupported(_))),
    {
        let ghost ts = self.model();
        let ghost start = self.pos as int;
        let mut args: Vec<String> = Vec::new();

        if matches!(self.peek(), Some(Token::RParen)) {
            self.advance();
            return Ok(args);
        }
        loop
            invariant_except_break
                self.kept(old(self)),
                self.model() == ts,
                ts == old(self).model(),
                start == old(self).pos,
                start <= self.pos,
                parse_args(ts, start) == parse_values(ts, start),
                parse_values(ts, start) == with_args_prefix(
                    texts(args@),
                    parse_values(ts, self.pos as int),
                ),
            ensures
                self.kept(old(self)),
                start < self.pos,
                parse_args(ts, start) == parse_values(ts, start),
                parse_values(ts, start) == Ok::<_, SyntaxFailure>((texts(args@), self.pos as int)),
            decreases self.tokens@.len() - self.pos,
        {
            let ghost p = self.pos as int;
            let value = match self.advance() {
                Some(Token::Value(value)) => value,
                Some(token) => return Err(Fault::ExpectedValue(Some(token))),
                None => return Err(Fault::ExpectedValue(None)),
            };
            let ghost before = texts(args@);
            match self.advance() {
                Some(Token::Comma) => {
                    args.push(value);
                    proof {
                        assert(texts(args@) =~= before + seq![value@]);
                        lemma_args_prefix_twice(before, seq![value@], parse_values(ts, p + 2));
                    }
                },
                Some(Token::RParen) => {
                    args.push(value);
                    assert(texts(args@) =~= before + seq![value@]);
                    break;
                },
                Some(token) => return Err(Fault::ExpectedCommaOrParen(Some(token))),
                None => return Err(Fault::ExpectedCommaOrParen(None)),
            }
        }
        Ok(args)
    }
}

proof fn lemma_args_prefix_twice(
    a: Seq<Seq<char>>,
    b: Seq<Seq<char>>,
    r: Result<(Seq<Seq<char>>, int), SyntaxFailure>,
)
    ensures
        with_args_prefix(a, with_args_prefix(b, r)) == with_args_prefix(a + b, r),
{
    if let Ok((w, k)) = r {
        assert(a + (b + w) == (a + b) + w);
    }
}

/// Appends ", found " and the token, or ", found end of input".
fn describe_found(m: &mut String, t: &Option<Token>)
    ensures
        final(m)@ == old(m)@ + found_text(opt_model(*t)),
{
    match t {
        Some(token) => {
            m.append(", found ");
            token.describe_into(m);
        },
        None => m.append(", found end of input"),
    }
    proof {
        if let Some(token) = t {
            assert(old(m)@ + ", found "@ + token_text(token@) == old(m)@ + (", found "@ + token_text(
                token@,
            )));
        }
    }
}

impl Fault {
    /// The message of a syntax failure.
    fn message(&self) -> (m: String)
        ensures
            m@ == syntax_message(self@),
    {
        let mut m = String::new();
        match self {
            Fault::Trailing(t) => {
                m.append("unexpected trailing ");
                t.describe_into(&mut m);
            },
            Fault::Expected(x, t) => {
                m.append("expected ");
                x.describe_into(&mut m);
                describe_found(&mut m, t);
            },
            Fault::ExpectedPrimary(t) => {
                m.append("expected a matcher or `(`");
                describe_found(&mut m, t);
            },
            Fault::ExpectedValue(t) => {
                m.append("expected a value");
                describe_found(&mut m, t);
            },
            Fault::ExpectedCommaOrParen(t) => {
                m.append("expected `,` or `)`");
                describe_found(&mut m, t);
            },
            Fault::Unsupported(matcher) => {
                m.append(matcher.name.as_str());
                m.append(" is not supported");
            },
        }
        m
    }
}

/// Why a text is not a rule that routes requests.
#[derive(Debug)]
pub enum RuleError {
    /// The text is not a rule.
    Invalid(ParseError),
    /// The rule uses this matcher, which is not one of `Host`, `Path`,
    /// `PathPrefix`, `PathRegexp` and `Method` with one argument.
    Unsupported(Matcher),
}

/// Parses the tokens of a whole rule.
fn parse_tokens(tokens: Vec<Token>, typed: bool) -> (res: Result<Rule, Fault>)
    ensures
        match parse_or(token_models(tokens@), 0, typed) {
            Err(e) => res matches Err(f) && f@ == e,
            Ok((r, p)) => if p < tokens@.len() {
                res matches Err(f) && f@ == SyntaxFailure::Trailing(token_models(tokens@)[p])
            } else {
                res matches Ok(x) && x@ == r
            },
        },
        res matches Err(Fault::Unsupported(_)) ==> typed,
{
    let mut parser = Parser { tokens, pos: 0, typed };
    let rule = match parser.parse_or() {
        Ok(r) => r,
        Err(f) => return Err(f),
    };
    if let Some(extra) = parser.peek() {
        return Err(Fault::Trailing(extra.copy()));
    }
    Ok(rule)
}

/// Tokenizes and parses a rule text.
fn parse_text(input: &str, typed: bool) -> (res: Result<Rule, RuleError>)
    ensures
        match spec_parse(input@, typed) {
            Ok(r) => res matches Ok(x) && x@ == r,
            Err(ParseFailure::Syntax(SyntaxFailure::Unsupported(name, args))) => res matches Err(
                RuleError::Unsupported(m),
            ) && m.name@ == name && texts(m.args@) == args,
            Err(f) => res matches Err(RuleError::Invalid(e)) && e.message@ == failure_message(
                input@,
                f,
            ),
        },
        res matches Err(RuleError::Unsupported(_)) ==> typed,
{
    let tokens = match tokenize(input) {
        Ok(t) => t,
        Err(e) => return Err(RuleError::Invalid(e)),
    };
    match parse_tokens(tokens, typed) {
        Ok(rule) => Ok(rule),
        Err(Fault::Unsupported(m)) => Err(RuleError::Unsupported(m)),
        Err(f) => Err(RuleError::Invalid(ParseError::new(f.message()))),
    }
}

impl Rule {
    /// Parse a Traefik match rule into an AST, with matchers of any name
    /// and any number of arguments.
    pub fn parse(input: &str) -> (res: Result<Rule, ParseError>)
        ensures
            match spec_parse(input@, false) {
                Ok(r) => res matches Ok(x) && x@ == r,
                Err(f) => res matches Err(e) && e.message@ == failure_message(input@, f),
            },
    {
        match parse_text(input, false) {
            Ok(rule) => Ok(rule),
            Err(RuleError::Invalid(e)) => Err(e),
            // A plain parse accepts every matcher.
            Err(RuleError::Unsupported(m)) => Err(ParseError::new(m.name)),
        }
    }
}

/// Parse a Traefik match rule into an AST whose matchers are all of the
/// kinds that route requests (see `is_supported_matcher`). Where a rule uses
/// another matcher, `try_parse_rule` says which.
pub fn parse_rule(input: &str) -> (res: Result<Rule, ParseError>)
    requires
        !stops_at_unsupported(input@),
    ensures
        match spec_parse(input@, true) {
            Ok(r) => res matches Ok(x) && x@ == r,
            Err(f) => res matches Err(e) && e.message@ == failure_message(input@, f),
        },
{
    match parse_text(input, true) {
        Ok(rule) => Ok(rule),
        Err(RuleError::Invalid(e)) => Err(e),
        // Ruled out by the precondition.
        Err(RuleError::Unsupported(m)) => Err(ParseError::new(m.name)),
    }
}

/// Parse a Traefik match rule into an AST whose matchers are all of the
/// kinds that route requests; a rule that uses another matcher gives
/// `RuleError::Unsupported` with the first such matcher that parsing meets.
pub fn try_parse_rule(input: &str) -> (res: Result<Rule, RuleError>)
    ensures
        match spec_parse(input@, true) {
            Ok(r) => res matches Ok(x) && x@ == r,
            Err(ParseFailure::Syntax(SyntaxFailure::Unsupported(name, args))) => res matches Err(
                RuleError::Unsupported(m),
            ) && m.name@ == name && texts(m.args@) == args,
            Err(f) => res matches Err(RuleError::Invalid(e)) && e.message@ == failure_message(
                input@,
                f,
            ),
        },
{
    parse_text(input, true)
}

spec fn opt_ref_model(t: Option<&Token>) -> Option<TokenModel> {
    match t {
        Some(t) => Some(t@),
        None => None,
    }
}

} // verus!
