//! The tokenizer of the match-rule syntax: its specification over the
//! characters of a rule, and the executable tokenizer proved against it.

use crate::rule_parser::ParseError;
use crate::text::{
    char_indices, char_is_whitespace, debug_text, decimal, str_debug, text_eq, is_ascii_letter, is_ascii_letter_or_digit,
    is_unicode_whitespace, push_char, usize_text,
};
use vstd::prelude::*;
use vstd::utf8::encode_utf8;

verus! {

/// The mathematical value of a token.
pub enum TokenModel {
    Ident(Seq<char>),
    Value(Seq<char>),
    LParen,
    RParen,
    Comma,
    And,
    Or,
    Not,
}

/// A token of the match-rule syntax.
#[derive(Debug)]
pub enum Token {
    Ident(String),
    Value(String),
    LParen,
    RParen,
    Comma,
    And,
    Or,
    Not,
}

impl View for Token {
    type V = TokenModel;

    open spec fn view(&self) -> TokenModel {
        match self {
            Token::Ident(s) => TokenModel::Ident(s@),
            Token::Value(s) => TokenModel::Value(s@),
            Token::LParen => TokenModel::LParen,
            Token::RParen => TokenModel::RParen,
            Token::Comma => TokenModel::Comma,
            Token::And => TokenModel::And,
            Token::Or => TokenModel::Or,
            Token::Not => TokenModel::Not,
        }
    }
}

/// The models of a list of tokens.
pub open spec fn token_models(ts: Seq<Token>) -> Seq<TokenModel> {
    ts.map_values(|t: Token| t@)
}

/// Why tokenizing failed, with the index of the character at which the
/// offending token starts.
pub enum LexFailure {
    ExpectedAnd(nat),
    ExpectedOr(nat),
    UnterminatedBacktick(nat),
    UnterminatedEscape(nat),
    UnterminatedQuote(nat),
    UnexpectedChar(char, nat),
}

/// First character of an identifier.
pub open spec fn ident_start(c: char) -> bool {
    is_ascii_letter(c)
}

/// Later characters of an identifier.
pub open spec fn ident_continue(c: char) -> bool {
    is_ascii_letter_or_digit(c)
}

/// Index of the first backtick at or after `j`.
pub open spec fn backtick_close(cs: Seq<char>, j: int) -> Option<int>
    decreases cs.len() - j,
{
    if j >= cs.len() {
        None
    } else if cs[j] == '`' {
        Some(j)
    } else {
        backtick_close(cs, j + 1)
    }
}

/// Index of the first character at or after `j` that cannot continue an
/// identifier (or the end).
pub open spec fn ident_end(cs: Seq<char>, j: int) -> int
    decreases cs.len() - j,
{
    if j >= cs.len() || !ident_continue(cs[j]) {
        j
    } else {
        ident_end(cs, j + 1)
    }
}

/// Scans a double-quoted value whose opening quote is at `start`, from
/// index `j`: the unescaped value and the index after the closing quote.
/// A backslash takes the next character literally.
pub open spec fn scan_quoted(cs: Seq<char>, start: nat, j: int) -> Result<
    (Seq<char>, int),
    LexFailure,
>
    decreases cs.len() - j,
{
    if j >= cs.len() {
        Err(LexFailure::UnterminatedQuote(start))
    } else if cs[j] == '"' {
        Ok((seq![], j + 1))
    } else if cs[j] == '\\' {
        if j + 1 >= cs.len() {
            Err(LexFailure::UnterminatedEscape(start))
        } else {
            with_value_prefix(seq![cs[j + 1]], scan_quoted(cs, start, j + 2))
        }
    } else {
        with_value_prefix(seq![cs[j]], scan_quoted(cs, start, j + 1))
    }
}

/// Puts `v` in front of a scanned value.
pub open spec fn with_value_prefix(v: Seq<char>, r: Result<(Seq<char>, int), LexFailure>) -> Result<
    (Seq<char>, int),
    LexFailure,
> {
    match r {
        Ok((w, k)) => Ok((v + w, k)),
        Err(e) => Err(e),
    }
}

/// One step of the tokenizer at index `i`: the token that starts there (none
/// for whitespace) and the index after it.
pub open spec fn lex_step(cs: Seq<char>, i: int) -> Result<(Option<TokenModel>, int), LexFailure> {
    let c = cs[i];
    if is_unicode_whitespace(c) {
        Ok((None, i + 1))
    } else if c == '(' {
        Ok((Some(TokenModel::LParen), i + 1))
    } else if c == ')' {
        Ok((Some(TokenModel::RParen), i + 1))
    } else if c == ',' {
        Ok((Some(TokenModel::Comma), i + 1))
    } else if c == '!' {
        Ok((Some(TokenModel::Not), i + 1))
    } else if c == '&' {
        if i + 1 < cs.len() && cs[i + 1] == '&' {
            Ok((Some(TokenModel::And), i + 2))
        } else {
            Err(LexFailure::ExpectedAnd(i as nat))
        }
    } else if c == '|' {
        if i + 1 < cs.len() && cs[i + 1] == '|' {
            Ok((Some(TokenModel::Or), i + 2))
        } else {
            Err(LexFailure::ExpectedOr(i as nat))
        }
    } else if c == '`' {
        match backtick_close(cs, i + 1) {
            Some(k) => Ok((Some(TokenModel::Value(cs.subrange(i + 1, k))), k + 1)),
            None => Err(LexFailure::UnterminatedBacktick(i as nat)),
        }
    } else if c == '"' {
        match scan_quoted(cs, i as nat, i + 1) {
            Ok((v, k)) => Ok((Some(TokenModel::Value(v)), k)),
            Err(e) => Err(e),
        }
    } else if ident_start(c) {
        let k = ident_end(cs, i + 1);
        Ok((Some(TokenModel::Ident(cs.subrange(i, k))), k))
    } else {
        Err(LexFailure::UnexpectedChar(c, i as nat))
    }
}

/// Puts a token, if there is one, in front of a token list.
pub open spec fn with_token(t: Option<TokenModel>, r: Result<Seq<TokenModel>, LexFailure>) -> Result<
    Seq<TokenModel>,
    LexFailure,
> {
    match (t, r) {
        (Some(x), Ok(ts)) => Ok(seq![x] + ts),
        (_, r) => r,
    }
}

/// Puts a token list in front of the tokens of a remaining input.
pub open spec fn with_tokens(ts: Seq<TokenModel>, r: Result<Seq<TokenModel>, LexFailure>) -> Result<
    Seq<TokenModel>,
    LexFailure,
> {
    match r {
        Ok(rest) => Ok(ts + rest),
        Err(e) => Err(e),
    }
}

/// The tokens of `cs` from index `i` on, or the first failure.
pub open spec fn lex_from(cs: Seq<char>, i: int) -> Result<Seq<TokenModel>, LexFailure>
    decreases cs.len() - i,
{
    if i >= cs.len() {
        Ok(seq![])
    } else {
        match lex_step(cs, i) {
            Err(e) => Err(e),
            Ok((t, k)) => {
                proof {
                    lemma_lex_step_advances(cs, i);
                }
                with_token(t, lex_from(cs, k))
            },
        }
    }
}

/// The tokens of a whole rule text.
pub open spec fn lex(cs: Seq<char>) -> Result<Seq<TokenModel>, LexFailure> {
    lex_from(cs, 0)
}

pub proof fn lemma_backtick_close(cs: Seq<char>, j: int)
    ensures
        backtick_close(cs, j) matches Some(k) ==> j <= k < cs.len() && cs[k] == '`'
            && forall|m: int| j <= m < k ==> cs[m] != '`',
    decreases cs.len() - j,
{
    if j < cs.len() && cs[j] != '`' {
        lemma_backtick_close(cs, j + 1);
    }
}

pub proof fn lemma_ident_end(cs: Seq<char>, j: int)
    requires
        j <= cs.len(),
    ensures
        j <= ident_end(cs, j) <= cs.len(),
        forall|m: int| j <= m < ident_end(cs, j) ==> ident_continue(#[trigger] cs[m]),
        ident_end(cs, j) < cs.len() ==> !ident_continue(cs[ident_end(cs, j)]),
    decreases cs.len() - j,
{
    if j < cs.len() && ident_continue(cs[j]) {
        lemma_ident_end(cs, j + 1);
    }
}

pub proof fn lemma_scan_quoted(cs: Seq<char>, start: nat, j: int)
    ensures
        scan_quoted(cs, start, j) matches Ok((_, k)) ==> j < k <= cs.len(),
    decreases cs.len() - j,
{
    if j < cs.len() && cs[j] != '"' {
        if cs[j] == '\\' {
            if j + 1 < cs.len() {
                lemma_scan_quoted(cs, start, j + 2);
            }
        } else {
            lemma_scan_quoted(cs, start, j + 1);
        }
    }
}

/// Each step of the tokenizer moves forward and stays within the input.
pub proof fn lemma_lex_step_advances(cs: Seq<char>, i: int)
    requires
        i < cs.len(),
    ensures
        lex_step(cs, i) matches Ok((_, k)) ==> i < k <= cs.len(),
{
    lemma_backtick_close(cs, i + 1);
    lemma_scan_quoted(cs, i as nat, i + 1);
    if i + 1 <= cs.len() {
        lemma_ident_end(cs, i + 1);
    }
}

/// The decimal byte position of the character at index `i`.
pub open spec fn position_text(cs: Seq<char>, i: nat) -> Seq<char> {
    decimal(encode_utf8(cs.take(i as int)).len())
}

/// The message that a tokenizing failure is reported with.
pub open spec fn lex_message(cs: Seq<char>, e: LexFailure) -> Seq<char> {
    match e {
        LexFailure::ExpectedAnd(i) => "expected `&&` at position "@ + position_text(cs, i),
        LexFailure::ExpectedOr(i) => "expected `||` at position "@ + position_text(cs, i),
        LexFailure::UnterminatedBacktick(i) => "unterminated backtick value starting at position "@
            + position_text(cs, i),
        LexFailure::UnterminatedEscape(i) => "unterminated escape in value starting at position "@
            + position_text(cs, i),
        LexFailure::UnterminatedQuote(i) => "unterminated quoted value starting at position "@
            + position_text(cs, i),
        LexFailure::UnexpectedChar(c, i) => "unexpected character `"@ + seq![c] + "` at position "@
            + position_text(cs, i),
    }
}

/// A message made of a fixed text and a position.
fn message_at(text: &str, pos: usize) -> (m: String)
    ensures
        m@ == text@ + decimal(pos as nat),
{
    let mut m = String::new();
    m.append(text);
    let p = usize_text(pos);
    m.append(p.as_str());
    m
}

impl Token {
    /// A copy of the token.
    pub fn copy(&self) -> (t: Token)
        ensures
            t@ == self@,
    {
        match self {
            Token::Ident(s) => Token::Ident(s.clone()),
            Token::Value(s) => Token::Value(s.clone()),
            Token::LParen => Token::LParen,
            Token::RParen => Token::RParen,
            Token::Comma => Token::Comma,
            Token::And => Token::And,
            Token::Or => Token::Or,
            Token::Not => Token::Not,
        }
    }

    /// Token equality.
    pub fn same(&self, other: &Token) -> (b: bool)
        ensures
            b == (self@ == other@),
    {
        match (self, other) {
            (Token::Ident(a), Token::Ident(b)) => text_eq(a.as_str(), b.as_str()),
            (Token::Value(a), Token::Value(b)) => text_eq(a.as_str(), b.as_str()),
            (Token::LParen, Token::LParen) => true,
            (Token::RParen, Token::RParen) => true,
            (Token::Comma, Token::Comma) => true,
            (Token::And, Token::And) => true,
            (Token::Or, Token::Or) => true,
            (Token::Not, Token::Not) => true,
            _ => false,
        }
    }
}

/// How a token is shown in messages (as `Debug` shows it).
pub open spec fn token_text(t: TokenModel) -> Seq<char> {
    match t {
        TokenModel::Ident(s) => "Ident("@ + str_debug(s) + ")"@,
        TokenModel::Value(s) => "Value("@ + str_debug(s) + ")"@,
        TokenModel::LParen => "LParen"@,
        TokenModel::RParen => "RParen"@,
        TokenModel::Comma => "Comma"@,
        TokenModel::And => "And"@,
        TokenModel::Or => "Or"@,
        TokenModel::Not => "Not"@,
    }
}

impl Token {
    /// Appends the token as messages show it.
    pub fn describe_into(&self, m: &mut String)
        ensures
            final(m)@ == old(m)@ + token_text(self@),
    {
        match self {
            Token::Ident(s) => {
                m.append("Ident(");
                let d = debug_text(s.as_str());
                m.append(d.as_str());
                m.append(")");
            },
            Token::Value(s) => {
                m.append("Value(");
                let d = debug_text(s.as_str());
                m.append(d.as_str());
                m.append(")");
            },
            Token::LParen => m.append("LParen"),
            Token::RParen => m.append("RParen"),
            Token::Comma => m.append("Comma"),
            Token::And => m.append("And"),
            Token::Or => m.append("Or"),
            Token::Not => m.append("Not"),
        }
    }
}

/// Splits a rule text into tokens.
pub fn tokenize(input: &str) -> (res: Result<Vec<Token>, ParseError>)
    ensures
        match lex(input@) {
            Ok(ts) => res matches Ok(v) && token_models(v@) == ts,
            Err(e) => res matches Err(err) && err.message@ == lex_message(input@, e),
        },
{
    let ghost cs = input@;
    let chars = char_indices(input);
    let n = chars.len();
    let mut tokens: Vec<Token> = Vec::new();
    let mut i: usize = 0;
    while i < n
        invariant
            n == cs.len() == chars@.len(),
            cs == input@,
            forall|m: int|
                0 <= m < chars@.len() ==> (#[trigger] chars@[m]).1 == cs[m] && chars@[m].0 as int
                    == encode_utf8(cs.take(m)).len(),
            i <= n,
            lex(cs) == with_tokens(token_models(tokens@), lex_from(cs, i as int)),
        decreases n - i,
    {
        let ghost before = token_models(tokens@);
        let (pos, c) = chars[i];
        if char_is_whitespace(c) {
            i = i + 1;
        } else if c == '(' {
            push_token(&mut tokens, Token::LParen);
            i = i + 1;
        } else if c == ')' {
            push_token(&mut tokens, Token::RParen);
            i = i + 1;
        } else if c == ',' {
            push_token(&mut tokens, Token::Comma);
            i = i + 1;
        } else if c == '!' {
            push_token(&mut tokens, Token::Not);
            i = i + 1;
        } else if c == '&' {
            if i + 1 < n && chars[i + 1].1 == '&' {
                push_token(&mut tokens, Token::And);
                i = i + 2;
            } else {
                return Err(ParseError::new(message_at("expected `&&` at position ", pos)));
            }
        } else if c == '|' {
            if i + 1 < n && chars[i + 1].1 == '|' {
                push_token(&mut tokens, Token::Or);
                i = i + 2;
            } else {
                return Err(ParseError::new(message_at("expected `||` at position ", pos)));
            }
        } else if c == '`' {
            let mut value = String::new();
            let mut j = i + 1;
            #[verifier::loop_isolation(false)]
            while j < n && chars[j].1 != '`'
                invariant
                    n == cs.len() == chars@.len(),
                    forall|m: int| 0 <= m < chars@.len() ==> (#[trigger] chars@[m]).1 == cs[m],
                    i + 1 <= j <= n,
                    value@ == cs.subrange(i + 1, j as int),
                    backtick_close(cs, i + 1) == backtick_close(cs, j as int),
                decreases n - j,
            {
                push_char(&mut value, chars[j].1);
                j = j + 1;
            }
            if j >= n {
                return Err(
                    ParseError::new(
                        message_at("unterminated backtick value starting at position ", pos),
                    ),
                );
            }
            push_token(&mut tokens, Token::Value(value));
            i = j + 1;
        } else if c == '"' {
            let mut value = String::new();
            let mut j = i + 1;
            #[verifier::loop_isolation(false)]
            loop
                invariant
                    n == cs.len() == chars@.len(),
                    forall|m: int| 0 <= m < chars@.len() ==> (#[trigger] chars@[m]).1 == cs[m],
                    i + 1 <= j <= n,
                    scan_quoted(cs, i as nat, i + 1) == with_value_prefix(
                        value@,
                        scan_quoted(cs, i as nat, j as int),
                    ),
                decreases n - j,
            {
                if j >= n {
                    return Err(
                        ParseError::new(
                            message_at("unterminated quoted value starting at position ", pos),
                        ),
                    );
                }
                let d = chars[j].1;
                if d == '"' {
                    j = j + 1;
                    break;
                } else if d == '\\' {
                    if j + 1 >= n {
                        return Err(
                            ParseError::new(
                                message_at("unterminated escape in value starting at position ", pos),
                            ),
                        );
                    }
                    proof {
                        lemma_with_value_prefix_twice(value@, seq![cs[j + 1]], scan_quoted(cs, i as nat, j + 2));
                        assert(value@.push(cs[j + 1]) == value@ + seq![cs[j + 1]]);
                    }
                    push_char(&mut value, chars[j + 1].1);
                    j = j + 2;
                } else {
                    proof {
                        lemma_with_value_prefix_twice(value@, seq![d], scan_quoted(cs, i as nat, j + 1));
                        assert(value@.push(d) == value@ + seq![d]);
                    }
                    push_char(&mut value, d);
                    j = j + 1;
                }
            }
            push_token(&mut tokens, Token::Value(value));
            i = j;
        } else if is_ident_start(c) {
            let mut name = String::new();
            push_char(&mut name, c);
            let mut j = i + 1;
            #[verifier::loop_isolation(false)]
            while j < n && is_ident_continue(chars[j].1)
                invariant
                    n == cs.len() == chars@.len(),
                    forall|m: int| 0 <= m < chars@.len() ==> (#[trigger] chars@[m]).1 == cs[m],
                    i + 1 <= j <= n,
                    name@ == cs.subrange(i as int, j as int),
                    ident_end(cs, i + 1) == ident_end(cs, j as int),
                decreases n - j,
            {
                push_char(&mut name, chars[j].1);
                j = j + 1;
            }
            push_token(&mut tokens, Token::Ident(name));
            i = j;
        } else {
            let mut m = String::new();
            m.append("unexpected character `");
            push_char(&mut m, c);
            m.append("` at position ");
            let p = usize_text(pos);
            m.append(p.as_str());
            return Err(ParseError::new(m));
        }
    }
    Ok(tokens)
}

/// Appends a token to a token list, keeping the tokenizer's account: the
/// tokens so far followed by those of the rest of the input.
fn push_token(tokens: &mut Vec<Token>, t: Token)
    ensures
        final(tokens)@ == old(tokens)@.push(t),
        token_models(final(tokens)@) == token_models(old(tokens)@).push(t@),
        forall|r: Result<Seq<TokenModel>, LexFailure>|
            with_tokens(token_models(old(tokens)@), #[trigger] with_token(Some(t@), r))
                == with_tokens(token_models(final(tokens)@), r),
{
    let ghost before = token_models(tokens@);
    tokens.push(t);
    assert forall|r: Result<Seq<TokenModel>, LexFailure>|
        with_tokens(before, #[trigger] with_token(Some(t@), r)) == with_tokens(
            before.push(t@),
            r,
        ) by {
        if let Ok(rest) = r {
            assert(before + (seq![t@] + rest) =~= before.push(t@) + rest);
        }
    }
}

proof fn lemma_with_value_prefix_twice(
    a: Seq<char>,
    b: Seq<char>,
    r: Result<(Seq<char>, int), LexFailure>,
)
    ensures
        with_value_prefix(a, with_value_prefix(b, r)) == with_value_prefix(a + b, r),
{
    if let Ok((w, k)) = r {
        assert(a + (b + w) == (a + b) + w);
    }
}

/// Tests for an identifier's first character.
fn is_ident_start(c: char) -> (b: bool)
    ensures
        b == ident_start(c),
{
    ('a' <= c && c <= 'z') || ('A' <= c && c <= 'Z')
}

/// Tests for an identifier's later characters.
fn is_ident_continue(c: char) -> (b: bool)
    ensures
        b == ident_continue(c),
{
    ('a' <= c && c <= 'z') || ('A' <= c && c <= 'Z') || ('0' <= c && c <= '9')
}

/// `c` holds `a` from `off` on, and after it either ends or has
/// whitespace, which ends any token that `a` leaves open.
pub open spec fn holds_closed(c: Seq<char>, off: int, a: Seq<char>) -> bool {
    &&& 0 <= off
    &&& off + a.len() <= c.len()
    &&& forall|m: int| 0 <= m < a.len() ==> c[off + m] == #[trigger] a[m]
    &&& (off + a.len() == c.len() || is_unicode_whitespace(c[off + a.len()]))
}

proof fn lemma_closed_backtick(c: Seq<char>, off: int, a: Seq<char>, j: int)
    requires
        holds_closed(c, off, a),
        0 <= j,
    ensures
        backtick_close(a, j) matches Some(k) ==> backtick_close(c, off + j) == Some(off + k),
    decreases a.len() - j,
{
    if j < a.len() && a[j] != '`' {
        lemma_closed_backtick(c, off, a, j + 1);
    }
}

proof fn lemma_closed_ident_end(c: Seq<char>, off: int, a: Seq<char>, j: int)
    requires
        holds_closed(c, off, a),
        0 <= j <= a.len(),
    ensures
        ident_end(c, off + j) == off + ident_end(a, j),
    decreases a.len() - j,
{
    if j < a.len() && ident_continue(a[j]) {
        lemma_closed_ident_end(c, off, a, j + 1);
    }
}

proof fn lemma_closed_quoted(c: Seq<char>, off: int, a: Seq<char>, s1: nat, s2: nat, j: int)
    requires
        holds_closed(c, off, a),
        0 <= j,
    ensures
        scan_quoted(a, s1, j) matches Ok((v, k)) ==> scan_quoted(c, s2, off + j) == Ok::<
            _,
            LexFailure,
        >((v, off + k)),
    decreases a.len() - j,
{
    if j < a.len() && a[j] != '"' {
        if a[j] == '\\' {
            if j + 1 < a.len() {
                lemma_closed_quoted(c, off, a, s1, s2, j + 2);
            }
        } else {
            lemma_closed_quoted(c, off, a, s1, s2, j + 1);
        }
    }
}

proof fn lemma_closed_step(c: Seq<char>, off: int, a: Seq<char>, i: int)
    requires
        holds_closed(c, off, a),
        0 <= i < a.len(),
    ensures
        lex_step(a, i) matches Ok((t, k)) ==> lex_step(c, off + i) == Ok::<_, LexFailure>(
            (t, off + k),
        ),
{
    assert(c[off + i] == a[i]);
    if i + 1 < a.len() {
        assert(c[off + i + 1] == a[i + 1]);
    }
    lemma_closed_backtick(c, off, a, i + 1);
    lemma_backtick_close(a, i + 1);
    if let Some(k) = backtick_close(a, i + 1) {
        assert(c.subrange(off + i + 1, off + k) =~= a.subrange(i + 1, k));
    }
    lemma_closed_quoted(c, off, a, i as nat, (off + i) as nat, i + 1);
    lemma_closed_ident_end(c, off, a, i + 1);
    lemma_ident_end(a, i + 1);
    let e = ident_end(a, i + 1);
    assert(c.subrange(off + i, off + e) =~= a.subrange(i, e));
}

proof fn lemma_closed_lex(c: Seq<char>, off: int, a: Seq<char>, i: int)
    requires
        holds_closed(c, off, a),
        0 <= i <= a.len(),
    ensures
        lex_from(a, i) matches Ok(t) ==> lex_from(c, off + i) == with_tokens(
            t,
            lex_from(c, off + a.len()),
        ),
    decreases a.len() - i,
{
    let rest = lex_from(c, off + a.len());
    if i < a.len() {
        lemma_lex_step_advances(a, i);
        lemma_closed_step(c, off, a, i);
        if let Ok((tok, k)) = lex_step(a, i) {
            lemma_closed_lex(c, off, a, k);
            if let (Ok(t2), Ok(r)) = (lex_from(a, k), rest) {
                if let Some(x) = tok {
                    assert(seq![x] + (t2 + r) =~= (seq![x] + t2) + r);
                }
            }
        }
    } else if let Ok(r) = rest {
        assert(Seq::<TokenModel>::empty() + r =~= r);
    }
}

/// Tokenizing two texts joined by a space gives the tokens of the first,
/// then those of the second. (`tokenize` reads by `lex`.)
pub proof fn law_lex_joined_by_space(
    a: Seq<char>,
    b: Seq<char>,
    ta: Seq<TokenModel>,
    tb: Seq<TokenModel>,
)
    requires
        lex(a) == Ok::<_, LexFailure>(ta),
        lex(b) == Ok::<_, LexFailure>(tb),
    ensures
        lex(a + seq![' '] + b) == Ok::<_, LexFailure>(ta + tb),
{
    let c = a + seq![' '] + b;
    let off: int = a.len() as int + 1;
    assert(holds_closed(c, 0, a));
    assert forall|m: int| 0 <= m < b.len() implies c[off + m] == #[trigger] b[m] by {}
    assert(holds_closed(c, off, b));
    lemma_closed_lex(c, 0, a, 0);
    lemma_lex_step_advances(c, a.len() as int);
    lemma_closed_lex(c, off, b, 0);
    assert(tb + Seq::<TokenModel>::empty() =~= tb);
}

/// `v` with every character written after a backslash.
pub open spec fn escape_all(v: Seq<char>) -> Seq<char>
    decreases v.len(),
{
    if v.len() == 0 {
        seq![]
    } else {
        seq!['\\', v[0]] + escape_all(v.drop_first())
    }
}

/// `v` holds neither a double quote nor a backslash.
pub open spec fn is_bare_value(v: Seq<char>) -> bool {
    forall|k: int| 0 <= k < v.len() ==> #[trigger] v[k] != '"' && v[k] != '\\'
}

proof fn lemma_scan_escaped(cs: Seq<char>, s: nat, j: int, v: Seq<char>)
    requires
        0 <= j,
        j + escape_all(v).len() < cs.len(),
        cs.subrange(j, j + escape_all(v).len()) == escape_all(v),
        cs[j + escape_all(v).len()] == '"',
    ensures
        scan_quoted(cs, s, j) == Ok::<_, LexFailure>((v, j + escape_all(v).len() + 1)),
    decreases v.len(),
{
    let e = escape_all(v);
    if v.len() > 0 {
        let rest = v.drop_first();
        let e2 = escape_all(rest);
        assert(e == seq!['\\', v[0]] + e2);
        assert(cs.subrange(j, j + e.len())[0] == cs[j]);
        assert(cs.subrange(j, j + e.len())[1] == cs[j + 1]);
        assert(cs.subrange(j + 2, j + 2 + e2.len()) =~= e.subrange(2, e.len() as int));
        assert(e.subrange(2, e.len() as int) =~= e2);
        assert(cs[j] == '\\' && cs[j + 1] == v[0]);
        lemma_scan_escaped(cs, s, j + 2, rest);
        assert(seq![v[0]] + rest =~= v);
    } else {
        assert(v =~= Seq::<char>::empty());
    }
}

proof fn lemma_scan_bare(cs: Seq<char>, s: nat, j: int, v: Seq<char>)
    requires
        0 <= j,
        is_bare_value(v),
        j + v.len() < cs.len(),
        cs.subrange(j, j + v.len()) == v,
        cs[j + v.len()] == '"',
    ensures
        scan_quoted(cs, s, j) == Ok::<_, LexFailure>((v, j + v.len() + 1)),
    decreases v.len(),
{
    if v.len() > 0 {
        let rest = v.drop_first();
        assert(cs.subrange(j, j + v.len())[0] == cs[j]);
        assert(cs.subrange(j + 1, j + 1 + rest.len()) =~= v.subrange(1, v.len() as int));
        assert(is_bare_value(rest)) by {
            assert forall|k: int| 0 <= k < rest.len() implies #[trigger] rest[k] != '"' && rest[k]
                != '\\' by {
                assert(rest[k] == v[k + 1]);
            }
        }
        assert(cs[j] == v[0]);
        lemma_scan_bare(cs, s, j + 1, rest);
        assert(seq![v[0]] + rest =~= v);
    } else {
        assert(v =~= Seq::<char>::empty());
    }
}

/// Inside double quotes, a backslash takes the next character literally,
/// whatever it is: a value written with every character escaped reads as
/// that value.
pub proof fn law_escaped_value(v: Seq<char>)
    ensures
        lex(seq!['"'] + escape_all(v) + seq!['"']) == Ok::<_, LexFailure>(
            seq![TokenModel::Value(v)],
        ),
{
    let e = escape_all(v);
    let cs = seq!['"'] + e + seq!['"'];
    assert(cs.subrange(1, 1 + e.len() as int) =~= e);
    assert(cs[0] == '"' && cs[e.len() + 1int] == '"');
    lemma_scan_escaped(cs, 0, 1, v);
    assert(lex_step(cs, 0) == Ok::<_, LexFailure>(
        (Some(TokenModel::Value(v)), cs.len() as int),
    ));
    lemma_lex_step_advances(cs, 0);
    assert(lex_from(cs, cs.len() as int) == Ok::<_, LexFailure>(Seq::<TokenModel>::empty()));
    assert(seq![TokenModel::Value(v)] + Seq::<TokenModel>::empty() =~= seq![TokenModel::Value(v)]);
}

/// Inside double quotes, characters other than a double quote and a
/// backslash are the value itself.
pub proof fn law_bare_quoted_value(v: Seq<char>)
    requires
        is_bare_value(v),
    ensures
        lex(seq!['"'] + v + seq!['"']) == Ok::<_, LexFailure>(seq![TokenModel::Value(v)]),
{
    let cs = seq!['"'] + v + seq!['"'];
    assert(cs.subrange(1, 1 + v.len() as int) =~= v);
    assert(cs[0] == '"' && cs[v.len() + 1int] == '"');
    lemma_scan_bare(cs, 0, 1, v);
    assert(lex_step(cs, 0) == Ok::<_, LexFailure>(
        (Some(TokenModel::Value(v)), cs.len() as int),
    ));
    lemma_lex_step_advances(cs, 0);
    assert(lex_from(cs, cs.len() as int) == Ok::<_, LexFailure>(Seq::<TokenModel>::empty()));
    assert(seq![TokenModel::Value(v)] + Seq::<TokenModel>::empty() =~= seq![TokenModel::Value(v)]);
}

} // verus!