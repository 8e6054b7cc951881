//! Rendering a rule and parsing the text gives the rule back.
//!
//! The proof goes through the tokens of a rendered rule: the tokenizer turns
//! `render(r, p)` into `rule_tokens(r, p)`, and the parser turns those
//! tokens back into `r`.

use crate::lexer::{
    backtick_close, ident_continue, ident_end, ident_start, lex, lex_from, lex_step, with_token,
    with_tokens, TokenModel,
};
use crate::rule::{precedence, quoted, render, render_args, RuleModel};
use crate::rule_parser::{
    and_tail, is_supported_matcher, or_tail, parse_and, parse_args, parse_or, parse_primary,
    parse_unary, parse_values, spec_parse, token_at, ParseFailure,
};
use crate::routing_laws::law_routing_parse_agrees;
use vstd::prelude::*;

verus! {

/// An identifier: an ASCII letter, then ASCII letters and digits.
pub open spec fn is_identifier(n: Seq<char>) -> bool {
    &&& n.len() > 0
    &&& ident_start(n[0])
    &&& forall|i: int| 1 <= i < n.len() ==> ident_continue(#[trigger] n[i])
}

/// A value that can be written between backticks.
pub open spec fn is_plain_value(v: Seq<char>) -> bool {
    forall|i: int| 0 <= i < v.len() ==> #[trigger] v[i] != '`'
}

/// Every matcher name of the rule is an identifier.
pub open spec fn has_identifier_names(r: RuleModel) -> bool
    decreases r,
{
    match r {
        RuleModel::Matcher(name, _) => is_identifier(name),
        RuleModel::Not(x) => has_identifier_names(*x),
        RuleModel::And(a, b) => has_identifier_names(*a) && has_identifier_names(*b),
        RuleModel::Or(a, b) => has_identifier_names(*a) && has_identifier_names(*b),
    }
}

/// Every value of the rule can be written between backticks.
pub open spec fn has_plain_values(r: RuleModel) -> bool
    decreases r,
{
    match r {
        RuleModel::Matcher(_, args) => forall|i: int|
            0 <= i < args.len() ==> is_plain_value(#[trigger] args[i]),
        RuleModel::Not(x) => has_plain_values(*x),
        RuleModel::And(a, b) => has_plain_values(*a) && has_plain_values(*b),
        RuleModel::Or(a, b) => has_plain_values(*a) && has_plain_values(*b),
    }
}

/// No `&&` (`||`) has another `&&` (`||`) as its right operand: written
/// without parentheses, such a chain groups to the left.
pub open spec fn groups_to_the_left(r: RuleModel) -> bool
    decreases r,
{
    match r {
        RuleModel::Matcher(..) => true,
        RuleModel::Not(x) => groups_to_the_left(*x),
        RuleModel::And(a, b) => groups_to_the_left(*a) && groups_to_the_left(*b) && !(*b is And),
        RuleModel::Or(a, b) => groups_to_the_left(*a) && groups_to_the_left(*b) && !(*b is Or),
    }
}

/// A rule that its rendering describes exactly.
pub open spec fn is_well_formed(r: RuleModel) -> bool {
    &&& has_identifier_names(r)
    &&& has_plain_values(r)
    &&& groups_to_the_left(r)
}

/// Every matcher of the rule is one that routes requests.
pub open spec fn is_routable(r: RuleModel) -> bool
    decreases r,
{
    match r {
        RuleModel::Matcher(name, args) => is_supported_matcher(name, args),
        RuleModel::Not(x) => is_routable(*x),
        RuleModel::And(a, b) => is_routable(*a) && is_routable(*b),
        RuleModel::Or(a, b) => is_routable(*a) && is_routable(*b),
    }
}

/// The tokens of a matcher's argument list.
pub open spec fn arg_tokens(args: Seq<Seq<char>>) -> Seq<TokenModel>
    decreases args.len(),
{
    if args.len() == 0 {
        seq![]
    } else if args.len() == 1 {
        seq![TokenModel::Value(args[0])]
    } else {
        arg_tokens(args.drop_last()) + seq![TokenModel::Comma, TokenModel::Value(args.last())]
    }
}

/// The tokens of `render(r, parent)`.
pub open spec fn rule_tokens(r: RuleModel, parent: nat) -> Seq<TokenModel>
    decreases r,
{
    let body = match r {
        RuleModel::Matcher(name, args) => seq![TokenModel::Ident(name), TokenModel::LParen]
            + arg_tokens(args) + seq![TokenModel::RParen],
        RuleModel::Not(x) => seq![TokenModel::Not] + rule_tokens(*x, 3),
        RuleModel::And(a, b) => rule_tokens(*a, 2) + seq![TokenModel::And] + rule_tokens(*b, 2),
        RuleModel::Or(a, b) => rule_tokens(*a, 1) + seq![TokenModel::Or] + rule_tokens(*b, 1),
    };
    if precedence(r) < parent {
        seq![TokenModel::LParen] + body + seq![TokenModel::RParen]
    } else {
        body
    }
}

/// `ts` holds `part` from position `pos` on.
pub open spec fn holds_at<A>(ts: Seq<A>, pos: int, part: Seq<A>) -> bool {
    &&& 0 <= pos
    &&& pos + part.len() <= ts.len()
    &&& ts.subrange(pos, pos + part.len()) == part
}

proof fn lemma_holds_split<A>(ts: Seq<A>, pos: int, a: Seq<A>, b: Seq<A>)
    requires
        holds_at(ts, pos, a + b),
    ensures
        holds_at(ts, pos, a),
        holds_at(ts, pos + a.len(), b),
{
    let whole = ts.subrange(pos, pos + (a + b).len());
    assert(ts.subrange(pos, pos + a.len()) =~= whole.subrange(0, a.len() as int));
    assert((a + b).subrange(0, a.len() as int) =~= a);
    assert(ts.subrange(pos + a.len(), pos + a.len() + b.len()) =~= whole.subrange(
        a.len() as int,
        (a.len() + b.len()) as int,
    ));
    assert((a + b).subrange(a.len() as int, (a.len() + b.len()) as int) =~= b);
}

proof fn lemma_holds_at_index<A>(ts: Seq<A>, pos: int, part: Seq<A>, i: int)
    requires
        holds_at(ts, pos, part),
        0 <= i < part.len(),
    ensures
        ts[pos + i] == part[i],
{
}

proof fn lemma_rule_tokens_nonempty(r: RuleModel, parent: nat)
    ensures
        rule_tokens(r, parent).len() > 0,
    decreases r,
{
    match r {
        RuleModel::Matcher(..) => {},
        RuleModel::Not(x) => {},
        RuleModel::And(a, b) => lemma_rule_tokens_nonempty(*a, 2),
        RuleModel::Or(a, b) => lemma_rule_tokens_nonempty(*a, 1),
    }
}

/// The argument tokens read front to back: the first value, then a comma
/// and the tokens of the other values.
proof fn lemma_arg_tokens_front(args: Seq<Seq<char>>)
    requires
        args.len() >= 1,
    ensures
        arg_tokens(args) == seq![TokenModel::Value(args[0])] + (if args.len() == 1 {
            Seq::<TokenModel>::empty()
        } else {
            seq![TokenModel::Comma] + arg_tokens(args.drop_first())
        }),
    decreases args.len(),
{
    if args.len() == 2 {
        assert(arg_tokens(args.drop_last()) == seq![TokenModel::Value(args[0])]);
        assert(arg_tokens(args) =~= seq![TokenModel::Value(args[0])] + (seq![TokenModel::Comma]
            + arg_tokens(args.drop_first())));
    } else if args.len() > 2 {
        let init = args.drop_last();
        lemma_arg_tokens_front(init);
        assert(args.drop_first().drop_last() =~= init.drop_first());
        assert(arg_tokens(args.drop_first()) == arg_tokens(init.drop_first()) + seq![
            TokenModel::Comma,
            TokenModel::Value(args.last()),
        ]);
        assert(arg_tokens(args) =~= seq![TokenModel::Value(args[0])] + (seq![TokenModel::Comma]
            + arg_tokens(args.drop_first())));
    }
}

/// The values of a matcher are read back from their tokens and a `)`.
proof fn lemma_parse_values(ts: Seq<TokenModel>, pos: int, args: Seq<Seq<char>>)
    requires
        args.len() >= 1,
        holds_at(ts, pos, arg_tokens(args) + seq![TokenModel::RParen]),
    ensures
        parse_values(ts, pos) == Ok::<_, crate::rule_parser::SyntaxFailure>(
            (args, pos + arg_tokens(args).len() + 1),
        ),
    decreases args.len(),
{
    lemma_arg_tokens_front(args);
    let all = arg_tokens(args) + seq![TokenModel::RParen];
    lemma_holds_at_index(ts, pos, all, 0);
    lemma_holds_at_index(ts, pos, all, 1);
    if args.len() == 1 {
        assert(seq![args[0]] =~= args);
    } else {
        let rest = args.drop_first();
        assert(all =~= seq![TokenModel::Value(args[0]), TokenModel::Comma] + (arg_tokens(rest)
            + seq![TokenModel::RParen]));
        lemma_holds_split(
            ts,
            pos,
            seq![TokenModel::Value(args[0]), TokenModel::Comma],
            arg_tokens(rest) + seq![TokenModel::RParen],
        );
        lemma_parse_values(ts, pos + 2, rest);
        assert(seq![args[0]] + rest =~= args);
    }
}

/// The arguments of a matcher are read back from their tokens and a `)`.
proof fn lemma_parse_args(ts: Seq<TokenModel>, pos: int, args: Seq<Seq<char>>)
    requires
        holds_at(ts, pos, arg_tokens(args) + seq![TokenModel::RParen]),
    ensures
        parse_args(ts, pos) == Ok::<_, crate::rule_parser::SyntaxFailure>(
            (args, pos + arg_tokens(args).len() + 1),
        ),
{
    let all = arg_tokens(args) + seq![TokenModel::RParen];
    lemma_holds_at_index(ts, pos, all, 0);
    if args.len() == 0 {
        assert(args =~= seq![]);
    } else {
        lemma_arg_tokens_front(args);
        lemma_parse_values(ts, pos, args);
    }
}

spec fn rank_unary(r: RuleModel) -> int {
    match r {
        RuleModel::And(..) => 5,
        RuleModel::Or(..) => 4,
        _ => 0,
    }
}

spec fn rank_or(r: RuleModel) -> int {
    match r {
        RuleModel::And(..) => 4,
        RuleModel::Or(..) => 3,
        _ => 2,
    }
}

spec fn rank_and(r: RuleModel) -> int {
    match r {
        RuleModel::And(..) => 3,
        RuleModel::Or(..) => 5,
        _ => 1,
    }
}

/// `unary` reads back a rule written in an operand of `!`.
proof fn lemma_parse_unary(ts: Seq<TokenModel>, pos: int, r: RuleModel, typed: bool)
    requires
        is_well_formed(r),
        typed ==> is_routable(r),
        holds_at(ts, pos, rule_tokens(r, 3)),
    ensures
        parse_unary(ts, pos, typed) == Ok::<_, crate::rule_parser::SyntaxFailure>(
            (r, pos + rule_tokens(r, 3).len()),
        ),
    decreases r, rank_unary(r),
{
    let toks = rule_tokens(r, 3);
    lemma_holds_at_index(ts, pos, toks, 0);
    match r {
        RuleModel::Matcher(name, args) => {
            lemma_holds_at_index(ts, pos, toks, 1);
            assert(toks =~= seq![TokenModel::Ident(name), TokenModel::LParen] + (arg_tokens(args)
                + seq![TokenModel::RParen]));
            lemma_holds_split(
                ts,
                pos,
                seq![TokenModel::Ident(name), TokenModel::LParen],
                arg_tokens(args) + seq![TokenModel::RParen],
            );
            lemma_parse_args(ts, pos + 2, args);
            assert(parse_primary(ts, pos, typed) == Ok::<_, crate::rule_parser::SyntaxFailure>(
                (r, pos + toks.len()),
            ));
        },
        RuleModel::Not(x) => {
            lemma_holds_split(ts, pos, seq![TokenModel::Not], rule_tokens(*x, 3));
            lemma_parse_unary(ts, pos + 1, *x, typed);
        },
        _ => {
            let inner = rule_tokens(r, 1);
            lemma_holds_split(ts, pos, seq![TokenModel::LParen] + inner, seq![TokenModel::RParen]);
            lemma_holds_split(ts, pos, seq![TokenModel::LParen], inner);
            lemma_holds_at_index(ts, pos + 1 + inner.len(), seq![TokenModel::RParen], 0);
            lemma_parse_or(ts, pos + 1, r, typed);
            lemma_rule_tokens_nonempty(r, 1);
        },
    }
}

/// `and` reads back a rule written in an operand of `&&`, up to the `&&`
/// loop that continues after it.
proof fn lemma_parse_and(ts: Seq<TokenModel>, pos: int, r: RuleModel, typed: bool)
    requires
        is_well_formed(r),
        typed ==> is_routable(r),
        holds_at(ts, pos, rule_tokens(r, 2)),
    ensures
        parse_and(ts, pos, typed) == and_tail(ts, pos + rule_tokens(r, 2).len(), r, typed),
    decreases r, rank_and(r),
{
    match r {
        RuleModel::And(a, b) => {
            let ta = rule_tokens(*a, 2);
            let tb = rule_tokens(*b, 2);
            assert(rule_tokens(r, 2) =~= ta + (seq![TokenModel::And] + tb));
            lemma_holds_split(ts, pos, ta, seq![TokenModel::And] + tb);
            lemma_holds_split(ts, pos + ta.len(), seq![TokenModel::And], tb);
            lemma_holds_at_index(ts, pos + ta.len(), seq![TokenModel::And], 0);
            lemma_parse_and(ts, pos, *a, typed);
            lemma_parse_unary(ts, pos + ta.len() + 1, *b, typed);
            lemma_rule_tokens_nonempty(*b, 2);
        },
        _ => {
            lemma_parse_unary(ts, pos, r, typed);
            lemma_rule_tokens_nonempty(r, 2);
        },
    }
}

/// `or` reads back a rule written at the top or between parentheses, up to
/// the `||` loop that continues after it, when no `&&` follows.
proof fn lemma_parse_or(ts: Seq<TokenModel>, pos: int, r: RuleModel, typed: bool)
    requires
        is_well_formed(r),
        typed ==> is_routable(r),
        holds_at(ts, pos, rule_tokens(r, 1)),
        token_at(ts, pos + rule_tokens(r, 1).len()) != Some(TokenModel::And),
    ensures
        parse_or(ts, pos, typed) == or_tail(ts, pos + rule_tokens(r, 1).len(), r, typed),
    decreases r, rank_or(r),
{
    match r {
        RuleModel::Or(a, b) => {
            let ta = rule_tokens(*a, 1);
            let tb = rule_tokens(*b, 1);
            assert(rule_tokens(r, 1) =~= ta + (seq![TokenModel::Or] + tb));
            lemma_holds_split(ts, pos, ta, seq![TokenModel::Or] + tb);
            lemma_holds_split(ts, pos + ta.len(), seq![TokenModel::Or], tb);
            lemma_holds_at_index(ts, pos + ta.len(), seq![TokenModel::Or], 0);
            lemma_parse_or(ts, pos, *a, typed);
            lemma_parse_and(ts, pos + ta.len() + 1, *b, typed);
            lemma_rule_tokens_nonempty(*b, 1);
        },
        _ => {
            lemma_parse_and(ts, pos, r, typed);
            lemma_rule_tokens_nonempty(r, 1);
        },
    }
}

proof fn lemma_with_tokens_assoc(
    a: Seq<TokenModel>,
    b: Seq<TokenModel>,
    r: Result<Seq<TokenModel>, crate::lexer::LexFailure>,
)
    ensures
        with_tokens(a, with_tokens(b, r)) == with_tokens(a + b, r),
{
    if let Ok(rest) = r {
        assert(a + (b + rest) =~= (a + b) + rest);
    }
}

/// The tokenizer at a single-character token, or at a space.
proof fn lemma_lex_char(cs: Seq<char>, i: int)
    requires
        0 <= i < cs.len(),
    ensures
        cs[i] == '(' ==> lex_from(cs, i) == with_tokens(seq![TokenModel::LParen], lex_from(cs, i + 1)),
        cs[i] == ')' ==> lex_from(cs, i) == with_tokens(seq![TokenModel::RParen], lex_from(cs, i + 1)),
        cs[i] == ',' ==> lex_from(cs, i) == with_tokens(seq![TokenModel::Comma], lex_from(cs, i + 1)),
        cs[i] == '!' ==> lex_from(cs, i) == with_tokens(seq![TokenModel::Not], lex_from(cs, i + 1)),
        cs[i] == ' ' ==> lex_from(cs, i) == lex_from(cs, i + 1),
{
    crate::lexer::lemma_lex_step_advances(cs, i);
}

/// The tokenizer at ` && ` and at ` || `.
proof fn lemma_lex_operator(cs: Seq<char>, i: int, op: Seq<char>, t: TokenModel)
    requires
        holds_at(cs, i, op),
        (op == seq![' ', '&', '&', ' '] && t == TokenModel::And) || (op == seq![' ', '|', '|', ' ']
            && t == TokenModel::Or),
    ensures
        lex_from(cs, i) == with_tokens(seq![t], lex_from(cs, i + 4)),
{
    lemma_holds_at_index(cs, i, op, 0);
    lemma_holds_at_index(cs, i, op, 1);
    lemma_holds_at_index(cs, i, op, 2);
    lemma_holds_at_index(cs, i, op, 3);
    lemma_lex_char(cs, i);
    crate::lexer::lemma_lex_step_advances(cs, i + 1);
    lemma_lex_char(cs, i + 3);
}

proof fn lemma_ident_end_at(cs: Seq<char>, j: int, k: int)
    requires
        0 <= j <= k < cs.len(),
        forall|m: int| j <= m < k ==> ident_continue(#[trigger] cs[m]),
        !ident_continue(cs[k]),
    ensures
        ident_end(cs, j) == k,
    decreases k - j,
{
    if j < k {
        lemma_ident_end_at(cs, j + 1, k);
    }
}

/// The tokenizer at a matcher name followed by `(`.
proof fn lemma_lex_ident(cs: Seq<char>, i: int, name: Seq<char>)
    requires
        is_identifier(name),
        holds_at(cs, i, name + seq!['(']),
    ensures
        lex_from(cs, i) == with_tokens(seq![TokenModel::Ident(name)], lex_from(cs, i + name.len())),
{
    let all = name + seq!['('];
    lemma_holds_split(cs, i, name, seq!['(']);
    lemma_holds_at_index(cs, i, all, 0);
    lemma_holds_at_index(cs, i, all, name.len() as int);
    assert forall|m: int| i + 1 <= m < i + name.len() implies ident_continue(#[trigger] cs[m]) by {
        lemma_holds_at_index(cs, i, all, m - i);
    }
    lemma_ident_end_at(cs, i + 1, i + name.len());
    crate::lexer::lemma_lex_step_advances(cs, i);
}

proof fn lemma_backtick_close_at(cs: Seq<char>, j: int, k: int)
    requires
        0 <= j <= k < cs.len(),
        forall|m: int| j <= m < k ==> #[trigger] cs[m] != '`',
        cs[k] == '`',
    ensures
        backtick_close(cs, j) == Some(k),
    decreases k - j,
{
    if j < k {
        lemma_backtick_close_at(cs, j + 1, k);
    }
}

/// The tokenizer at a value between backticks.
proof fn lemma_lex_value(cs: Seq<char>, i: int, v: Seq<char>)
    requires
        is_plain_value(v),
        holds_at(cs, i, quoted(v)),
    ensures
        lex_from(cs, i) == with_tokens(seq![TokenModel::Value(v)], lex_from(cs, i + v.len() + 2)),
{
    let all = quoted(v);
    lemma_holds_at_index(cs, i, all, 0);
    lemma_holds_at_index(cs, i, all, (v.len() + 1) as int);
    assert forall|m: int| i + 1 <= m < i + 1 + v.len() implies #[trigger] cs[m] != '`' by {
        lemma_holds_at_index(cs, i, all, m - i);
    }
    lemma_backtick_close_at(cs, i + 1, i + 1 + v.len());
    assert(cs.subrange(i + 1, i + 1 + v.len()) =~= all.subrange(1, (v.len() + 1) as int));
    assert(all.subrange(1, (v.len() + 1) as int) =~= v);
    crate::lexer::lemma_lex_step_advances(cs, i);
}

/// The tokenizer at a matcher's argument list.
proof fn lemma_lex_args(cs: Seq<char>, i: int, args: Seq<Seq<char>>)
    requires
        forall|k: int| 0 <= k < args.len() ==> is_plain_value(#[trigger] args[k]),
        holds_at(cs, i, render_args(args)),
    ensures
        lex_from(cs, i) == with_tokens(arg_tokens(args), lex_from(cs, i + render_args(args).len())),
    decreases args.len(),
{
    if args.len() == 1 {
        lemma_lex_value(cs, i, args[0]);
    } else if args.len() > 1 {
        let init = args.drop_last();
        let last = args.last();
        let head = render_args(init);
        assert(render_args(args) =~= head + (seq![',', ' '] + quoted(last)));
        lemma_holds_split(cs, i, head, seq![',', ' '] + quoted(last));
        lemma_holds_split(cs, i + head.len(), seq![',', ' '], quoted(last));
        lemma_holds_at_index(cs, i + head.len(), seq![',', ' '], 0);
        lemma_holds_at_index(cs, i + head.len(), seq![',', ' '], 1);
        lemma_lex_args(cs, i, init);
        lemma_lex_char(cs, i + head.len());
        lemma_lex_char(cs, i + head.len() + 1);
        lemma_lex_value(cs, i + head.len() + 2, last);
        lemma_with_tokens_assoc(
            seq![TokenModel::Comma],
            seq![TokenModel::Value(last)],
            lex_from(cs, i + render_args(args).len()),
        );
        lemma_with_tokens_assoc(
            arg_tokens(init),
            seq![TokenModel::Comma] + seq![TokenModel::Value(last)],
            lex_from(cs, i + render_args(args).len()),
        );
        assert(arg_tokens(args) =~= arg_tokens(init) + (seq![TokenModel::Comma] + seq![
            TokenModel::Value(last),
        ]));
    }
}

/// The tokenizer turns a rendered rule into the rule's tokens.
proof fn lemma_lex_render(cs: Seq<char>, i: int, r: RuleModel, parent: nat)
    requires
        is_well_formed(r),
        holds_at(cs, i, render(r, parent)),
    ensures
        lex_from(cs, i) == with_tokens(
            rule_tokens(r, parent),
            lex_from(cs, i + render(r, parent).len()),
        ),
    decreases r, parent,
{
    let text = render(r, parent);
    let end = i + text.len();
    if precedence(r) < parent {
        let body = render(r, 0);
        assert(text =~= seq!['('] + (body + seq![')']));
        lemma_holds_split(cs, i, seq!['('], body + seq![')']);
        lemma_holds_split(cs, i + 1, body, seq![')']);
        lemma_holds_at_index(cs, i, seq!['('], 0);
        lemma_holds_at_index(cs, i + 1 + body.len(), seq![')'], 0);
        lemma_lex_char(cs, i);
        lemma_lex_render(cs, i + 1, r, 0);
        lemma_lex_char(cs, i + 1 + body.len());
        let rest = lex_from(cs, end);
        lemma_with_tokens_assoc(rule_tokens(r, 0), seq![TokenModel::RParen], rest);
        lemma_with_tokens_assoc(
            seq![TokenModel::LParen],
            rule_tokens(r, 0) + seq![TokenModel::RParen],
            rest,
        );
        assert(rule_tokens(r, parent) =~= seq![TokenModel::LParen] + (rule_tokens(r, 0) + seq![
            TokenModel::RParen,
        ]));
    } else {
        let rest = lex_from(cs, end);
        match r {
            RuleModel::Matcher(name, args) => {
                let ra = render_args(args);
                assert(text =~= (name + seq!['(']) + (ra + seq![')']));
                lemma_holds_split(cs, i, name + seq!['('], ra + seq![')']);
                lemma_holds_split(cs, i + name.len() + 1, ra, seq![')']);
                lemma_holds_split(cs, i, name, seq!['(']);
                lemma_holds_at_index(cs, i + name.len(), seq!['('], 0);
                lemma_holds_at_index(cs, i + name.len() + 1 + ra.len(), seq![')'], 0);
                lemma_lex_ident(cs, i, name);
                lemma_lex_char(cs, i + name.len());
                lemma_lex_args(cs, i + name.len() + 1, args);
                lemma_lex_char(cs, i + name.len() + 1 + ra.len());
                lemma_with_tokens_assoc(arg_tokens(args), seq![TokenModel::RParen], rest);
                lemma_with_tokens_assoc(
                    seq![TokenModel::LParen],
                    arg_tokens(args) + seq![TokenModel::RParen],
                    rest,
                );
                lemma_with_tokens_assoc(
                    seq![TokenModel::Ident(name)],
                    seq![TokenModel::LParen] + (arg_tokens(args) + seq![TokenModel::RParen]),
                    rest,
                );
                assert(rule_tokens(r, parent) =~= seq![TokenModel::Ident(name)] + (seq![
                    TokenModel::LParen,
                ] + (arg_tokens(args) + seq![TokenModel::RParen])));
            },
            RuleModel::Not(x) => {
                lemma_holds_split(cs, i, seq!['!'], render(*x, 3));
                lemma_holds_at_index(cs, i, seq!['!'], 0);
                lemma_lex_char(cs, i);
                lemma_lex_render(cs, i + 1, *x, 3);
                lemma_with_tokens_assoc(seq![TokenModel::Not], rule_tokens(*x, 3), rest);
            },
            RuleModel::And(a, b) => {
                let op = seq![' ', '&', '&', ' '];
                let ta = render(*a, 2);
                assert(text =~= ta + (op + render(*b, 2)));
                lemma_holds_split(cs, i, ta, op + render(*b, 2));
                lemma_holds_split(cs, i + ta.len(), op, render(*b, 2));
                lemma_lex_render(cs, i, *a, 2);
                lemma_lex_operator(cs, i + ta.len(), op, TokenModel::And);
                lemma_lex_render(cs, i + ta.len() + 4, *b, 2);
                lemma_with_tokens_assoc(seq![TokenModel::And], rule_tokens(*b, 2), rest);
                lemma_with_tokens_assoc(
                    rule_tokens(*a, 2),
                    seq![TokenModel::And] + rule_tokens(*b, 2),
                    rest,
                );
                assert(rule_tokens(r, parent) =~= rule_tokens(*a, 2) + (seq![TokenModel::And]
                    + rule_tokens(*b, 2)));
            },
            RuleModel::Or(a, b) => {
                let op = seq![' ', '|', '|', ' '];
                let ta = render(*a, 1);
                assert(text =~= ta + (op + render(*b, 1)));
                lemma_holds_split(cs, i, ta, op + render(*b, 1));
                lemma_holds_split(cs, i + ta.len(), op, render(*b, 1));
                lemma_lex_render(cs, i, *a, 1);
                lemma_lex_operator(cs, i + ta.len(), op, TokenModel::Or);
                lemma_lex_render(cs, i + ta.len() + 4, *b, 1);
                lemma_with_tokens_assoc(seq![TokenModel::Or], rule_tokens(*b, 1), rest);
                lemma_with_tokens_assoc(
                    rule_tokens(*a, 1),
                    seq![TokenModel::Or] + rule_tokens(*b, 1),
                    rest,
                );
                assert(rule_tokens(r, parent) =~= rule_tokens(*a, 1) + (seq![TokenModel::Or]
                    + rule_tokens(*b, 1)));
            },
        }
    }
}

/// Rendering a well-formed rule and parsing the text gives the rule back;
/// and so does parsing it as a routing rule, when all its matchers route
/// requests. (`Rule::to_string` writes `render(r, 0)`; `Rule::parse`,
/// `parse_rule` and `try_parse_rule` read by `spec_parse`.)
pub proof fn law_parse_inverts_render(r: RuleModel, typed: bool)
    requires
        is_well_formed(r),
        typed ==> is_routable(r),
    ensures
        spec_parse(render(r, 0), typed) == Ok::<_, ParseFailure>(r),
{
    let cs = render(r, 0);
    assert(cs.subrange(0, cs.len() as int) =~= cs);
    lemma_lex_render(cs, 0, r, 0);
    let ts = rule_tokens(r, 0);
    assert(ts.subrange(0, ts.len() as int) =~= ts);
    lemma_parse_or(ts, 0, r, typed);
}

/// An identifier token holds an identifier.
pub open spec fn is_named_well(t: TokenModel) -> bool {
    match t {
        TokenModel::Ident(n) => is_identifier(n),
        _ => true,
    }
}

proof fn lemma_lex_identifiers(cs: Seq<char>, i: int)
    requires
        0 <= i,
    ensures
        lex_from(cs, i) matches Ok(ts) ==> forall|k: int|
            0 <= k < ts.len() ==> is_named_well(#[trigger] ts[k]),
    decreases cs.len() - i,
{
    if i < cs.len() {
        crate::lexer::lemma_lex_step_advances(cs, i);
        if let Ok((t, k)) = lex_step(cs, i) {
            lemma_lex_identifiers(cs, k);
            if i + 1 <= cs.len() {
                crate::lexer::lemma_ident_end(cs, i + 1);
            }
        }
    }
}

proof fn lemma_names_or(ts: Seq<TokenModel>, pos: int, typed: bool)
    requires
        0 <= pos,
        forall|k: int| 0 <= k < ts.len() ==> is_named_well(#[trigger] ts[k]),
    ensures
        parse_or(ts, pos, typed) matches Ok((r, _)) ==> has_identifier_names(r),
    decreases ts.len() - pos, 3int,
{
    lemma_names_and(ts, pos, typed);
    crate::rule_parser::lemma_and_advances(ts, pos, typed);
    if let Ok((l, p)) = parse_and(ts, pos, typed) {
        lemma_names_or_tail(ts, p, l, typed);
    }
}

proof fn lemma_names_or_tail(ts: Seq<TokenModel>, pos: int, left: RuleModel, typed: bool)
    requires
        0 <= pos <= ts.len(),
        forall|k: int| 0 <= k < ts.len() ==> is_named_well(#[trigger] ts[k]),
    ensures
        or_tail(ts, pos, left, typed) matches Ok((r, _)) ==> (has_identifier_names(left)
            ==> has_identifier_names(r)),
    decreases ts.len() - pos, 4int,
{
    if token_at(ts, pos) == Some(TokenModel::Or) {
        lemma_names_and(ts, pos + 1, typed);
        crate::rule_parser::lemma_and_advances(ts, pos + 1, typed);
        if let Ok((r, p)) = parse_and(ts, pos + 1, typed) {
            lemma_names_or_tail(ts, p, RuleModel::Or(Box::new(left), Box::new(r)), typed);
        }
    }
}

proof fn lemma_names_and(ts: Seq<TokenModel>, pos: int, typed: bool)
    requires
        0 <= pos,
        forall|k: int| 0 <= k < ts.len() ==> is_named_well(#[trigger] ts[k]),
    ensures
        parse_and(ts, pos, typed) matches Ok((r, _)) ==> has_identifier_names(r),
    decreases ts.len() - pos, 2int,
{
    lemma_names_unary(ts, pos, typed);
    crate::rule_parser::lemma_unary_advances(ts, pos, typed);
    if let Ok((l, p)) = parse_unary(ts, pos, typed) {
        lemma_names_and_tail(ts, p, l, typed);
    }
}

proof fn lemma_names_and_tail(ts: Seq<TokenModel>, pos: int, left: RuleModel, typed: bool)
    requires
        0 <= pos <= ts.len(),
        forall|k: int| 0 <= k < ts.len() ==> is_named_well(#[trigger] ts[k]),
    ensures
        and_tail(ts, pos, left, typed) matches Ok((r, _)) ==> (has_identifier_names(left)
            ==> has_identifier_names(r)),
    decreases ts.len() - pos, 4int,
{
    if token_at(ts, pos) == Some(TokenModel::And) {
        lemma_names_unary(ts, pos + 1, typed);
        crate::rule_parser::lemma_unary_advances(ts, pos + 1, typed);
        if let Ok((r, p)) = parse_unary(ts, pos + 1, typed) {
            lemma_names_and_tail(ts, p, RuleModel::And(Box::new(left), Box::new(r)), typed);
        }
    }
}

proof fn lemma_names_unary(ts: Seq<TokenModel>, pos: int, typed: bool)
    requires
        0 <= pos,
        forall|k: int| 0 <= k < ts.len() ==> is_named_well(#[trigger] ts[k]),
    ensures
        parse_unary(ts, pos, typed) matches Ok((r, _)) ==> has_identifier_names(r),
    decreases ts.len() - pos, 1int,
{
    if token_at(ts, pos) == Some(TokenModel::Not) {
        lemma_names_unary(ts, pos + 1, typed);
    } else {
        lemma_names_primary(ts, pos, typed);
    }
}

proof fn lemma_names_primary(ts: Seq<TokenModel>, pos: int, typed: bool)
    requires
        0 <= pos,
        forall|k: int| 0 <= k < ts.len() ==> is_named_well(#[trigger] ts[k]),
    ensures
        parse_primary(ts, pos, typed) matches Ok((r, _)) ==> has_identifier_names(r),
    decreases ts.len() - pos, 0int,
{
    if token_at(ts, pos) == Some(TokenModel::LParen) {
        lemma_names_or(ts, pos + 1, typed);
    }
}

/// The matcher names of a parsed rule are identifiers.
pub proof fn lemma_parsed_names(cs: Seq<char>, typed: bool)
    ensures
        spec_parse(cs, typed) matches Ok(r) ==> has_identifier_names(r),
{
    lemma_lex_identifiers(cs, 0);
    if let Ok(ts) = lex(cs) {
        lemma_names_or(ts, 0, typed);
    }
}

/// A parsed rule reads back from its rendering, when its values can be
/// written between backticks and no `&&` or `||` has a right operand of its
/// own kind (parentheses in the text can give such a rule, and the
/// rendering leaves them out). (`Rule::to_string` writes `render(r, 0)`.)
pub proof fn law_rendering_reads_back(cs: Seq<char>, typed: bool, r: RuleModel)
    requires
        spec_parse(cs, typed) == Ok::<_, ParseFailure>(r),
        has_plain_values(r),
        groups_to_the_left(r),
    ensures
        spec_parse(render(r, 0), typed) == Ok::<_, ParseFailure>(r),
{
    lemma_parsed_names(cs, typed);
    if typed {
        law_routing_parse_agrees(cs, r);
    }
    law_parse_inverts_render(r, typed);
}

} // verus!
