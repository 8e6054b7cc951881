//! Reading a rule as a routing rule agrees with reading it plainly: the
//! routing parse succeeds exactly on the rules that the plain parse reads
//! and whose matchers all route requests, and gives the same rule.

use crate::round_trip::is_routable;
use crate::rule::RuleModel;
use crate::rule_parser::{
    and_tail, or_tail, parse_and, parse_or, parse_primary, parse_unary, spec_parse, ParseFailure,
};
use crate::lexer::TokenModel;
use vstd::prelude::*;

verus! {

/// The typed parse reads a rule exactly when the plain parse reads it and
/// its matchers all route requests, and then reads the same rule.
spec fn agree(
    plain: Result<(RuleModel, int), crate::rule_parser::SyntaxFailure>,
    typed: Result<(RuleModel, int), crate::rule_parser::SyntaxFailure>,
) -> bool {
    &&& match typed {
        Ok((r, _)) => plain == typed && is_routable(r),
        Err(_) => true,
    }
    &&& match plain {
        Ok((r, _)) => is_routable(r) ==> typed == plain,
        Err(_) => true,
    }
}

/// The same, for the loops of `||` and `&&` that continue after `left`.
spec fn agree_tail(
    left: RuleModel,
    plain: Result<(RuleModel, int), crate::rule_parser::SyntaxFailure>,
    typed: Result<(RuleModel, int), crate::rule_parser::SyntaxFailure>,
) -> bool {
    &&& match typed {
        Ok((r, _)) => is_routable(left) ==> plain == typed && is_routable(r),
        Err(_) => true,
    }
    &&& match plain {
        Ok((r, _)) => is_routable(r) ==> is_routable(left) && typed == plain,
        Err(_) => true,
    }
}

proof fn lemma_typed_or(ts: Seq<TokenModel>, pos: int)
    requires
        0 <= pos <= ts.len(),
    ensures
        agree(parse_or(ts, pos, false), parse_or(ts, pos, true)),
    decreases ts.len() - pos, 3int,
{
    lemma_typed_and(ts, pos);
    if let Ok((l, p)) = parse_and(ts, pos, false) {
        if pos < p <= ts.len() {
            lemma_typed_or_tail(ts, p, l);
        }
    }
    if let Ok((l, p)) = parse_and(ts, pos, true) {
        if pos < p <= ts.len() {
            lemma_typed_or_tail(ts, p, l);
        }
    }
}

proof fn lemma_typed_or_tail(ts: Seq<TokenModel>, pos: int, left: RuleModel)
    requires
        0 <= pos <= ts.len(),
    ensures
        agree_tail(left, or_tail(ts, pos, left, false), or_tail(ts, pos, left, true)),
    decreases ts.len() - pos, 4int,
{
    if pos < ts.len() && ts[pos] == TokenModel::Or {
        lemma_typed_and(ts, pos + 1);
        crate::rule_parser::lemma_and_advances(ts, pos + 1, false);
        if let Ok((r, p)) = parse_and(ts, pos + 1, false) {
            if pos < p <= ts.len() {
                lemma_typed_or_tail(ts, p, RuleModel::Or(Box::new(left), Box::new(r)));
            }
        }
        if let Ok((r, p)) = parse_and(ts, pos + 1, true) {
            if pos < p <= ts.len() {
                lemma_typed_or_tail(ts, p, RuleModel::Or(Box::new(left), Box::new(r)));
            }
        }
    }
}

proof fn lemma_typed_and(ts: Seq<TokenModel>, pos: int)
    requires
        0 <= pos <= ts.len(),
    ensures
        agree(parse_and(ts, pos, false), parse_and(ts, pos, true)),
    decreases ts.len() - pos, 2int,
{
    lemma_typed_unary(ts, pos);
    if let Ok((l, p)) = parse_unary(ts, pos, false) {
        if pos < p <= ts.len() {
            lemma_typed_and_tail(ts, p, l);
        }
    }
    if let Ok((l, p)) = parse_unary(ts, pos, true) {
        if pos < p <= ts.len() {
            lemma_typed_and_tail(ts, p, l);
        }
    }
}

proof fn lemma_typed_and_tail(ts: Seq<TokenModel>, pos: int, left: RuleModel)
    requires
        0 <= pos <= ts.len(),
    ensures
        agree_tail(left, and_tail(ts, pos, left, false), and_tail(ts, pos, left, true)),
    decreases ts.len() - pos, 4int,
{
    if pos < ts.len() && ts[pos] == TokenModel::And {
        lemma_typed_unary(ts, pos + 1);
        crate::rule_parser::lemma_unary_advances(ts, pos + 1, false);
        if let Ok((r, p)) = parse_unary(ts, pos + 1, false) {
            if pos < p <= ts.len() {
                lemma_typed_and_tail(ts, p, RuleModel::And(Box::new(left), Box::new(r)));
            }
        }
        if let Ok((r, p)) = parse_unary(ts, pos + 1, true) {
            if pos < p <= ts.len() {
                lemma_typed_and_tail(ts, p, RuleModel::And(Box::new(left), Box::new(r)));
            }
        }
    }
}

proof fn lemma_typed_unary(ts: Seq<TokenModel>, pos: int)
    requires
        0 <= pos <= ts.len(),
    ensures
        agree(parse_unary(ts, pos, false), parse_unary(ts, pos, true)),
    decreases ts.len() - pos, 1int,
{
    if pos < ts.len() && ts[pos] == TokenModel::Not {
        lemma_typed_unary(ts, pos + 1);
    } else {
        lemma_typed_primary(ts, pos);
    }
}

proof fn lemma_typed_primary(ts: Seq<TokenModel>, pos: int)
    requires
        0 <= pos <= ts.len(),
    ensures
        agree(parse_primary(ts, pos, false), parse_primary(ts, pos, true)),
    decreases ts.len() - pos, 0int,
{
    if pos < ts.len() && ts[pos] == TokenModel::LParen {
        lemma_typed_or(ts, pos + 1);
    }
}

/// A text reads as a routing rule exactly when it reads as a rule whose
/// matchers all route requests, and then as the same rule. (`parse_rule`
/// and `try_parse_rule` read by `spec_parse(_, true)`, `Rule::parse` by
/// `spec_parse(_, false)`.)
pub proof fn law_routing_parse_agrees(cs: Seq<char>, r: RuleModel)
    ensures
        spec_parse(cs, true) == Ok::<_, ParseFailure>(r) <==> (spec_parse(cs, false) == Ok::<
            _,
            ParseFailure,
        >(r) && is_routable(r)),
{
    if let Ok(ts) = crate::lexer::lex(cs) {
        lemma_typed_or(ts, 0);
    }
}

} // verus!
