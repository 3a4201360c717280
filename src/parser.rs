//! Recursive-descent parsing: a sequence of tokens to an expression tree.
//!
//! The grammar, with `+ -` binding looser than `* /`, both left-associative:
//!
//! ```text
//! expression := term ( (Plus | Minus) term )*
//! term       := factor ( (Asterisk | Slash) factor )*
//! factor     := Number | LeftParenthesis expression RightParenthesis
//! ```
use vstd::prelude::*;

use crate::lexer::Token;

verus! {

/// An arithmetic expression tree. The operator of a `BinaryOp` is one of
/// `Plus`, `Minus`, `Asterisk` and `Slash`.
#[derive(Debug, PartialEq)]
pub enum Expr {
    Number(i64),
    BinaryOp { op: Token, left: Box<Expr>, right: Box<Expr> },
}

impl Clone for Expr {
    fn clone(&self) -> (r: Self)
        ensures
            r == *self,
        decreases self,
    {
        match self {
            Expr::Number(n) => Expr::Number(*n),
            Expr::BinaryOp { op, left, right } => {
                let l = (**left).clone();
                let r = (**right).clone();
                Expr::BinaryOp { op: *op, left: Box::new(l), right: Box::new(r) }
            },
        }
    }
}

/// Why a sequence of tokens is not an expression.
#[derive(Debug, PartialEq)]
pub enum ParseError {
    /// A token that cannot stand where it was found.
    UnexpectedToken(Token),
    /// The tokens ended where an operand or a closing parenthesis was needed.
    UnexpectedEndOfInput,
    /// Tokens were left over after a complete expression.
    InvalidExpression,
}

/// The result of a grammar rule applied at some position: the tree it built
/// and the number of tokens it consumed, or the first error.
pub type Step = Result<(Expr, nat), ParseError>;

pub open spec fn is_additive(t: Token) -> bool {
    t is Plus || t is Minus
}

pub open spec fn is_multiplicative(t: Token) -> bool {
    t is Asterisk || t is Slash
}

pub open spec fn peek(ts: Seq<Token>, p: int) -> Option<Token> {
    if 0 <= p < ts.len() {
        Some(ts[p])
    } else {
        None
    }
}

/// A step that `k` tokens have been consumed before.
pub open spec fn after(k: nat, r: Step) -> Step {
    match r {
        Ok((e, k2)) => Ok((e, k + k2)),
        Err(err) => Err(err),
    }
}

/// How much is left to read from position `p`; it shrinks whenever a rule
/// moves forward.
pub open spec fn remaining_measure(ts: Seq<Token>, p: int) -> nat {
    if p <= ts.len() {
        (ts.len() - p + 1) as nat
    } else {
        0
    }
}

/// `factor` at position `p`.
pub open spec fn factor_at(ts: Seq<Token>, p: int) -> Step
    decreases remaining_measure(ts, p), 0nat,
{
    match peek(ts, p) {
        None => Err(ParseError::UnexpectedEndOfInput),
        Some(Token::Number(n)) => Ok((Expr::Number(n), 1)),
        Some(Token::LeftParenthesis) => match expression_at(ts, p + 1) {
            Err(err) => Err(err),
            Ok((e, k)) => match peek(ts, p + 1 + k) {
                Some(Token::RightParenthesis) => Ok((e, k + 2)),
                Some(t) => Err(ParseError::UnexpectedToken(t)),
                None => Err(ParseError::UnexpectedEndOfInput),
            },
        },
        Some(t) => Err(ParseError::UnexpectedToken(t)),
    }
}

/// The repetition `( (Asterisk | Slash) factor )*` at position `p`, folded
/// onto `left`.
pub open spec fn term_tail_at(ts: Seq<Token>, p: int, left: Expr) -> Step
    decreases remaining_measure(ts, p), 1nat,
{
    if 0 <= p < ts.len() && is_multiplicative(ts[p]) {
        match factor_at(ts, p + 1) {
            Err(err) => Err(err),
            Ok((right, k)) => after(
                1 + k,
                term_tail_at(
                    ts,
                    p + 1 + k,
                    Expr::BinaryOp { op: ts[p], left: Box::new(left), right: Box::new(right) },
                ),
            ),
        }
    } else {
        Ok((left, 0))
    }
}

/// `term` at position `p`.
pub open spec fn term_at(ts: Seq<Token>, p: int) -> Step
    decreases remaining_measure(ts, p), 2nat,
{
    match factor_at(ts, p) {
        Err(err) => Err(err),
        Ok((f, k)) => after(k, term_tail_at(ts, p + k, f)),
    }
}

/// The repetition `( (Plus | Minus) term )*` at position `p`, folded onto
/// `left`.
pub open spec fn expression_tail_at(ts: Seq<Token>, p: int, left: Expr) -> Step
    decreases remaining_measure(ts, p), 3nat,
{
    if 0 <= p < ts.len() && is_additive(ts[p]) {
        match term_at(ts, p + 1) {
            Err(err) => Err(err),
            Ok((right, k)) => after(
                1 + k,
                expression_tail_at(
                    ts,
                    p + 1 + k,
                    Expr::BinaryOp { op: ts[p], left: Box::new(left), right: Box::new(right) },
                ),
            ),
        }
    } else {
        Ok((left, 0))
    }
}

/// `expression` at position `p`.
pub open spec fn expression_at(ts: Seq<Token>, p: int) -> Step
    decreases remaining_measure(ts, p), 4nat,
{
    match term_at(ts, p) {
        Err(err) => Err(err),
        Ok((t, k)) => after(k, expression_tail_at(ts, p + k, t)),
    }
}

/// The tree of the whole sequence `ts`, which must be exactly one expression.
pub open spec fn parse_tokens(ts: Seq<Token>) -> Result<Expr, ParseError> {
    match expression_at(ts, 0) {
        Err(err) => Err(err),
        Ok((e, k)) => if k == ts.len() {
            Ok(e)
        } else {
            Err(ParseError::InvalidExpression)
        },
    }
}

/// A step from `p` that, if it succeeds, consumes at least `least` tokens
/// and none past the end of `ts`.
pub open spec fn stays_within(ts: Seq<Token>, p: int, r: Step, least: nat) -> bool {
    match r {
        Ok((_, k)) => least <= k && p + k <= ts.len(),
        Err(_) => true,
    }
}

proof fn lemma_rules_stay_within(ts: Seq<Token>, p: int, left: Expr)
    requires
        0 <= p <= ts.len(),
    ensures
        stays_within(ts, p, factor_at(ts, p), 1),
        stays_within(ts, p, term_tail_at(ts, p, left), 0),
        stays_within(ts, p, term_at(ts, p), 1),
        stays_within(ts, p, expression_tail_at(ts, p, left), 0),
        stays_within(ts, p, expression_at(ts, p), 1),
    decreases remaining_measure(ts, p),
{
    if p < ts.len() {
        lemma_rules_stay_within(ts, p + 1, left);
        if let Ok((right, k)) = factor_at(ts, p + 1) {
            if p + 1 + k <= ts.len() {
                let node = Expr::BinaryOp { op: ts[p], left: Box::new(left), right: Box::new(right) };
                lemma_rules_stay_within(ts, p + 1 + k, node);
            }
        }
        if let Ok((right, k)) = term_at(ts, p + 1) {
            if p + 1 + k <= ts.len() {
                let node = Expr::BinaryOp { op: ts[p], left: Box::new(left), right: Box::new(right) };
                lemma_rules_stay_within(ts, p + 1 + k, node);
            }
        }
        if let Ok((f, k)) = factor_at(ts, p) {
            lemma_rules_stay_within(ts, p + k, f);
        }
        if let Ok((t, k)) = term_at(ts, p) {
            lemma_rules_stay_within(ts, p + k, t);
        }
    }
}

/// Whatever the tokens, an expression read from a position inside them
/// consumes at least one token and none past their end.
pub proof fn lemma_parse_stays_within(ts: Seq<Token>, p: int)
    requires
        0 <= p <= ts.len(),
    ensures
        stays_within(ts, p, expression_at(ts, p), 1),
{
    lemma_rules_stay_within(ts, p, Expr::Number(0));
}

fn parse_expression(tokens: &[Token], pos: &mut usize) -> (r: Result<Expr, ParseError>)
    requires
        *old(pos) <= tokens@.len(),
    ensures
        *old(pos) <= *final(pos) <= tokens@.len(),
        match expression_at(tokens@, *old(pos) as int) {
            Ok((e, k)) => r == Ok::<Expr, ParseError>(e) && *final(pos) == *old(pos) + k,
            Err(err) => r == Err::<Expr, ParseError>(err),
        },
    decreases remaining_measure(tokens@, *old(pos) as int), 4nat,
{
    let ghost ts = tokens@;
    let ghost start = *pos as int;
    let mut node = match parse_term(tokens, pos) {
        Ok(t) => t,
        Err(err) => return Err(err),
    };
    loop
        invariant
            start == *old(pos) as int,
            start <= *pos <= ts.len(),
            ts == tokens@,
            expression_at(ts, start) == after((*pos - start) as nat, expression_tail_at(ts, *pos as int, node)),
        decreases ts.len() - *pos,
    {
        if *pos < tokens.len() && matches!(tokens[*pos], Token::Plus | Token::Minus) {
            let op = tokens[*pos];
            *pos = *pos + 1;
            let right = match parse_term(tokens, pos) {
                Ok(t) => t,
                Err(err) => return Err(err),
            };
            node = Expr::BinaryOp { op, left: Box::new(node), right: Box::new(right) };
        } else {
            return Ok(node);
        }
    }
}

fn parse_term(tokens: &[Token], pos: &mut usize) -> (r: Result<Expr, ParseError>)
    requires
        *old(pos) <= tokens@.len(),
    ensures
        *old(pos) <= *final(pos) <= tokens@.len(),
        match term_at(tokens@, *old(pos) as int) {
            Ok((e, k)) => r == Ok::<Expr, ParseError>(e) && *final(pos) == *old(pos) + k,
            Err(err) => r == Err::<Expr, ParseError>(err),
        },
    decreases remaining_measure(tokens@, *old(pos) as int), 2nat,
{
    let ghost ts = tokens@;
    let ghost start = *pos as int;
    let mut node = match parse_factor(tokens, pos) {
        Ok(f) => f,
        Err(err) => return Err(err),
    };
    loop
        invariant
            start == *old(pos) as int,
            start <= *pos <= ts.len(),
            ts == tokens@,
            term_at(ts, start) == after((*pos - start) as nat, term_tail_at(ts, *pos as int, node)),
        decreases ts.len() - *pos,
    {
        if *pos < tokens.len() && matches!(tokens[*pos], Token::Asterisk | Token::Slash) {
            let op = tokens[*pos];
            *pos = *pos + 1;
            let right = match parse_factor(tokens, pos) {
                Ok(f) => f,
                Err(err) => return Err(err),
            };
            node = Expr::BinaryOp { op, left: Box::new(node), right: Box::new(right) };
        } else {
            return Ok(node);
        }
    }
}

fn parse_factor(tokens: &[Token], pos: &mut usize) -> (r: Result<Expr, ParseError>)
    requires
        *old(pos) <= tokens@.len(),
    ensures
        *old(pos) <= *final(pos) <= tokens@.len(),
        match factor_at(tokens@, *old(pos) as int) {
            Ok((e, k)) => r == Ok::<Expr, ParseError>(e) && *final(pos) == *old(pos) + k,
            Err(err) => r == Err::<Expr, ParseError>(err),
        },
    decreases remaining_measure(tokens@, *old(pos) as int), 0nat,
{
    if *pos >= tokens.len() {
        return Err(ParseError::UnexpectedEndOfInput);
    }
    match tokens[*pos] {
        Token::Number(n) => {
            *pos = *pos + 1;
            Ok(Expr::Number(n))
        },
        Token::LeftParenthesis => {
            *pos = *pos + 1;
            let e = match parse_expression(tokens, pos) {
                Ok(e) => e,
                Err(err) => return Err(err),
            };
            if *pos >= tokens.len() {
                Err(ParseError::UnexpectedEndOfInput)
            } else {
                match tokens[*pos] {
                    Token::RightParenthesis => {
                        *pos = *pos + 1;
                        Ok(e)
                    },
                    t => Err(ParseError::UnexpectedToken(t)),
                }
            }
        },
        t => Err(ParseError::UnexpectedToken(t)),
    }
}

/// Parses `tokens` as exactly one expression. Reading never goes past the
/// end of `tokens`, whatever they hold.
pub fn parse(tokens: &[Token]) -> (r: Result<Expr, ParseError>)
    ensures
        r == parse_tokens(tokens@),
{
    let mut pos: usize = 0;
    let ast = match parse_expression(tokens, &mut pos) {
        Ok(e) => e,
        Err(err) => return Err(err),
    };
    if pos != tokens.len() {
        Err(ParseError::InvalidExpression)
    } else {
        Ok(ast)
    }
}

} // verus!
