//! Printing a tree back to tokens and text, and the laws that tie printing to
//! `tokenize` and `parse`.
use vstd::prelude::*;

use crate::lexer::{
    digit_value, digits_value, is_digit, lemma_digit_run_end_exact, lex, lex_from, prepend,
    symbol_token, Token,
};
use crate::parser::{
    after, expression_at, expression_tail_at, factor_at, is_additive, is_multiplicative,
    parse_tokens, term_at, term_tail_at, Expr, ParseError,
};

verus! {

/// Every operator is arithmetic.
pub open spec fn has_arithmetic_ops(e: Expr) -> bool
    decreases e,
{
    match e {
        Expr::Number(_) => true,
        Expr::BinaryOp { op, left, right } => (is_additive(op) || is_multiplicative(op))
            && has_arithmetic_ops(*left) && has_arithmetic_ops(*right),
    }
}

/// A tree that text can spell: arithmetic operators and leaves that are not
/// negative.
pub open spec fn is_printable(e: Expr) -> bool
    decreases e,
{
    match e {
        Expr::Number(n) => n >= 0,
        Expr::BinaryOp { op, left, right } => (is_additive(op) || is_multiplicative(op))
            && is_printable(*left) && is_printable(*right),
    }
}

/// The precedence level of an operator: 0 for `+ -`, 1 for `* /`.
pub open spec fn precedence(op: Token) -> nat {
    if is_additive(op) {
        0
    } else {
        1
    }
}

/// Whether `e`, printed where the grammar expects level `level` (0 an
/// expression, 1 a term, 2 a factor), needs parentheses; with `full`, every
/// operation has them.
pub open spec fn needs_parentheses(e: Expr, level: nat, full: bool) -> bool {
    match e {
        Expr::Number(_) => false,
        Expr::BinaryOp { op, .. } => full || level > precedence(op),
    }
}

/// The tokens of an operation without its own parentheses.
pub open spec fn body_tokens(e: Expr, full: bool) -> Seq<Token>
    decreases e, 0nat,
{
    match e {
        Expr::Number(n) => seq![Token::Number(n)],
        Expr::BinaryOp { op, left, right } => printed_tokens(*left, precedence(op), full)
            + seq![op] + printed_tokens(*right, precedence(op) + 1, full),
    }
}

/// The tokens of `e` at grammar level `level`.
pub open spec fn printed_tokens(e: Expr, level: nat, full: bool) -> Seq<Token>
    decreases e, 1nat,
{
    if needs_parentheses(e, level, full) {
        seq![Token::LeftParenthesis] + body_tokens(e, full) + seq![Token::RightParenthesis]
    } else {
        body_tokens(e, full)
    }
}

pub open spec fn digit_char(d: nat) -> char {
    if d == 0 {
        '0'
    } else if d == 1 {
        '1'
    } else if d == 2 {
        '2'
    } else if d == 3 {
        '3'
    } else if d == 4 {
        '4'
    } else if d == 5 {
        '5'
    } else if d == 6 {
        '6'
    } else if d == 7 {
        '7'
    } else if d == 8 {
        '8'
    } else {
        '9'
    }
}

/// The decimal digits of `n`, most significant first, without leading zeros.
pub open spec fn decimal(n: nat) -> Seq<char>
    decreases n,
{
    if n < 10 {
        seq![digit_char(n)]
    } else {
        decimal(n / 10) + seq![digit_char(n % 10)]
    }
}

pub open spec fn operator_char(op: Token) -> char {
    match op {
        Token::Plus => '+',
        Token::Minus => '-',
        Token::Asterisk => '*',
        _ => '/',
    }
}

/// The text of an operation without its own parentheses, with a space on
/// each side of the operator.
pub open spec fn body_text(e: Expr, full: bool) -> Seq<char>
    decreases e, 0nat,
{
    match e {
        Expr::Number(n) => decimal(n as nat),
        Expr::BinaryOp { op, left, right } => printed_text(*left, precedence(op), full) + seq![
            ' ',
            operator_char(op),
            ' ',
        ] + printed_text(*right, precedence(op) + 1, full),
    }
}

/// The text of `e` at grammar level `level`.
pub open spec fn printed_text(e: Expr, level: nat, full: bool) -> Seq<char>
    decreases e, 1nat,
{
    if needs_parentheses(e, level, full) {
        seq!['('] + body_text(e, full) + seq![')']
    } else {
        body_text(e, full)
    }
}

/// `e` written with a pair of parentheses around every operation.
pub open spec fn parenthesized_text(e: Expr) -> Seq<char> {
    printed_text(e, 0, true)
}

/// `e` written with only the parentheses that precedence and
/// left-associativity call for.
pub open spec fn minimal_text(e: Expr) -> Seq<char> {
    printed_text(e, 0, false)
}


/// Whether the token at `q` is `*` or `/`.
pub open spec fn follows_multiplicative(ts: Seq<Token>, q: int) -> bool {
    0 <= q < ts.len() && is_multiplicative(ts[q])
}

/// A factor read at `p` is also what a term and an expression read there
/// start from.
proof fn lemma_factor_lifts(ts: Seq<Token>, p: int, e: Expr, n: nat)
    requires
        factor_at(ts, p) == Ok::<(Expr, nat), ParseError>((e, n)),
    ensures
        term_at(ts, p) == after(n, term_tail_at(ts, p + n, e)),
        !follows_multiplicative(ts, p + n) ==> expression_at(ts, p) == after(
            n,
            expression_tail_at(ts, p + n, e),
        ),
{
    if !follows_multiplicative(ts, p + n) {
        assert(term_tail_at(ts, p + n, e) == Ok::<(Expr, nat), ParseError>((e, 0)));
    }
}

#[verifier::rlimit(30)]
proof fn lemma_parse_body(ts: Seq<Token>, p: int, e: Expr, full: bool)
    requires
        e is BinaryOp,
        has_arithmetic_ops(e),
        0 <= p,
        p + body_tokens(e, full).len() <= ts.len(),
        ts.subrange(p, p + body_tokens(e, full).len()) == body_tokens(e, full),
    ensures
        ({
            let n = body_tokens(e, full).len();
            &&& is_multiplicative(e->op) ==> term_at(ts, p) == after(
                n,
                term_tail_at(ts, p + n, e),
            )
            &&& !follows_multiplicative(ts, p + n) ==> expression_at(ts, p) == after(
                n,
                expression_tail_at(ts, p + n, e),
            )
        }),
    decreases e, 0nat,
{
    let op = e->op;
    let left = e->left;
    let right = e->right;
    let prec = precedence(op);
    let pl = printed_tokens(*left, prec, full);
    let pr = printed_tokens(*right, prec + 1, full);
    let a = pl.len() as int;
    let b = pr.len() as int;
    let n = body_tokens(e, full).len() as int;
    let whole = body_tokens(e, full);
    assert(whole == pl + seq![op] + pr);
    assert(n == a + 1 + b);
    assert(ts.subrange(p, p + a) =~= whole.subrange(0, a));
    assert(whole.subrange(0, a) =~= pl);
    assert(ts[p + a] == whole[a]);
    assert(ts.subrange(p + a + 1, p + n) =~= whole.subrange(a + 1, n));
    assert(whole.subrange(a + 1, n) =~= pr);
    lemma_parse_printed(ts, p, *left, prec, full);
    lemma_parse_printed(ts, p + a + 1, *right, prec + 1, full);
    let rebuilt = Expr::BinaryOp { op: ts[p + a], left: Box::new(*left), right: Box::new(*right) };
    assert(rebuilt == e);
    if is_multiplicative(op) {
        assert(term_tail_at(ts, p + a, *left) == after(
            (1 + b) as nat,
            term_tail_at(ts, p + n, e),
        ));
        if !follows_multiplicative(ts, p + n) {
            assert(term_tail_at(ts, p + n, e) == Ok::<(Expr, nat), ParseError>((e, 0)));
        }
    } else {
        assert(!follows_multiplicative(ts, p + a));
        if !follows_multiplicative(ts, p + n) {
            assert(term_tail_at(ts, p + n, *right) == Ok::<(Expr, nat), ParseError>(
                (*right, 0),
            ));
            assert(term_at(ts, p + a + 1) == Ok::<(Expr, nat), ParseError>((*right, b as nat)));
            assert(expression_tail_at(ts, p + a, *left) == after(
                (1 + b) as nat,
                expression_tail_at(ts, p + n, e),
            ));
        }
    }
}

proof fn lemma_parse_printed(ts: Seq<Token>, p: int, e: Expr, level: nat, full: bool)
    requires
        has_arithmetic_ops(e),
        level <= 2,
        0 <= p,
        p + printed_tokens(e, level, full).len() <= ts.len(),
        ts.subrange(p, p + printed_tokens(e, level, full).len()) == printed_tokens(e, level, full),
    ensures
        ({
            let n = printed_tokens(e, level, full).len();
            &&& level == 2 ==> factor_at(ts, p) == Ok::<(Expr, nat), ParseError>((e, n))
            &&& level >= 1 ==> term_at(ts, p) == after(n, term_tail_at(ts, p + n, e))
            &&& !follows_multiplicative(ts, p + n) ==> expression_at(ts, p) == after(
                n,
                expression_tail_at(ts, p + n, e),
            )
        }),
    decreases e, 1nat,
{
    let whole = printed_tokens(e, level, full);
    let n = whole.len() as int;
    if needs_parentheses(e, level, full) {
        let body = body_tokens(e, full);
        let nb = body.len() as int;
        assert(whole == seq![Token::LeftParenthesis] + body + seq![Token::RightParenthesis]);
        assert(n == nb + 2);
        assert(ts[p] == whole[0]);
        assert(ts.subrange(p + 1, p + 1 + nb) =~= whole.subrange(1, 1 + nb));
        assert(whole.subrange(1, 1 + nb) =~= body);
        assert(ts[p + 1 + nb] == whole[1 + nb]);
        lemma_parse_body(ts, p + 1, e, full);
        assert(expression_tail_at(ts, p + 1 + nb, e) == Ok::<(Expr, nat), ParseError>((e, 0)));
        assert(expression_at(ts, p + 1) == Ok::<(Expr, nat), ParseError>((e, nb as nat)));
        assert(factor_at(ts, p) == Ok::<(Expr, nat), ParseError>((e, n as nat)));
        lemma_factor_lifts(ts, p, e, n as nat);
    } else {
        match e {
            Expr::Number(v) => {
                assert(ts[p] == whole[0]);
                assert(factor_at(ts, p) == Ok::<(Expr, nat), ParseError>((e, 1)));
                lemma_factor_lifts(ts, p, e, 1);
            },
            Expr::BinaryOp { .. } => {
                lemma_parse_body(ts, p, e, full);
            },
        }
    }
}

/// Printing a tree with arithmetic operators to tokens, with parentheses
/// around every operation or only where precedence and left-associativity
/// call for them, and parsing the tokens gives the same tree back.
pub proof fn lemma_parse_printed_tokens(e: Expr, full: bool)
    requires
        has_arithmetic_ops(e),
    ensures
        parse_tokens(printed_tokens(e, 0, full)) == Ok::<Expr, ParseError>(e),
{
    let ts = printed_tokens(e, 0, full);
    assert(ts.subrange(0, ts.len() as int) =~= ts);
    lemma_parse_printed(ts, 0, e, 0, full);
    assert(expression_tail_at(ts, ts.len() as int, e) == Ok::<(Expr, nat), ParseError>((e, 0)));
}


proof fn lemma_digit_char(d: nat)
    requires
        d < 10,
    ensures
        is_digit(digit_char(d)),
        digit_value(digit_char(d)) == d,
{
}

proof fn lemma_decimal(n: nat)
    ensures
        decimal(n).len() >= 1,
        forall|k: int| 0 <= k < decimal(n).len() ==> is_digit(#[trigger] decimal(n)[k]),
        digits_value(decimal(n)) == n,
    decreases n,
{
    lemma_digit_char(n % 10);
    if n < 10 {
        assert(decimal(n).drop_last() =~= seq![]);
        assert(digits_value(seq![]) == 0);
        assert(n % 10 == n);
    } else {
        lemma_decimal(n / 10);
        assert(decimal(n).drop_last() =~= decimal(n / 10));
        assert(decimal(n).last() == digit_char(n % 10));
        assert(n == 10 * (n / 10) + n % 10);
    }
}

proof fn lemma_prepend_assoc(a: Seq<Token>, b: Seq<Token>, r: Result<Seq<Token>, Seq<char>>)
    ensures
        prepend(a, prepend(b, r)) == prepend(a + b, r),
{
    if let Ok(rest) = r {
        assert(a + (b + rest) =~= (a + b) + rest);
    }
}

proof fn lemma_lex_body(s: Seq<char>, p: int, e: Expr, full: bool)
    requires
        is_printable(e),
        0 <= p,
        p + body_text(e, full).len() <= s.len(),
        s.subrange(p, p + body_text(e, full).len()) == body_text(e, full),
        p + body_text(e, full).len() == s.len() || !is_digit(s[p + body_text(e, full).len()]),
    ensures
        lex_from(s, p) == prepend(body_tokens(e, full), lex_from(s, p + body_text(e, full).len())),
    decreases e, 0nat,
{
    let whole = body_text(e, full);
    let m = whole.len() as int;
    match e {
        Expr::Number(v) => {
            lemma_decimal(v as nat);
            assert(s[p] == whole[0]);
            assert forall|k: int| p <= k < p + m implies is_digit(#[trigger] s[k]) by {
                assert(s[k] == whole[k - p]);
            }
            lemma_digit_run_end_exact(s, p, p + m);
        },
        Expr::BinaryOp { op, left, right } => {
            let prec = precedence(op);
            let tl = printed_text(*left, prec, full);
            let tr = printed_text(*right, prec + 1, full);
            let a = tl.len() as int;
            assert(whole == tl + seq![' ', operator_char(op), ' '] + tr);
            assert(s.subrange(p, p + a) =~= whole.subrange(0, a));
            assert(whole.subrange(0, a) =~= tl);
            assert(s[p + a] == whole[a]);
            assert(s[p + a + 1] == whole[a + 1]);
            assert(s[p + a + 2] == whole[a + 2]);
            assert(s.subrange(p + a + 3, p + m) =~= whole.subrange(a + 3, m));
            assert(whole.subrange(a + 3, m) =~= tr);
            lemma_lex_printed(s, p, *left, prec, full);
            lemma_lex_printed(s, p + a + 3, *right, prec + 1, full);
            assert(symbol_token(operator_char(op)) == Some(op));
            assert(lex_from(s, p + a + 2) == lex_from(s, p + a + 3));
            assert(lex_from(s, p + a + 1) == prepend(seq![op], lex_from(s, p + a + 2)));
            assert(lex_from(s, p + a) == lex_from(s, p + a + 1));
            lemma_prepend_assoc(seq![op], printed_tokens(*right, prec + 1, full), lex_from(s, p + m));
            lemma_prepend_assoc(
                printed_tokens(*left, prec, full),
                seq![op] + printed_tokens(*right, prec + 1, full),
                lex_from(s, p + m),
            );
            assert(body_tokens(e, full) =~= printed_tokens(*left, prec, full) + (seq![op]
                + printed_tokens(*right, prec + 1, full)));
        },
    }
}

proof fn lemma_lex_printed(s: Seq<char>, p: int, e: Expr, level: nat, full: bool)
    requires
        is_printable(e),
        0 <= p,
        p + printed_text(e, level, full).len() <= s.len(),
        s.subrange(p, p + printed_text(e, level, full).len()) == printed_text(e, level, full),
        p + printed_text(e, level, full).len() == s.len() || !is_digit(
            s[p + printed_text(e, level, full).len()],
        ),
    ensures
        lex_from(s, p) == prepend(
            printed_tokens(e, level, full),
            lex_from(s, p + printed_text(e, level, full).len()),
        ),
    decreases e, 1nat,
{
    let whole = printed_text(e, level, full);
    let m = whole.len() as int;
    if needs_parentheses(e, level, full) {
        let body = body_text(e, full);
        let mb = body.len() as int;
        assert(whole == seq!['('] + body + seq![')']);
        assert(s[p] == whole[0]);
        assert(s.subrange(p + 1, p + 1 + mb) =~= whole.subrange(1, 1 + mb));
        assert(whole.subrange(1, 1 + mb) =~= body);
        assert(s[p + 1 + mb] == whole[1 + mb]);
        lemma_lex_body(s, p + 1, e, full);
        let bt = body_tokens(e, full);
        lemma_prepend_assoc(bt, seq![Token::RightParenthesis], lex_from(s, p + m));
        lemma_prepend_assoc(
            seq![Token::LeftParenthesis],
            bt + seq![Token::RightParenthesis],
            lex_from(s, p + m),
        );
        assert(printed_tokens(e, level, full) =~= seq![Token::LeftParenthesis] + (bt
            + seq![Token::RightParenthesis]));
    } else {
        lemma_lex_body(s, p, e, full);
    }
}

proof fn lemma_lex_printed_text(e: Expr, full: bool)
    requires
        is_printable(e),
    ensures
        lex(printed_text(e, 0, full)) == Ok::<Seq<Token>, Seq<char>>(printed_tokens(e, 0, full)),
{
    let s = printed_text(e, 0, full);
    assert(s.subrange(0, s.len() as int) =~= s);
    lemma_lex_printed(s, 0, e, 0, full);
    assert(printed_tokens(e, 0, full) + seq![] =~= printed_tokens(e, 0, full));
}

proof fn lemma_has_arithmetic_ops(e: Expr)
    requires
        is_printable(e),
    ensures
        has_arithmetic_ops(e),
    decreases e,
{
    if let Expr::BinaryOp { left, right, .. } = e {
        lemma_has_arithmetic_ops(*left);
        lemma_has_arithmetic_ops(*right);
    }
}

/// Writing a tree out with a pair of parentheses around every operation,
/// splitting the text into tokens and parsing them gives the same tree back.
pub proof fn lemma_parenthesized_round_trip(e: Expr)
    requires
        is_printable(e),
    ensures
        lex(parenthesized_text(e)) is Ok,
        parse_tokens(lex(parenthesized_text(e))->Ok_0) == Ok::<Expr, ParseError>(e),
{
    lemma_lex_printed_text(e, true);
    lemma_has_arithmetic_ops(e);
    lemma_parse_printed_tokens(e, true);
}

/// Writing a tree out with only the parentheses that precedence and
/// left-associativity call for, splitting the text into tokens and parsing
/// them gives the same tree back: `*` and `/` bind tighter than `+` and `-`,
/// and operators of one level group from the left.
pub proof fn lemma_minimal_round_trip(e: Expr)
    requires
        is_printable(e),
    ensures
        lex(minimal_text(e)) is Ok,
        parse_tokens(lex(minimal_text(e))->Ok_0) == Ok::<Expr, ParseError>(e),
{
    lemma_lex_printed_text(e, false);
    lemma_has_arithmetic_ops(e);
    lemma_parse_printed_tokens(e, false);
}

} // verus!
