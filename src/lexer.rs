//! Lexical analysis: text to a sequence of tokens.
use vstd::prelude::*;
use vstd::std_specs::iter::IteratorSpec;
use vstd::string::*;

verus! {

broadcast use vstd::string::group_string_axioms;

/// A lexical unit of an arithmetic expression.
#[derive(Debug, Clone, Copy, PartialEq)]
pub enum Token {
    Number(i64),
    Plus,
    Minus,
    Asterisk,
    Slash,
    LeftParenthesis,
    RightParenthesis,
}

pub open spec fn is_digit(c: char) -> bool {
    '0' <= c && c <= '9'
}

pub open spec fn is_space(c: char) -> bool {
    c == ' ' || c == '\t' || c == '\n'
}

/// The token that a single operator or parenthesis character stands for.
pub open spec fn symbol_token(c: char) -> Option<Token> {
    if c == '+' {
        Some(Token::Plus)
    } else if c == '-' {
        Some(Token::Minus)
    } else if c == '*' {
        Some(Token::Asterisk)
    } else if c == '/' {
        Some(Token::Slash)
    } else if c == '(' {
        Some(Token::LeftParenthesis)
    } else if c == ')' {
        Some(Token::RightParenthesis)
    } else {
        None
    }
}

pub open spec fn digit_value(c: char) -> int {
    (c as u32) - ('0' as u32)
}

/// The number written by a run of decimal digits, most significant first.
pub open spec fn digits_value(ds: Seq<char>) -> int
    decreases ds.len(),
{
    if ds.len() == 0 {
        0
    } else {
        10 * digits_value(ds.drop_last()) + digit_value(ds.last())
    }
}

/// The end of the maximal run of digits that starts at `i`.
pub open spec fn digit_run_end(s: Seq<char>, i: int) -> int
    decreases s.len() - i,
{
    if 0 <= i < s.len() && is_digit(s[i]) {
        digit_run_end(s, i + 1)
    } else {
        i
    }
}

pub open spec fn invalid_character_message(c: char) -> Seq<char> {
    "Invalid character: "@ + seq![c]
}

pub open spec fn out_of_range_message(digits: Seq<char>) -> Seq<char> {
    "Number out of range: "@ + digits
}

/// `ts` put in front of the tokens of `r`, an error left as it is.
pub open spec fn prepend(ts: Seq<Token>, r: Result<Seq<Token>, Seq<char>>) -> Result<
    Seq<Token>,
    Seq<char>,
> {
    match r {
        Ok(rest) => Ok(ts + rest),
        Err(m) => Err(m),
    }
}

/// The tokens of `s` from position `i` on, or the message of the first error.
pub open spec fn lex_from(s: Seq<char>, i: int) -> Result<Seq<Token>, Seq<char>>
    decreases s.len() - i,
{
    if i < 0 || i >= s.len() {
        Ok(seq![])
    } else if is_digit(s[i]) {
        let j = digit_run_end(s, i);
        let v = digits_value(s.subrange(i, j));
        proof {
            lemma_digit_run_end_bounds(s, i);
        }
        if v > i64::MAX {
            Err(out_of_range_message(s.subrange(i, j)))
        } else {
            prepend(seq![Token::Number(v as i64)], lex_from(s, j))
        }
    } else if is_space(s[i]) {
        lex_from(s, i + 1)
    } else if let Some(t) = symbol_token(s[i]) {
        prepend(seq![t], lex_from(s, i + 1))
    } else {
        Err(invalid_character_message(s[i]))
    }
}

/// The tokens of the text `s`, or the message of its first error.
pub open spec fn lex(s: Seq<char>) -> Result<Seq<Token>, Seq<char>> {
    lex_from(s, 0)
}

pub proof fn lemma_digit_run_end_bounds(s: Seq<char>, i: int)
    requires
        0 <= i <= s.len(),
    ensures
        i <= digit_run_end(s, i) <= s.len(),
        i < s.len() && is_digit(s[i]) ==> i < digit_run_end(s, i),
        forall|k: int| i <= k < digit_run_end(s, i) ==> is_digit(#[trigger] s[k]),
        digit_run_end(s, i) < s.len() ==> !is_digit(s[digit_run_end(s, i)]),
    decreases s.len() - i,
{
    if i < s.len() && is_digit(s[i]) {
        lemma_digit_run_end_bounds(s, i + 1);
    }
}


pub proof fn lemma_digit_run_end_exact(s: Seq<char>, i: int, j: int)
    requires
        0 <= i <= j <= s.len(),
        forall|k: int| i <= k < j ==> is_digit(#[trigger] s[k]),
        j == s.len() || !is_digit(s[j]),
    ensures
        digit_run_end(s, i) == j,
    decreases j - i,
{
    if i < j {
        lemma_digit_run_end_exact(s, i + 1, j);
    }
}

proof fn lemma_digits_value_step(s: Seq<char>, i: int, j: int)
    requires
        0 <= i <= j < s.len(),
    ensures
        digits_value(s.subrange(i, j + 1)) == 10 * digits_value(s.subrange(i, j)) + digit_value(
            s[j],
        ),
{
    assert(s.subrange(i, j + 1).drop_last() =~= s.subrange(i, j));
}

proof fn lemma_digits_value_nonneg(ds: Seq<char>)
    requires
        forall|x: int| 0 <= x < ds.len() ==> is_digit(#[trigger] ds[x]),
    ensures
        digits_value(ds) >= 0,
    decreases ds.len(),
{
    if ds.len() > 0 {
        lemma_digits_value_nonneg(ds.drop_last());
    }
}

fn collect_chars(input: &String) -> (cs: Vec<char>)
    ensures
        cs@ == input@,
{
    let mut it = input.as_str().chars();
    let mut cs: Vec<char> = Vec::new();
    loop
        invariant
            cs@ + it.remaining() == input@,
            it.decrease() is Some,
        ensures
            cs@ == input@,
        decreases it.decrease()->0,
    {
        match it.next() {
            Some(c) => {
                cs.push(c);
                assert(cs@ + it.remaining() =~= input@);
            },
            None => {
                assert(cs@ =~= input@);
                break ;
            },
        }
    }
    cs
}

/// Reads the run of digits that starts at `i`: its value and its end, or the
/// message that says it does not fit in an `i64`.
fn scan_number(input: &String, cs: &Vec<char>, i: usize) -> (r: Result<(i64, usize), String>)
    requires
        cs@ == input@,
        i < cs@.len(),
        is_digit(cs@[i as int]),
    ensures
        ({
            let j = digit_run_end(cs@, i as int);
            let v = digits_value(cs@.subrange(i as int, j));
            match r {
                Ok((n, e)) => v <= i64::MAX && n as int == v && e as int == j,
                Err(m) => v > i64::MAX && m@ == out_of_range_message(cs@.subrange(i as int, j)),
            }
        }),
{
    let ghost s = cs@;
    proof {
        lemma_digit_run_end_bounds(s, i as int);
    }
    let ghost end = digit_run_end(s, i as int);
    let mut j: usize = i;
    let mut n: i64 = 0;
    let mut fits = true;
    while j < cs.len() && '0' <= cs[j] && cs[j] <= '9'
        invariant
            i <= j <= end,
            fits ==> n as int == digits_value(s.subrange(i as int, j as int)),
            !fits ==> digits_value(s.subrange(i as int, j as int)) > i64::MAX,
            cs@ == s,
            end == digit_run_end(s, i as int),
            i <= end <= s.len(),
            forall|k: int| i <= k < end ==> is_digit(#[trigger] s[k]),
            end < s.len() ==> !is_digit(s[end]),
        decreases cs.len() - j,
    {
        proof {
            lemma_digits_value_step(s, i as int, j as int);
            lemma_digits_value_nonneg(s.subrange(i as int, j as int));
        }
        if fits {
            let d = (cs[j] as u32 - '0' as u32) as i64;
            match n.checked_mul(10) {
                Some(m) => match m.checked_add(d) {
                    Some(t) => {
                        n = t;
                    },
                    None => {
                        fits = false;
                    },
                },
                None => {
                    fits = false;
                },
            }
        }
        j = j + 1;
    }
    proof {
        lemma_digit_run_end_exact(s, i as int, j as int);
    }
    if fits {
        Ok((n, j))
    } else {
        let mut m = String::from_str("Number out of range: ");
        m.append(input.as_str().substring_char(i, j));
        Err(m)
    }
}

/// Splits `input` into tokens, or returns the message of its first error: an
/// invalid character, or a number too large for an `i64`.
pub fn tokenize(input: &String) -> (r: Result<Vec<Token>, String>)
    ensures
        match lex(input@) {
            Ok(ts) => r is Ok && r->Ok_0@ == ts,
            Err(m) => r is Err && r->Err_0@ == m,
        },
{
    let cs = collect_chars(input);
    let ghost s = cs@;
    let mut tokens: Vec<Token> = Vec::new();
    let mut i: usize = 0;
    while i < cs.len()
        invariant
            cs@ == s,
            s == input@,
            i <= s.len(),
            lex(s) == prepend(tokens@, lex_from(s, i as int)),
        decreases cs.len() - i,
    {
        let c = cs[i];
        let ghost before = tokens@;
        if '0' <= c && c <= '9' {
            match scan_number(input, &cs, i) {
                Ok((n, j)) => {
                    tokens.push(Token::Number(n));
                    proof {
                        lemma_digit_run_end_bounds(s, i as int);
                        assert(before + seq![Token::Number(n)] == tokens@);
                        match lex_from(s, j as int) {
                            Ok(rest) => assert(before + (seq![Token::Number(n)] + rest) =~= tokens@ + rest),
                            Err(_) => {},
                        }
                    }
                    i = j;
                },
                Err(m) => {
                    return Err(m);
                },
            }
        } else if c == ' ' || c == '\t' || c == '\n' {
            i = i + 1;
        } else {
            let t = if c == '+' {
                Token::Plus
            } else if c == '-' {
                Token::Minus
            } else if c == '*' {
                Token::Asterisk
            } else if c == '/' {
                Token::Slash
            } else if c == '(' {
                Token::LeftParenthesis
            } else if c == ')' {
                Token::RightParenthesis
            } else {
                let mut m = String::from_str("Invalid character: ");
                let one = input.as_str().substring_char(i, i + 1);
                assert(one@ =~= seq![c]);
                m.append(one);
                return Err(m);
            };
            tokens.push(t);
            proof {
                match lex_from(s, i + 1) {
                    Ok(rest) => assert(before + (seq![t] + rest) =~= tokens@ + rest),
                    Err(_) => {},
                }
            }
            i = i + 1;
        }
    }
    Ok(tokens)
}

} // verus!
