//! The parser: a recursive descent over the token sequence, by precedence
//! `*` over `+ -` over `<`, with left-associative arithmetic.
use vstd::prelude::*;
use crate::ast::{Exp, Prim, Value};
use crate::error::{Error, ErrorView};
use crate::error::outcome;
use crate::lexer::{Token, TokenView, chars_of, is_ascii_digit, is_digit, tokens_view};

verus! {

/// The quoted, escaped form of a text that `<str as Debug>::fmt` writes.
pub uninterp spec fn str_debug_text(s: Seq<char>) -> Seq<char>;

/// Calls `<str as Debug>::fmt` through `format!("{:?}", ..)`. Trusted to
/// return the text's debug form, named `str_debug_text`; what that form is
/// (quotes and escapes) is not stated.
#[verifier::external_body]
fn debug_str(s: &str) -> (r: String)
    ensures
        r@ == str_debug_text(s@),
{
    format!("{:?}", s)
}

/// How a token is shown in a message: its variant's name, with the digits
/// of an integer in their debug form and the value of a boolean.
pub open spec fn token_text(t: TokenView) -> Seq<char> {
    match t {
        TokenView::Integer(s) => "Integer("@ + str_debug_text(s) + ")"@,
        TokenView::Bool(b) => if b {
            "Bool(true)"@
        } else {
            "Bool(false)"@
        },
        TokenView::Plus => "Plus"@,
        TokenView::Minus => "Minus"@,
        TokenView::Star => "Star"@,
        TokenView::Less => "Less"@,
        TokenView::If => "If"@,
        TokenView::Then => "Then"@,
        TokenView::Else => "Else"@,
        TokenView::LeftParen => "LeftParen"@,
        TokenView::RightParen => "RightParen"@,
    }
}

/// Shows a token in a message, as `token_text` states.
fn describe(t: &Token) -> (text: String)
    ensures
        text@ == token_text(t@),
{
    match t {
        Token::Integer(s) => {
            let mut text = "Integer(".to_owned();
            let quoted = debug_str(s.as_str());
            text.append(quoted.as_str());
            text.append(")");
            text
        },
        Token::Bool(b) => if *b {
            "Bool(true)".to_owned()
        } else {
            "Bool(false)".to_owned()
        },
        Token::Plus => "Plus".to_owned(),
        Token::Minus => "Minus".to_owned(),
        Token::Star => "Star".to_owned(),
        Token::Less => "Less".to_owned(),
        Token::If => "If".to_owned(),
        Token::Then => "Then".to_owned(),
        Token::Else => "Else".to_owned(),
        Token::LeftParen => "LeftParen".to_owned(),
        Token::RightParen => "RightParen".to_owned(),
    }
}

/// Whether two tokens are equal: the same variant with the same contents.
fn same_token(a: &Token, b: &Token) -> (r: bool)
    ensures
        r == (a@ == b@),
{
    match (a, b) {
        (Token::Integer(x), Token::Integer(y)) => x.eq(y),
        (Token::Bool(x), Token::Bool(y)) => *x == *y,
        (Token::Plus, Token::Plus) => true,
        (Token::Minus, Token::Minus) => true,
        (Token::Star, Token::Star) => true,
        (Token::Less, Token::Less) => true,
        (Token::If, Token::If) => true,
        (Token::Then, Token::Then) => true,
        (Token::Else, Token::Else) => true,
        (Token::LeftParen, Token::LeftParen) => true,
        (Token::RightParen, Token::RightParen) => true,
        _ => false,
    }
}


/// The numeric value of an ASCII digit.
pub open spec fn digit_value(c: char) -> int {
    c as int - '0' as int
}

/// Whether every character of `d` is an ASCII digit.
pub open spec fn all_digits(d: Seq<char>) -> bool {
    forall|k: int| 0 <= k < d.len() ==> is_digit(#[trigger] d[k])
}

/// The value of a run of decimal digits, most significant first.
pub open spec fn decimal_value(d: Seq<char>) -> int
    decreases d.len(),
{
    if d.len() == 0 {
        0
    } else {
        10 * decimal_value(d.drop_last()) + digit_value(d.last())
    }
}

/// The literal that an integer token denotes, negated when a minus sign
/// precedes it: the digits must be a non-empty run of ASCII digits, and the
/// value must fit in `i64`, else the range is exceeded.
pub open spec fn integer_literal(digits: Seq<char>, negative: bool) -> Result<Exp, ErrorView> {
    if digits.len() == 0 || !all_digits(digits) {
        Err(ErrorView::Parse("Invalid integer: "@ + digits))
    } else {
        let v = if negative {
            -decimal_value(digits)
        } else {
            decimal_value(digits)
        };
        if i64::MIN <= v <= i64::MAX {
            Ok(Exp::Literal(Value::Int(v as i64)))
        } else {
            Err(ErrorView::Overflow)
        }
    }
}

/// The result of parsing a phrase: the expression and the position just
/// after it, or an error.
pub type Parsed = Result<(Exp, int), ErrorView>;

/// What consuming the token `expected` at `pos` gives.
pub open spec fn eat_spec(ts: Seq<TokenView>, pos: int, expected: TokenView) -> Result<
    int,
    ErrorView,
> {
    if 0 <= pos < ts.len() {
        if ts[pos] == expected {
            Ok(pos + 1)
        } else {
            Err(
                ErrorView::Parse(
                    "Expected "@ + token_text(expected) + ", but found "@ + token_text(ts[pos]),
                ),
            )
        }
    } else {
        Err(ErrorView::Parse("Expected "@ + token_text(expected) + ", but found end of input"@))
    }
}

/// Whether a phrase that starts at `pos` ended inside the input and after `pos`.
/// Every successful parse does (each one consumes a token, as
/// `lemma_parsers_advance` proves); the parsing functions below test it only
/// so that their recursion is well founded.
pub open spec fn advanced(pos: int, q: int, len: int) -> bool {
    pos < q <= len
}

/// The error standing in for a parse that did not advance; never produced.
pub open spec fn stalled() -> ErrorView {
    ErrorView::Parse(seq![])
}

/// `expr = "if" expr "then" expr "else" expr | comparison`
pub open spec fn expr_spec(ts: Seq<TokenView>, pos: int) -> Parsed
    decreases ts.len() - pos, 6nat,
{
    if 0 <= pos < ts.len() {
        if ts[pos] is If {
            match expr_spec(ts, pos + 1) {
                Err(e) => Err(e),
                Ok((c, q)) => if !advanced(pos + 1, q, ts.len() as int) {
                    Err(stalled())
                } else {
                    match eat_spec(ts, q, TokenView::Then) {
                        Err(e) => Err(e),
                        Ok(q1) => match expr_spec(ts, q1) {
                            Err(e) => Err(e),
                            Ok((t, q2)) => if !advanced(q1, q2, ts.len() as int) {
                                Err(stalled())
                            } else {
                                match eat_spec(ts, q2, TokenView::Else) {
                                    Err(e) => Err(e),
                                    Ok(q3) => match expr_spec(ts, q3) {
                                        Err(e) => Err(e),
                                        Ok((f, q4)) => Ok(
                                            (Exp::If(Box::new(c), Box::new(t), Box::new(f)), q4),
                                        ),
                                    },
                                }
                            },
                        },
                    }
                },
            }
        } else {
            formula_spec(ts, pos)
        }
    } else {
        Err(ErrorView::Parse("missing token"@))
    }
}

/// `comparison = sum [ "<" sum ]`
pub open spec fn formula_spec(ts: Seq<TokenView>, pos: int) -> Parsed
    decreases ts.len() - pos, 5nat,
{
    match additive_spec(ts, pos) {
        Err(e) => Err(e),
        Ok((l, q)) => if !advanced(pos, q, ts.len() as int) {
            Err(stalled())
        } else if q < ts.len() && ts[q] is Less {
            match additive_spec(ts, q + 1) {
                Err(e) => Err(e),
                Ok((r, q2)) => Ok((Exp::Binary(Box::new(l), Prim::Lt, Box::new(r)), q2)),
            }
        } else {
            Ok((l, q))
        },
    }
}

/// The operator that a token stands for between two terms of a sum.
pub open spec fn additive_op(t: TokenView) -> Option<Prim> {
    match t {
        TokenView::Plus => Some(Prim::Add),
        TokenView::Minus => Some(Prim::Sub),
        _ => None,
    }
}

/// `sum = product { ("+" | "-") product }`
pub open spec fn additive_spec(ts: Seq<TokenView>, pos: int) -> Parsed
    decreases ts.len() - pos, 4nat,
{
    match multiplicative_spec(ts, pos) {
        Err(e) => Err(e),
        Ok((l, q)) => if !advanced(pos, q, ts.len() as int) {
            Err(stalled())
        } else {
            additive_rest(ts, l, q)
        },
    }
}

/// The rest of a sum whose terms so far make `left`, from `pos` on:
/// each further term is added to the left, so that arithmetic associates left.
pub open spec fn additive_rest(ts: Seq<TokenView>, left: Exp, pos: int) -> Parsed
    decreases ts.len() - pos, 4nat,
{
    if 0 <= pos < ts.len() && additive_op(ts[pos]) is Some {
        match multiplicative_spec(ts, pos + 1) {
            Err(e) => Err(e),
            Ok((r, q)) => if !advanced(pos + 1, q, ts.len() as int) {
                Err(stalled())
            } else {
                additive_rest(
                    ts,
                    Exp::Binary(Box::new(left), additive_op(ts[pos])->Some_0, Box::new(r)),
                    q,
                )
            },
        }
    } else {
        Ok((left, pos))
    }
}

/// `product = atom { "*" atom }`
pub open spec fn multiplicative_spec(ts: Seq<TokenView>, pos: int) -> Parsed
    decreases ts.len() - pos, 3nat,
{
    match unary_spec(ts, pos) {
        Err(e) => Err(e),
        Ok((l, q)) => if !advanced(pos, q, ts.len() as int) {
            Err(stalled())
        } else {
            multiplicative_rest(ts, l, q)
        },
    }
}

/// The rest of a product whose factors so far make `left`, from `pos` on.
pub open spec fn multiplicative_rest(ts: Seq<TokenView>, left: Exp, pos: int) -> Parsed
    decreases ts.len() - pos, 3nat,
{
    if 0 <= pos < ts.len() && ts[pos] is Star {
        match unary_spec(ts, pos + 1) {
            Err(e) => Err(e),
            Ok((r, q)) => if !advanced(pos + 1, q, ts.len() as int) {
                Err(stalled())
            } else {
                multiplicative_rest(ts, Exp::Binary(Box::new(left), Prim::Mul, Box::new(r)), q)
            },
        }
    } else {
        Ok((left, pos))
    }
}

/// `atom = "-" digits | primary`: a minus sign may stand only before an integer.
pub open spec fn unary_spec(ts: Seq<TokenView>, pos: int) -> Parsed
    decreases ts.len() - pos, 2nat,
{
    if 0 <= pos < ts.len() && ts[pos] is Minus {
        if pos + 1 < ts.len() && ts[pos + 1] is Integer {
            match integer_literal(ts[pos + 1]->Integer_0, true) {
                Ok(e) => Ok((e, pos + 2)),
                Err(e) => Err(e),
            }
        } else {
            Err(ErrorView::Parse("Expected integer after '-'"@))
        }
    } else {
        primary_spec(ts, pos)
    }
}

/// `primary = digits | "true" | "false" | "(" expr ")"`
pub open spec fn primary_spec(ts: Seq<TokenView>, pos: int) -> Parsed
    decreases ts.len() - pos, 1nat,
{
    if 0 <= pos < ts.len() {
        match ts[pos] {
            TokenView::Integer(d) => match integer_literal(d, false) {
                Ok(e) => Ok((e, pos + 1)),
                Err(e) => Err(e),
            },
            TokenView::Bool(b) => Ok((Exp::Literal(Value::Bool(b)), pos + 1)),
            TokenView::LeftParen => match expr_spec(ts, pos + 1) {
                Err(e) => Err(e),
                Ok((e, q)) => if !advanced(pos + 1, q, ts.len() as int) {
                    Err(stalled())
                } else if q < ts.len() && ts[q] is RightParen {
                    Ok((e, q + 1))
                } else {
                    Err(ErrorView::Parse("Expected ')'"@))
                },
            },
            _ => Err(ErrorView::Parse("Unexpected token"@)),
        }
    } else {
        Err(ErrorView::Parse("Unexpected token"@))
    }
}

/// The expression a whole token sequence denotes: it must not be empty, and
/// one expression must take every token.
pub open spec fn parse_spec(ts: Seq<TokenView>) -> Result<Exp, ErrorView> {
    if ts.len() == 0 {
        Err(ErrorView::Parse("Empty input"@))
    } else {
        match expr_spec(ts, 0) {
            Err(e) => Err(e),
            Ok((e, q)) => if q < ts.len() {
                Err(ErrorView::Parse("Unexpected token"@))
            } else {
                Ok(e)
            },
        }
    }
}

/// A parser result taken by its model.
pub open spec fn parsed(r: Result<(Exp, usize), Error>) -> Parsed {
    match r {
        Ok((e, q)) => Ok((e, q as int)),
        Err(x) => Err(x@),
    }
}


/// The value of a prefix of a run of digits is between zero and the value
/// of the whole run.
proof fn lemma_decimal_prefix(d: Seq<char>, i: int)
    requires
        all_digits(d),
        0 <= i <= d.len(),
    ensures
        0 <= decimal_value(d.take(i)) <= decimal_value(d),
    decreases d.len(),
{
    if d.len() > 0 {
        let p = d.drop_last();
        assert forall|k: int| 0 <= k < p.len() implies is_digit(#[trigger] p[k]) by {
            assert(p[k] == d[k]);
        }
        assert(is_digit(d[d.len() - 1]));
        if i == d.len() {
            lemma_decimal_prefix(p, p.len() as int);
            assert(p.take(p.len() as int) =~= p);
            assert(d.take(i) =~= d);
        } else {
            lemma_decimal_prefix(p, i);
            assert(p.take(i) =~= d.take(i));
        }
    } else {
        assert(d.take(i) =~= d);
    }
}

/// Turns the digits of an integer token into a literal, negated when
/// `negative`. Fails with a parse error when the digits are empty or not all
/// ASCII digits, and with an overflow when the value does not fit in `i64`,
/// as `integer_literal` states.
pub fn parse_integer(digits: &str, negative: bool) -> (r: Result<Exp, Error>)
    ensures
        outcome(r) == integer_literal(digits@, negative),
{
    let chars = chars_of(digits);
    let n = chars.len();
    let mut k: usize = 0;
    let mut valid = n > 0;
    while valid && k < n
        invariant
            chars@ == digits@,
            n == chars.len(),
            k <= n,
            valid ==> n > 0,
            forall|j: int| 0 <= j < k ==> is_digit(#[trigger] chars@[j]),
            !valid ==> (n == 0 || !all_digits(chars@)),
        decreases n - k + (if valid { 1int } else { 0int }),
    {
        if is_ascii_digit(chars[k]) {
            k += 1;
        } else {
            valid = false;
        }
    }
    if !valid {
        let mut message = "Invalid integer: ".to_owned();
        message.append(digits);
        return Err(Error::Parse(message));
    }
    let ghost d = digits@;
    let mut acc: i64 = 0;
    let mut k: usize = 0;
    while k < n
        invariant
            chars@ == d,
            d == digits@,
            n == d.len(),
            n > 0,
            k <= n,
            all_digits(d),
            acc == (if negative {
                -decimal_value(d.take(k as int))
            } else {
                decimal_value(d.take(k as int))
            }),
        decreases n - k,
    {
        let c = chars[k];
        let digit = (c as u32 - '0' as u32) as i64;
        proof {
            assert(is_digit(d[k as int]));
            assert(d.take(k + 1).drop_last() =~= d.take(k as int));
            assert(decimal_value(d.take(k + 1)) == 10 * decimal_value(d.take(k as int))
                + digit_value(c));
            lemma_decimal_prefix(d, k as int);
            lemma_decimal_prefix(d, k + 1);
        }
        let scaled = match acc.checked_mul(10) {
            Some(m) => m,
            None => return Err(Error::Overflow),
        };
        let next = if negative {
            scaled.checked_sub(digit)
        } else {
            scaled.checked_add(digit)
        };
        acc = match next {
            Some(v) => v,
            None => return Err(Error::Overflow),
        };
        k += 1;
    }
    assert(d.take(n as int) =~= d);
    Ok(Exp::Literal(Value::Int(acc)))
}


/// Consumes the token at `pos`, which must equal `expected`; the error names
/// both tokens, or the end of the input, as `eat_spec` states.
pub fn eat(tokens: &[Token], pos: usize, expected: Token) -> (r: Result<usize, Error>)
    requires
        pos <= tokens.len(),
    ensures
        match eat_spec(tokens_view(tokens@), pos as int, expected@) {
            Ok(q) => r == Ok::<usize, Error>(q as usize),
            Err(e) => r is Err && r->Err_0@ == e,
        },
{
    if pos < tokens.len() {
        let token = &tokens[pos];
        if same_token(token, &expected) {
            Ok(pos + 1)
        } else {
            let mut message = "Expected ".to_owned();
            message.append(describe(&expected).as_str());
            message.append(", but found ");
            message.append(describe(token).as_str());
            Err(Error::Parse(message))
        }
    } else {
        let mut message = "Expected ".to_owned();
        message.append(describe(&expected).as_str());
        message.append(", but found end of input");
        Err(Error::Parse(message))
    }
}

/// Parses a conditional or a comparison starting at `pos`, as `expr_spec`
/// states; on success the position after it is returned, and it lies past `pos`.
pub fn parse_expr(tokens: &[Token], pos: usize) -> (r: Result<(Exp, usize), Error>)
    requires
        pos <= tokens.len(),
    ensures
        parsed(r) == expr_spec(tokens_view(tokens@), pos as int),
        r matches Ok((_, q)) ==> pos < q <= tokens.len(),
    decreases tokens.len() - pos, 6nat,
{
    if pos < tokens.len() {
        if let Token::If = &tokens[pos] {
            let p1 = match eat(tokens, pos, Token::If) {
                Ok(p) => p,
                Err(e) => return Err(e),
            };
            let (cond, p2) = match parse_expr(tokens, p1) {
                Ok(x) => x,
                Err(e) => return Err(e),
            };
            let p3 = match eat(tokens, p2, Token::Then) {
                Ok(p) => p,
                Err(e) => return Err(e),
            };
            let (then_branch, p4) = match parse_expr(tokens, p3) {
                Ok(x) => x,
                Err(e) => return Err(e),
            };
            let p5 = match eat(tokens, p4, Token::Else) {
                Ok(p) => p,
                Err(e) => return Err(e),
            };
            let (else_branch, p6) = match parse_expr(tokens, p5) {
                Ok(x) => x,
                Err(e) => return Err(e),
            };
            Ok((Exp::If(Box::new(cond), Box::new(then_branch), Box::new(else_branch)), p6))
        } else {
            parse_formula(tokens, pos)
        }
    } else {
        Err(Error::Parse("missing token".to_owned()))
    }
}

/// Parses a sum, optionally compared by `<` with a second sum, as
/// `formula_spec` states.
pub fn parse_formula(tokens: &[Token], pos: usize) -> (r: Result<(Exp, usize), Error>)
    requires
        pos <= tokens.len(),
    ensures
        parsed(r) == formula_spec(tokens_view(tokens@), pos as int),
        r matches Ok((_, q)) ==> pos < q <= tokens.len(),
    decreases tokens.len() - pos, 5nat,
{
    let (left, p1) = match parse_additive(tokens, pos) {
        Ok(x) => x,
        Err(e) => return Err(e),
    };
    if p1 < tokens.len() {
        if let Token::Less = &tokens[p1] {
            let p2 = match eat(tokens, p1, Token::Less) {
                Ok(p) => p,
                Err(e) => return Err(e),
            };
            let (right, p3) = match parse_additive(tokens, p2) {
                Ok(x) => x,
                Err(e) => return Err(e),
            };
            return Ok((Exp::Binary(Box::new(left), Prim::Lt, Box::new(right)), p3));
        }
    }
    Ok((left, p1))
}

/// The operator a token stands for between two terms of a sum.
fn additive_operator(t: &Token) -> (op: Option<Prim>)
    ensures
        op == additive_op(t@),
{
    match t {
        Token::Plus => Some(Prim::Add),
        Token::Minus => Some(Prim::Sub),
        _ => None,
    }
}

/// Parses products joined by `+` and `-`, associating to the left, as
/// `additive_spec` states.
pub fn parse_additive(tokens: &[Token], pos: usize) -> (r: Result<(Exp, usize), Error>)
    requires
        pos <= tokens.len(),
    ensures
        parsed(r) == additive_spec(tokens_view(tokens@), pos as int),
        r matches Ok((_, q)) ==> pos < q <= tokens.len(),
    decreases tokens.len() - pos, 4nat,
{
    let ghost ts = tokens_view(tokens@);
    let (mut left, mut p) = match parse_multiplicative(tokens, pos) {
        Ok(x) => x,
        Err(e) => return Err(e),
    };
    loop
        invariant
            ts == tokens_view(tokens@),
            pos < p <= tokens.len(),
            additive_spec(ts, pos as int) == additive_rest(ts, left, p as int),
        decreases tokens.len() - p,
    {
        let op = if p < tokens.len() {
            additive_operator(&tokens[p])
        } else {
            None
        };
        match op {
            Some(o) => {
                let (right, q) = match parse_multiplicative(tokens, p + 1) {
                    Ok(x) => x,
                    Err(e) => return Err(e),
                };
                left = Exp::Binary(Box::new(left), o, Box::new(right));
                p = q;
            },
            None => {
                return Ok((left, p));
            },
        }
    }
}

/// Parses factors joined by `*`, associating to the left, as
/// `multiplicative_spec` states.
pub fn parse_multiplicative(tokens: &[Token], pos: usize) -> (r: Result<(Exp, usize), Error>)
    requires
        pos <= tokens.len(),
    ensures
        parsed(r) == multiplicative_spec(tokens_view(tokens@), pos as int),
        r matches Ok((_, q)) ==> pos < q <= tokens.len(),
    decreases tokens.len() - pos, 3nat,
{
    let ghost ts = tokens_view(tokens@);
    let (mut left, mut p) = match parse_unary(tokens, pos) {
        Ok(x) => x,
        Err(e) => return Err(e),
    };
    loop
        invariant
            ts == tokens_view(tokens@),
            pos < p <= tokens.len(),
            multiplicative_spec(ts, pos as int) == multiplicative_rest(ts, left, p as int),
        decreases tokens.len() - p,
    {
        let star = p < tokens.len() && matches!(tokens[p], Token::Star);
        if star {
            let (right, q) = match parse_unary(tokens, p + 1) {
                Ok(x) => x,
                Err(e) => return Err(e),
            };
            left = Exp::Binary(Box::new(left), Prim::Mul, Box::new(right));
            p = q;
        } else {
            return Ok((left, p));
        }
    }
}

/// Parses a negative integer literal, or else a primary, as `unary_spec` states.
pub fn parse_unary(tokens: &[Token], pos: usize) -> (r: Result<(Exp, usize), Error>)
    requires
        pos <= tokens.len(),
    ensures
        parsed(r) == unary_spec(tokens_view(tokens@), pos as int),
        r matches Ok((_, q)) ==> pos < q <= tokens.len(),
    decreases tokens.len() - pos, 2nat,
{
    if pos < tokens.len() && matches!(tokens[pos], Token::Minus) {
        if pos + 1 < tokens.len() {
            if let Token::Integer(n) = &tokens[pos + 1] {
                return match parse_integer(n.as_str(), true) {
                    Ok(e) => Ok((e, pos + 2)),
                    Err(e) => Err(e),
                };
            }
        }
        Err(Error::Parse("Expected integer after '-'".to_owned()))
    } else {
        parse_primary(tokens, pos)
    }
}

/// Parses an integer, a boolean or a parenthesized expression, as
/// `primary_spec` states.
#[verifier::spinoff_prover]
pub fn parse_primary(tokens: &[Token], pos: usize) -> (r: Result<(Exp, usize), Error>)
    requires
        pos <= tokens.len(),
    ensures
        parsed(r) == primary_spec(tokens_view(tokens@), pos as int),
        r matches Ok((_, q)) ==> pos < q <= tokens.len(),
    decreases tokens.len() - pos, 1nat,
{
    if pos < tokens.len() {
        match &tokens[pos] {
            Token::Integer(n) => match parse_integer(n.as_str(), false) {
                Ok(e) => Ok((e, pos + 1)),
                Err(e) => Err(e),
            },
            Token::Bool(b) => Ok((Exp::Literal(Value::Bool(*b)), pos + 1)),
            Token::LeftParen => {
                let (expr, q) = match parse_expr(tokens, pos + 1) {
                    Ok(x) => x,
                    Err(e) => return Err(e),
                };
                if q < tokens.len() && matches!(tokens[q], Token::RightParen) {
                    Ok((expr, q + 1))
                } else {
                    Err(Error::Parse("Expected ')'".to_owned()))
                }
            },
            _ => Err(Error::Parse("Unexpected token".to_owned())),
        }
    } else {
        Err(Error::Parse("Unexpected token".to_owned()))
    }
}

/// Parses the whole token sequence as one expression, by precedence `*`,
/// then `+ -`, then `<`. Fails on an empty sequence and when tokens are left
/// over, as `parse_spec` states.
pub fn parse(tokens: &[Token]) -> (r: Result<Exp, Error>)
    ensures
        outcome(r) == parse_spec(tokens_view(tokens@)),
{
    if tokens.len() == 0 {
        return Err(Error::Parse("Empty input".to_owned()));
    }
    let (expr, end) = match parse_expr(tokens, 0) {
        Ok(x) => x,
        Err(e) => return Err(e),
    };
    if end < tokens.len() {
        Err(Error::Parse("Unexpected token".to_owned()))
    } else {
        Ok(expr)
    }
}


/// Whether a run of digits denotes a literal that fits in `i64` unsigned.
pub open spec fn fits_literal(d: Seq<char>) -> bool {
    d.len() > 0 && all_digits(d) && decimal_value(d) <= i64::MAX
}

/// The literal a fitting run of digits denotes.
pub open spec fn literal(d: Seq<char>) -> Exp {
    Exp::Literal(Value::Int(decimal_value(d) as i64))
}

/// A fitting integer token at `p` parses as a factor on its own.
proof fn lemma_factor_literal(ts: Seq<TokenView>, p: int)
    requires
        0 <= p < ts.len(),
        ts[p] is Integer,
        fits_literal(ts[p]->Integer_0),
    ensures
        unary_spec(ts, p) == Ok::<(Exp, int), ErrorView>((literal(ts[p]->Integer_0), p + 1)),
{
    let d = ts[p]->Integer_0;
    lemma_decimal_prefix(d, 0);
    assert(integer_literal(d, false) == Ok::<Exp, ErrorView>(literal(d)));
    assert(primary_spec(ts, p) == Ok::<(Exp, int), ErrorView>((literal(d), p + 1)));
}

/// A fitting integer token at `p`, not followed by `*`, parses as a term on its own.
proof fn lemma_term_literal(ts: Seq<TokenView>, p: int)
    requires
        0 <= p < ts.len(),
        ts[p] is Integer,
        fits_literal(ts[p]->Integer_0),
        p + 1 < ts.len() ==> !(ts[p + 1] is Star),
    ensures
        multiplicative_spec(ts, p) == Ok::<(Exp, int), ErrorView>(
            (literal(ts[p]->Integer_0), p + 1),
        ),
{
    lemma_factor_literal(ts, p);
    let d = ts[p]->Integer_0;
    assert(multiplicative_rest(ts, literal(d), p + 1) == Ok::<(Exp, int), ErrorView>(
        (literal(d), p + 1),
    ));
}

/// A fitting integer token at `p`, followed by neither `*`, `+` nor `-`,
/// parses as a sum on its own.
proof fn lemma_sum_literal(ts: Seq<TokenView>, p: int)
    requires
        0 <= p < ts.len(),
        ts[p] is Integer,
        fits_literal(ts[p]->Integer_0),
        p + 1 < ts.len() ==> !(ts[p + 1] is Star) && additive_op(ts[p + 1]) is None,
    ensures
        additive_spec(ts, p) == Ok::<(Exp, int), ErrorView>((literal(ts[p]->Integer_0), p + 1)),
{
    lemma_term_literal(ts, p);
    let d = ts[p]->Integer_0;
    assert(additive_rest(ts, literal(d), p + 1) == Ok::<(Exp, int), ErrorView>(
        (literal(d), p + 1),
    ));
}

/// Addition and subtraction associate to the left: `a ∘ b ∙ c` with `∘` and
/// `∙` each `+` or `-` parses as `(a ∘ b) ∙ c`.
pub proof fn lemma_additive_associates_left(a: Seq<char>, o1: TokenView, b: Seq<char>, o2: TokenView, c: Seq<char>)
    requires
        fits_literal(a),
        fits_literal(b),
        fits_literal(c),
        additive_op(o1) is Some,
        additive_op(o2) is Some,
    ensures
        parse_spec(seq![TokenView::Integer(a), o1, TokenView::Integer(b), o2, TokenView::Integer(c)])
            == Ok::<Exp, ErrorView>(
            Exp::Binary(
                Box::new(
                    Exp::Binary(
                        Box::new(literal(a)),
                        additive_op(o1)->Some_0,
                        Box::new(literal(b)),
                    ),
                ),
                additive_op(o2)->Some_0,
                Box::new(literal(c)),
            ),
        ),
{
    let ts = seq![TokenView::Integer(a), o1, TokenView::Integer(b), o2, TokenView::Integer(c)];
    let la = literal(a);
    let lb = literal(b);
    let lc = literal(c);
    let ab = Exp::Binary(Box::new(la), additive_op(o1)->Some_0, Box::new(lb));
    let abc = Exp::Binary(Box::new(ab), additive_op(o2)->Some_0, Box::new(lc));
    lemma_term_literal(ts, 0);
    lemma_term_literal(ts, 2);
    lemma_term_literal(ts, 4);
    assert(additive_rest(ts, abc, 5) == Ok::<(Exp, int), ErrorView>((abc, 5)));
    assert(additive_rest(ts, ab, 3) == Ok::<(Exp, int), ErrorView>((abc, 5)));
    assert(additive_rest(ts, la, 1) == Ok::<(Exp, int), ErrorView>((abc, 5)));
    assert(additive_spec(ts, 0) == Ok::<(Exp, int), ErrorView>((abc, 5)));
    assert(formula_spec(ts, 0) == Ok::<(Exp, int), ErrorView>((abc, 5)));
    assert(expr_spec(ts, 0) == Ok::<(Exp, int), ErrorView>((abc, 5)));
}

/// Multiplication binds tighter than addition and subtraction: `a ∘ b * c`
/// with `∘` either `+` or `-` parses as `a ∘ (b * c)`.
pub proof fn lemma_product_binds_tighter(a: Seq<char>, o: TokenView, b: Seq<char>, c: Seq<char>)
    requires
        fits_literal(a),
        fits_literal(b),
        fits_literal(c),
        additive_op(o) is Some,
    ensures
        parse_spec(seq![TokenView::Integer(a), o, TokenView::Integer(b), TokenView::Star, TokenView::Integer(c)])
            == Ok::<Exp, ErrorView>(
            Exp::Binary(
                Box::new(literal(a)),
                additive_op(o)->Some_0,
                Box::new(Exp::Binary(Box::new(literal(b)), Prim::Mul, Box::new(literal(c)))),
            ),
        ),
{
    let ts = seq![TokenView::Integer(a), o, TokenView::Integer(b), TokenView::Star, TokenView::Integer(c)];
    let la = literal(a);
    let lb = literal(b);
    let lc = literal(c);
    let bc = Exp::Binary(Box::new(lb), Prim::Mul, Box::new(lc));
    let abc = Exp::Binary(Box::new(la), additive_op(o)->Some_0, Box::new(bc));
    lemma_term_literal(ts, 0);
    lemma_factor_literal(ts, 2);
    lemma_factor_literal(ts, 4);
    assert(multiplicative_rest(ts, bc, 5) == Ok::<(Exp, int), ErrorView>((bc, 5)));
    assert(multiplicative_rest(ts, lb, 3) == Ok::<(Exp, int), ErrorView>((bc, 5)));
    assert(multiplicative_spec(ts, 2) == Ok::<(Exp, int), ErrorView>((bc, 5)));
    assert(additive_rest(ts, abc, 5) == Ok::<(Exp, int), ErrorView>((abc, 5)));
    assert(additive_rest(ts, la, 1) == Ok::<(Exp, int), ErrorView>((abc, 5)));
    assert(additive_spec(ts, 0) == Ok::<(Exp, int), ErrorView>((abc, 5)));
    assert(formula_spec(ts, 0) == Ok::<(Exp, int), ErrorView>((abc, 5)));
    assert(expr_spec(ts, 0) == Ok::<(Exp, int), ErrorView>((abc, 5)));
}

/// Comparisons do not chain: `a < b < c` is a syntax error, the second `<`
/// being a token left over.
pub proof fn lemma_comparisons_do_not_chain(a: Seq<char>, b: Seq<char>, c: Seq<char>)
    requires
        fits_literal(a),
        fits_literal(b),
    ensures
        parse_spec(seq![TokenView::Integer(a), TokenView::Less, TokenView::Integer(b), TokenView::Less, TokenView::Integer(c)])
            == Err::<Exp, ErrorView>(ErrorView::Parse("Unexpected token"@)),
{
    let ts = seq![TokenView::Integer(a), TokenView::Less, TokenView::Integer(b), TokenView::Less, TokenView::Integer(c)];
    lemma_sum_literal(ts, 0);
    lemma_sum_literal(ts, 2);
    let ab = Exp::Binary(Box::new(literal(a)), Prim::Lt, Box::new(literal(b)));
    assert(formula_spec(ts, 0) == Ok::<(Exp, int), ErrorView>((ab, 3)));
    assert(expr_spec(ts, 0) == Ok::<(Exp, int), ErrorView>((ab, 3)));
}

/// A minus sign may stand only before an integer: an input that starts with
/// `-` followed by anything else, or by nothing, is a syntax error.
pub proof fn lemma_minus_needs_integer(ts: Seq<TokenView>)
    requires
        ts.len() >= 1,
        ts[0] is Minus,
        !(ts.len() >= 2 && ts[1] is Integer),
    ensures
        parse_spec(ts) == Err::<Exp, ErrorView>(ErrorView::Parse("Expected integer after '-'"@)),
{
    let e = Err::<(Exp, int), ErrorView>(ErrorView::Parse("Expected integer after '-'"@));
    assert(unary_spec(ts, 0) == e);
    assert(multiplicative_spec(ts, 0) == e);
    assert(additive_spec(ts, 0) == e);
    assert(formula_spec(ts, 0) == e);
    assert(expr_spec(ts, 0) == e);
}

/// A conditional cannot stand as the right operand of an operator without
/// parentheses: `a ∘ if ...` is a syntax error for each operator `∘`.
pub proof fn lemma_conditional_operand_needs_parentheses(a: Seq<char>, o: TokenView, rest: Seq<TokenView>)
    requires
        fits_literal(a),
        o is Plus || o is Minus || o is Star || o is Less,
    ensures
        parse_spec(seq![TokenView::Integer(a), o, TokenView::If] + rest)
            == Err::<Exp, ErrorView>(ErrorView::Parse("Unexpected token"@)),
{
    let ts = seq![TokenView::Integer(a), o, TokenView::If] + rest;
    let e = Err::<(Exp, int), ErrorView>(ErrorView::Parse("Unexpected token"@));
    assert(ts[0] == TokenView::Integer(a));
    assert(ts[1] == o);
    assert(ts[2] == TokenView::If);
    assert(primary_spec(ts, 2) == e);
    assert(unary_spec(ts, 2) == e);
    lemma_factor_literal(ts, 0);
    let la = literal(a);
    if o is Star {
        assert(multiplicative_rest(ts, la, 1) == e);
        assert(multiplicative_spec(ts, 0) == e);
        assert(additive_spec(ts, 0) == e);
    } else {
        assert(multiplicative_rest(ts, la, 1) == Ok::<(Exp, int), ErrorView>((la, 1)));
        assert(multiplicative_spec(ts, 0) == Ok::<(Exp, int), ErrorView>((la, 1)));
        assert(multiplicative_spec(ts, 2) == e);
        if o is Less {
            assert(additive_rest(ts, la, 1) == Ok::<(Exp, int), ErrorView>((la, 1)));
            assert(additive_spec(ts, 0) == Ok::<(Exp, int), ErrorView>((la, 1)));
            assert(additive_spec(ts, 2) == e);
        } else {
            assert(additive_rest(ts, la, 1) == e);
            assert(additive_spec(ts, 0) == e);
        }
    }
    assert(formula_spec(ts, 0) == e);
    assert(expr_spec(ts, 0) == e);
}


/// A leading zero changes nothing: the digits `0d` denote the same literal as `d`.
pub proof fn lemma_leading_zero(d: Seq<char>, negative: bool)
    requires
        d.len() > 0,
        all_digits(d),
    ensures
        integer_literal(seq!['0'] + d, negative) == integer_literal(d, negative),
{
    let z = seq!['0'] + d;
    assert forall|k: int| 0 <= k < z.len() implies is_digit(#[trigger] z[k]) by {
        if k > 0 {
            assert(z[k] == d[k - 1]);
        }
    }
    lemma_leading_zero_value(d);
}

/// The value of `0d` is the value of `d`.
proof fn lemma_leading_zero_value(d: Seq<char>)
    ensures
        decimal_value(seq!['0'] + d) == decimal_value(d),
    decreases d.len(),
{
    let z = seq!['0'] + d;
    if d.len() == 0 {
        assert(z.drop_last() =~= Seq::<char>::empty());
        assert(z.last() == '0');
        assert(decimal_value(z) == 10 * decimal_value(Seq::<char>::empty()) + digit_value('0'));
    } else {
        let y = seq!['0'] + d.drop_last();
        assert(z.drop_last() =~= y);
        assert(z.last() == d.last());
        lemma_leading_zero_value(d.drop_last());
        assert(decimal_value(z) == 10 * decimal_value(y) + digit_value(d.last()));
    }
}


/// Integer literals range over `i64` exactly: a run of digits, negated or
/// not, is accepted exactly when its value lies between `i64::MIN` and
/// `i64::MAX`, and it then denotes that value; outside the range it is an
/// overflow error.
pub proof fn lemma_literal_range(d: Seq<char>, negative: bool)
    requires
        d.len() > 0,
        all_digits(d),
    ensures
        ({
            let v = if negative {
                -decimal_value(d)
            } else {
                decimal_value(d)
            };
            &&& (i64::MIN <= v <= i64::MAX) ==> integer_literal(d, negative) == Ok::<
                Exp,
                ErrorView,
            >(Exp::Literal(Value::Int(v as i64)))
            &&& !(i64::MIN <= v <= i64::MAX) ==> integer_literal(d, negative) == Err::<
                Exp,
                ErrorView,
            >(ErrorView::Overflow)
        }),
{
}


/// Whether a parse result, if it succeeded, ends after `pos` and inside the input.
pub open spec fn advances(r: Parsed, pos: int, len: int) -> bool {
    r matches Ok((_, q)) ==> pos < q <= len
}

/// The rest of a sum ends no earlier than where it starts, and inside the input.
proof fn lemma_additive_rest_bounds(ts: Seq<TokenView>, left: Exp, pos: int)
    requires
        0 <= pos <= ts.len(),
    ensures
        additive_rest(ts, left, pos) matches Ok((_, q)) ==> pos <= q <= ts.len(),
    decreases ts.len() - pos,
{
    if 0 <= pos < ts.len() && additive_op(ts[pos]) is Some {
        if let Ok((r, q)) = multiplicative_spec(ts, pos + 1) {
            if advanced(pos + 1, q, ts.len() as int) {
                lemma_additive_rest_bounds(
                    ts,
                    Exp::Binary(Box::new(left), additive_op(ts[pos])->Some_0, Box::new(r)),
                    q,
                );
            }
        }
    }
}

/// The rest of a product ends no earlier than where it starts, and inside the input.
proof fn lemma_multiplicative_rest_bounds(ts: Seq<TokenView>, left: Exp, pos: int)
    requires
        0 <= pos <= ts.len(),
    ensures
        multiplicative_rest(ts, left, pos) matches Ok((_, q)) ==> pos <= q <= ts.len(),
    decreases ts.len() - pos,
{
    if 0 <= pos < ts.len() && ts[pos] is Star {
        if let Ok((r, q)) = unary_spec(ts, pos + 1) {
            if advanced(pos + 1, q, ts.len() as int) {
                lemma_multiplicative_rest_bounds(
                    ts,
                    Exp::Binary(Box::new(left), Prim::Mul, Box::new(r)),
                    q,
                );
            }
        }
    }
}

/// A sum that parses ends after where it starts, and inside the input.
proof fn lemma_additive_advances(ts: Seq<TokenView>, pos: int)
    requires
        0 <= pos,
    ensures
        advances(multiplicative_spec(ts, pos), pos, ts.len() as int),
        advances(additive_spec(ts, pos), pos, ts.len() as int),
{
    if let Ok((l, q)) = multiplicative_spec(ts, pos) {
        if advanced(pos, q, ts.len() as int) {
            lemma_additive_rest_bounds(ts, l, q);
        }
    }
    if let Ok((l, q)) = unary_spec(ts, pos) {
        if advanced(pos, q, ts.len() as int) {
            lemma_multiplicative_rest_bounds(ts, l, q);
        }
    }
}

/// Every phrase that parses consumes at least one token and ends inside the
/// input: a successful parse from `pos` ends at a position after `pos` and no
/// later than the end of the tokens.
#[verifier::spinoff_prover]
#[verifier::rlimit(60)]
pub proof fn lemma_parsers_advance(ts: Seq<TokenView>, pos: int)
    requires
        0 <= pos,
    ensures
        advances(expr_spec(ts, pos), pos, ts.len() as int),
        advances(formula_spec(ts, pos), pos, ts.len() as int),
        advances(additive_spec(ts, pos), pos, ts.len() as int),
        advances(multiplicative_spec(ts, pos), pos, ts.len() as int),
        advances(unary_spec(ts, pos), pos, ts.len() as int),
        advances(primary_spec(ts, pos), pos, ts.len() as int),
    decreases ts.len() - pos,
{
    lemma_additive_advances(ts, pos);
    if let Ok((l, q)) = additive_spec(ts, pos) {
        if advanced(pos, q, ts.len() as int) && q < ts.len() && ts[q] is Less {
            lemma_additive_advances(ts, q + 1);
        }
    }
    if 0 <= pos < ts.len() && ts[pos] is If {
        if let Ok((c, q)) = expr_spec(ts, pos + 1) {
            if advanced(pos + 1, q, ts.len() as int) {
                if let Ok(q1) = eat_spec(ts, q, TokenView::Then) {
                    if let Ok((t, q2)) = expr_spec(ts, q1) {
                        if advanced(q1, q2, ts.len() as int) {
                            if let Ok(q3) = eat_spec(ts, q2, TokenView::Else) {
                                lemma_parsers_advance(ts, q3);
                            }
                        }
                    }
                }
            }
        }
    }
}


/// The ASCII digit for a number below ten.
pub open spec fn digit_char(k: int) -> char {
    if k == 0 {
        '0'
    } else if k == 1 {
        '1'
    } else if k == 2 {
        '2'
    } else if k == 3 {
        '3'
    } else if k == 4 {
        '4'
    } else if k == 5 {
        '5'
    } else if k == 6 {
        '6'
    } else if k == 7 {
        '7'
    } else if k == 8 {
        '8'
    } else {
        '9'
    }
}

/// The decimal digits of a natural number, most significant first, without
/// leading zeros.
pub open spec fn decimal_digits(n: nat) -> Seq<char>
    decreases n,
{
    if n < 10 {
        seq![digit_char(n as int)]
    } else {
        decimal_digits(n / 10) + seq![digit_char((n % 10) as int)]
    }
}

/// The decimal digits of `n` are a non-empty run of digits of value `n`.
proof fn lemma_decimal_digits(n: nat)
    ensures
        decimal_digits(n).len() > 0,
        all_digits(decimal_digits(n)),
        decimal_value(decimal_digits(n)) == n,
    decreases n,
{
    let d = decimal_digits(n);
    if n < 10 {
        assert(d.drop_last() =~= Seq::<char>::empty());
        assert(decimal_value(d) == 10 * decimal_value(d.drop_last()) + digit_value(d.last()));
    } else {
        lemma_decimal_digits(n / 10);
        let h = decimal_digits(n / 10);
        assert(d.drop_last() =~= h);
        assert forall|k: int| 0 <= k < d.len() implies is_digit(#[trigger] d[k]) by {
            if k < h.len() {
                assert(d[k] == h[k]);
            }
        }
        assert(decimal_value(d) == 10 * decimal_value(h) + digit_value(d.last()));
    }
}

/// The token that stands for a primitive operation.
pub open spec fn prim_token(op: Prim) -> TokenView {
    match op {
        Prim::Add => TokenView::Plus,
        Prim::Sub => TokenView::Minus,
        Prim::Mul => TokenView::Star,
        Prim::Lt => TokenView::Less,
    }
}

/// The fully parenthesized token form of a tree: an integer by its digits,
/// after a minus sign when negative; every operand of a binary operation in
/// parentheses; a conditional by its keywords.
pub open spec fn token_form(e: Exp) -> Seq<TokenView>
    decreases e,
{
    match e {
        Exp::Literal(Value::Int(n)) => if n >= 0 {
            seq![TokenView::Integer(decimal_digits(n as nat))]
        } else {
            seq![TokenView::Minus, TokenView::Integer(decimal_digits((-n) as nat))]
        },
        Exp::Literal(Value::Bool(b)) => seq![TokenView::Bool(b)],
        Exp::Binary(l, op, r) => seq![TokenView::LeftParen] + token_form(*l) + seq![
            TokenView::RightParen,
            prim_token(op),
            TokenView::LeftParen,
        ] + token_form(*r) + seq![TokenView::RightParen],
        Exp::If(c, t, f) => seq![TokenView::If] + token_form(*c) + seq![TokenView::Then]
            + token_form(*t) + seq![TokenView::Else] + token_form(*f),
    }
}

/// Whether position `q` ends a phrase: the end of the input, or a closing
/// parenthesis, `then` or `else`.
pub open spec fn closes_phrase(ts: Seq<TokenView>, q: int) -> bool {
    q == ts.len() || (0 <= q < ts.len() && (ts[q] is RightParen || ts[q] is Then
        || ts[q] is Else))
}

/// Whether the tokens from `p` on begin with `form`.
pub open spec fn holds_at(ts: Seq<TokenView>, p: int, form: Seq<TokenView>) -> bool {
    0 <= p && p + form.len() <= ts.len() && ts.subrange(p, p + form.len()) == form
}

/// Whether an expression parses from `p` to the tree `e`, ending at `q`.
#[verifier::opaque]
spec fn parses_to(ts: Seq<TokenView>, p: int, e: Exp, q: int) -> bool {
    expr_spec(ts, p) == Ok::<(Exp, int), ErrorView>((e, q))
}

/// A factor that a phrase end follows is a whole expression.
proof fn lemma_factor_is_expr(ts: Seq<TokenView>, p: int, x: Exp, q: int)
    requires
        0 <= p < q <= ts.len(),
        !(ts[p] is If),
        unary_spec(ts, p) == Ok::<(Exp, int), ErrorView>((x, q)),
        closes_phrase(ts, q),
    ensures
        expr_spec(ts, p) == Ok::<(Exp, int), ErrorView>((x, q)),
{
    let r = Ok::<(Exp, int), ErrorView>((x, q));
    assert(multiplicative_rest(ts, x, q) == r);
    assert(multiplicative_spec(ts, p) == r);
    assert(additive_rest(ts, x, q) == r);
    assert(additive_spec(ts, p) == r);
    assert(formula_spec(ts, p) == r);
}

/// The tokens inside `form` at `a` appear in `ts` at `p + a`.
proof fn lemma_holds_inside(ts: Seq<TokenView>, p: int, form: Seq<TokenView>, a: int, part: Seq<TokenView>)
    requires
        holds_at(ts, p, form),
        0 <= a,
        a + part.len() <= form.len(),
        form.subrange(a, a + part.len()) == part,
    ensures
        holds_at(ts, p + a, part),
{
    assert forall|k: int| 0 <= k < part.len() implies ts.subrange(p + a, p + a + part.len())[k]
        == part[k] by {
        assert(ts.subrange(p, p + form.len())[a + k] == ts[p + a + k]);
        assert(form.subrange(a, a + part.len())[k] == form[a + k]);
    }
    assert(ts.subrange(p + a, p + a + part.len()) =~= part);
}

/// The token inside `form` at `a` appears in `ts` at `p + a`.
proof fn lemma_holds_token(ts: Seq<TokenView>, p: int, form: Seq<TokenView>, a: int)
    requires
        holds_at(ts, p, form),
        0 <= a < form.len(),
    ensures
        ts[p + a] == form[a],
{
    assert(ts.subrange(p, p + form.len())[a] == ts[p + a]);
}

/// A non-negative integer's digits parse back to it.
proof fn lemma_natural_literal_parses(ts: Seq<TokenView>, p: int, n: i64)
    requires
        0 <= n,
        0 <= p < ts.len(),
        ts[p] == TokenView::Integer(decimal_digits(n as nat)),
        closes_phrase(ts, p + 1),
    ensures
        parses_to(ts, p, Exp::Literal(Value::Int(n)), p + 1),
{
    reveal(parses_to);
    let e = Exp::Literal(Value::Int(n));
    lemma_decimal_digits(n as nat);
    assert(integer_literal(decimal_digits(n as nat), false) == Ok::<Exp, ErrorView>(e));
    assert(primary_spec(ts, p) == Ok::<(Exp, int), ErrorView>((e, p + 1)));
    lemma_factor_is_expr(ts, p, e, p + 1);
}

/// A negative integer's minus sign and digits parse back to it.
proof fn lemma_negative_literal_parses(ts: Seq<TokenView>, p: int, n: i64)
    requires
        n < 0,
        0 <= p,
        p + 1 < ts.len(),
        ts[p] is Minus,
        ts[p + 1] == TokenView::Integer(decimal_digits((-n) as nat)),
        closes_phrase(ts, p + 2),
    ensures
        parses_to(ts, p, Exp::Literal(Value::Int(n)), p + 2),
{
    reveal(parses_to);
    let e = Exp::Literal(Value::Int(n));
    lemma_decimal_digits((-n) as nat);
    assert(integer_literal(decimal_digits((-n) as nat), true) == Ok::<Exp, ErrorView>(e));
    assert(unary_spec(ts, p) == Ok::<(Exp, int), ErrorView>((e, p + 2)));
    lemma_factor_is_expr(ts, p, e, p + 2);
}

/// A boolean's token parses back to it.
proof fn lemma_boolean_literal_parses(ts: Seq<TokenView>, p: int, b: bool)
    requires
        0 <= p < ts.len(),
        ts[p] == TokenView::Bool(b),
        closes_phrase(ts, p + 1),
    ensures
        parses_to(ts, p, Exp::Literal(Value::Bool(b)), p + 1),
{
    reveal(parses_to);
    let e = Exp::Literal(Value::Bool(b));
    assert(primary_spec(ts, p) == Ok::<(Exp, int), ErrorView>((e, p + 1)));
    lemma_factor_is_expr(ts, p, e, p + 1);
}

/// A literal's token form parses back to the literal.
proof fn lemma_literal_form_parses(ts: Seq<TokenView>, p: int, v: Value)
    requires
        holds_at(ts, p, token_form(Exp::Literal(v))),
        closes_phrase(ts, p + token_form(Exp::Literal(v)).len()),
    ensures
        parses_to(ts, p, Exp::Literal(v), p + token_form(Exp::Literal(v)).len()),
{
    let form = token_form(Exp::Literal(v));
    lemma_holds_token(ts, p, form, 0);
    match v {
        Value::Int(n) => {
            if n >= 0 {
                lemma_natural_literal_parses(ts, p, n);
            } else {
                lemma_holds_token(ts, p, form, 1);
                lemma_negative_literal_parses(ts, p, n);
            }
        },
        Value::Bool(b) => {
            lemma_boolean_literal_parses(ts, p, b);
        },
    }
}

/// A parenthesized operand parses as a factor.
proof fn lemma_parenthesized_factor(ts: Seq<TokenView>, p: int, x: Exp, q: int)
    requires
        0 <= p,
        q < ts.len(),
        ts[p] is LeftParen,
        ts[q] is RightParen,
        p + 1 < q,
        parses_to(ts, p + 1, x, q),
    ensures
        unary_spec(ts, p) == Ok::<(Exp, int), ErrorView>((x, q + 1)),
{
    reveal(parses_to);
    assert(primary_spec(ts, p) == Ok::<(Exp, int), ErrorView>((x, q + 1)));
}

/// A binary operation on two parenthesized operands parses back to itself.
proof fn lemma_binary_parses(
    ts: Seq<TokenView>,
    p: int,
    l: Exp,
    op: Prim,
    r: Exp,
    lend: int,
    end: int,
)
    requires
        0 <= p < lend,
        lend + 2 < end <= ts.len(),
        !(ts[p] is If),
        ts[lend] == prim_token(op),
        unary_spec(ts, p) == Ok::<(Exp, int), ErrorView>((l, lend)),
        unary_spec(ts, lend + 1) == Ok::<(Exp, int), ErrorView>((r, end)),
        closes_phrase(ts, end),
    ensures
        parses_to(ts, p, Exp::Binary(Box::new(l), op, Box::new(r)), end),
{
    reveal(parses_to);
    let b = Exp::Binary(Box::new(l), op, Box::new(r));
    let done = Ok::<(Exp, int), ErrorView>((b, end));
    let rr = Ok::<(Exp, int), ErrorView>((r, end));
    assert(multiplicative_rest(ts, r, end) == rr);
    assert(multiplicative_rest(ts, b, end) == done);
    assert(additive_rest(ts, b, end) == done);
    assert(additive_rest(ts, r, end) == rr);
    match op {
        Prim::Mul => {
            assert(multiplicative_rest(ts, l, lend) == done);
            assert(multiplicative_spec(ts, p) == done);
            assert(additive_spec(ts, p) == done);
        },
        Prim::Lt => {
            let ll = Ok::<(Exp, int), ErrorView>((l, lend));
            assert(multiplicative_rest(ts, l, lend) == ll);
            assert(multiplicative_spec(ts, p) == ll);
            assert(additive_rest(ts, l, lend) == ll);
            assert(additive_spec(ts, p) == ll);
            assert(multiplicative_spec(ts, lend + 1) == rr);
            assert(additive_spec(ts, lend + 1) == rr);
        },
        _ => {
            let ll = Ok::<(Exp, int), ErrorView>((l, lend));
            assert(multiplicative_rest(ts, l, lend) == ll);
            assert(multiplicative_spec(ts, p) == ll);
            assert(multiplicative_spec(ts, lend + 1) == rr);
            assert(additive_rest(ts, l, lend) == done);
            assert(additive_spec(ts, p) == done);
        },
    }
    assert(formula_spec(ts, p) == done);
}

/// Where the parts of a binary operation's token form lie.
proof fn lemma_binary_layout(ts: Seq<TokenView>, p: int, l: Exp, op: Prim, r: Exp)
    requires
        holds_at(ts, p, token_form(Exp::Binary(Box::new(l), op, Box::new(r)))),
    ensures
        ({
            let ln = token_form(l).len() as int;
            let rn = token_form(r).len() as int;
            &&& token_form(Exp::Binary(Box::new(l), op, Box::new(r))).len() == ln + rn + 5
            &&& holds_at(ts, p + 1, token_form(l))
            &&& holds_at(ts, p + 4 + ln, token_form(r))
            &&& ts[p] is LeftParen
            &&& ts[p + 1 + ln] is RightParen
            &&& ts[p + 2 + ln] == prim_token(op)
            &&& ts[p + 3 + ln] is LeftParen
            &&& ts[p + 4 + ln + rn] is RightParen
        }),
{
    let form = token_form(Exp::Binary(Box::new(l), op, Box::new(r)));
    let lf = token_form(l);
    let rf = token_form(r);
    let ln = lf.len() as int;
    let rn = rf.len() as int;
    assert(form == seq![TokenView::LeftParen] + lf + seq![
        TokenView::RightParen,
        prim_token(op),
        TokenView::LeftParen,
    ] + rf + seq![TokenView::RightParen]);
    assert(form.subrange(1, 1 + ln) =~= lf);
    assert(form.subrange(4 + ln, 4 + ln + rn) =~= rf);
    lemma_holds_token(ts, p, form, 0);
    lemma_holds_token(ts, p, form, 1 + ln);
    lemma_holds_token(ts, p, form, 2 + ln);
    lemma_holds_token(ts, p, form, 3 + ln);
    lemma_holds_token(ts, p, form, 4 + ln + rn);
    lemma_holds_inside(ts, p, form, 1, lf);
    lemma_holds_inside(ts, p, form, 4 + ln, rf);
}

/// Where the parts of a conditional's token form lie.
proof fn lemma_if_layout(ts: Seq<TokenView>, p: int, c: Exp, t: Exp, f: Exp)
    requires
        holds_at(ts, p, token_form(Exp::If(Box::new(c), Box::new(t), Box::new(f)))),
    ensures
        ({
            let cn = token_form(c).len() as int;
            let tn = token_form(t).len() as int;
            let fnn = token_form(f).len() as int;
            &&& token_form(Exp::If(Box::new(c), Box::new(t), Box::new(f))).len() == cn + tn
                + fnn + 3
            &&& holds_at(ts, p + 1, token_form(c))
            &&& holds_at(ts, p + 2 + cn, token_form(t))
            &&& holds_at(ts, p + 3 + cn + tn, token_form(f))
            &&& ts[p] is If
            &&& ts[p + 1 + cn] is Then
            &&& ts[p + 2 + cn + tn] is Else
        }),
{
    let form = token_form(Exp::If(Box::new(c), Box::new(t), Box::new(f)));
    let cf = token_form(c);
    let tf = token_form(t);
    let ff = token_form(f);
    let cn = cf.len() as int;
    let tn = tf.len() as int;
    let fnn = ff.len() as int;
    assert(form == seq![TokenView::If] + cf + seq![TokenView::Then] + tf + seq![TokenView::Else]
        + ff);
    assert(form.subrange(1, 1 + cn) =~= cf);
    assert(form.subrange(2 + cn, 2 + cn + tn) =~= tf);
    assert(form.subrange(3 + cn + tn, 3 + cn + tn + fnn) =~= ff);
    lemma_holds_token(ts, p, form, 0);
    lemma_holds_token(ts, p, form, 1 + cn);
    lemma_holds_token(ts, p, form, 2 + cn + tn);
    lemma_holds_inside(ts, p, form, 1, cf);
    lemma_holds_inside(ts, p, form, 2 + cn, tf);
    lemma_holds_inside(ts, p, form, 3 + cn + tn, ff);
}

/// A conditional whose three parts parse, each up to its keyword, parses.
proof fn lemma_if_parses(ts: Seq<TokenView>, p: int, c: Exp, t: Exp, f: Exp, cend: int, tend: int, end: int)
    requires
        0 <= p,
        p + 1 < cend,
        cend + 1 < tend,
        tend + 1 < end <= ts.len(),
        ts[p] is If,
        ts[cend] is Then,
        ts[tend] is Else,
        parses_to(ts, p + 1, c, cend),
        parses_to(ts, cend + 1, t, tend),
        parses_to(ts, tend + 1, f, end),
    ensures
        parses_to(ts, p, Exp::If(Box::new(c), Box::new(t), Box::new(f)), end),
{
    reveal(parses_to);
    assert(eat_spec(ts, cend, TokenView::Then) == Ok::<int, ErrorView>(cend + 1));
    assert(eat_spec(ts, tend, TokenView::Else) == Ok::<int, ErrorView>(tend + 1));
}

/// A binary operation whose parenthesized operands parse, parses.
proof fn lemma_binary_from_operands(ts: Seq<TokenView>, p: int, l: Exp, op: Prim, r: Exp, ln: int, rn: int)
    requires
        0 <= p,
        ln > 0,
        rn > 0,
        p + ln + rn + 5 <= ts.len(),
        ts[p] is LeftParen,
        ts[p + 1 + ln] is RightParen,
        ts[p + 2 + ln] == prim_token(op),
        ts[p + 3 + ln] is LeftParen,
        ts[p + 4 + ln + rn] is RightParen,
        parses_to(ts, p + 1, l, p + 1 + ln),
        parses_to(ts, p + 4 + ln, r, p + 4 + ln + rn),
        closes_phrase(ts, p + ln + rn + 5),
    ensures
        parses_to(ts, p, Exp::Binary(Box::new(l), op, Box::new(r)), p + ln + rn + 5),
{
    lemma_parenthesized_factor(ts, p, l, p + 1 + ln);
    lemma_parenthesized_factor(ts, p + 3 + ln, r, p + 4 + ln + rn);
    lemma_binary_parses(ts, p, l, op, r, p + 2 + ln, p + 5 + ln + rn);
}

/// A tree's token form, followed by the end of a phrase, parses back to the tree.
proof fn lemma_form_parses(ts: Seq<TokenView>, p: int, e: Exp)
    requires
        holds_at(ts, p, token_form(e)),
        closes_phrase(ts, p + token_form(e).len()),
    ensures
        parses_to(ts, p, e, p + token_form(e).len()),
    decreases e,
{
    match e {
        Exp::Literal(v) => {
            lemma_literal_form_parses(ts, p, v);
        },
        Exp::Binary(l, op, r) => {
            lemma_binary_layout(ts, p, *l, op, *r);
            let ln = token_form(*l).len() as int;
            let rn = token_form(*r).len() as int;
            lemma_form_nonempty(*l);
            lemma_form_nonempty(*r);
            lemma_form_parses(ts, p + 1, *l);
            lemma_form_parses(ts, p + 4 + ln, *r);
            lemma_binary_from_operands(ts, p, *l, op, *r, ln, rn);
        },
        Exp::If(c, t, f) => {
            lemma_if_layout(ts, p, *c, *t, *f);
            let cn = token_form(*c).len() as int;
            let tn = token_form(*t).len() as int;
            let fnn = token_form(*f).len() as int;
            lemma_form_nonempty(*c);
            lemma_form_nonempty(*t);
            lemma_form_nonempty(*f);
            lemma_form_parses(ts, p + 1, *c);
            lemma_form_parses(ts, p + 2 + cn, *t);
            lemma_form_parses(ts, p + 3 + cn + tn, *f);
            lemma_if_parses(ts, p, *c, *t, *f, p + 1 + cn, p + 2 + cn + tn, p + 3 + cn + tn + fnn);
        },
    }
}

/// No token form is empty.
proof fn lemma_form_nonempty(e: Exp)
    ensures
        token_form(e).len() > 0,
{
}

/// The fully parenthesized token form of any tree parses back to that tree.
pub proof fn lemma_token_form_parses_back(e: Exp)
    ensures
        parse_spec(token_form(e)) == Ok::<Exp, ErrorView>(e),
{
    let ts = token_form(e);
    lemma_form_nonempty(e);
    assert(ts.subrange(0, ts.len() as int) =~= ts);
    lemma_form_parses(ts, 0, e);
    reveal(parses_to);
}


/// The operation an arithmetic operator token stands for.
pub open spec fn arith_op(t: TokenView) -> Prim {
    match t {
        TokenView::Star => Prim::Mul,
        TokenView::Minus => Prim::Sub,
        _ => Prim::Add,
    }
}

/// A fitting integer token at `p`, then an arithmetic operator and a second
/// fitting integer token that ends a phrase, parses as a sum.
proof fn lemma_sum_of_two(ts: Seq<TokenView>, p: int)
    requires
        0 <= p,
        p + 3 <= ts.len(),
        ts[p] is Integer,
        fits_literal(ts[p]->Integer_0),
        ts[p + 2] is Integer,
        fits_literal(ts[p + 2]->Integer_0),
        additive_op(ts[p + 1]) is Some || ts[p + 1] is Star,
        p + 3 < ts.len() ==> !(ts[p + 3] is Star) && additive_op(ts[p + 3]) is None,
    ensures
        additive_spec(ts, p) == Ok::<(Exp, int), ErrorView>(
            (
                Exp::Binary(
                    Box::new(literal(ts[p]->Integer_0)),
                    arith_op(ts[p + 1]),
                    Box::new(literal(ts[p + 2]->Integer_0)),
                ),
                p + 3,
            ),
        ),
{
    let la = literal(ts[p]->Integer_0);
    let lb = literal(ts[p + 2]->Integer_0);
    let ab = Exp::Binary(Box::new(la), arith_op(ts[p + 1]), Box::new(lb));
    let done = Ok::<(Exp, int), ErrorView>((ab, p + 3));
    lemma_factor_literal(ts, p);
    lemma_factor_literal(ts, p + 2);
    assert(multiplicative_rest(ts, lb, p + 3) == Ok::<(Exp, int), ErrorView>((lb, p + 3)));
    assert(multiplicative_rest(ts, ab, p + 3) == done);
    assert(additive_rest(ts, ab, p + 3) == done);
    if ts[p + 1] is Star {
        assert(multiplicative_rest(ts, la, p + 1) == done);
        assert(multiplicative_spec(ts, p) == done);
    } else {
        let la1 = Ok::<(Exp, int), ErrorView>((la, p + 1));
        assert(multiplicative_rest(ts, la, p + 1) == la1);
        assert(multiplicative_spec(ts, p) == la1);
        assert(multiplicative_spec(ts, p + 2) == Ok::<(Exp, int), ErrorView>((lb, p + 3)));
        assert(additive_rest(ts, la, p + 1) == done);
    }
}

/// Both operands of `<` are whole sums: `a < b ∘ c` parses as `a < (b ∘ c)`
/// and `a ∘ b < c` as `(a ∘ b) < c`, for each arithmetic operator `∘`.
pub proof fn lemma_comparison_operands_are_sums(a: Seq<char>, o: TokenView, b: Seq<char>, c: Seq<char>)
    requires
        fits_literal(a),
        fits_literal(b),
        fits_literal(c),
        additive_op(o) is Some || o is Star,
    ensures
        parse_spec(seq![TokenView::Integer(a), TokenView::Less, TokenView::Integer(b), o, TokenView::Integer(c)])
            == Ok::<Exp, ErrorView>(
            Exp::Binary(
                Box::new(literal(a)),
                Prim::Lt,
                Box::new(Exp::Binary(Box::new(literal(b)), arith_op(o), Box::new(literal(c)))),
            ),
        ),
        parse_spec(seq![TokenView::Integer(a), o, TokenView::Integer(b), TokenView::Less, TokenView::Integer(c)])
            == Ok::<Exp, ErrorView>(
            Exp::Binary(
                Box::new(Exp::Binary(Box::new(literal(a)), arith_op(o), Box::new(literal(b)))),
                Prim::Lt,
                Box::new(literal(c)),
            ),
        ),
{
    let la = literal(a);
    let lb = literal(b);
    let lc = literal(c);
    let ts = seq![TokenView::Integer(a), TokenView::Less, TokenView::Integer(b), o, TokenView::Integer(c)];
    lemma_sum_literal(ts, 0);
    lemma_sum_of_two(ts, 2);
    let right = Exp::Binary(Box::new(lb), arith_op(o), Box::new(lc));
    let whole = Exp::Binary(Box::new(la), Prim::Lt, Box::new(right));
    assert(formula_spec(ts, 0) == Ok::<(Exp, int), ErrorView>((whole, 5)));
    assert(expr_spec(ts, 0) == Ok::<(Exp, int), ErrorView>((whole, 5)));
    let us = seq![TokenView::Integer(a), o, TokenView::Integer(b), TokenView::Less, TokenView::Integer(c)];
    lemma_sum_of_two(us, 0);
    lemma_sum_literal(us, 4);
    let left = Exp::Binary(Box::new(la), arith_op(o), Box::new(lb));
    let whole2 = Exp::Binary(Box::new(left), Prim::Lt, Box::new(lc));
    assert(formula_spec(us, 0) == Ok::<(Exp, int), ErrorView>((whole2, 5)));
    assert(expr_spec(us, 0) == Ok::<(Exp, int), ErrorView>((whole2, 5)));
}

/// Products chain and associate to the left: `a * b * c` parses as `(a * b) * c`.
pub proof fn lemma_products_associate_left(a: Seq<char>, b: Seq<char>, c: Seq<char>)
    requires
        fits_literal(a),
        fits_literal(b),
        fits_literal(c),
    ensures
        parse_spec(seq![TokenView::Integer(a), TokenView::Star, TokenView::Integer(b), TokenView::Star, TokenView::Integer(c)])
            == Ok::<Exp, ErrorView>(
            Exp::Binary(
                Box::new(Exp::Binary(Box::new(literal(a)), Prim::Mul, Box::new(literal(b)))),
                Prim::Mul,
                Box::new(literal(c)),
            ),
        ),
{
    let ts = seq![TokenView::Integer(a), TokenView::Star, TokenView::Integer(b), TokenView::Star, TokenView::Integer(c)];
    let la = literal(a);
    let lb = literal(b);
    let lc = literal(c);
    let ab = Exp::Binary(Box::new(la), Prim::Mul, Box::new(lb));
    let abc = Exp::Binary(Box::new(ab), Prim::Mul, Box::new(lc));
    let done = Ok::<(Exp, int), ErrorView>((abc, 5));
    lemma_factor_literal(ts, 0);
    lemma_factor_literal(ts, 2);
    lemma_factor_literal(ts, 4);
    assert(multiplicative_rest(ts, abc, 5) == done);
    assert(multiplicative_rest(ts, ab, 3) == done);
    assert(multiplicative_rest(ts, la, 1) == done);
    assert(multiplicative_spec(ts, 0) == done);
    assert(additive_rest(ts, abc, 5) == done);
    assert(additive_spec(ts, 0) == done);
    assert(formula_spec(ts, 0) == done);
    assert(expr_spec(ts, 0) == done);
}

/// A whole expression followed by a stray `)` is a syntax error: the `)` is
/// a token left over.
pub proof fn lemma_stray_right_parenthesis(e: Exp)
    ensures
        parse_spec(token_form(e) + seq![TokenView::RightParen]) == Err::<Exp, ErrorView>(
            ErrorView::Parse("Unexpected token"@),
        ),
{
    let form = token_form(e);
    let ts = form + seq![TokenView::RightParen];
    lemma_form_nonempty(e);
    assert(ts.subrange(0, form.len() as int) =~= form);
    assert(ts[form.len() as int] == TokenView::RightParen);
    lemma_form_parses(ts, 0, e);
    reveal(parses_to);
}

/// An opening parenthesis that is never closed is a syntax error.
pub proof fn lemma_unclosed_parenthesis(e: Exp)
    ensures
        parse_spec(seq![TokenView::LeftParen] + token_form(e)) == Err::<Exp, ErrorView>(
            ErrorView::Parse("Expected ')'"@),
        ),
{
    let form = token_form(e);
    let ts = seq![TokenView::LeftParen] + form;
    let err = Err::<(Exp, int), ErrorView>(ErrorView::Parse("Expected ')'"@));
    lemma_form_nonempty(e);
    assert(ts.subrange(1, 1 + form.len() as int) =~= form);
    lemma_form_parses(ts, 1, e);
    reveal(parses_to);
    assert(ts[0] == TokenView::LeftParen);
    assert(primary_spec(ts, 0) == err);
    assert(unary_spec(ts, 0) == err);
    assert(multiplicative_spec(ts, 0) == err);
    assert(additive_spec(ts, 0) == err);
    assert(formula_spec(ts, 0) == err);
    assert(expr_spec(ts, 0) == err);
}

/// A conditional without `else` is a syntax error that names the missing `else`.
pub proof fn lemma_conditional_needs_else(c: Exp, t: Exp)
    ensures
        parse_spec(seq![TokenView::If] + token_form(c) + seq![TokenView::Then] + token_form(t))
            == Err::<Exp, ErrorView>(
            ErrorView::Parse("Expected "@ + "Else"@ + ", but found end of input"@),
        ),
{
    let cf = token_form(c);
    let tf = token_form(t);
    let ts = seq![TokenView::If] + cf + seq![TokenView::Then] + tf;
    let cn = cf.len() as int;
    let tn = tf.len() as int;
    lemma_form_nonempty(c);
    lemma_form_nonempty(t);
    assert(ts.len() == cn + tn + 2);
    assert(ts.subrange(1, 1 + cn) =~= cf);
    assert(ts.subrange(2 + cn, 2 + cn + tn) =~= tf);
    assert(ts[0] == TokenView::If);
    assert(ts[1 + cn] == TokenView::Then);
    lemma_form_parses(ts, 1, c);
    lemma_form_parses(ts, 2 + cn, t);
    reveal(parses_to);
    assert(eat_spec(ts, 1 + cn, TokenView::Then) == Ok::<int, ErrorView>(2 + cn));
    assert(expr_spec(ts, 0) == Err::<(Exp, int), ErrorView>(
        ErrorView::Parse("Expected "@ + "Else"@ + ", but found end of input"@),
    ));
}


/// The tokens of a chain `a o1 b1 o2 b2 ...` of integer literals joined by
/// operator tokens.
pub open spec fn chain_tokens(a: Seq<char>, rest: Seq<(TokenView, Seq<char>)>) -> Seq<TokenView>
    decreases rest.len(),
{
    if rest.len() == 0 {
        seq![TokenView::Integer(a)]
    } else {
        chain_tokens(a, rest.drop_last()) + seq![
            rest.last().0,
            TokenView::Integer(rest.last().1),
        ]
    }
}

/// The tree of a chain read from the left: `((a o1 b1) o2 b2) ...`.
pub open spec fn chain_tree(a: Seq<char>, rest: Seq<(TokenView, Seq<char>)>) -> Exp
    decreases rest.len(),
{
    if rest.len() == 0 {
        literal(a)
    } else {
        Exp::Binary(
            Box::new(chain_tree(a, rest.drop_last())),
            arith_op(rest.last().0),
            Box::new(literal(rest.last().1)),
        )
    }
}

/// Where the tokens of a chain lie.
proof fn lemma_chain_layout(a: Seq<char>, rest: Seq<(TokenView, Seq<char>)>)
    ensures
        chain_tokens(a, rest).len() == 2 * rest.len() + 1,
        chain_tokens(a, rest)[0] == TokenView::Integer(a),
        forall|k: int|
            0 <= k < rest.len() ==> chain_tokens(a, rest)[2 * k + 1] == (#[trigger] rest[k]).0
                && chain_tokens(a, rest)[2 * k + 2] == TokenView::Integer(rest[k].1),
    decreases rest.len(),
{
    if rest.len() > 0 {
        let init = rest.drop_last();
        lemma_chain_layout(a, init);
        assert forall|k: int| 0 <= k < rest.len() implies chain_tokens(a, rest)[2 * k + 1] == (
        #[trigger] rest[k]).0 && chain_tokens(a, rest)[2 * k + 2] == TokenView::Integer(
            rest[k].1,
        ) by {
            if k < init.len() {
                assert(init[k] == rest[k]);
            }
        }
    }
}

/// Whether every operator of a chain is `+` or `-` and every literal fits.
pub open spec fn sum_chain(a: Seq<char>, rest: Seq<(TokenView, Seq<char>)>) -> bool {
    &&& fits_literal(a)
    &&& forall|k: int|
        0 <= k < rest.len() ==> additive_op((#[trigger] rest[k]).0) is Some && fits_literal(
            rest[k].1,
        )
}

/// Whether every operator of a chain is `*` and every literal fits.
pub open spec fn product_chain(a: Seq<char>, rest: Seq<(TokenView, Seq<char>)>) -> bool {
    &&& fits_literal(a)
    &&& forall|k: int|
        0 <= k < rest.len() ==> (#[trigger] rest[k]).0 is Star && fits_literal(rest[k].1)
}

/// The rest of a sum chain from its `k`-th operator on completes the tree.
#[verifier::spinoff_prover]
proof fn lemma_sum_chain_rest(a: Seq<char>, rest: Seq<(TokenView, Seq<char>)>, k: int)
    requires
        sum_chain(a, rest),
        0 <= k <= rest.len(),
    ensures
        additive_rest(chain_tokens(a, rest), chain_tree(a, rest.take(k)), 2 * k + 1) == Ok::<
            (Exp, int),
            ErrorView,
        >((chain_tree(a, rest), 2 * rest.len() as int + 1)),
    decreases rest.len() - k,
{
    let ts = chain_tokens(a, rest);
    lemma_chain_layout(a, rest);
    if k == rest.len() {
        assert(rest.take(k) =~= rest);
    } else {
        let acc = chain_tree(a, rest.take(k));
        let (o, b) = rest[k];
        assert(rest.take(k + 1).drop_last() =~= rest.take(k));
        assert(rest.take(k + 1).last() == rest[k]);
        assert(chain_tree(a, rest.take(k + 1)) == Exp::Binary(
            Box::new(acc),
            arith_op(o),
            Box::new(literal(b)),
        ));
        if k + 1 < rest.len() {
            assert(ts[2 * (k + 1) + 1] == rest[k + 1].0);
        }
        lemma_term_literal(ts, 2 * k + 2);
        lemma_sum_chain_rest(a, rest, k + 1);
        assert(arith_op(o) == additive_op(o)->Some_0);
    }
}

/// The rest of a product chain from its `k`-th operator on completes the tree.
#[verifier::spinoff_prover]
proof fn lemma_product_chain_rest(a: Seq<char>, rest: Seq<(TokenView, Seq<char>)>, k: int)
    requires
        product_chain(a, rest),
        0 <= k <= rest.len(),
    ensures
        multiplicative_rest(chain_tokens(a, rest), chain_tree(a, rest.take(k)), 2 * k + 1)
            == Ok::<(Exp, int), ErrorView>((chain_tree(a, rest), 2 * rest.len() as int + 1)),
    decreases rest.len() - k,
{
    let ts = chain_tokens(a, rest);
    lemma_chain_layout(a, rest);
    if k == rest.len() {
        assert(rest.take(k) =~= rest);
    } else {
        let acc = chain_tree(a, rest.take(k));
        let (o, b) = rest[k];
        assert(rest.take(k + 1).drop_last() =~= rest.take(k));
        assert(rest.take(k + 1).last() == rest[k]);
        assert(chain_tree(a, rest.take(k + 1)) == Exp::Binary(
            Box::new(acc),
            Prim::Mul,
            Box::new(literal(b)),
        ));
        lemma_factor_literal(ts, 2 * k + 2);
        lemma_product_chain_rest(a, rest, k + 1);
    }
}

/// Sums of any length associate to the left: `a o1 b1 o2 b2 ... on bn` with
/// each `oi` either `+` or `-` parses as `((a o1 b1) o2 b2) ... on bn`.
pub proof fn lemma_sum_chains_associate_left(a: Seq<char>, rest: Seq<(TokenView, Seq<char>)>)
    requires
        sum_chain(a, rest),
    ensures
        parse_spec(chain_tokens(a, rest)) == Ok::<Exp, ErrorView>(chain_tree(a, rest)),
{
    let ts = chain_tokens(a, rest);
    let n = rest.len() as int;
    lemma_chain_layout(a, rest);
    if n > 0 {
        assert(ts[1] == rest[0].0);
    }
    lemma_term_literal(ts, 0);
    assert(rest.take(0) =~= Seq::<(TokenView, Seq<char>)>::empty());
    lemma_sum_chain_rest(a, rest, 0);
    let done = Ok::<(Exp, int), ErrorView>((chain_tree(a, rest), 2 * n + 1));
    assert(additive_spec(ts, 0) == done);
    assert(formula_spec(ts, 0) == done);
    assert(expr_spec(ts, 0) == done);
}

/// Products of any length associate to the left: `a * b1 * b2 ... * bn`
/// parses as `((a * b1) * b2) ... * bn`.
pub proof fn lemma_product_chains_associate_left(a: Seq<char>, rest: Seq<(TokenView, Seq<char>)>)
    requires
        product_chain(a, rest),
    ensures
        parse_spec(chain_tokens(a, rest)) == Ok::<Exp, ErrorView>(chain_tree(a, rest)),
{
    let ts = chain_tokens(a, rest);
    let n = rest.len() as int;
    lemma_chain_layout(a, rest);
    lemma_factor_literal(ts, 0);
    assert(rest.take(0) =~= Seq::<(TokenView, Seq<char>)>::empty());
    lemma_product_chain_rest(a, rest, 0);
    let done = Ok::<(Exp, int), ErrorView>((chain_tree(a, rest), 2 * n + 1));
    assert(multiplicative_spec(ts, 0) == done);
    assert(additive_rest(ts, chain_tree(a, rest), 2 * n + 1) == done);
    assert(additive_spec(ts, 0) == done);
    assert(formula_spec(ts, 0) == done);
    assert(expr_spec(ts, 0) == done);
}


/// An expression cannot start with an operator other than `-`, nor with `)`,
/// `then` or `else`: such input is a syntax error, whatever follows.
pub proof fn lemma_bad_first_token(t: TokenView, rest: Seq<TokenView>)
    requires
        t is Plus || t is Star || t is Less || t is RightParen || t is Then || t is Else,
    ensures
        parse_spec(seq![t] + rest) == Err::<Exp, ErrorView>(ErrorView::Parse("Unexpected token"@)),
{
    let ts = seq![t] + rest;
    let err = Err::<(Exp, int), ErrorView>(ErrorView::Parse("Unexpected token"@));
    assert(ts[0] == t);
    assert(primary_spec(ts, 0) == err);
    assert(unary_spec(ts, 0) == err);
    assert(multiplicative_spec(ts, 0) == err);
    assert(additive_spec(ts, 0) == err);
    assert(formula_spec(ts, 0) == err);
    assert(expr_spec(ts, 0) == err);
}

/// A condition followed by `else` instead of `then` is a syntax error that
/// names both keywords.
pub proof fn lemma_condition_needs_then(c: Exp, rest: Seq<TokenView>)
    ensures
        parse_spec(seq![TokenView::If] + token_form(c) + seq![TokenView::Else] + rest) == Err::<
            Exp,
            ErrorView,
        >(ErrorView::Parse("Expected "@ + "Then"@ + ", but found "@ + "Else"@)),
{
    let cf = token_form(c);
    let ts = seq![TokenView::If] + cf + seq![TokenView::Else] + rest;
    let cn = cf.len() as int;
    lemma_form_nonempty(c);
    assert(ts.subrange(1, 1 + cn) =~= cf);
    assert(ts[0] == TokenView::If);
    assert(ts[1 + cn] == TokenView::Else);
    lemma_form_parses(ts, 1, c);
    reveal(parses_to);
    assert(eat_spec(ts, 1 + cn, TokenView::Then) == Err::<int, ErrorView>(
        ErrorView::Parse("Expected "@ + "Then"@ + ", but found "@ + "Else"@),
    ));
    assert(expr_spec(ts, 0) == Err::<(Exp, int), ErrorView>(
        ErrorView::Parse("Expected "@ + "Then"@ + ", but found "@ + "Else"@),
    ));
}

} // verus!
