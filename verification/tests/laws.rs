//! The laws of the language, each on concrete values.
use tiny_exp::ast::{Exp, Prim, Value};
use tiny_exp::error::Error;
use tiny_exp::eval::eval;
use tiny_exp::lexer::{Token, lex};
use tiny_exp::parser::parse;

fn integer(i: i64) -> Exp {
    Exp::Literal(Value::Int(i))
}

fn tree(source: &str) -> Result<Exp, Error> {
    parse(&lex(source)?)
}

fn run(source: &str) -> Result<Value, Error> {
    eval(&tree(source)?)
}

#[test]
fn law_only_selected_branch_evaluated() {
    assert_eq!(run("if true then 1 else 9223372036854775807 + 1"), Ok(Value::Int(1)));
    assert_eq!(run("if 2 < 1 then true + 1 else 7"), Ok(Value::Int(7)));
    assert_eq!(run("if false then 0 else 9223372036854775807 + 1"), Err(Error::Overflow));
}

#[test]
fn law_condition_must_be_boolean() {
    assert_eq!(run("if 0 then 1 else 2"), Err(Error::Type("not a boolean value".to_string())));
}

#[test]
fn law_operands_must_be_integers() {
    for source in ["true + 1", "1 - false", "true * true", "false < 1"] {
        assert_eq!(run(source), Err(Error::Type("not a number".to_string())), "{source}");
    }
}

#[test]
fn law_integer_operations() {
    assert_eq!(run("7 - 10"), Ok(Value::Int(-3)));
    assert_eq!(run("-4 * 5"), Ok(Value::Int(-20)));
    assert_eq!(run("3 < 3"), Ok(Value::Bool(false)));
    assert_eq!(run("-3 < 3"), Ok(Value::Bool(true)));
    assert_eq!(run("4611686018427387904 * 2"), Err(Error::Overflow));
    assert_eq!(run("4611686018427387903 * 2 + 1"), Ok(Value::Int(i64::MAX)));
}

#[test]
fn law_additive_associates_left() {
    assert_eq!(
        tree("10 - 3 + 2"),
        Ok(Exp::Binary(
            Box::new(Exp::Binary(Box::new(integer(10)), Prim::Sub, Box::new(integer(3)))),
            Prim::Add,
            Box::new(integer(2))
        ))
    );
    assert_eq!(run("10 - 3 - 2"), Ok(Value::Int(5)));
}

#[test]
fn law_product_binds_tighter() {
    assert_eq!(
        tree("1 - 2 * 3"),
        Ok(Exp::Binary(
            Box::new(integer(1)),
            Prim::Sub,
            Box::new(Exp::Binary(Box::new(integer(2)), Prim::Mul, Box::new(integer(3))))
        ))
    );
}

#[test]
fn law_comparisons_do_not_chain() {
    assert_eq!(tree("1 < 2 < 3"), Err(Error::Parse("Unexpected token".to_string())));
    assert_eq!(run("(1 < 2) < 3"), Err(Error::Type("not a number".to_string())));
}

#[test]
fn law_minus_needs_integer() {
    for source in ["-(1)", "--2", "-true", "-", "- if"] {
        assert_eq!(
            tree(source),
            Err(Error::Parse("Expected integer after '-'".to_string())),
            "{source}"
        );
    }
}

#[test]
fn law_conditional_operand_needs_parentheses() {
    for source in [
        "1 + if true then 2 else 3",
        "1 - if true then 2 else 3",
        "1 * if true then 2 else 3",
        "1 < if true then 2 else 3",
    ] {
        assert_eq!(tree(source), Err(Error::Parse("Unexpected token".to_string())), "{source}");
    }
    assert_eq!(run("1 + (if true then 2 else 3)"), Ok(Value::Int(3)));
}

#[test]
fn law_blank_input_is_syntax_error() {
    for source in ["", "   ", "\n\t", "\u{3000}"] {
        assert_eq!(lex(source), Ok(Vec::<Token>::new()), "{source}");
        assert_eq!(tree(source), Err(Error::Parse("Empty input".to_string())), "{source}");
    }
}

#[test]
fn law_leading_zero() {
    assert_eq!(run("0009223372036854775807"), Ok(Value::Int(i64::MAX)));
    assert_eq!(run("-0009223372036854775808"), Ok(Value::Int(i64::MIN)));
    assert_eq!(run("0"), Ok(Value::Int(0)));
}

fn source_of(t: &Token) -> String {
    match t {
        Token::Integer(d) => d.clone(),
        Token::Bool(b) => b.to_string(),
        Token::Plus => "+".to_string(),
        Token::Minus => "-".to_string(),
        Token::Star => "*".to_string(),
        Token::Less => "<".to_string(),
        Token::If => "if".to_string(),
        Token::Then => "then".to_string(),
        Token::Else => "else".to_string(),
        Token::LeftParen => "(".to_string(),
        Token::RightParen => ")".to_string(),
    }
}

#[test]
fn law_spaced_tokens_lex_back() {
    let tokens = vec![
        Token::If,
        Token::Bool(false),
        Token::Then,
        Token::LeftParen,
        Token::Integer("007".to_string()),
        Token::Star,
        Token::Minus,
        Token::Integer("3".to_string()),
        Token::RightParen,
        Token::Else,
        Token::Less,
        Token::Plus,
        Token::Bool(true),
    ];
    let source = tokens.iter().map(source_of).collect::<Vec<_>>().join(" ");
    assert_eq!(lex(&source), Ok(tokens));
}

#[test]
fn law_lex_join() {
    let joined = |a: &str, b: &str| lex(&format!("{a} {b}"));
    assert_eq!(joined("1 +", "2"), Ok(lex("1 + 2").unwrap()));
    assert_eq!(joined("12", "34"), Ok(vec![Token::Integer("12".to_string()), Token::Integer("34".to_string())]));
    assert_eq!(joined("if", "true"), Ok(vec![Token::If, Token::Bool(true)]));
    assert_eq!(joined("foo", "@"), Err(Error::Lex("未知の単語: foo".to_string())));
    assert_eq!(joined("1", "@ foo"), Err(Error::Lex("未知の文字: @".to_string())));
    assert_eq!(joined("", ""), Ok(vec![]));
}

fn token_form(e: &Exp) -> Vec<Token> {
    match e {
        Exp::Literal(Value::Int(n)) if *n >= 0 => vec![Token::Integer(n.to_string())],
        Exp::Literal(Value::Int(n)) => {
            vec![Token::Minus, Token::Integer(n.unsigned_abs().to_string())]
        }
        Exp::Literal(Value::Bool(b)) => vec![Token::Bool(*b)],
        Exp::Binary(l, op, r) => {
            let mut v = vec![Token::LeftParen];
            v.extend(token_form(l));
            v.push(Token::RightParen);
            v.push(match op {
                Prim::Add => Token::Plus,
                Prim::Sub => Token::Minus,
                Prim::Mul => Token::Star,
                Prim::Lt => Token::Less,
            });
            v.push(Token::LeftParen);
            v.extend(token_form(r));
            v.push(Token::RightParen);
            v
        }
        Exp::If(c, t, f) => {
            let mut v = vec![Token::If];
            v.extend(token_form(c));
            v.push(Token::Then);
            v.extend(token_form(t));
            v.push(Token::Else);
            v.extend(token_form(f));
            v
        }
    }
}

#[test]
fn law_token_form_parses_back() {
    let bin = |l: Exp, op: Prim, r: Exp| Exp::Binary(Box::new(l), op, Box::new(r));
    let cond = |c: Exp, t: Exp, f: Exp| Exp::If(Box::new(c), Box::new(t), Box::new(f));
    let trees = vec![
        integer(0),
        integer(i64::MIN),
        integer(i64::MAX),
        bin(integer(1), Prim::Sub, bin(integer(-2), Prim::Mul, integer(3))),
        bin(bin(integer(1), Prim::Lt, integer(2)), Prim::Lt, Exp::Literal(Value::Bool(true))),
        cond(
            cond(Exp::Literal(Value::Bool(true)), integer(1), integer(2)),
            cond(Exp::Literal(Value::Bool(false)), integer(3), integer(4)),
            bin(cond(Exp::Literal(Value::Bool(true)), integer(5), integer(6)), Prim::Add, integer(-7)),
        ),
    ];
    for e in trees {
        assert_eq!(parse(&token_form(&e)), Ok(e.clone()), "{e:?}");
    }
}

#[test]
fn law_parsers_advance() {
    let tokens = lex("1 + 2 * 3 ) 4").unwrap();
    let (_, end) = tiny_exp::parser::parse_expr(&tokens, 0).unwrap();
    assert_eq!(end, 5);
    let (_, end) = tiny_exp::parser::parse_additive(&tokens, 2).unwrap();
    assert_eq!(end, 5);
    let (_, end) = tiny_exp::parser::parse_unary(&tokens, 4).unwrap();
    assert_eq!(end, 5);
    assert_eq!(tiny_exp::parser::parse_primary(&tokens, 5), Err(Error::Parse("Unexpected token".to_string())));
    assert_eq!(tiny_exp::parser::parse_expr(&tokens, 7), Err(Error::Parse("missing token".to_string())));
}
