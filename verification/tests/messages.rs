//! The messages that each stage gives, and the text of each kind of error.
use tiny_exp::ast::{Exp, Prim, Value};
use tiny_exp::error::Error;
use tiny_exp::eval::eval;
use tiny_exp::lexer::{Token, lex};
use tiny_exp::parser::parse;

fn run(source: &str) -> Result<Value, Error> {
    eval(&parse(&lex(source)?)?)
}

#[test]
fn error_text_of_each_kind() {
    assert_eq!(Error::Lex("x".to_string()).message(), "字句解析エラー: x");
    assert_eq!(Error::Parse("y".to_string()).message(), "構文エラー: y");
    assert_eq!(Error::Type("z".to_string()).message(), "型エラー: z");
    assert_eq!(Error::Overflow.message(), "整数の範囲を超えました");
}

#[test]
fn lexer_messages() {
    assert_eq!(lex("foo"), Err(Error::Lex("未知の単語: foo".to_string())));
    assert_eq!(lex("1 + @"), Err(Error::Lex("未知の文字: @".to_string())));
    assert_eq!(lex("trueあ"), Err(Error::Lex("未知の単語: trueあ".to_string())));
    assert_eq!(lex("_x1 @"), Err(Error::Lex("未知の単語: _x1".to_string())));
    assert_eq!(lex("あ"), Err(Error::Lex("未知の文字: あ".to_string())));
    assert_eq!(lex("@ foo"), Err(Error::Lex("未知の文字: @".to_string())));
}

#[test]
fn lexer_unicode_whitespace_and_digit_runs() {
    assert_eq!(
        lex("\u{3000}12\u{a0}3\n"),
        Ok(vec![Token::Integer("12".to_string()), Token::Integer("3".to_string())])
    );
    assert_eq!(lex("007"), Ok(vec![Token::Integer("007".to_string())]));
    assert_eq!(lex("iffy"), Err(Error::Lex("未知の単語: iffy".to_string())));
}

#[test]
fn parser_messages() {
    assert_eq!(
        run("if true then 1"),
        Err(Error::Parse("Expected Else, but found end of input".to_string()))
    );
    assert_eq!(
        run("if 1 2"),
        Err(Error::Parse("Expected Then, but found Integer(\"2\")".to_string()))
    );
    assert_eq!(
        run("if true else 2"),
        Err(Error::Parse("Expected Then, but found Else".to_string()))
    );
    assert_eq!(
        run("if true then 1 then"),
        Err(Error::Parse("Expected Else, but found Then".to_string()))
    );
    assert_eq!(
        run("if false then 1 true"),
        Err(Error::Parse("Expected Else, but found Bool(true)".to_string()))
    );
    assert_eq!(run(""), Err(Error::Parse("Empty input".to_string())));
    assert_eq!(run("1 2"), Err(Error::Parse("Unexpected token".to_string())));
    assert_eq!(run("(1 + 2"), Err(Error::Parse("Expected ')'".to_string())));
    assert_eq!(run("-(1)"), Err(Error::Parse("Expected integer after '-'".to_string())));
    assert_eq!(run("if"), Err(Error::Parse("missing token".to_string())));
    assert_eq!(run("*"), Err(Error::Parse("Unexpected token".to_string())));
}

#[test]
fn parser_integer_messages() {
    assert_eq!(
        parse(&[Token::Integer("1a".into())]),
        Err(Error::Parse("Invalid integer: 1a".to_string()))
    );
    assert_eq!(
        parse(&[Token::Integer("".into())]),
        Err(Error::Parse("Invalid integer: ".to_string()))
    );
    assert_eq!(
        parse(&[Token::Minus, Token::Integer("٣".into())]),
        Err(Error::Parse("Invalid integer: ٣".to_string()))
    );
    assert_eq!(
        parse(&[Token::Integer("18446744073709551616".into())]),
        Err(Error::Overflow)
    );
}

#[test]
fn parser_mismatch_shows_debug_form_of_digits() {
    assert_eq!(
        parse(&[Token::If, Token::Bool(true), Token::Integer("a\"b".into())]),
        Err(Error::Parse("Expected Then, but found Integer(\"a\\\"b\")".to_string()))
    );
}

#[test]
fn evaluator_messages() {
    assert_eq!(run("true + 1"), Err(Error::Type("not a number".to_string())));
    assert_eq!(run("1 < false"), Err(Error::Type("not a number".to_string())));
    assert_eq!(run("if 1 then 2 else 3"), Err(Error::Type("not a boolean value".to_string())));
    let tree = Exp::Binary(
        Box::new(Exp::Literal(Value::Bool(true))),
        Prim::Mul,
        Box::new(Exp::Literal(Value::Int(2))),
    );
    assert_eq!(eval(&tree), Err(Error::Type("not a number".to_string())));
}

#[test]
fn first_error_wins() {
    assert_eq!(run("true + (9223372036854775807 + 1)"), Err(Error::Overflow));
    assert_eq!(run("true + (false < 1)"), Err(Error::Type("not a number".to_string())));
    assert_eq!(run("(9223372036854775807 + 1) + true"), Err(Error::Overflow));
    assert_eq!(run("(1 < 2) + (9223372036854775807 * 2)"), Err(Error::Overflow));
}

#[test]
fn tree_clone_is_equal() {
    let tree = parse(&lex("if 1 < 2 then -3 * (4 + 5) else false").unwrap()).unwrap();
    assert_eq!(tree.clone(), tree);
}
