//! The whole pipeline, stage by stage.
use tiny_exp::ast::Value;
use tiny_exp::lexer::Token;
use tiny_exp::runner::run_stages;

#[test]
fn runner_returns_successful_stages() {
    let output = run_stages("1 + 2 * 3");
    assert!(!output.tokens.as_ref().unwrap().is_empty());
    assert!(output.ast.is_some());
    assert_eq!(output.value, Some(Value::Int(7)));
    assert!(output.error.is_none());
}

#[test]
fn runner_preserves_completed_stages_on_failure() {
    for (source, tokens_complete, ast_complete, error_prefix) in [
        ("@", false, false, "字句解析エラー:"),
        ("1 +", true, false, "構文エラー:"),
        ("true + 1", true, true, "型エラー:"),
        (
            "9223372036854775807 + 1",
            true,
            true,
            "整数の範囲を超えました",
        ),
    ] {
        let output = run_stages(source);
        assert_eq!(output.tokens.is_some(), tokens_complete, "{source}");
        assert_eq!(output.ast.is_some(), ast_complete, "{source}");
        assert!(output.value.is_none(), "{source}");
        let message = output.error.unwrap().message();
        assert!(message.starts_with(error_prefix), "{source}: {}", message);
    }
}

#[test]
fn runner_keeps_tokens_of_blank_input() {
    let output = run_stages(" \t ");
    assert_eq!(output.tokens, Some(Vec::<Token>::new()));
    assert!(output.ast.is_none());
    assert!(output.value.is_none());
    assert_eq!(output.error.unwrap().message(), "構文エラー: Empty input");
}

#[test]
fn runner_boolean_value() {
    let output = run_stages("if 2 < 1 then true else false");
    assert_eq!(output.value, Some(Value::Bool(false)));
    assert!(output.error.is_none());
}
