# tiny_exp

A small expression language over 64-bit signed integers and booleans, with
addition, subtraction, multiplication, comparison and conditionals, verified
with Verus.

- `src/lexer.rs`: source text to tokens; `lex_spec` is its model.
- `src/parser.rs`: tokens to a syntax tree by recursive descent; `parse_spec`
  and the grammar functions beside it are its model.
- `src/eval.rs`: a syntax tree to a value, with checked integer arithmetic;
  `eval_spec` is its model.
- `src/runner.rs`: the three stages in a row, keeping what each produced.
- `app/lib.rs`: the WebAssembly entry point, which turns each stage's result
  into display text.

Each public function's contract equates its result with its model; the laws
of the language (precedence, associativity, lazy conditionals, integer range,
and more) are proof functions beside the models.
