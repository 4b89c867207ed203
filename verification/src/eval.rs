//! The evaluator.
use vstd::prelude::*;
use crate::ast::{Exp, Prim, Value};
use crate::error::{Error, ErrorView, outcome};

verus! {

/// The result of an integer operation: the value where it fits in `i64`,
/// an overflow otherwise.
pub open spec fn int_result(x: int) -> Result<Value, ErrorView> {
    if i64::MIN <= x <= i64::MAX {
        Ok(Value::Int(x as i64))
    } else {
        Err(ErrorView::Overflow)
    }
}

/// What a primitive gives on two values: integers only, checked for range.
pub open spec fn apply_prim(op: Prim, v1: Value, v2: Value) -> Result<Value, ErrorView> {
    match (v1, v2) {
        (Value::Int(a), Value::Int(b)) => match op {
            Prim::Add => int_result(a + b),
            Prim::Sub => int_result(a - b),
            Prim::Mul => int_result(a * b),
            Prim::Lt => Ok(Value::Bool(a < b)),
        },
        _ => Err(ErrorView::Type("not a number"@)),
    }
}

/// The meaning of an expression. Operands are evaluated left to right and the
/// first error wins; a conditional evaluates its condition and then only the
/// branch that the condition selects.
pub open spec fn eval_spec(e: Exp) -> Result<Value, ErrorView>
    decreases e,
{
    match e {
        Exp::Literal(v) => Ok(v),
        Exp::Binary(l, op, r) => match eval_spec(*l) {
            Err(x) => Err(x),
            Ok(v1) => match eval_spec(*r) {
                Err(x) => Err(x),
                Ok(v2) => apply_prim(op, v1, v2),
            },
        },
        Exp::If(c, t, f) => match eval_spec(*c) {
            Err(x) => Err(x),
            Ok(Value::Bool(b)) => if b {
                eval_spec(*t)
            } else {
                eval_spec(*f)
            },
            Ok(_) => Err(ErrorView::Type("not a boolean value"@)),
        },
    }
}

/// Evaluates an expression to an integer or a boolean, checking integer range
/// and evaluating only the selected branch of a conditional.
pub fn eval(expr: &Exp) -> (r: Result<Value, Error>)
    ensures
        outcome(r) == eval_spec(*expr),
    decreases expr,
{
    match expr {
        Exp::Literal(Value::Bool(b)) => Ok(Value::Bool(*b)),
        Exp::Literal(Value::Int(i)) => Ok(Value::Int(*i)),
        Exp::Binary(e1, op, e2) => {
            let v1 = match eval(e1) {
                Ok(v) => v,
                Err(e) => return Err(e),
            };
            let v2 = match eval(e2) {
                Ok(v) => v,
                Err(e) => return Err(e),
            };
            match (v1, v2) {
                (Value::Int(i1), Value::Int(i2)) => match op {
                    Prim::Add => match i1.checked_add(i2) {
                        Some(v) => Ok(Value::Int(v)),
                        None => Err(Error::Overflow),
                    },
                    Prim::Sub => match i1.checked_sub(i2) {
                        Some(v) => Ok(Value::Int(v)),
                        None => Err(Error::Overflow),
                    },
                    Prim::Mul => match i1.checked_mul(i2) {
                        Some(v) => Ok(Value::Int(v)),
                        None => Err(Error::Overflow),
                    },
                    Prim::Lt => Ok(Value::Bool(i1 < i2)),
                },
                _ => Err(Error::Type("not a number".to_owned())),
            }
        },
        Exp::If(cond, then_clause, else_clause) => {
            let v = match eval(cond) {
                Ok(v) => v,
                Err(e) => return Err(e),
            };
            match v {
                Value::Bool(b) => {
                    if b {
                        eval(then_clause)
                    } else {
                        eval(else_clause)
                    }
                },
                _ => Err(Error::Type("not a boolean value".to_owned())),
            }
        },
    }
}


/// A conditional whose condition evaluates to a boolean has the value of the
/// branch it selects, whatever the other branch is: the other branch is
/// never evaluated, so its errors do not matter.
pub proof fn lemma_only_selected_branch_evaluated(c: Exp, t: Exp, f: Exp, b: bool)
    requires
        eval_spec(c) == Ok::<Value, ErrorView>(Value::Bool(b)),
    ensures
        eval_spec(Exp::If(Box::new(c), Box::new(t), Box::new(f))) == (if b {
            eval_spec(t)
        } else {
            eval_spec(f)
        }),
{
}

/// A condition that evaluates to an integer is a type error.
pub proof fn lemma_condition_must_be_boolean(c: Exp, t: Exp, f: Exp, i: i64)
    requires
        eval_spec(c) == Ok::<Value, ErrorView>(Value::Int(i)),
    ensures
        eval_spec(Exp::If(Box::new(c), Box::new(t), Box::new(f))) == Err::<Value, ErrorView>(
            ErrorView::Type("not a boolean value"@),
        ),
{
}

/// Arithmetic and comparison take integers only: when both operands evaluate
/// and one of them is a boolean, the operation is a type error.
pub proof fn lemma_operands_must_be_integers(l: Exp, op: Prim, r: Exp, v1: Value, v2: Value)
    requires
        eval_spec(l) == Ok::<Value, ErrorView>(v1),
        eval_spec(r) == Ok::<Value, ErrorView>(v2),
        v1 is Bool || v2 is Bool,
    ensures
        eval_spec(Exp::Binary(Box::new(l), op, Box::new(r))) == Err::<Value, ErrorView>(
            ErrorView::Type("not a number"@),
        ),
{
}

/// On integers, `+ - *` give the mathematical result when it lies in the
/// range of `i64` and an overflow error otherwise, and `<` compares.
pub proof fn lemma_integer_operations(l: Exp, op: Prim, r: Exp, a: i64, b: i64)
    requires
        eval_spec(l) == Ok::<Value, ErrorView>(Value::Int(a)),
        eval_spec(r) == Ok::<Value, ErrorView>(Value::Int(b)),
    ensures
        ({
            let exact: int = match op {
                Prim::Add => a + b,
                Prim::Sub => a - b,
                Prim::Mul => a * b,
                Prim::Lt => 0,
            };
            let result = eval_spec(Exp::Binary(Box::new(l), op, Box::new(r)));
            &&& op is Lt ==> result == Ok::<Value, ErrorView>(Value::Bool(a < b))
            &&& !(op is Lt) && i64::MIN <= exact <= i64::MAX ==> result == Ok::<Value, ErrorView>(
                Value::Int(exact as i64),
            )
            &&& !(op is Lt) && !(i64::MIN <= exact <= i64::MAX) ==> result == Err::<
                Value,
                ErrorView,
            >(ErrorView::Overflow)
        }),
{
}


/// A literal evaluates to its own value.
pub proof fn lemma_literal_evaluates_to_itself(v: Value)
    ensures
        eval_spec(Exp::Literal(v)) == Ok::<Value, ErrorView>(v),
{
}

/// An operation on two literal integers gives the exact result when it fits
/// in `i64`, and an overflow otherwise; `<` compares.
pub proof fn lemma_literal_arithmetic(a: i64, op: Prim, b: i64)
    ensures
        ({
            let e = Exp::Binary(
                Box::new(Exp::Literal(Value::Int(a))),
                op,
                Box::new(Exp::Literal(Value::Int(b))),
            );
            let exact: int = match op {
                Prim::Add => a + b,
                Prim::Sub => a - b,
                Prim::Mul => a * b,
                Prim::Lt => 0,
            };
            &&& op is Lt ==> eval_spec(e) == Ok::<Value, ErrorView>(Value::Bool(a < b))
            &&& !(op is Lt) && i64::MIN <= exact <= i64::MAX ==> eval_spec(e) == Ok::<
                Value,
                ErrorView,
            >(Value::Int(exact as i64))
            &&& !(op is Lt) && !(i64::MIN <= exact <= i64::MAX) ==> eval_spec(e) == Err::<
                Value,
                ErrorView,
            >(ErrorView::Overflow)
        }),
{
    lemma_literal_evaluates_to_itself(Value::Int(a));
    lemma_literal_evaluates_to_itself(Value::Int(b));
    lemma_integer_operations(
        Exp::Literal(Value::Int(a)),
        op,
        Exp::Literal(Value::Int(b)),
        a,
        b,
    );
}

/// Errors propagate out of a conditional's condition: when the condition
/// fails, the conditional fails with the same error, whatever its branches are.
pub proof fn lemma_condition_error_propagates(c: Exp, t: Exp, f: Exp, x: ErrorView)
    requires
        eval_spec(c) == Err::<Value, ErrorView>(x),
    ensures
        eval_spec(Exp::If(Box::new(c), Box::new(t), Box::new(f))) == Err::<Value, ErrorView>(x),
{
}

/// Errors propagate out of operands, the left one first: when the left
/// operand fails, the operation fails with its error; when the left operand
/// succeeds and the right one fails, the operation fails with the right one's error.
pub proof fn lemma_operand_error_propagates(l: Exp, op: Prim, r: Exp, x: ErrorView)
    ensures
        eval_spec(l) == Err::<Value, ErrorView>(x) ==> eval_spec(
            Exp::Binary(Box::new(l), op, Box::new(r)),
        ) == Err::<Value, ErrorView>(x),
        eval_spec(l) is Ok && eval_spec(r) == Err::<Value, ErrorView>(x) ==> eval_spec(
            Exp::Binary(Box::new(l), op, Box::new(r)),
        ) == Err::<Value, ErrorView>(x),
{
}

} // verus!
