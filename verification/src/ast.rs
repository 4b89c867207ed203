//! Values and syntax trees of the language. A syntax tree holds an
//! expression that has not been evaluated yet.
use vstd::prelude::*;

verus! {

/// A value of the language: a 64-bit signed integer or a boolean.
#[derive(Debug, Clone, PartialEq, Eq)]
pub enum Value {
    Int(i64),
    Bool(bool),
}

/// A binary primitive operation.
#[derive(Debug, Clone, Copy, PartialEq, Eq)]
pub enum Prim {
    Add,
    Sub,
    Mul,
    Lt,
}

/// An expression: a literal, a binary operation or a conditional.
#[derive(Debug, PartialEq, Eq)]
pub enum Exp {
    Literal(Value),
    Binary(Box<Exp>, Prim, Box<Exp>),
    If(Box<Exp>, Box<Exp>, Box<Exp>),
}

impl Clone for Exp {
    /// Copies the whole tree.
    fn clone(&self) -> (copy: Self)
        ensures
            copy == *self,
        decreases self,
    {
        match self {
            Exp::Literal(Value::Int(i)) => Exp::Literal(Value::Int(*i)),
            Exp::Literal(Value::Bool(b)) => Exp::Literal(Value::Bool(*b)),
            Exp::Binary(l, op, r) => {
                let l2 = (**l).clone();
                let r2 = (**r).clone();
                Exp::Binary(Box::new(l2), *op, Box::new(r2))
            },
            Exp::If(c, t, f) => {
                let c2 = (**c).clone();
                let t2 = (**t).clone();
                let f2 = (**f).clone();
                Exp::If(Box::new(c2), Box::new(t2), Box::new(f2))
            },
        }
    }
}

} // verus!
