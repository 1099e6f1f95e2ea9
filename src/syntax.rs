use vstd::prelude::*;

verus! {

/// A top-level statement of a program.
#[derive(Debug)]
pub enum Statement {
    LetBinding { name: String, value: Expr },
}

/// A named lambda-calculus expression.
#[derive(Debug)]
pub enum Expr {
    Var(String),
    Lambda { param: String, body: Box<Expr> },
    App { func: Box<Expr>, arg: Box<Expr> },
    Builtin(String),
}

/// Let-bindings in source order, followed by an optional main expression.
#[derive(Debug)]
pub struct Program {
    pub statements: Vec<Statement>,
    pub main_expr: Option<Expr>,
}

} // verus!
