//! The abstract syntax tree that the front end hands to the SSA builder.

use vstd::prelude::*;

verus! {

/// An ordered list of statements; order is the only control-flow structure.
#[derive(Debug)]
pub struct Program {
    pub statements: Vec<Stmt>,
}

/// One statement of the source language.
#[derive(Debug)]
pub enum Stmt {
    /// Declares a public circuit input; no instruction is emitted for it.
    PublicInput { name: String },
    /// Declares a private circuit input; no instruction is emitted for it.
    PrivateInput { name: String },
    /// Binds a name to a literal constant.
    ConstDecl { name: String, value: i32 },
    /// Binds a name to the value of an expression.
    Let { name: String, expr: Expr },
    /// Designates the program's result; every program must have one.
    Return(Expr),
}

/// An arithmetic expression over variables and integer literals.
#[derive(Debug)]
pub enum Expr {
    Var(String),
    Literal(i32),
    Add(Box<Expr>, Box<Expr>),
    Mul(Box<Expr>, Box<Expr>),
}

/// Whether the statement list contains a return statement.
pub open spec fn has_return(stmts: Seq<Stmt>) -> bool {
    exists|i: int| 0 <= i < stmts.len() && stmts[i] is Return
}

} // verus!
