//! A compiler from a small arithmetic language to arithmetic circuits and
//! rank-1 constraint systems, with a witness calculator.
//!
//! The pipeline runs strictly forward: an abstract syntax tree is lowered to
//! single-static-assignment form, optimized by constant folding and dead-code
//! elimination, synthesized into a circuit of numbered wires and gates, and
//! from there lowered to constraints or executed against concrete inputs.

pub mod ast;
pub mod circuit;
pub mod lexer;
pub mod optimizer;
pub mod parser;
pub mod ssa;
pub mod token;
pub mod witness;

pub use ast::Expr;
pub use ast::Program;
pub use ast::Stmt;
