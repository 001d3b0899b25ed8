//! An arithmetic expression evaluator: a scanner that turns a line of text
//! into tokens, a shunting-yard pass that orders them in postfix, and a
//! reduction of the postfix sequence to one value.
//!
//! Integer arithmetic is carried out here and saturates at the bounds of
//! `i32`. Floating-point arithmetic is not: a value that involves a decimal
//! literal is returned as the term that computes it, for the caller to
//! evaluate in double precision.
//!
//! Each module states what its functions compute as functions on sequences
//! of characters and tokens, and proves what holds of them in general: that
//! a number written out scans as itself, that a line which writes an
//! expression evaluates to the value of the expression, that a conversion
//! fails exactly when the parentheses do not nest, that spaces between
//! tokens do not matter.

pub mod arith;
pub mod error;
pub mod eval;
pub mod scanner;
pub mod spacing;
pub mod text;
pub mod token;
pub mod tree;
pub mod written;
pub mod yard;

pub use arith::{operation_result, pow, Value};
pub use error::Error;
pub use eval::{evaluate, run_stack, Outcome};
pub use scanner::TokenStream;
pub use text::{decimal, parse_int};
pub use token::{Span, Token};
pub use tree::Expr;
pub use yard::ShuntingYard;
