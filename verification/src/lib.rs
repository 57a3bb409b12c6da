//! A front end for a small, untyped expression language: it lowers
//! expression trees to a stream of operations for a code generator that
//! builds functions in SSA form, and proves what the lowered code does.
//!
//! The data:
//! - [`ast`]: the expression tree.
//! - [`ir`]: the operations that a code generator is asked for, and the
//!   handles of values, blocks and variables.
//! - [`literal`]: integer literals.
//! - [`scope`]: nested scopes of names.
//!
//! The lowering:
//! - [`lower`]: what lowering is, as a function on mathematical values.
//! - [`translate`]: the session that lowers, and whole programs.
//!
//! What the lowered code does:
//! - [`machine`]: a reference machine that runs a stream of operations.
//! - [`meaning`]: what expressions mean, told of names and words alone.
//!
//! What is proved of lowering:
//! - [`laws`]: programs of literals; repeatability.
//! - [`unbound`]: a read of a name that is assigned nowhere stops lowering.
//! - [`blocks`]: a block of one expression is lowered as the expression.
//! - [`handles`]: variable handles stay unique.
//! - [`sealing`]: every block is sealed after the transfers to it.
//! - [`declared`]: every bound variable is declared.
//! - [`execution`]: the machine runs lowered code as the tree is walked.
//! - [`correct`]: a program returns what its expressions mean.
//! - [`units`]: a call of a published function returns what it means.

pub mod ast;
pub mod blocks;
pub mod correct;
pub mod declared;
pub mod execution;
pub mod handles;
pub mod ir;
pub mod laws;
pub mod literal;
pub mod lower;
pub mod machine;
pub mod meaning;
pub mod scope;
pub mod sealing;
pub mod translate;
pub mod unbound;
pub mod units;

pub use crate::ast::Expr;
