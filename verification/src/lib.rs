//! A front end and a tree-walking evaluator for the Lox scripting language.
//!
//! Source text goes through four phases:
//!
//! 1. [`scanner`] turns characters into tokens;
//! 2. [`parser`] turns tokens into a syntax tree, held in the flat arrays of
//!    an [`ast::Program`];
//! 3. [`resolver`] finds, for each use of a local variable, how many scopes
//!    lie between the use and the declaration;
//! 4. [`interpreter`] runs the tree.
//!
//! [`front_end::compile`] does the first three in one call.
//!
//! What each phase computes is defined by a mathematical function of its
//! input, and the phase is proved to compute that function: [`scanner::scan`],
//! [`parser::program_spec`], [`resolver::resolve_program`] and, for the
//! interpreter, the abstract machine of [`machine`].
//!
//! The phases are also proved to fit together. The parser builds only
//! well-formed trees ([`ast::ProgramView::well_formed`],
//! [`ast::ProgramView::is_tree`]). What the resolver records of such a tree
//! is true of static scoping ([`resolution`]). And the machine keeps every
//! pending piece of a loaded program in agreement with the scopes it will run
//! in ([`agreement`]), so that the read of a resolved variable finds the
//! variable exactly where the resolver said.
//!
//! The library does no input or output and no floating-point arithmetic. A
//! number is held as the 64 bits of its IEEE-754 representation (see
//! [`number`]), and the interpreter hands control to its embedder whenever a
//! program prints, a numeral has to be read, or two numbers have to be
//! added, subtracted, multiplied or divided.

pub mod agreement;
pub mod ast;
pub mod environment;
pub mod error;
pub mod expr;
pub mod front_end;
pub mod interpreter;
pub mod lox_object;
pub mod machine;
pub mod number;
pub mod parser;
pub mod resolution;
pub mod resolver;
pub mod scanner;
pub mod scoping;
pub mod stmt;
pub mod token;
