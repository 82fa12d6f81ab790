//! The K compiler library.
//!
//! K is a small, low-level language inspired by C. The compiler is split into
//! stages that communicate through plain data structures:
//!
//! 1. [`lexer`] turns bytes into source-spanned tokens.
//! 2. [`parser`] turns tokens into an abstract syntax tree, following the
//!    grammar that [`grammar`] states over token sequences; [`reading`]
//!    proves that the grammar reads tokens one way only, and
//!    [`syntax_error`] states where reading stops on tokens it does not
//!    accept and the error reported there.
//! 3. [`sema`] resolves names and enforces K's type rules.
//! 4. [`ir`] lowers checked programs, with their constants folded by
//!    [`fold`], into a typed intermediate representation that [`optimize`]
//!    then simplifies; [`control_flow`] proves that every lowered function's
//!    blocks are numbered, jump only to blocks that exist, and are all
//!    reachable.
//! 5. [`codegen`] emits x86-64 assembly text.
//!
//! [`driver`] strings the stages together for source buffers and [`target`]
//! names the machines the compiler knows about.

pub mod text;
pub mod number;
pub mod target;
pub mod lexer;
pub mod ast;
pub mod grammar;
pub mod syntax_error;
pub mod reading;
pub mod parser;
pub mod sema;
pub mod typing;
pub mod fold;
pub mod ir;
pub mod optimize;
pub mod control_flow;
pub mod codegen;
pub mod driver;
pub mod meaning;
