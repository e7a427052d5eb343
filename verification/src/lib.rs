//! Front end and support crates of the C0m compiler: lexing of Suda source
//! into tokens with byte-exact source spans, the arena that holds the AST,
//! and the small shared types of the later pipeline stages.

pub mod arena;
pub mod ast;
pub mod bidi;
pub mod dos;
pub mod emitter;
pub mod span;
pub mod lex_laws;
pub mod lex_spec;
pub mod lexer;
pub mod oracle;
pub mod text;
pub mod token;

pub use arena::Arena;
pub use ast::{AstNode, NodeId, NodeKind};
pub use span::SourceSpan;

use vstd::prelude::*;

verus! {

/// A lexing (or parsing) error: where it was found, and what went wrong.
#[derive(Debug)]
pub struct ParseError {
    pub span: SourceSpan,
    pub message: String,
}

} // verus!
