//! Session and document-state core of a language server for a small
//! block-structured language: it translates parse errors into diagnostics,
//! walks an abstract syntax tree into delta-encoded semantic highlighting
//! tokens, memoizes the token computation per document, and keeps a registry
//! of open documents consistent across edits.

pub mod ast;
pub mod diagnostics;
pub mod instance;
pub mod registry;
pub mod span;
pub mod tokens;

use vstd::prelude::*;

verus! {

} // verus!
