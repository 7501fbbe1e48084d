//! Text indexing, cross-reference and layout engine for keyboard-remapping
//! configuration documents made of nested parenthesised lists.

pub mod diagnostics;
pub mod format;
pub mod format_idempotence;
pub mod references;
pub mod rename;
pub mod resolve;
pub mod symbols;
pub mod text;
pub mod types;
pub mod workspace;
