//! Turns machine-readable compiler diagnostics into byte-precise edits of
//! source files: a stack-based text-operation interpreter computes replacement
//! text per diagnostic span, and a patch aggregator groups the resulting
//! byte-range replacements per file, proves them non-overlapping and applies
//! them in one pass.

pub mod apply;
pub mod message;
pub mod operation;
pub mod selector;
pub mod text;
