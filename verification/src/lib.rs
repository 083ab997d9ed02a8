//! Resolution of obfuscated symbols in crash stack traces.
//!
//! A name-shrinking obfuscator for a class-based virtual machine rewrites
//! class names, method names and line numbers, and may inline callee bodies
//! into callers, while emitting a mapping that records the rewrites.  This
//! crate builds an in-memory index from a stream of pre-parsed mapping
//! records and answers three questions over it: the original name of an
//! obfuscated class, the original call sites of an obfuscated stack frame
//! (one frame per inlined call, outermost first), and the rewritten form of
//! a whole stack trace, line by line.
//!
//! Lexing the textual mapping and recognizing frame lines are the caller's
//! business; the library consumes plain records and plain parsed frames.

pub mod laws;
pub mod mapper;
pub mod mapping;
pub mod render;
pub mod stacktrace;
