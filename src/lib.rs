//! A small untyped lambda-calculus engine: a compiler from named syntax trees
//! to de-Bruijn-indexed instruction sequences, and a call-by-value closure
//! machine that runs them.

pub mod syntax;
pub mod vm;
pub mod compiler;
pub mod laws;
