//! Dead-code shaking for JavaScript modules over byte spans of the
//! source text.
pub mod span;
pub mod replacements;
pub mod references;
pub mod tree;
pub mod rules;
pub mod shaker;
pub mod helpers;
pub mod ast;
pub mod processor;
