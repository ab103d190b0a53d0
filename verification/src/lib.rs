//! A small command-line interpreter core: a parser from a line of text to a
//! tree of commands, and an evaluator that walks the tree.

pub mod cmd;
pub mod eval;
pub mod parse;
pub mod relay;
pub mod text;
