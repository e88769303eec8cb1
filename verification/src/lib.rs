//! A grammar-directed, single-pass parser for type-level declarations.
//!
//! The crate turns a flat sequence of lexical tokens describing a structure
//! or enumeration declaration (its name, generic parameter list, generic
//! argument lists, constraint clauses, field lists and variant lists) into a
//! structured, fully reversible syntax tree: every consumed token, separator
//! and group boundary is preserved in the tree, so re-emitting the tree in
//! stored order reproduces the input.

pub mod error;
pub mod multipeek;
pub mod parse;
pub mod scan;
pub mod token;
pub mod tree;
