//! Checks proposal documents (a preamble of `name: value` fields between two
//! `---` lines, then a Markdown body) against a registry of rules, some of
//! which compare a document with the documents it refers to.

pub mod diagnostic;
pub mod document;
pub mod linter;
pub mod preamble;
pub mod rules;
pub mod text;
pub mod tree;
