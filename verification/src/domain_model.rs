//! The entity-relation graph and the scanner that reads its notation.

pub mod graph;
pub mod numeral;
pub mod tokenizer;
