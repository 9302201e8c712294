//! Removal of delimiter-bounded directives from source text.
//!
//! Text is scanned for directive tags, the tags are matched into a tree, the
//! directives that are due are turned into byte ranges to delete, and the cut
//! points are tidied afterwards. Every position in this crate is a byte offset
//! into UTF-8 text, and every contract speaks of the text as its byte sequence.
pub mod chiritori;
pub mod code;
pub mod element_parser;
pub mod parser;
pub mod tokenizer;
