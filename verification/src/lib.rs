//! An in-process catalog search engine.
//!
//! The catalog stores immutable items and answers three kinds of query over
//! them: boolean AND search on normalized tokens, ordered prefix search on
//! normalized names, and degree-ranked recommendations over an undirected
//! relation graph.

pub mod catalog;
pub mod graph;
pub mod name_index;
pub mod product;
pub mod token_index;
pub mod tokenizer;
