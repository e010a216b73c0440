//! A columnar store for document indexes, and the token filter of its text
//! pipeline.
//!
//! The writer takes `(row, column name, value)` triples in any order and lays
//! them out in typed columns, one per name and category, each with the
//! smallest cardinality that its rows call for; text and byte columns keep
//! their distinct terms in a sorted dictionary and store ordinals.
pub mod alphanum_only;
pub mod bytes_column;
pub mod cardinality;
pub mod column;
pub mod columnar;
pub mod dictionary;
pub mod tokenizer;
pub mod value;
pub mod writer;
