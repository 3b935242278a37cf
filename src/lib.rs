//! Byte-pair-encoding tokenizer: learns a merge table from a corpus and uses it
//! to encode text into symbol ids and to decode ids back into text.

pub mod symbols;
pub mod stats;
pub mod model;
pub mod laws;
pub mod text;
pub mod words;
