//! Byte-level byte-pair-encoding tokenizer: training learns merge rules from a
//! corpus, encoding applies them to text, decoding expands codes back to bytes.

pub mod model;
pub mod lemmas;
pub mod tokenizer;
pub mod laws;
