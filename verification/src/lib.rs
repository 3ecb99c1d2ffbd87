//! A byte-level byte-pair-encoding (BPE) vocabulary library.
//!
//! The library learns a bounded subword vocabulary from a corpus by
//! iteratively merging the most frequent adjacent symbol pair, and then
//! uses the frozen vocabulary to turn byte text into symbol IDs and back.

pub mod decoder;
pub mod error;
pub mod export;
pub mod import;
pub mod laws;
pub mod token;
pub mod tokenizer;
pub mod training;
pub mod vocabulary;
pub mod word;
