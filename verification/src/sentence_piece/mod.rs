//! A unigram tokenizer in the style of SentencePiece.

pub mod viterbi;
pub mod model;
pub mod training;
pub mod tokenizer;
pub mod counting;
pub mod laws;
