//! Byte-pair encoding.

pub mod merging;
pub mod model;
pub mod tables;
pub mod tokenizer;
pub mod training;
pub mod coding;
pub mod outside;
pub mod encoding;
pub mod loading;
pub mod laws;
