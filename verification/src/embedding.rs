//! Token and position vectors, under their short path.

pub use crate::layers::embedding::{embed_sequence, PositionalEmbedding, TokenEmbedding};
pub use crate::matrix::add;
