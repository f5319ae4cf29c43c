//! The layers of a transformer.

pub mod embedding;
pub mod feed_forward;
pub mod gradients;
pub mod laws;
pub mod layer_norm;
pub mod lookup;
pub mod network;
