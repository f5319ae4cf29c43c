//! Attention: every token looks at itself and at the tokens before it.

pub mod gradients;
pub mod laws;
pub mod multi_head_attention;
pub mod self_attention;
