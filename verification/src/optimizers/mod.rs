//! Optimizers.

pub mod adam;
pub mod bounds;
pub mod checkpoint;
pub mod clipping;
pub mod diffusion_adam;
pub mod laws;
pub mod optimizer;
pub mod rmsprop;
pub mod rule;
pub mod sgd;
