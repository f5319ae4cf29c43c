//! Around the training of denoising networks.

pub mod batch;
pub mod image_grid;
pub mod laws;
pub mod one_hot;
pub mod session;
pub mod training;
pub mod transformer_runs;
