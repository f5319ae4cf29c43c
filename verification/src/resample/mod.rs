//! Drawing images from a trained denoising network: the command line, the choice of a checkpoint and
//! the order of the work.

pub mod checkpoints;
pub mod cli;
pub mod run;
