//! Tokenizers and training machinery for small language models.

pub mod activation;
pub mod attention;
pub mod averages;
pub mod bpe;
pub mod calculus;
pub mod corpus;
pub mod dataloader;
pub mod diffusion;
pub mod ema;
pub mod embedding;
pub mod evaluation;
pub mod generation;
pub mod ieee;
pub mod layers;
pub mod loss;
pub mod lr_scheduler;
pub mod matrix;
pub mod numbers;
pub mod optimizers;
pub mod param;
pub mod parameterized;
pub mod pure_fn;
pub mod reals;
pub mod resample;
pub mod rows;
pub mod sampling;
pub mod sentence_piece;
pub mod serialization;
pub mod sorting;
pub mod tensor;
pub mod text;
pub mod token_table;
pub mod varstore;
