# llm_scratch_rs

The parts of small language models and small diffusion models, written in Verus and proved:
tokenizers, layers with their gradients, optimizers, learning rates, sampling, checkpoints and the
bookkeeping of training runs.

## Numbers

The library does no floating-point arithmetic of its own. Its numerical code works over numbers of
an open type; the caller brings the arithmetic (`numbers::Arithmetic`). Contracts fix which sums,
products and roots are taken, of what and in which order, so that a caller with single precision
gets one exact result. Where numbers are ordered or kept in files they are bit patterns (`ieee`).

## Layout

- `src/bpe`, `src/sentence_piece`: the two tokenizers; `token_table`, `text` below them.
- `src/layers`, `src/attention`, `src/embedding.rs`: layers, forward and backward.
- `src/activation.rs`, `src/loss.rs`, `src/matrix.rs`, `src/rows.rs`, `src/param.rs`: what layers
  are made of.
- `src/optimizers`: clipping, the optimizers and their checkpoints; `src/lr_scheduler.rs`.
- `src/tensor.rs`, `src/varstore.rs`, `src/parameterized.rs`, `src/ema.rs`: named parameters and
  their running averages.
- `src/dataloader.rs`, `src/corpus.rs`, `src/evaluation.rs`, `src/sampling.rs`,
  `src/generation.rs`: training and using a language model.
- `src/diffusion`, `src/resample`: training denoising networks and drawing with them.
- `src/serialization.rs`: weights as bytes.
- `app`: the command line, files, downloads, chance and floating point.
- `tests`: the library at work with real numbers.

What holds of several functions together stands in functions whose names begin with `law_`.
What is taken on trust from other crates stands in `src/bpe/outside.rs`. Two things are taken on
trust from the standard library: `String::push`, at the top of `src/text.rs`, and the text that
`{:?}` makes of a list of strings, in `src/bpe/outside.rs`.
