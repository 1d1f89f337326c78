//! Autoregressive decoding for sequence-to-sequence and causal language
//! models: beam search and sampling over integer scores, with the
//! bookkeeping of hypotheses, the scoring transforms applied before each
//! selection, and the ranking of the finished sequences.
//!
//! Scores are fixed-point integers. The forward pass of the model, the
//! normalisation of probabilities and random draws are supplied by the
//! caller through the traits of [`pipelines::adapter`].

pub mod bart;
pub mod pipelines;
