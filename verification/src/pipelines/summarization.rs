//! Abstractive summarization: generation with the parameters that suit
//! summaries.

use vstd::prelude::*;
use super::adapter::{same_model, ModelAdapter, TensorBackend};
use super::config::{ConfigurationError, GenerateConfig};
use super::generation::{generate, outcomes_sound, Generated};
use super::score::TokenId;

verus! {

/// The parameters of summarization. They are those of generation, with
/// other defaults; the real-valued ones are fixed-point numbers in units
/// of a thousandth.
#[derive(Clone, Copy, Debug)]
pub struct SummarizationConfig {
    /// Minimum sequence length (default: 56).
    pub min_length: u64,
    /// Maximum sequence length (default: 142).
    pub max_length: u64,
    /// Whether tokens are drawn at random rather than chosen by score
    /// (default: false).
    pub do_sample: bool,
    /// Whether the search stops as soon as `num_beams` sequences are
    /// finished (default: false).
    pub early_stopping: bool,
    /// Number of beams (default: 3).
    pub num_beams: u64,
    /// Temperature (default: 1000, for 1.0).
    pub temperature: u64,
    /// Number of best tokens kept before a draw; 0 keeps all (default:
    /// 50).
    pub top_k: u64,
    /// Share of the probability mass kept before a draw (default: 1000,
    /// for 1.0).
    pub top_p: u64,
    /// Repetition penalty (default: 1000, for 1.0).
    pub repetition_penalty: u64,
    /// Exponent of the length penalty, a whole number; a penalty that is
    /// stored as a fraction has to be rounded first (default: 1).
    pub length_penalty: u32,
    /// Length of the n-grams that may not repeat; 0 allows repeats
    /// (default: 3).
    pub no_repeat_ngram_size: u64,
    /// Number of sequences to return for each input (default: 1).
    pub num_return_sequences: u64,
}

impl SummarizationConfig {
    /// The default parameters of summarization.
    pub open spec fn standard() -> SummarizationConfig {
        SummarizationConfig {
            min_length: 56,
            max_length: 142,
            do_sample: false,
            early_stopping: false,
            num_beams: 3,
            temperature: 1000,
            top_k: 50,
            top_p: 1000,
            repetition_penalty: 1000,
            length_penalty: 1,
            no_repeat_ngram_size: 3,
            num_return_sequences: 1,
        }
    }

    /// The parameters of generation that these parameters stand for.
    pub open spec fn generate_config(&self) -> GenerateConfig {
        GenerateConfig {
            min_length: self.min_length,
            max_length: self.max_length,
            do_sample: self.do_sample,
            early_stopping: self.early_stopping,
            num_beams: self.num_beams,
            temperature: self.temperature,
            top_k: self.top_k,
            top_p: self.top_p,
            repetition_penalty: self.repetition_penalty,
            length_penalty: self.length_penalty,
            no_repeat_ngram_size: self.no_repeat_ngram_size,
            num_return_sequences: self.num_return_sequences,
        }
    }
}

impl Default for SummarizationConfig {
    fn default() -> (config: SummarizationConfig)
        ensures
            config == SummarizationConfig::standard(),
    {
        SummarizationConfig {
            min_length: 56,
            max_length: 142,
            do_sample: false,
            early_stopping: false,
            num_beams: 3,
            temperature: 1000,
            top_k: 50,
            top_p: 1000,
            repetition_penalty: 1000,
            length_penalty: 1,
            no_repeat_ngram_size: 3,
            num_return_sequences: 1,
        }
    }
}

/// A model that summarizes texts given as token sequences.
pub struct SummarizationModel<M: ModelAdapter, B: TensorBackend> {
    /// The model that scores the next token.
    pub model: M,
    /// The numeric backend.
    pub backend: B,
    /// The parameters of generation.
    pub config: GenerateConfig,
}

impl<M: ModelAdapter, B: TensorBackend> SummarizationModel<M, B> {
    /// Builds a summarization model from a model, a numeric backend and
    /// the parameters of summarization.
    pub fn new(model: M, backend: B, summarization_config: SummarizationConfig) -> (r:
        SummarizationModel<M, B>)
        ensures
            r.model == model,
            r.backend == backend,
            r.config == summarization_config.generate_config(),
    {
        let config = GenerateConfig {
            min_length: summarization_config.min_length,
            max_length: summarization_config.max_length,
            do_sample: summarization_config.do_sample,
            early_stopping: summarization_config.early_stopping,
            num_beams: summarization_config.num_beams,
            temperature: summarization_config.temperature,
            top_k: summarization_config.top_k,
            top_p: summarization_config.top_p,
            repetition_penalty: summarization_config.repetition_penalty,
            length_penalty: summarization_config.length_penalty,
            no_repeat_ngram_size: summarization_config.no_repeat_ngram_size,
            num_return_sequences: summarization_config.num_return_sequences,
        };
        SummarizationModel { model, backend, config }
    }

    /// Summarizes the texts: for each text, the `num_return_sequences`
    /// best summaries, best first. An invalid configuration is refused
    /// for the whole call, before the model is touched; any other failure
    /// concerns its text alone.
    pub fn summarize(&mut self, texts: &Vec<Vec<TokenId>>) -> (r: Result<
        Vec<Generated>,
        ConfigurationError,
    >)
        ensures
            final(self).config == old(self).config,
            same_model(old(self).model, final(self).model),
            match r {
                Ok(all) => old(self).config.violation() is None && outcomes_sound(
                    all@,
                    old(self).model,
                    texts@,
                    old(self).config,
                ),
                Err(e) => old(self).config.violation() == Some(e) && final(self).model == old(
                    self,
                ).model,
            },
    {
        generate(&mut self.model, &mut self.backend, texts, self.config)
    }
}

} // verus!
