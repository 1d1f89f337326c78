//! The parameters of a generation call and their validation.

use vstd::prelude::*;
use vstd::arithmetic::power::{lemma_pow0, lemma_pow_increases, pow};
use super::score::UNIT;

verus! {

/// The greatest value that a length raised to the length penalty may take.
pub const MAX_LENGTH_WEIGHT: u64 = 0x4000_0000_0000_0000;

/// Why a configuration, or the input given with it, is refused before any
/// search starts.
#[derive(Clone, Copy, Debug, PartialEq, Eq, Structural)]
pub enum ConfigurationError {
    /// `num_beams` is 0.
    NoBeams,
    /// `num_return_sequences` is 0.
    NoReturnSequences,
    /// `min_length` is above `max_length`.
    MinLengthAboveMaxLength,
    /// `temperature` is 0.
    ZeroTemperature,
    /// `repetition_penalty` is below one.
    RepetitionPenaltyBelowOne,
    /// `top_p` is 0 or above one.
    TopPOutOfRange,
    /// Without sampling, `num_return_sequences` is above `num_beams`.
    TooManyReturnSequences,
    /// `max_length` raised to `length_penalty` is above
    /// `MAX_LENGTH_WEIGHT`.
    LengthPenaltyTooLarge,
    /// The vocabulary is empty, or too large for every candidate of a step
    /// to be addressed.
    VocabularySize,
    /// The prefix to continue is empty.
    EmptyPrefix,
    /// The prefix to continue is longer than `max_length`.
    PrefixTooLong,
}

/// The parameters of a generation call. The real-valued parameters are
/// fixed-point numbers in units of `1 / UNIT`.
#[derive(Clone, Copy, Debug)]
pub struct GenerateConfig {
    /// Minimum length of a returned sequence.
    pub min_length: u64,
    /// Maximum length of a returned sequence.
    pub max_length: u64,
    /// Whether tokens are drawn at random rather than chosen by score.
    pub do_sample: bool,
    /// Whether the search stops as soon as `num_beams` sequences are
    /// finished.
    pub early_stopping: bool,
    /// Number of hypotheses kept alive at each step.
    pub num_beams: u64,
    /// Temperature, in units of `1 / UNIT`; above 0.
    pub temperature: u64,
    /// Number of best tokens kept before a draw; 0 keeps all.
    pub top_k: u64,
    /// Share of the probability mass kept before a draw, in units of
    /// `1 / UNIT`; above 0 and at most one.
    pub top_p: u64,
    /// Repetition penalty, in units of `1 / UNIT`; at least one.
    pub repetition_penalty: u64,
    /// Exponent of the length penalty. It is a whole number, so that
    /// adjusted scores can be compared exactly: a penalty that is stored
    /// as a fraction has to be rounded to the nearest whole exponent
    /// before it is handed over, and 0.6, say, becomes 1.
    pub length_penalty: u32,
    /// Length of the n-grams that may not repeat; 0 allows repeats.
    pub no_repeat_ngram_size: u64,
    /// Number of sequences to return for each input.
    pub num_return_sequences: u64,
}

impl GenerateConfig {
    /// The first rule that the configuration breaks, in the order in which
    /// the rules are checked; `None` for a valid configuration.
    pub open spec fn violation(&self) -> Option<ConfigurationError> {
        if self.num_beams == 0 {
            Some(ConfigurationError::NoBeams)
        } else if self.num_return_sequences == 0 {
            Some(ConfigurationError::NoReturnSequences)
        } else if self.min_length > self.max_length {
            Some(ConfigurationError::MinLengthAboveMaxLength)
        } else if self.temperature == 0 {
            Some(ConfigurationError::ZeroTemperature)
        } else if self.repetition_penalty < UNIT {
            Some(ConfigurationError::RepetitionPenaltyBelowOne)
        } else if self.top_p == 0 || self.top_p > UNIT {
            Some(ConfigurationError::TopPOutOfRange)
        } else if !self.do_sample && self.num_return_sequences > self.num_beams {
            Some(ConfigurationError::TooManyReturnSequences)
        } else if pow(self.max_length as int, self.length_penalty as nat) > MAX_LENGTH_WEIGHT {
            Some(ConfigurationError::LengthPenaltyTooLarge)
        } else {
            None
        }
    }

    /// Whether the configuration breaks no rule.
    pub open spec fn valid(&self) -> bool {
        self.violation() is None
    }

    /// Checks the configuration, and names the first rule that it breaks.
    pub fn validate(&self) -> (r: Result<(), ConfigurationError>)
        ensures
            r == match self.violation() {
                Some(e) => Err::<(), ConfigurationError>(e),
                None => Ok(()),
            },
    {
        if self.num_beams == 0 {
            Err(ConfigurationError::NoBeams)
        } else if self.num_return_sequences == 0 {
            Err(ConfigurationError::NoReturnSequences)
        } else if self.min_length > self.max_length {
            Err(ConfigurationError::MinLengthAboveMaxLength)
        } else if self.temperature == 0 {
            Err(ConfigurationError::ZeroTemperature)
        } else if self.repetition_penalty < UNIT {
            Err(ConfigurationError::RepetitionPenaltyBelowOne)
        } else if self.top_p == 0 || self.top_p > UNIT {
            Err(ConfigurationError::TopPOutOfRange)
        } else if !self.do_sample && self.num_return_sequences > self.num_beams {
            Err(ConfigurationError::TooManyReturnSequences)
        } else if checked_length_weight(self.max_length, self.length_penalty).is_none() {
            Err(ConfigurationError::LengthPenaltyTooLarge)
        } else {
            Ok(())
        }
    }
}

/// A power grows with its base.
pub proof fn lemma_pow_base_increases(a: int, b: int, e: nat)
    requires
        0 <= a <= b,
    ensures
        0 <= pow(a, e) <= pow(b, e),
    decreases e,
{
    reveal(pow);
    if e > 0 {
        lemma_pow_base_increases(a, b, (e - 1) as nat);
        let x = pow(a, (e - 1) as nat);
        let y = pow(b, (e - 1) as nat);
        assert(a * x <= b * y) by (nonlinear_arith)
            requires
                0 <= a <= b,
                0 <= x <= y,
        ;
        assert(0 <= a * x) by (nonlinear_arith)
            requires
                0 <= a,
                0 <= x,
        ;
    }
}

/// `length` raised to `penalty`, or `None` where that is above
/// `MAX_LENGTH_WEIGHT`.
pub fn checked_length_weight(length: u64, penalty: u32) -> (r: Option<u64>)
    ensures
        match r {
            Some(w) => w == pow(length as int, penalty as nat) && w <= MAX_LENGTH_WEIGHT,
            None => pow(length as int, penalty as nat) > MAX_LENGTH_WEIGHT,
        },
{
    proof {
        reveal(pow);
        lemma_pow0(length as int);
    }
    if penalty == 0 {
        return Some(1);
    }
    if length == 0 {
        proof {
            vstd::arithmetic::power::lemma0_pow(penalty as nat);
        }
        return Some(0);
    }
    if length == 1 {
        proof {
            vstd::arithmetic::power::lemma1_pow(penalty as nat);
        }
        return Some(1);
    }
    let mut acc: u64 = 1;
    let mut i: u32 = 0;
    while i < penalty
        invariant
            length >= 2,
            i <= penalty,
            acc == pow(length as int, i as nat),
            1 <= acc <= MAX_LENGTH_WEIGHT,
        decreases penalty - i,
    {
        proof {
            reveal(pow);
            assert(pow(length as int, (i + 1) as nat) == length * pow(length as int, i as nat));
        }
        if acc > MAX_LENGTH_WEIGHT / length {
            proof {
                let next = pow(length as int, (i + 1) as nat);
                assert(next > MAX_LENGTH_WEIGHT) by (nonlinear_arith)
                    requires
                        next == length * acc,
                        acc > MAX_LENGTH_WEIGHT / length,
                        length >= 2,
                ;
                lemma_pow_increases(length as nat, (i + 1) as nat, penalty as nat);
            }
            return None;
        }
        assert(1 <= acc * length <= MAX_LENGTH_WEIGHT && acc * length == length * acc)
            by (nonlinear_arith)
            requires
                1 <= acc <= MAX_LENGTH_WEIGHT / length,
                length >= 2,
        ;
        acc = acc * length;
        i += 1;
    }
    Some(acc)
}

} // verus!
