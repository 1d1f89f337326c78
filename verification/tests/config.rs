use rust_bert::pipelines::config::{
    checked_length_weight, ConfigurationError, GenerateConfig, MAX_LENGTH_WEIGHT,
};

fn base() -> GenerateConfig {
    GenerateConfig {
        min_length: 0,
        max_length: 20,
        do_sample: false,
        early_stopping: false,
        num_beams: 5,
        temperature: 1000,
        top_k: 0,
        top_p: 900,
        repetition_penalty: 1000,
        length_penalty: 1,
        no_repeat_ngram_size: 3,
        num_return_sequences: 1,
    }
}

#[test]
fn a_sound_configuration_is_accepted() {
    assert_eq!(base().validate(), Ok(()));
}

#[test]
fn no_beams_are_refused() {
    let config = GenerateConfig { num_beams: 0, ..base() };
    assert_eq!(config.validate(), Err(ConfigurationError::NoBeams));
}

#[test]
fn no_return_sequences_are_refused() {
    let config = GenerateConfig { num_return_sequences: 0, ..base() };
    assert_eq!(config.validate(), Err(ConfigurationError::NoReturnSequences));
}

#[test]
fn a_minimum_above_the_maximum_is_refused() {
    let config = GenerateConfig { min_length: 21, ..base() };
    assert_eq!(
        config.validate(),
        Err(ConfigurationError::MinLengthAboveMaxLength)
    );
    let config = GenerateConfig { min_length: 20, ..base() };
    assert_eq!(config.validate(), Ok(()));
}

#[test]
fn a_temperature_of_zero_is_refused() {
    let config = GenerateConfig { temperature: 0, ..base() };
    assert_eq!(config.validate(), Err(ConfigurationError::ZeroTemperature));
}

#[test]
fn a_repetition_penalty_below_one_is_refused() {
    let config = GenerateConfig { repetition_penalty: 999, ..base() };
    assert_eq!(
        config.validate(),
        Err(ConfigurationError::RepetitionPenaltyBelowOne)
    );
}

#[test]
fn top_p_outside_its_range_is_refused() {
    let config = GenerateConfig { top_p: 0, ..base() };
    assert_eq!(config.validate(), Err(ConfigurationError::TopPOutOfRange));
    let config = GenerateConfig { top_p: 1001, ..base() };
    assert_eq!(config.validate(), Err(ConfigurationError::TopPOutOfRange));
    let config = GenerateConfig { top_p: 1000, ..base() };
    assert_eq!(config.validate(), Ok(()));
    let config = GenerateConfig { top_p: 1, ..base() };
    assert_eq!(config.validate(), Ok(()));
}

#[test]
fn more_return_sequences_than_beams_are_refused_without_sampling() {
    let config = GenerateConfig { num_return_sequences: 6, ..base() };
    assert_eq!(
        config.validate(),
        Err(ConfigurationError::TooManyReturnSequences)
    );
    let config = GenerateConfig { num_return_sequences: 5, ..base() };
    assert_eq!(config.validate(), Ok(()));
}

#[test]
fn more_return_sequences_than_beams_are_accepted_with_sampling() {
    let config = GenerateConfig { num_return_sequences: 6, do_sample: true, ..base() };
    assert_eq!(config.validate(), Ok(()));
}

#[test]
fn a_length_penalty_that_overflows_is_refused() {
    let config = GenerateConfig { length_penalty: 15, ..base() };
    assert_eq!(
        config.validate(),
        Err(ConfigurationError::LengthPenaltyTooLarge)
    );
    let config = GenerateConfig { length_penalty: 14, ..base() };
    assert_eq!(config.validate(), Ok(()));
}

#[test]
fn the_first_broken_rule_is_named() {
    let config = GenerateConfig { num_beams: 0, temperature: 0, top_p: 0, ..base() };
    assert_eq!(config.validate(), Err(ConfigurationError::NoBeams));
    let config = GenerateConfig { temperature: 0, top_p: 0, ..base() };
    assert_eq!(config.validate(), Err(ConfigurationError::ZeroTemperature));
}

#[test]
fn length_weights_are_powers() {
    assert_eq!(checked_length_weight(10, 2), Some(100));
    assert_eq!(checked_length_weight(7, 1), Some(7));
    assert_eq!(checked_length_weight(7, 0), Some(1));
    assert_eq!(checked_length_weight(0, 0), Some(1));
    assert_eq!(checked_length_weight(0, 3), Some(0));
    assert_eq!(checked_length_weight(1, u32::MAX), Some(1));
    assert_eq!(checked_length_weight(3, 4), Some(81));
}

#[test]
fn length_weights_above_the_limit_are_refused() {
    assert_eq!(MAX_LENGTH_WEIGHT, 1u64 << 62);
    assert_eq!(checked_length_weight(2, 62), Some(1u64 << 62));
    assert_eq!(checked_length_weight(2, 63), None);
    assert_eq!(checked_length_weight(3, 40), None);
    assert_eq!(checked_length_weight(u64::MAX, 1), None);
    assert_eq!(checked_length_weight(1u64 << 62, 1), Some(1u64 << 62));
}
