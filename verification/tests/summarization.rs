use rust_bert::pipelines::adapter::{BackendError, TableModel, TensorBackend};
use rust_bert::pipelines::config::ConfigurationError;
use rust_bert::pipelines::summarization::{SummarizationConfig, SummarizationModel};

struct NoBackend;

impl TensorBackend for NoBackend {
    fn softmax(&mut self, _scores: &Vec<i64>) -> Result<Vec<u32>, BackendError> {
        Err(BackendError::Device)
    }

    fn draw(&mut self, _weights: &Vec<u32>) -> Result<usize, BackendError> {
        Err(BackendError::Device)
    }
}

fn table() -> Vec<Vec<i64>> {
    vec![
        vec![-900, -300, -350, -800, -700, -100],
        vec![-150, -900, -200, -300, -400, -100],
        vec![-500, -400, -300, -200, -150, -100],
        vec![-250, -260, -270, -280, -290, -100],
        vec![-700, -600, -500, -800, -900, -100],
        vec![-100, -100, -100, -100, -100, -100],
    ]
}

fn repeats_a_trigram(tokens: &Vec<i64>) -> bool {
    for i in 0..tokens.len().saturating_sub(2) {
        for j in (i + 1)..tokens.len().saturating_sub(2) {
            if tokens[i..i + 3] == tokens[j..j + 3] {
                return true;
            }
        }
    }
    false
}

#[test]
fn the_defaults_suit_summaries() {
    let config = SummarizationConfig::default();
    assert_eq!(config.min_length, 56);
    assert_eq!(config.max_length, 142);
    assert!(!config.do_sample);
    assert!(!config.early_stopping);
    assert_eq!(config.num_beams, 3);
    assert_eq!(config.temperature, 1000);
    assert_eq!(config.top_k, 50);
    assert_eq!(config.top_p, 1000);
    assert_eq!(config.repetition_penalty, 1000);
    assert_eq!(config.length_penalty, 1);
    assert_eq!(config.no_repeat_ngram_size, 3);
    assert_eq!(config.num_return_sequences, 1);
}

#[test]
fn the_parameters_of_summarization_become_those_of_generation() {
    let settings = SummarizationConfig {
        min_length: 1,
        max_length: 2,
        do_sample: true,
        early_stopping: true,
        num_beams: 3,
        temperature: 4,
        top_k: 5,
        top_p: 6,
        repetition_penalty: 7,
        length_penalty: 8,
        no_repeat_ngram_size: 9,
        num_return_sequences: 10,
    };
    let model = SummarizationModel::new(TableModel::new(table(), Some(5)), NoBackend, settings);
    let config = model.config;
    assert_eq!(config.min_length, 1);
    assert_eq!(config.max_length, 2);
    assert!(config.do_sample);
    assert!(config.early_stopping);
    assert_eq!(config.num_beams, 3);
    assert_eq!(config.temperature, 4);
    assert_eq!(config.top_k, 5);
    assert_eq!(config.top_p, 6);
    assert_eq!(config.repetition_penalty, 7);
    assert_eq!(config.length_penalty, 8);
    assert_eq!(config.no_repeat_ngram_size, 9);
    assert_eq!(config.num_return_sequences, 10);
}

#[test]
fn summaries_respect_the_default_limits() {
    let mut model = SummarizationModel::new(
        TableModel::new(table(), Some(5)),
        NoBackend,
        SummarizationConfig::default(),
    );
    let all = match model.summarize(&vec![vec![0], vec![3, 1, 4]]) {
        Ok(all) => all,
        Err(e) => panic!("unexpected refusal: {:?}", e),
    };
    assert_eq!(all.len(), 2);
    for (outcome, first) in all.iter().zip([0i64, 3]) {
        match outcome {
            Ok(list) => {
                assert_eq!(list.len(), 1);
                let tokens = &list[0];
                assert!(56 <= tokens.len() && tokens.len() <= 142);
                assert_eq!(tokens[0], first);
                assert_eq!(*tokens.last().unwrap(), 5);
                assert_eq!(tokens.iter().filter(|t| **t == 5).count(), 1);
                assert!(!repeats_a_trigram(tokens));
            }
            Err(e) => panic!("unexpected failure: {:?}", e),
        }
    }
}

#[test]
fn short_summaries_come_with_short_limits() {
    let settings = SummarizationConfig {
        min_length: 3,
        max_length: 6,
        no_repeat_ngram_size: 0,
        num_beams: 1,
        ..SummarizationConfig::default()
    };
    let mut model =
        SummarizationModel::new(TableModel::new(table(), Some(5)), NoBackend, settings);
    let all = match model.summarize(&vec![vec![0], vec![2, 2]]) {
        Ok(all) => all,
        Err(e) => panic!("unexpected refusal: {:?}", e),
    };
    assert!(matches!(&all[0], Ok(list) if *list == vec![vec![0, 1, 5]]));
    assert!(matches!(&all[1], Ok(list) if *list == vec![vec![2, 2, 5]]));
}

#[test]
fn invalid_parameters_are_refused() {
    let settings = SummarizationConfig { num_beams: 0, ..SummarizationConfig::default() };
    let mut model =
        SummarizationModel::new(TableModel::new(table(), Some(5)), NoBackend, settings);
    assert!(matches!(
        model.summarize(&vec![vec![0]]),
        Err(ConfigurationError::NoBeams)
    ));
}
