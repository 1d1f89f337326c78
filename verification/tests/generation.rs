use rust_bert::pipelines::adapter::{BackendError, ModelAdapter, TableModel, TensorBackend};
use rust_bert::pipelines::config::{ConfigurationError, GenerateConfig};
use rust_bert::pipelines::generation::{
    decode_step, generate, generate_one, search_from, GenerationError,
};
use rust_bert::pipelines::search::{SearchController, SearchState};

struct NoBackend;

impl TensorBackend for NoBackend {
    fn softmax(&mut self, _scores: &Vec<i64>) -> Result<Vec<u32>, BackendError> {
        Err(BackendError::Device)
    }

    fn draw(&mut self, _weights: &Vec<u32>) -> Result<usize, BackendError> {
        Err(BackendError::Device)
    }
}

struct FirstAllowed;

impl TensorBackend for FirstAllowed {
    fn softmax(&mut self, scores: &Vec<i64>) -> Result<Vec<u32>, BackendError> {
        Ok(vec![1; scores.len()])
    }

    fn draw(&mut self, weights: &Vec<u32>) -> Result<usize, BackendError> {
        match weights.iter().position(|w| *w > 0) {
            Some(token) => Ok(token),
            None => Err(BackendError::Device),
        }
    }
}

fn greedy_config(max_length: u64) -> GenerateConfig {
    GenerateConfig {
        min_length: 0,
        max_length,
        do_sample: false,
        early_stopping: false,
        num_beams: 1,
        temperature: 1000,
        top_k: 0,
        top_p: 1000,
        repetition_penalty: 1000,
        length_penalty: 1,
        no_repeat_ngram_size: 0,
        num_return_sequences: 1,
    }
}

fn favouring(token: usize, size: usize) -> Vec<i64> {
    let mut row = vec![-5000i64; size];
    row[token] = -1000;
    row
}

fn sequences(model: &mut TableModel, input: Vec<i64>, config: GenerateConfig) -> Vec<Vec<i64>> {
    let mut backend = NoBackend;
    match generate_one(model, &mut backend, &input, config) {
        Ok(list) => list,
        Err(e) => panic!("unexpected failure: {:?}", e),
    }
}

fn repeats_an_ngram(tokens: &Vec<i64>, n: usize) -> bool {
    if n == 0 || tokens.len() < n {
        return false;
    }
    for i in 0..=(tokens.len() - n) {
        for j in (i + 1)..=(tokens.len() - n) {
            if tokens[i..i + n] == tokens[j..j + n] {
                return true;
            }
        }
    }
    false
}

#[test]
fn greedy_repeats_the_favoured_token_until_the_maximum_length() {
    let mut model = TableModel::new(vec![favouring(2, 5); 5], None);
    assert_eq!(sequences(&mut model, vec![0], greedy_config(4)), vec![vec![0, 2, 2, 2]]);
}

#[test]
fn greedy_ends_where_the_end_marker_is_favoured() {
    let mut table = vec![favouring(2, 5); 5];
    table[2] = favouring(4, 5);
    let mut model = TableModel::new(table, Some(4));
    assert_eq!(sequences(&mut model, vec![0], greedy_config(4)), vec![vec![0, 2, 4]]);
}

#[test]
fn one_beam_decodes_as_greedy_decoding_does() {
    let table = vec![
        vec![-900, -300, -300, -800, -700, -600],
        vec![-100, -900, -200, -300, -400, -500],
        vec![-500, -400, -300, -200, -100, -100],
        vec![-250, -250, -250, -250, -250, -250],
        vec![-700, -600, -500, -800, -900, -400],
        vec![-800, -700, -600, -100, -900, -650],
    ];
    let mut expected = vec![2i64];
    while expected.len() < 9 {
        let row = &table[*expected.last().unwrap() as usize];
        let mut best = 0;
        for t in 1..row.len() {
            if row[t] > row[best] {
                best = t;
            }
        }
        expected.push(best as i64);
    }
    assert_eq!(expected, vec![2, 4, 5, 3, 0, 1, 0, 1, 0]);
    let mut model = TableModel::new(table, None);
    assert_eq!(sequences(&mut model, vec![2], greedy_config(9)), vec![expected.clone()]);
    assert_eq!(sequences(&mut model, vec![2], greedy_config(9)), vec![expected]);
}

#[test]
fn no_bigram_repeats_where_bigrams_are_blocked() {
    let mut model = TableModel::new(vec![favouring(2, 5); 5], None);
    let config = GenerateConfig { no_repeat_ngram_size: 2, ..greedy_config(6) };
    let out = sequences(&mut model, vec![0], config);
    assert_eq!(out, vec![vec![0, 2, 2, 0, 0, 1]]);
    assert!(!repeats_an_ngram(&out[0], 2));
}

#[test]
fn no_ngram_repeats_in_any_returned_sequence() {
    let table = vec![
        vec![-900, -300, -300, -800, -700],
        vec![-100, -900, -200, -300, -400],
        vec![-500, -400, -300, -200, -100],
        vec![-250, -250, -250, -250, -250],
        vec![-700, -600, -500, -800, -900],
    ];
    for n in 1..4u64 {
        let mut model = TableModel::new(table.clone(), None);
        let config = GenerateConfig {
            no_repeat_ngram_size: n,
            num_beams: 3,
            num_return_sequences: 3,
            ..greedy_config(if n == 1 { 5 } else { 12 })
        };
        let out = sequences(&mut model, vec![0], config);
        assert_eq!(out.len(), 3);
        for tokens in &out {
            assert!(!repeats_an_ngram(tokens, n as usize));
            assert_eq!(tokens[0], 0);
        }
    }
}

#[test]
fn a_sequence_does_not_end_before_the_minimum_length() {
    let mut model = TableModel::new(vec![favouring(4, 5); 5], Some(4));
    let config = GenerateConfig { min_length: 4, ..greedy_config(9) };
    assert_eq!(sequences(&mut model, vec![0], config), vec![vec![0, 0, 0, 4]]);
    let config = GenerateConfig { min_length: 0, ..greedy_config(9) };
    assert_eq!(sequences(&mut model, vec![0], config), vec![vec![0, 4]]);
    let config = GenerateConfig { min_length: 9, ..greedy_config(9) };
    assert_eq!(
        sequences(&mut model, vec![0], config),
        vec![vec![0, 0, 0, 0, 0, 0, 0, 0, 4]]
    );
}

#[test]
fn every_returned_sequence_has_a_length_within_the_limits() {
    let table = vec![
        vec![-900, -300, -300, -800, -200],
        vec![-100, -900, -200, -300, -400],
        vec![-500, -400, -300, -200, -100],
        vec![-250, -250, -250, -250, -250],
        vec![-700, -600, -500, -800, -900],
    ];
    for min_length in 0..7u64 {
        for max_length in min_length.max(1)..8u64 {
            let mut model = TableModel::new(table.clone(), Some(4));
            let config = GenerateConfig {
                min_length,
                num_beams: 2,
                num_return_sequences: 2,
                ..greedy_config(max_length)
            };
            let out = sequences(&mut model, vec![1], config);
            assert_eq!(out.len(), 2);
            for tokens in &out {
                assert!(min_length <= tokens.len() as u64);
                assert!(tokens.len() as u64 <= max_length);
            }
        }
    }
}

#[test]
fn as_many_sequences_as_asked_for_come_back_best_first() {
    let mut model = TableModel::new(vec![vec![-1, -2, -3]; 3], None);
    let config = GenerateConfig { num_beams: 3, num_return_sequences: 3, ..greedy_config(3) };
    assert_eq!(
        sequences(&mut model, vec![0], config),
        vec![vec![0, 0, 0], vec![0, 1, 0], vec![0, 0, 1]]
    );
    let config = GenerateConfig { num_beams: 3, num_return_sequences: 2, ..greedy_config(3) };
    assert_eq!(
        sequences(&mut model, vec![0], config),
        vec![vec![0, 0, 0], vec![0, 1, 0]]
    );
}

#[test]
fn the_length_penalty_decides_between_a_short_and_a_long_sequence() {
    let mut table = vec![vec![-9000, -9000, -9000, -9000]; 4];
    table[0] = vec![-9000, -100, -9000, -300];
    table[1] = vec![-9000, -9000, -100, -9000];
    table[2] = vec![-9000, -9000, -9000, -150];
    let mut model = TableModel::new(table, Some(3));
    let flat = GenerateConfig { num_beams: 2, length_penalty: 0, ..greedy_config(6) };
    assert_eq!(sequences(&mut model, vec![0], flat), vec![vec![0, 3]]);
    let even = GenerateConfig { num_beams: 2, length_penalty: 1, ..greedy_config(6) };
    assert_eq!(sequences(&mut model, vec![0], even), vec![vec![0, 1, 2, 3]]);
    let both = GenerateConfig {
        num_beams: 2,
        length_penalty: 1,
        num_return_sequences: 2,
        ..greedy_config(6)
    };
    assert_eq!(
        sequences(&mut model, vec![0], both),
        vec![vec![0, 1, 2, 3], vec![0, 3]]
    );
}

#[test]
fn an_empty_input_is_refused() {
    let mut model = TableModel::new(vec![favouring(2, 5); 5], None);
    let mut backend = NoBackend;
    let out = generate_one(&mut model, &mut backend, &vec![], greedy_config(4));
    assert!(matches!(
        out,
        Err(GenerationError::Configuration(ConfigurationError::EmptyPrefix))
    ));
}

#[test]
fn an_input_longer_than_the_maximum_length_is_refused() {
    let mut model = TableModel::new(vec![favouring(2, 5); 5], None);
    let mut backend = NoBackend;
    let out = generate_one(&mut model, &mut backend, &vec![0, 1, 2], greedy_config(2));
    assert!(matches!(
        out,
        Err(GenerationError::Configuration(ConfigurationError::PrefixTooLong))
    ));
}

#[test]
fn an_input_of_the_maximum_length_comes_back_as_it_is() {
    let mut model = TableModel::new(vec![favouring(2, 5); 5], None);
    assert_eq!(sequences(&mut model, vec![0, 1, 2], greedy_config(3)), vec![vec![0, 1, 2]]);
}

#[test]
fn an_invalid_configuration_is_refused_before_the_model_is_touched() {
    let mut model = TableModel::new(vec![favouring(2, 5); 5], None);
    let mut backend = NoBackend;
    let config = GenerateConfig { temperature: 0, ..greedy_config(4) };
    let out = generate_one(&mut model, &mut backend, &vec![0], config);
    assert!(matches!(
        out,
        Err(GenerationError::Configuration(ConfigurationError::ZeroTemperature))
    ));
    assert!(model.slots.is_empty());
}

#[test]
fn a_fault_of_the_model_ends_the_generation_for_its_input() {
    let mut model = TableModel::new(vec![favouring(2, 5); 5], None);
    let mut backend = NoBackend;
    let out = generate_one(&mut model, &mut backend, &vec![0, 7], greedy_config(4));
    assert!(matches!(
        out,
        Err(GenerationError::Backend(BackendError::DimensionMismatch))
    ));
}

#[test]
fn every_input_is_generated_for_on_its_own() {
    let mut model = TableModel::new(vec![favouring(2, 5); 5], None);
    let mut backend = NoBackend;
    let inputs = vec![vec![0], vec![0, 7], vec![3, 1], vec![]];
    let all = match generate(&mut model, &mut backend, &inputs, greedy_config(4)) {
        Ok(all) => all,
        Err(e) => panic!("unexpected refusal: {:?}", e),
    };
    assert_eq!(all.len(), 4);
    assert!(matches!(&all[0], Ok(list) if *list == vec![vec![0, 2, 2, 2]]));
    assert!(matches!(
        &all[1],
        Err(GenerationError::Backend(BackendError::DimensionMismatch))
    ));
    assert!(matches!(&all[2], Ok(list) if *list == vec![vec![3, 1, 2, 2]]));
    assert!(matches!(
        &all[3],
        Err(GenerationError::Configuration(ConfigurationError::EmptyPrefix))
    ));
}

#[test]
fn an_invalid_configuration_is_refused_for_the_whole_call() {
    let mut model = TableModel::new(vec![favouring(2, 5); 5], None);
    let mut backend = NoBackend;
    let config = GenerateConfig { min_length: 5, ..greedy_config(4) };
    let out = generate(&mut model, &mut backend, &vec![vec![0]], config);
    assert!(matches!(out, Err(ConfigurationError::MinLengthAboveMaxLength)));
}

#[test]
fn drawing_needs_the_backend() {
    let mut model = TableModel::new(vec![favouring(2, 5); 5], None);
    let mut backend = NoBackend;
    let config = GenerateConfig { do_sample: true, ..greedy_config(4) };
    let out = generate_one(&mut model, &mut backend, &vec![0], config);
    assert!(matches!(out, Err(GenerationError::Backend(BackendError::Device))));
}

#[test]
fn drawn_sequences_follow_the_draws() {
    let mut model = TableModel::new(vec![favouring(2, 5); 5], Some(4));
    let mut backend = FirstAllowed;
    let config = GenerateConfig { do_sample: true, top_k: 1, ..greedy_config(4) };
    match generate_one(&mut model, &mut backend, &vec![0], config) {
        Ok(list) => assert_eq!(list, vec![vec![0, 2, 2, 2]]),
        Err(e) => panic!("unexpected failure: {:?}", e),
    }
    let config = GenerateConfig { do_sample: true, no_repeat_ngram_size: 1, ..greedy_config(4) };
    match generate_one(&mut model, &mut backend, &vec![0], config) {
        Ok(list) => assert_eq!(list, vec![vec![0, 1, 2, 3]]),
        Err(e) => panic!("unexpected failure: {:?}", e),
    }
}

#[test]
fn too_few_finished_hypotheses_are_reported() {
    let mut model = TableModel::new(vec![favouring(2, 5); 5], Some(4));
    let mut backend = FirstAllowed;
    let config = GenerateConfig {
        do_sample: true,
        top_k: 1,
        num_return_sequences: 2,
        ..greedy_config(4)
    };
    match generate_one(&mut model, &mut backend, &vec![0], config) {
        Err(GenerationError::Insufficient(e)) => {
            assert_eq!(e.requested, 2);
            assert_eq!(e.completed, 1);
            assert_eq!(e.sequences, vec![vec![0, 2, 2, 2]]);
        }
        other => panic!("unexpected outcome: {:?}", other),
    }
}

#[test]
fn a_search_without_a_way_on_is_reported() {
    let mut model = TableModel::new(vec![vec![-1, -2]; 2], None);
    let mut backend = NoBackend;
    let config = GenerateConfig { no_repeat_ngram_size: 1, ..greedy_config(9) };
    match generate_one(&mut model, &mut backend, &vec![0], config) {
        Err(GenerationError::Insufficient(e)) => {
            assert_eq!(e.requested, 1);
            assert_eq!(e.completed, 0);
            assert!(e.sequences.is_empty());
        }
        other => panic!("unexpected outcome: {:?}", other),
    }
}

#[test]
fn the_search_starts_from_a_given_prefix() {
    let mut model = TableModel::new(vec![favouring(1, 3); 3], None);
    let mut backend = NoBackend;
    let prepared = model.init(&vec![9, 9], 1);
    assert_eq!(prepared, Ok(vec![9, 9]));
    let out = search_from(&mut model, &mut backend, &vec![0, 2], greedy_config(4), 3, None);
    match out {
        Ok(list) => assert_eq!(list, vec![vec![0, 2, 1, 1]]),
        Err(e) => panic!("unexpected failure: {:?}", e),
    }
}

#[test]
fn the_cached_state_follows_the_hypotheses() {
    let table = vec![
        vec![-9000, -1000, -1000, -9000],
        vec![-9000, -9000, -9000, -500],
        vec![-9000, -9000, -500, -9000],
        vec![-100, -9000, -9000, -9000],
    ];
    let mut model = TableModel::new(table, None);
    let mut backend = NoBackend;
    let config = GenerateConfig { num_beams: 2, ..greedy_config(9) };
    let prefix = match model.init(&vec![0], 2) {
        Ok(prefix) => prefix,
        Err(e) => panic!("unexpected fault: {:?}", e),
    };
    let mut controller = match SearchController::seed(config, 4, None, &prefix) {
        Ok(c) => c,
        Err(e) => panic!("unexpected refusal: {:?}", e),
    };
    assert_eq!(model.slots, vec![Vec::<i64>::new(), Vec::<i64>::new()]);
    for _ in 0..4 {
        assert_eq!(decode_step(&mut controller, &mut model, &mut backend), Ok(()));
        assert_eq!(controller.state, SearchState::Searching);
        assert_eq!(model.slots.len(), controller.group.live.len());
        for (slot, h) in model.slots.iter().zip(controller.group.live.iter()) {
            assert_eq!(slot[..], h.tokens[..h.tokens.len() - 1]);
        }
    }
    let live: Vec<Vec<i64>> = controller.group.live.iter().map(|h| h.tokens.clone()).collect();
    assert_eq!(live, vec![vec![0, 2, 2, 2, 2], vec![0, 1, 3, 0, 1]]);
}

#[test]
fn a_prefix_of_the_maximum_length_needs_neither_model_nor_backend() {
    let mut model = TableModel::new(vec![], Some(4));
    let mut backend = NoBackend;
    let config = GenerateConfig { num_beams: 3, num_return_sequences: 2, ..greedy_config(2) };
    let out = search_from(&mut model, &mut backend, &vec![7, 8], config, 5, Some(4));
    match out {
        Ok(list) => assert_eq!(list, vec![vec![7, 8], vec![7, 8]]),
        Err(e) => panic!("unexpected failure: {:?}", e),
    }
    assert!(model.slots.is_empty());
    let config = GenerateConfig {
        do_sample: true,
        num_beams: 2,
        num_return_sequences: 3,
        ..greedy_config(2)
    };
    match search_from(&mut model, &mut backend, &vec![7, 8], config, 5, Some(4)) {
        Err(GenerationError::Insufficient(e)) => {
            assert_eq!(e.requested, 3);
            assert_eq!(e.completed, 2);
            assert_eq!(e.sequences, vec![vec![7, 8], vec![7, 8]]);
        }
        other => panic!("unexpected outcome: {:?}", other),
    }
}

#[test]
fn finished_sequences_end_with_the_end_marker_or_at_the_maximum_length() {
    let table = vec![
        vec![-900, -300, -300, -800, -200],
        vec![-100, -900, -200, -300, -400],
        vec![-500, -400, -300, -200, -100],
        vec![-250, -250, -250, -250, -250],
        vec![-700, -600, -500, -800, -900],
    ];
    for num_beams in 1..4u64 {
        for max_length in 2..8u64 {
            let mut model = TableModel::new(table.clone(), Some(4));
            let config = GenerateConfig {
                num_beams,
                num_return_sequences: num_beams,
                ..greedy_config(max_length)
            };
            let out = sequences(&mut model, vec![1], config);
            assert_eq!(out.len() as u64, num_beams);
            for tokens in &out {
                let last = *tokens.last().unwrap();
                assert!(tokens.len() as u64 == max_length || (tokens.len() > 1 && last == 4));
                assert!(tokens[1..].iter().all(|t| 0 <= *t && *t < 5));
                assert!(tokens[1..tokens.len() - 1].iter().all(|t| *t != 4));
            }
        }
    }
}

#[test]
fn nothing_to_generate_for_gives_nothing() {
    let mut model = TableModel::new(vec![favouring(2, 5); 5], None);
    let mut backend = NoBackend;
    match generate(&mut model, &mut backend, &vec![], greedy_config(4)) {
        Ok(all) => assert!(all.is_empty()),
        Err(e) => panic!("unexpected refusal: {:?}", e),
    }
}
