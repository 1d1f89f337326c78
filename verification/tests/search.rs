use rust_bert::pipelines::adapter::{BackendError, TensorBackend};
use rust_bert::pipelines::config::{ConfigurationError, GenerateConfig};
use rust_bert::pipelines::hypothesis::{Candidate, Hypothesis};
use rust_bert::pipelines::score::NEG_INF;
use rust_bert::pipelines::search::{suppress_end, SearchController, SearchState, SEED_OFFSET};

struct Idle;

impl TensorBackend for Idle {
    fn softmax(&mut self, _scores: &Vec<i64>) -> Result<Vec<u32>, BackendError> {
        Err(BackendError::Device)
    }

    fn draw(&mut self, _weights: &Vec<u32>) -> Result<usize, BackendError> {
        Err(BackendError::Device)
    }
}

struct Scripted {
    weights: Vec<Vec<u32>>,
    draws: Vec<Result<usize, BackendError>>,
    scores_seen: Vec<Vec<i64>>,
    weights_seen: Vec<Vec<u32>>,
}

impl Scripted {
    fn new(weights: Vec<Vec<u32>>, draws: Vec<Result<usize, BackendError>>) -> Scripted {
        Scripted { weights, draws, scores_seen: Vec::new(), weights_seen: Vec::new() }
    }
}

impl TensorBackend for Scripted {
    fn softmax(&mut self, scores: &Vec<i64>) -> Result<Vec<u32>, BackendError> {
        self.scores_seen.push(scores.clone());
        Ok(self.weights.remove(0))
    }

    fn draw(&mut self, weights: &Vec<u32>) -> Result<usize, BackendError> {
        self.weights_seen.push(weights.clone());
        self.draws.remove(0)
    }
}

fn config(num_beams: u64, max_length: u64) -> GenerateConfig {
    GenerateConfig {
        min_length: 0,
        max_length,
        do_sample: false,
        early_stopping: false,
        num_beams,
        temperature: 1000,
        top_k: 0,
        top_p: 1000,
        repetition_penalty: 1000,
        length_penalty: 1,
        no_repeat_ngram_size: 0,
        num_return_sequences: 1,
    }
}

fn seeded(
    config: GenerateConfig,
    vocab_size: usize,
    eos: Option<i64>,
    prefix: Vec<i64>,
) -> SearchController {
    match SearchController::seed(config, vocab_size, eos, &prefix) {
        Ok(c) => c,
        Err(e) => panic!("the search was refused: {:?}", e),
    }
}

fn refusal(config: GenerateConfig, vocab_size: usize, prefix: Vec<i64>) -> ConfigurationError {
    match SearchController::seed(config, vocab_size, None, &prefix) {
        Ok(_) => panic!("the search was not refused"),
        Err(e) => e,
    }
}

fn tokens_of(list: &Vec<Hypothesis>) -> Vec<Vec<i64>> {
    list.iter().map(|h| h.tokens.clone()).collect()
}

fn scores_of(list: &Vec<Hypothesis>) -> Vec<i64> {
    list.iter().map(|h| h.score).collect()
}

fn triple(c: &Candidate) -> (usize, i64, i64) {
    (c.parent, c.token, c.log_prob)
}

#[test]
fn a_search_by_score_starts_with_the_other_slots_set_back() {
    let c = seeded(config(3, 9), 5, Some(4), vec![0, 2]);
    assert_eq!(c.state, SearchState::Seeded);
    assert_eq!(c.length, 2);
    assert_eq!(c.prefix, vec![0, 2]);
    assert_eq!(c.vocab_size, 5);
    assert_eq!(c.group.policy.eos_token_id, Some(4));
    assert_eq!(tokens_of(&c.group.live), vec![vec![0, 2], vec![0, 2], vec![0, 2]]);
    assert_eq!(scores_of(&c.group.live), vec![0, SEED_OFFSET, SEED_OFFSET]);
    assert_eq!(c.group.live[2].slot, 2);
    assert!(c.group.completed.is_empty());
    assert_eq!(SEED_OFFSET, -(1i64 << 62));
}

#[test]
fn a_search_by_draws_starts_with_equal_slots() {
    let c = seeded(GenerateConfig { do_sample: true, ..config(3, 9) }, 5, None, vec![0]);
    assert_eq!(scores_of(&c.group.live), vec![0, 0, 0]);
}

#[test]
fn a_prefix_of_the_maximum_length_ends_the_search_at_once() {
    let c = seeded(config(2, 3), 5, None, vec![0, 1, 2]);
    assert_eq!(c.state, SearchState::Done);
    assert!(c.group.live.is_empty());
    assert_eq!(tokens_of(&c.group.completed), vec![vec![0, 1, 2], vec![0, 1, 2]]);
    assert_eq!(scores_of(&c.group.completed), vec![0, SEED_OFFSET]);
    assert!(c.group.completed.iter().all(|h| h.finished));
}

#[test]
fn a_search_is_refused_for_an_invalid_configuration() {
    assert_eq!(
        refusal(GenerateConfig { top_p: 0, ..config(2, 9) }, 5, vec![0]),
        ConfigurationError::TopPOutOfRange
    );
    assert_eq!(
        refusal(GenerateConfig { num_beams: 0, ..config(2, 9) }, 0, vec![]),
        ConfigurationError::NoBeams
    );
}

#[test]
fn a_search_is_refused_for_an_unusable_vocabulary() {
    assert_eq!(refusal(config(2, 9), 0, vec![0]), ConfigurationError::VocabularySize);
    assert_eq!(
        refusal(config(2, 9), usize::MAX, vec![0]),
        ConfigurationError::VocabularySize
    );
    assert_eq!(
        refusal(config(u64::MAX, 9), 2, vec![0]),
        ConfigurationError::VocabularySize
    );
    assert_eq!(refusal(config(2, 9), 0, vec![]), ConfigurationError::VocabularySize);
}

#[test]
fn a_search_is_refused_for_an_unusable_prefix() {
    assert_eq!(refusal(config(2, 9), 5, vec![]), ConfigurationError::EmptyPrefix);
    assert_eq!(
        refusal(config(2, 3), 5, vec![0, 1, 2, 3]),
        ConfigurationError::PrefixTooLong
    );
}

#[test]
fn the_end_marker_is_banned_where_a_sequence_may_not_end() {
    let mut scores = vec![-1, -2, -3];
    suppress_end(&mut scores, Some(1), false);
    assert_eq!(scores, vec![-1, NEG_INF, -3]);
    let mut scores = vec![-1, -2, -3];
    suppress_end(&mut scores, Some(1), true);
    assert_eq!(scores, vec![-1, -2, -3]);
    suppress_end(&mut scores, None, false);
    assert_eq!(scores, vec![-1, -2, -3]);
    suppress_end(&mut scores, Some(3), false);
    assert_eq!(scores, vec![-1, -2, -3]);
    suppress_end(&mut scores, Some(-1), false);
    assert_eq!(scores, vec![-1, -2, -3]);
}

#[test]
fn rows_of_the_wrong_shape_are_a_fault() {
    let c = seeded(config(2, 9), 3, None, vec![0]);
    assert_eq!(c.check_rows(&vec![vec![-1, -2, -3], vec![-1, -2, -3]]), Ok(()));
    assert_eq!(
        c.check_rows(&vec![vec![-1, -2, -3]]),
        Err(BackendError::DimensionMismatch)
    );
    assert_eq!(
        c.check_rows(&vec![vec![-1, -2, -3], vec![-1, -2]]),
        Err(BackendError::DimensionMismatch)
    );
    assert_eq!(
        c.check_rows(&vec![vec![-1, -2, -3], vec![-1, -2, -3, -4]]),
        Err(BackendError::DimensionMismatch)
    );
    assert_eq!(c.check_rows(&vec![]), Err(BackendError::DimensionMismatch));
}

#[test]
fn a_score_above_zero_is_a_fault() {
    let c = seeded(config(2, 9), 3, None, vec![0]);
    assert_eq!(
        c.check_rows(&vec![vec![-1, -2, -3], vec![-1, 1, -3]]),
        Err(BackendError::InvalidScore)
    );
    assert_eq!(
        c.check_rows(&vec![vec![0, NEG_INF, 0], vec![0, 0, 0]]),
        Ok(())
    );
    assert_eq!(
        c.check_rows(&vec![vec![5, -2], vec![-1, -2, -3]]),
        Err(BackendError::DimensionMismatch)
    );
}

#[test]
fn the_candidates_of_the_first_step_come_from_the_first_slot() {
    let c = seeded(config(2, 9), 3, None, vec![0]);
    let rows = vec![vec![-1, -2, -3], vec![-1, -2, -3]];
    match c.ranked_candidates(&rows) {
        Ok(list) => assert_eq!(
            list.iter().map(triple).collect::<Vec<_>>(),
            vec![(0, 0, -1), (0, 1, -2), (0, 2, -3), (1, 0, -1)]
        ),
        Err(e) => panic!("unexpected fault: {:?}", e),
    }
}

#[test]
fn the_candidates_are_the_best_over_all_slots() {
    let mut c = seeded(config(2, 9), 4, None, vec![0]);
    let mut idle = Idle;
    let first = vec![vec![-9000, -1000, -2000, -9000], vec![-9000, -1000, -2000, -9000]];
    assert_eq!(c.advance(&first, &mut idle), Ok(vec![0, 0]));
    assert_eq!(tokens_of(&c.group.live), vec![vec![0, 1], vec![0, 2]]);
    assert_eq!(scores_of(&c.group.live), vec![-1000, -2000]);
    let second = vec![vec![-100, -3000, -5000, -200], vec![-4000, -50, -4000, -4000]];
    match c.ranked_candidates(&second) {
        Ok(list) => assert_eq!(
            list.iter().map(triple).collect::<Vec<_>>(),
            vec![(0, 0, -100), (0, 3, -200), (1, 1, -50), (0, 1, -3000)]
        ),
        Err(e) => panic!("unexpected fault: {:?}", e),
    }
}

#[test]
fn equal_candidates_of_two_parents_are_both_taken_the_lower_token_first() {
    let mut c = seeded(config(2, 9), 4, None, vec![0]);
    let mut idle = Idle;
    let first = vec![vec![-9000, -1000, -1000, -9000], vec![-9000, -1000, -1000, -9000]];
    assert_eq!(c.advance(&first, &mut idle), Ok(vec![0, 0]));
    assert_eq!(tokens_of(&c.group.live), vec![vec![0, 1], vec![0, 2]]);
    assert_eq!(scores_of(&c.group.live), vec![-1000, -1000]);
    assert_eq!(c.state, SearchState::Searching);
    let second = vec![vec![-9000, -9000, -9000, -500], vec![-9000, -9000, -500, -9000]];
    assert_eq!(c.advance(&second, &mut idle), Ok(vec![1, 0]));
    assert_eq!(tokens_of(&c.group.live), vec![vec![0, 2, 2], vec![0, 1, 3]]);
    assert_eq!(scores_of(&c.group.live), vec![-1500, -1500]);
    assert_eq!(c.group.live[0].slot, 0);
    assert_eq!(c.group.live[1].slot, 1);
    assert_eq!(c.length, 3);
}

#[test]
fn equal_candidates_of_one_token_are_taken_the_lower_slot_first() {
    let mut c = seeded(config(2, 9), 4, None, vec![0]);
    let mut idle = Idle;
    let first = vec![vec![-9000, -1000, -1000, -9000], vec![-9000, -1000, -1000, -9000]];
    assert_eq!(c.advance(&first, &mut idle), Ok(vec![0, 0]));
    let second = vec![vec![-9000, -9000, -9000, -500], vec![-9000, -9000, -9000, -500]];
    assert_eq!(c.advance(&second, &mut idle), Ok(vec![0, 1]));
    assert_eq!(tokens_of(&c.group.live), vec![vec![0, 1, 3], vec![0, 2, 3]]);
}

#[test]
fn the_end_marker_is_not_a_candidate_before_the_minimum_length() {
    let c = seeded(GenerateConfig { min_length: 3, ..config(1, 9) }, 3, Some(1), vec![0]);
    match c.ranked_candidates(&vec![vec![-5, -1, -9]]) {
        Ok(list) => assert_eq!(
            list.iter().map(triple).collect::<Vec<_>>(),
            vec![(0, 0, -5), (0, 2, -9)]
        ),
        Err(e) => panic!("unexpected fault: {:?}", e),
    }
    let c = seeded(GenerateConfig { min_length: 2, ..config(1, 9) }, 3, Some(1), vec![0]);
    match c.ranked_candidates(&vec![vec![-5, -1, -9]]) {
        Ok(list) => assert_eq!(
            list.iter().map(triple).collect::<Vec<_>>(),
            vec![(0, 1, -1), (0, 0, -5)]
        ),
        Err(e) => panic!("unexpected fault: {:?}", e),
    }
}

#[test]
fn candidates_carry_the_penalised_scores() {
    let settings = GenerateConfig {
        repetition_penalty: 3000,
        no_repeat_ngram_size: 2,
        ..config(1, 9)
    };
    let c = seeded(settings, 4, None, vec![1, 2, 1]);
    match c.ranked_candidates(&vec![vec![-100, -20, -10, -70]]) {
        Ok(list) => assert_eq!(
            list.iter().map(triple).collect::<Vec<_>>(),
            vec![(0, 1, -60), (0, 3, -70)]
        ),
        Err(e) => panic!("unexpected fault: {:?}", e),
    }
}

#[test]
fn a_step_leaves_the_search_unchanged_on_a_fault() {
    let mut c = seeded(config(2, 9), 3, None, vec![0]);
    let mut idle = Idle;
    assert_eq!(
        c.advance(&vec![vec![-1, -2, -3]], &mut idle),
        Err(BackendError::DimensionMismatch)
    );
    assert_eq!(
        c.advance(&vec![vec![-1, -2, -3], vec![-1, 2, -3]], &mut idle),
        Err(BackendError::InvalidScore)
    );
    assert_eq!(c.state, SearchState::Seeded);
    assert_eq!(c.length, 1);
    assert_eq!(tokens_of(&c.group.live), vec![vec![0], vec![0]]);
}

#[test]
fn the_search_ends_at_the_maximum_length() {
    let mut c = seeded(config(2, 3), 3, None, vec![0]);
    let mut idle = Idle;
    let rows = vec![vec![-1, -2, -3], vec![-1, -2, -3]];
    assert_eq!(c.advance(&rows, &mut idle), Ok(vec![0, 0]));
    assert_eq!(c.state, SearchState::Searching);
    assert_eq!(c.advance(&rows, &mut idle), Ok(vec![]));
    assert_eq!(c.state, SearchState::Done);
    assert_eq!(c.length, 3);
    assert!(c.group.live.is_empty());
    assert_eq!(tokens_of(&c.group.completed), vec![vec![0, 0, 0], vec![0, 1, 0]]);
    assert_eq!(scores_of(&c.group.completed), vec![-2, -3]);
}

#[test]
fn the_search_ends_when_every_candidate_is_banned() {
    let settings = GenerateConfig { no_repeat_ngram_size: 1, ..config(1, 9) };
    let mut c = seeded(settings, 2, None, vec![0]);
    let mut idle = Idle;
    assert_eq!(c.advance(&vec![vec![-1, -2]], &mut idle), Ok(vec![0]));
    assert_eq!(tokens_of(&c.group.live), vec![vec![0, 1]]);
    assert_eq!(c.advance(&vec![vec![-1, -2]], &mut idle), Ok(vec![]));
    assert_eq!(c.state, SearchState::Done);
    assert!(c.group.live.is_empty());
    assert!(c.group.completed.is_empty());
}

#[test]
fn a_full_finished_set_that_no_live_hypothesis_beats_ends_the_search() {
    let mut c = seeded(config(1, 9), 3, Some(2), vec![0]);
    let mut idle = Idle;
    assert_eq!(c.advance(&vec![vec![-30, -20, -10]], &mut idle), Ok(vec![0]));
    assert_eq!(tokens_of(&c.group.completed), vec![vec![0, 2]]);
    assert_eq!(tokens_of(&c.group.live), vec![vec![0, 1]]);
    assert_eq!(c.state, SearchState::Done);
}

#[test]
fn the_search_goes_on_until_the_finished_set_is_full() {
    let mut c = seeded(config(2, 9), 3, Some(2), vec![0]);
    let mut idle = Idle;
    let rows = vec![vec![-30, -20, -10], vec![-30, -20, -10]];
    assert_eq!(c.advance(&rows, &mut idle), Ok(vec![0, 0]));
    assert_eq!(tokens_of(&c.group.completed), vec![vec![0, 2]]);
    assert_eq!(tokens_of(&c.group.live), vec![vec![0, 1], vec![0, 0]]);
    assert_eq!(c.state, SearchState::Searching);
    assert_eq!(c.advance(&rows, &mut idle), Ok(vec![0, 0]));
    assert_eq!(tokens_of(&c.group.completed), vec![vec![0, 2], vec![0, 1, 2]]);
    assert_eq!(scores_of(&c.group.completed), vec![-10, -30]);
    assert_eq!(tokens_of(&c.group.live), vec![vec![0, 1, 1], vec![0, 1, 0]]);
    assert_eq!(scores_of(&c.group.live), vec![-40, -50]);
    assert_eq!(c.state, SearchState::Done);
}

fn two_steps_with_a_rising_live_hypothesis(early_stopping: bool) -> SearchController {
    let settings = GenerateConfig { early_stopping, length_penalty: 2, ..config(2, 9) };
    let mut c = seeded(settings, 3, Some(2), vec![0]);
    let mut idle = Idle;
    let first = vec![vec![-11, -12, -10], vec![-11, -12, -10]];
    assert_eq!(c.advance(&first, &mut idle), Ok(vec![0, 0]));
    assert_eq!(c.state, SearchState::Searching);
    let second = vec![vec![-1, -50, 0], vec![-1, -50, -50]];
    assert_eq!(c.advance(&second, &mut idle), Ok(vec![0, 1]));
    assert_eq!(tokens_of(&c.group.completed), vec![vec![0, 2], vec![0, 0, 2]]);
    assert_eq!(scores_of(&c.group.completed), vec![-10, -11]);
    assert_eq!(tokens_of(&c.group.live), vec![vec![0, 0, 0], vec![0, 1, 0]]);
    assert_eq!(scores_of(&c.group.live), vec![-12, -13]);
    c
}

#[test]
fn a_live_hypothesis_above_a_finished_one_keeps_the_search_going() {
    let c = two_steps_with_a_rising_live_hypothesis(false);
    assert_eq!(c.state, SearchState::Searching);
}

#[test]
fn early_stopping_ends_the_search_with_a_full_finished_set() {
    let c = two_steps_with_a_rising_live_hypothesis(true);
    assert_eq!(c.state, SearchState::Done);
}

#[test]
fn the_step_takes_given_candidates() {
    let mut c = seeded(config(2, 9), 5, Some(4), vec![0]);
    let candidates = vec![
        Candidate { parent: 1, token: 3, log_prob: -7 },
        Candidate { parent: 0, token: 2, log_prob: NEG_INF },
        Candidate { parent: 0, token: 1, log_prob: -9 },
    ];
    assert_eq!(c.step(&candidates), vec![1, 0]);
    assert_eq!(tokens_of(&c.group.live), vec![vec![0, 3], vec![0, 1]]);
    assert_eq!(scores_of(&c.group.live), vec![SEED_OFFSET - 7, -9]);
    assert_eq!(c.state, SearchState::Searching);
    assert_eq!(c.length, 2);
}

#[test]
fn drawn_tokens_continue_their_slots() {
    let settings = GenerateConfig { do_sample: true, temperature: 500, top_k: 2, ..config(2, 9) };
    let mut c = seeded(settings, 4, None, vec![0]);
    let mut backend = Scripted::new(
        vec![vec![60, 40, 7, 7], vec![1, 1, 30, 70]],
        vec![Ok(1), Ok(3)],
    );
    let rows = vec![vec![-100, -200, -300, -400], vec![-400, -300, -200, -100]];
    assert_eq!(c.advance(&rows, &mut backend), Ok(vec![0, 1]));
    assert_eq!(
        backend.scores_seen,
        vec![vec![-200, -400, NEG_INF, NEG_INF], vec![NEG_INF, NEG_INF, -400, -200]]
    );
    assert_eq!(backend.weights_seen, vec![vec![60, 40, 0, 0], vec![0, 0, 30, 70]]);
    assert_eq!(tokens_of(&c.group.live), vec![vec![0, 1], vec![0, 3]]);
    assert_eq!(scores_of(&c.group.live), vec![-200, -100]);
}

#[test]
fn top_p_limits_what_is_drawn_from() {
    let settings = GenerateConfig { do_sample: true, top_p: 500, ..config(1, 9) };
    let mut c = seeded(settings, 4, None, vec![0]);
    let mut backend = Scripted::new(vec![vec![10, 50, 30, 10]], vec![Ok(1)]);
    let rows = vec![vec![-100, -200, -300, -400]];
    assert_eq!(c.advance(&rows, &mut backend), Ok(vec![0]));
    assert_eq!(backend.weights_seen, vec![vec![0, 50, 0, 0]]);
    assert_eq!(tokens_of(&c.group.live), vec![vec![0, 1]]);
    assert_eq!(scores_of(&c.group.live), vec![-200]);
}

#[test]
fn a_draw_without_weight_is_a_fault() {
    let settings = GenerateConfig { do_sample: true, top_k: 2, ..config(1, 9) };
    let mut c = seeded(settings, 4, None, vec![0]);
    let rows = vec![vec![-100, -200, -300, -400]];
    let mut backend = Scripted::new(vec![vec![25, 25, 25, 25]], vec![Ok(2)]);
    assert_eq!(c.advance(&rows, &mut backend), Err(BackendError::InvalidDraw));
    let mut backend = Scripted::new(vec![vec![25, 25, 25, 25]], vec![Ok(4)]);
    assert_eq!(c.advance(&rows, &mut backend), Err(BackendError::InvalidDraw));
    assert_eq!(c.state, SearchState::Seeded);
    assert_eq!(tokens_of(&c.group.live), vec![vec![0]]);
}

#[test]
fn weights_of_the_wrong_length_are_a_fault() {
    let settings = GenerateConfig { do_sample: true, ..config(1, 9) };
    let mut c = seeded(settings, 4, None, vec![0]);
    let rows = vec![vec![-100, -200, -300, -400]];
    let mut backend = Scripted::new(vec![vec![25, 25, 25]], vec![Ok(0)]);
    assert_eq!(c.advance(&rows, &mut backend), Err(BackendError::DimensionMismatch));
}

#[test]
fn a_fault_of_the_backend_is_handed_on() {
    let settings = GenerateConfig { do_sample: true, ..config(1, 9) };
    let mut c = seeded(settings, 4, None, vec![0]);
    let rows = vec![vec![-100, -200, -300, -400]];
    let mut idle = Idle;
    assert_eq!(c.advance(&rows, &mut idle), Err(BackendError::Device));
    let mut backend = Scripted::new(vec![vec![25, 25, 25, 25]], vec![Err(BackendError::Device)]);
    assert_eq!(c.advance(&rows, &mut backend), Err(BackendError::Device));
}

#[test]
fn a_slot_with_nothing_to_draw_is_dropped() {
    let settings = GenerateConfig { do_sample: true, ..config(2, 9) };
    let mut c = seeded(settings, 3, None, vec![0]);
    let rows = vec![vec![NEG_INF, NEG_INF, NEG_INF], vec![-1, -2, -3]];
    let mut backend = Scripted::new(vec![vec![1, 1, 1], vec![1, 1, 1]], vec![Ok(2)]);
    assert_eq!(c.advance(&rows, &mut backend), Ok(vec![1]));
    assert_eq!(tokens_of(&c.group.live), vec![vec![0, 2]]);
    assert_eq!(scores_of(&c.group.live), vec![-3]);
}

#[test]
fn a_drawn_candidate_is_checked() {
    let c = seeded(GenerateConfig { do_sample: true, ..config(2, 9) }, 3, None, vec![0]);
    let ranked = vec![-10, -20, -30];
    let weights = vec![5, 0, 7];
    match c.drawn_candidate(1, &ranked, &weights, 2) {
        Ok(candidate) => assert_eq!(triple(&candidate), (1, 2, -30)),
        Err(e) => panic!("unexpected fault: {:?}", e),
    }
    assert!(matches!(
        c.drawn_candidate(1, &ranked, &weights, 1),
        Err(BackendError::InvalidDraw)
    ));
    assert!(matches!(
        c.drawn_candidate(1, &ranked, &weights, 3),
        Err(BackendError::InvalidDraw)
    ));
}

#[test]
fn the_model_is_fed_the_prefix_first_and_the_last_token_afterwards() {
    let mut c = seeded(config(2, 9), 3, None, vec![0, 2]);
    let mut idle = Idle;
    assert_eq!(c.pending_tails(), vec![vec![0, 2], vec![0, 2]]);
    let rows = vec![vec![-3, -2, -1], vec![-3, -2, -1]];
    assert_eq!(c.advance(&rows, &mut idle), Ok(vec![0, 0]));
    assert_eq!(c.pending_tails(), vec![vec![2], vec![1]]);
}

#[test]
fn the_scores_that_rank_are_penalised_and_blocked() {
    let settings = GenerateConfig {
        repetition_penalty: 2000,
        no_repeat_ngram_size: 2,
        min_length: 9,
        ..config(1, 9)
    };
    let c = seeded(settings, 5, Some(4), vec![1, 2, 1]);
    assert_eq!(
        c.ranking_scores(0, &vec![-100, -20, -10, -70, -5]),
        vec![-100, -40, NEG_INF, -70, NEG_INF]
    );
}

#[test]
fn the_scores_that_are_drawn_from_are_cooled_and_cut() {
    let settings = GenerateConfig {
        do_sample: true,
        repetition_penalty: 2000,
        temperature: 500,
        top_k: 2,
        ..config(1, 9)
    };
    let c = seeded(settings, 5, None, vec![1]);
    assert_eq!(
        c.sampling_scores(0, &vec![-100, -20, -10, -70, -50]),
        vec![NEG_INF, -80, -20, NEG_INF, NEG_INF]
    );
    let flat = GenerateConfig { top_k: 0, temperature: 2000, ..settings };
    let c = seeded(flat, 5, None, vec![1]);
    assert_eq!(
        c.sampling_scores(0, &vec![-100, -20, -10, -70, -50]),
        vec![-50, -20, -5, -35, -25]
    );
}

#[test]
fn the_weights_of_the_backend_decide_what_is_asked_of_it() {
    let settings = GenerateConfig { do_sample: true, top_p: 500, ..config(1, 9) };
    let c = seeded(settings, 4, None, vec![0]);
    let scores = vec![-100, -200, NEG_INF, -400];
    assert_eq!(
        c.draw_request(&scores, &vec![10, 50, 30, 10]),
        Ok(Some(vec![0, 50, 0, 0]))
    );
    assert_eq!(
        c.draw_request(&scores, &vec![20, 20, 50, 10]),
        Ok(Some(vec![20, 20, 0, 0]))
    );
    assert_eq!(c.draw_request(&scores, &vec![0, 0, 7, 0]), Ok(None));
    assert_eq!(
        c.draw_request(&vec![NEG_INF, NEG_INF], &vec![7, 7]),
        Ok(None)
    );
    assert_eq!(
        c.draw_request(&scores, &vec![10, 50, 30]),
        Err(BackendError::DimensionMismatch)
    );
    assert_eq!(
        c.draw_request(&scores, &vec![10, 50, 30, 10, 1]),
        Err(BackendError::DimensionMismatch)
    );
}
