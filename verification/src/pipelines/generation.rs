//! Generation of token sequences: the loop that feeds a model, takes the
//! steps of the search and keeps the cached state of the model in line
//! with the hypotheses.

use vstd::prelude::*;
use super::adapter::{same_model, BackendError, ModelAdapter, TensorBackend};
use super::config::{ConfigurationError, GenerateConfig};
use super::hypothesis::{Candidate, HypothesisModel};
use super::ngram::{has_repeated_ngram, lemma_fresh_everywhere, no_repeat_after};
use super::output::{
    holds_rank, is_top, ranked_at, select_outputs, sequences_of,
    InsufficientHypothesesError,
};
use super::score::TokenId;
use super::search::{
    finished, grown, seed_violation, starts_with, SearchController, SearchState,
};

verus! {

/// Why no sequences, or not all of them, came back for an input.
#[derive(Debug)]
pub enum GenerationError {
    /// The configuration or the input was refused before the search.
    Configuration(ConfigurationError),
    /// The model or the numeric backend failed; the search for this input
    /// was given up.
    Backend(BackendError),
    /// The search ended with fewer finished hypotheses than were asked
    /// for. The sequences that could be had are in the report.
    Insufficient(InsufficientHypothesesError),
}

/// What holds of every returned sequence: its length is within the
/// limits, it starts with the prefix, and where n-grams may not repeat,
/// none that ends in the generated part repeats an earlier one.
pub open spec fn sound_sequence(
    tokens: Seq<TokenId>,
    prefix: Seq<TokenId>,
    config: GenerateConfig,
) -> bool {
    &&& config.min_length <= tokens.len() <= config.max_length
    &&& starts_with(tokens, prefix)
    &&& config.no_repeat_ngram_size > 0 ==> no_repeat_after(
        tokens,
        config.no_repeat_ngram_size as int,
        prefix.len() as int,
    )
}

/// A sound sequence whose prefix repeats no n-gram repeats none at all.
pub proof fn lemma_sound_sequence_repeats_nothing(
    tokens: Seq<TokenId>,
    prefix: Seq<TokenId>,
    config: GenerateConfig,
)
    requires
        config.no_repeat_ngram_size > 0,
        sound_sequence(tokens, prefix, config),
        !has_repeated_ngram(prefix, config.no_repeat_ngram_size as int),
    ensures
        !has_repeated_ngram(tokens, config.no_repeat_ngram_size as int),
{
    assert(tokens.subrange(0, prefix.len() as int) =~= tokens.take(prefix.len() as int));
    lemma_fresh_everywhere(tokens, config.no_repeat_ngram_size as int, prefix.len() as int);
}

/// Where every slot of the model holds the state of its hypothesis, and
/// the slots are reordered by what a step returned, every slot holds
/// afterwards the state that its hypothesis continues: all but the last
/// token of the hypothesis that is now live in it.
pub proof fn lemma_reordered_cache_follows(
    before: Seq<HypothesisModel>,
    after: Seq<HypothesisModel>,
    parents: Seq<usize>,
    fed: Seq<Seq<TokenId>>,
    reordered: Seq<Seq<TokenId>>,
)
    requires
        fed.len() == before.len(),
        forall|i: int| 0 <= i < fed.len() ==> #[trigger] fed[i] == before[i].tokens,
        parents.len() == after.len(),
        forall|i: int|
            0 <= i < parents.len() ==> (#[trigger] parents[i]) < before.len()
                && after[i].tokens.drop_last() == before[parents[i] as int].tokens,
        reordered.len() == parents.len(),
        forall|i: int|
            0 <= i < reordered.len() ==> #[trigger] reordered[i] == fed[parents[i] as int],
    ensures
        forall|i: int|
            0 <= i < reordered.len() ==> #[trigger] reordered[i] == after[i].tokens.drop_last(),
{
    assert forall|i: int| 0 <= i < reordered.len() implies #[trigger] reordered[i]
        == after[i].tokens.drop_last() by {
        assert(parents[i] < before.len());
        assert(fed[parents[i] as int] == before[parents[i] as int].tokens);
    }
}

/// Takes one step of the search with the model: feeds each slot what it
/// has not seen, takes the step with the rows that come back, and where
/// the search goes on has the cached state reordered, so that the slot of
/// every live hypothesis holds the state of the hypothesis that it
/// continues. After a fault the search cannot go on. A caller that runs
/// the steps itself may give the search up between two of them by
/// dropping it; nothing comes back then.
pub fn decode_step<M: ModelAdapter, B: TensorBackend>(
    controller: &mut SearchController,
    model: &mut M,
    backend: &mut B,
) -> (r: Result<(), BackendError>)
    requires
        old(controller).wf(),
        old(controller).state != SearchState::Done,
    ensures
        same_model(*old(model), *final(model)),
        final(controller).wf(),
        final(controller).config == old(controller).config,
        final(controller).vocab_size == old(controller).vocab_size,
        final(controller).prefix == old(controller).prefix,
        final(controller).group.policy == old(controller).group.policy,
        r is Ok ==> final(controller).length == old(controller).length + 1
            && final(controller).state == SearchController::state_after(final(controller).group),
        r is Ok && !old(controller).config.do_sample ==> old(controller).steps_by_score_to(
            *final(controller),
        ),
        r is Ok && old(controller).config.do_sample ==> old(controller).steps_by_draws_to(
            *final(controller),
        ),
        r is Err ==> *final(controller) == *old(controller) || (final(controller).length == old(
            controller,
        ).length + 1 && final(controller).state == SearchState::Searching),
{
    let tails: Vec<Vec<TokenId>> = controller.pending_tails();
    let rows = match model.step(&tails) {
        Ok(rows) => rows,
        Err(e) => {
            return Err(e);
        },
    };
    let parents = match controller.advance(&rows, backend) {
        Ok(parents) => parents,
        Err(e) => {
            return Err(e);
        },
    };
    proof {
        if old(controller).config.do_sample {
            let candidates = choose|candidates: Seq<Candidate>|
                #[trigger] old(controller).steps_by_draws_with(
                    *controller,
                    rows@,
                    candidates,
                    parents@,
                );
            assert(old(controller).steps_by_draws_with(*controller, rows@, candidates, parents@));
        } else {
            assert(old(controller).steps_by_score_with(*controller, rows@, parents@));
        }
    }
    match controller.state {
        SearchState::Done => Ok(()),
        _ => model.reorder(&parents),
    }
}

/// Whether every sequence of the list is a sound continuation of the
/// prefix.
pub open spec fn all_sound(
    list: Seq<Vec<TokenId>>,
    prefix: Seq<TokenId>,
    config: GenerateConfig,
) -> bool {
    forall|r: int| 0 <= r < list.len() ==> sound_sequence((#[trigger] list[r])@, prefix, config)
}

/// Whether each of the first `count` sequences of the list has ended: it
/// has the maximum length or ends with a generated end marker, what was
/// generated is made of tokens of the vocabulary, and the end marker
/// stands nowhere in it but at the end.
pub open spec fn all_finished(
    list: Seq<Vec<TokenId>>,
    count: int,
    prefix: Seq<TokenId>,
    config: GenerateConfig,
    vocab_size: usize,
    eos_token_id: Option<TokenId>,
) -> bool {
    forall|r: int|
        0 <= r < count ==> finished(
            (#[trigger] list[r])@,
            prefix.len() as int,
            config.max_length as int,
            vocab_size as int,
            eos_token_id,
        )
}

/// Whether each sequence of the list from position `from` on is one that
/// has not ended: what was generated is made of tokens of the vocabulary,
/// none of them the end marker.
pub open spec fn all_grown(
    list: Seq<Vec<TokenId>>,
    from: int,
    prefix: Seq<TokenId>,
    vocab_size: usize,
    eos_token_id: Option<TokenId>,
) -> bool {
    forall|r: int|
        from <= r < list.len() ==> grown(
            (#[trigger] list[r])@,
            prefix.len() as int,
            vocab_size as int,
            eos_token_id,
        )
}

/// What came back for one input.
pub type Generated = Result<Vec<Vec<TokenId>>, GenerationError>;

/// What holds of whatever comes back for a prefix, a vocabulary and an
/// end marker.
///
/// A result has `num_return_sequences` sequences, each sound and ended.
/// A report that too few hypotheses finished holds fewer finished
/// sequences than were asked for, each sound and ended, followed by
/// sequences that have not ended, each sound. A refusal names the first
/// reason for which the search cannot be set up. A fault of the model or
/// the backend comes only with a valid configuration.
pub open spec fn outcome_sound(
    outcome: Generated,
    prefix: Seq<TokenId>,
    config: GenerateConfig,
    vocab_size: usize,
    eos_token_id: Option<TokenId>,
) -> bool {
    match outcome {
        Ok(list) => {
            &&& seed_violation(config, vocab_size, prefix.len() as int) is None
            &&& list.len() == config.num_return_sequences
            &&& all_sound(list@, prefix, config)
            &&& all_finished(list@, list.len() as int, prefix, config, vocab_size, eos_token_id)
        },
        Err(GenerationError::Insufficient(e)) => {
            &&& seed_violation(config, vocab_size, prefix.len() as int) is None
            &&& e.requested == config.num_return_sequences
            &&& e.completed < e.requested
            &&& e.completed <= e.sequences.len() <= e.requested
            &&& all_sound(e.sequences@, prefix, config)
            &&& all_finished(
                e.sequences@,
                e.completed as int,
                prefix,
                config,
                vocab_size,
                eos_token_id,
            )
            &&& all_grown(e.sequences@, e.completed as int, prefix, vocab_size, eos_token_id)
        },
        Err(GenerationError::Configuration(e)) => seed_violation(
            config,
            vocab_size,
            prefix.len() as int,
        ) == Some(e),
        Err(GenerationError::Backend(_)) => config.violation() is None,
    }
}

/// What holds besides where the prefix already has the maximum length:
/// the search ends when it is set up, without the model and the backend.
/// The result is the prefix itself, as often as was asked for; where
/// more was asked for than there are beams, the report holds it once for
/// each beam.
pub open spec fn outcome_at_limit(
    outcome: Generated,
    prefix: Seq<TokenId>,
    config: GenerateConfig,
) -> bool {
    match outcome {
        Ok(list) => config.num_return_sequences <= config.num_beams && forall|r: int|
            0 <= r < list.len() ==> (#[trigger] list[r])@ == prefix,
        Err(GenerationError::Insufficient(e)) => config.num_return_sequences > config.num_beams
            && e.completed == config.num_beams && e.sequences.len() == config.num_beams
            && forall|r: int| 0 <= r < e.sequences.len() ==> (#[trigger] e.sequences[r])@ == prefix,
        _ => false,
    }
}

/// Being the same model is handed on from state to state.
pub proof fn lemma_same_model_hands_on<M: ModelAdapter>(first: M, second: M, third: M)
    requires
        same_model(first, second),
        same_model(second, third),
    ensures
        same_model(first, third),
{
    assert forall|input: Vec<TokenId>|
        (#[trigger] third.prefix_for(&input))@ == first.prefix_for(&input)@ by {
        assert(second.prefix_for(&input)@ == first.prefix_for(&input)@);
    }
}

/// A sound sequence for a prefix of the maximum length is the prefix.
proof fn lemma_sound_at_limit(tokens: Seq<TokenId>, prefix: Seq<TokenId>, config: GenerateConfig)
    requires
        sound_sequence(tokens, prefix, config),
        prefix.len() == config.max_length,
    ensures
        tokens == prefix,
{
    assert(tokens.take(prefix.len() as int) =~= tokens);
}

/// The sequences chosen from the hypotheses of a search are sound, and
/// ended where they are chosen from the finished ones.
proof fn lemma_chosen_sound(
    controller: &SearchController,
    entries: Seq<HypothesisModel>,
    chosen: Seq<Seq<TokenId>>,
    limit: int,
    from_finished: bool,
)
    requires
        controller.wf(),
        is_top(entries, chosen, limit, controller.group.policy),
        from_finished ==> entries == controller.group.completed_models(),
        !from_finished ==> entries == controller.group.live_models() && (entries.len() > 0
            ==> controller.length >= controller.config.min_length),
    ensures
        forall|r: int|
            0 <= r < chosen.len() ==> sound_sequence(
                #[trigger] chosen[r],
                controller.prefix@,
                controller.config,
            ) && if from_finished {
                finished(
                    chosen[r],
                    controller.prefix.len() as int,
                    controller.config.max_length as int,
                    controller.vocab_size as int,
                    controller.group.policy.eos_token_id,
                )
            } else {
                grown(
                    chosen[r],
                    controller.prefix.len() as int,
                    controller.vocab_size as int,
                    controller.group.policy.eos_token_id,
                )
            },
{
    assert forall|r: int| 0 <= r < chosen.len() implies sound_sequence(
        #[trigger] chosen[r],
        controller.prefix@,
        controller.config,
    ) && if from_finished {
        finished(
            chosen[r],
            controller.prefix.len() as int,
            controller.config.max_length as int,
            controller.vocab_size as int,
            controller.group.policy.eos_token_id,
        )
    } else {
        grown(
            chosen[r],
            controller.prefix.len() as int,
            controller.vocab_size as int,
            controller.group.policy.eos_token_id,
        )
    } by {
        assert(ranked_at(entries, chosen, r, controller.group.policy));
        let i = choose|i: int| holds_rank(entries, i, r, chosen[r], controller.group.policy);
        if from_finished {
            assert(entries[i] == controller.group.completed[i]@);
            assert(controller.completed_sound(controller.group.completed[i]@));
            assert(controller.group.policy.admits(controller.group.completed[i]@));
        } else {
            assert(entries[i] == controller.group.live[i]@);
            assert(controller.live_sound(controller.group.live[i]@));
            assert(controller.group.policy.admits(controller.group.live[i]@));
        }
    }
}

/// Searches from a prefix with a model that has `num_beams` empty slots,
/// and returns the `num_return_sequences` best finished sequences, best
/// first. A prefix that already has the maximum length comes back
/// without the model being asked. No fault comes up then.
pub fn search_from<M: ModelAdapter, B: TensorBackend>(
    model: &mut M,
    backend: &mut B,
    prefix: &Vec<TokenId>,
    config: GenerateConfig,
    vocab_size: usize,
    eos_token_id: Option<TokenId>,
) -> (r: Generated)
    ensures
        same_model(*old(model), *final(model)),
        outcome_sound(r, prefix@, config, vocab_size, eos_token_id),
        seed_violation(config, vocab_size, prefix.len() as int) matches Some(e) ==> r matches Err(
            GenerationError::Configuration(f),
        ) && f == e,
        r matches Err(GenerationError::Backend(_)) ==> seed_violation(
            config,
            vocab_size,
            prefix.len() as int,
        ) is None && prefix.len() < config.max_length,
        seed_violation(config, vocab_size, prefix.len() as int) is None && prefix.len()
            == config.max_length ==> outcome_at_limit(r, prefix@, config) && *final(model) == *old(
            model,
        ),
{
    let mut controller = match SearchController::seed(config, vocab_size, eos_token_id, prefix) {
        Ok(c) => c,
        Err(e) => {
            return Err(GenerationError::Configuration(e));
        },
    };
    let ghost at_limit = prefix.len() == config.max_length;
    proof {
        if at_limit {
            assert(controller.group.completed_models().len() == config.num_beams);
            assert(controller.group.completed.len() == config.num_beams);
        }
    }
    while controller.state != SearchState::Done
        invariant
            controller.wf(),
            controller.config == config,
            controller.vocab_size == vocab_size,
            controller.group.policy.eos_token_id == eos_token_id,
            controller.prefix@ == prefix@,
            controller.state == SearchState::Done ==> controller.group.live.len() == 0
                || controller.group.completed.len() > 0,
            seed_violation(config, vocab_size, prefix.len() as int) is None,
            same_model(*old(model), *model),
            at_limit == (prefix.len() == config.max_length),
            at_limit ==> *model == *old(model) && controller.group.live.len() == 0
                && controller.group.completed.len() == config.num_beams,
            !at_limit ==> prefix.len() < config.max_length,
        decreases config.max_length - controller.length,
    {
        let ghost before = *model;
        match decode_step(&mut controller, model, backend) {
            Ok(()) => {},
            Err(e) => {
                proof {
                    lemma_same_model_hands_on(*old(model), before, *model);
                }
                return Err(GenerationError::Backend(e));
            },
        }
        proof {
            lemma_same_model_hands_on(*old(model), before, *model);
        }
    }
    proof {
        if controller.group.live.len() > 0 {
            let first = controller.group.completed[0]@;
            assert(controller.completed_sound(first));
        }
    }
    match select_outputs(&controller.group, config.num_return_sequences) {
        Ok(list) => {
            proof {
                lemma_chosen_sound(
                    &controller,
                    controller.group.completed_models(),
                    sequences_of(list@),
                    config.num_return_sequences as int,
                    true,
                );
                assert(sequences_of(list@).len() == list.len());
                assert forall|r: int| 0 <= r < list.len() implies sound_sequence(
                    (#[trigger] list[r])@,
                    prefix@,
                    config,
                ) && finished(
                    list[r]@,
                    prefix.len() as int,
                    config.max_length as int,
                    vocab_size as int,
                    eos_token_id,
                ) && (at_limit ==> list[r]@ == prefix@) by {
                    assert(sequences_of(list@)[r] == list[r]@);
                    if at_limit {
                        lemma_sound_at_limit(list[r]@, prefix@, config);
                    }
                }
            }
            Ok(list)
        },
        Err(e) => {
            proof {
                let all = sequences_of(e.sequences@);
                let head = all.take(e.completed as int);
                let tail = all.skip(e.completed as int);
                lemma_chosen_sound(
                    &controller,
                    controller.group.completed_models(),
                    head,
                    config.num_return_sequences as int,
                    true,
                );
                lemma_chosen_sound(
                    &controller,
                    controller.group.live_models(),
                    tail,
                    config.num_return_sequences - e.completed,
                    false,
                );
                assert forall|r: int| 0 <= r < e.sequences.len() implies sound_sequence(
                    (#[trigger] e.sequences[r])@,
                    prefix@,
                    config,
                ) && (r < e.completed ==> finished(
                    e.sequences[r]@,
                    prefix.len() as int,
                    config.max_length as int,
                    vocab_size as int,
                    eos_token_id,
                )) && (r >= e.completed ==> grown(
                    e.sequences[r]@,
                    prefix.len() as int,
                    vocab_size as int,
                    eos_token_id,
                )) && (at_limit ==> e.sequences[r]@ == prefix@) by {
                    assert(all[r] == e.sequences[r]@);
                    if r < e.completed {
                        assert(head[r] == all[r]);
                    } else {
                        assert(tail[r - e.completed] == all[r]);
                    }
                    if at_limit {
                        lemma_sound_at_limit(e.sequences[r]@, prefix@, config);
                    }
                }
                if at_limit {
                    assert(tail.len() == 0);
                    assert(all.len() == head.len() + tail.len());
                }
            }
            Err(GenerationError::Insufficient(e))
        },
    }
}

/// Generates the continuations of one input: prepares the model, searches
/// from the prefix that the model names for the input, and returns the
/// `num_return_sequences` best finished sequences, best first. An invalid
/// configuration is refused before the model is touched.
pub fn generate_one<M: ModelAdapter, B: TensorBackend>(
    model: &mut M,
    backend: &mut B,
    input: &Vec<TokenId>,
    config: GenerateConfig,
) -> (r: Generated)
    ensures
        same_model(*old(model), *final(model)),
        outcome_sound(
            r,
            old(model).prefix_for(input)@,
            config,
            old(model).vocabulary(),
            old(model).end_marker(),
        ),
        config.violation() matches Some(e) ==> r matches Err(GenerationError::Configuration(f))
            && f == e && *final(model) == *old(model),
{
    match config.validate() {
        Err(e) => {
            return Err(GenerationError::Configuration(e));
        },
        Ok(()) => {},
    }
    if config.num_beams > usize::MAX as u64 {
        proof {
            let vocabulary = model.vocabulary();
            if vocabulary >= 1 {
                assert(config.num_beams * vocabulary > usize::MAX) by (nonlinear_arith)
                    requires
                        vocabulary >= 1,
                        config.num_beams > usize::MAX,
                ;
            }
        }
        return Err(GenerationError::Configuration(ConfigurationError::VocabularySize));
    }
    let prefix: Vec<TokenId> = match model.init(input, config.num_beams as usize) {
        Ok(prefix) => prefix,
        Err(e) => {
            return Err(GenerationError::Backend(e));
        },
    };
    let ghost ready = *model;
    let vocab_size: usize = model.vocab_size();
    let eos_token_id: Option<TokenId> = model.eos_token_id();
    let r = search_from(model, backend, &prefix, config, vocab_size, eos_token_id);
    proof {
        lemma_same_model_hands_on(*old(model), ready, *model);
    }
    r
}

/// What holds of what comes back for each of several inputs: outcome `i`
/// is what may come back for the prefix that the model names for input
/// `i`.
pub open spec fn outcomes_sound<M: ModelAdapter>(
    all: Seq<Generated>,
    model: M,
    inputs: Seq<Vec<TokenId>>,
    config: GenerateConfig,
) -> bool {
    &&& all.len() == inputs.len()
    &&& forall|i: int|
        0 <= i < all.len() ==> outcome_sound(
            #[trigger] all[i],
            model.prefix_for(&inputs[i])@,
            config,
            model.vocabulary(),
            model.end_marker(),
        )
}

/// Generates the continuations of every input in turn, with one
/// configuration. An invalid configuration is refused for the whole
/// call, before the model is touched; any other failure concerns its
/// input alone.
pub fn generate<M: ModelAdapter, B: TensorBackend>(
    model: &mut M,
    backend: &mut B,
    inputs: &Vec<Vec<TokenId>>,
    config: GenerateConfig,
) -> (r: Result<Vec<Generated>, ConfigurationError>)
    ensures
        same_model(*old(model), *final(model)),
        match r {
            Ok(all) => config.violation() is None && outcomes_sound(
                all@,
                *old(model),
                inputs@,
                config,
            ),
            Err(e) => config.violation() == Some(e) && *final(model) == *old(model),
        },
{
    match config.validate() {
        Err(e) => {
            return Err(e);
        },
        Ok(()) => {},
    }
    let mut all: Vec<Generated> = Vec::new();
    let mut i: usize = 0;
    while i < inputs.len()
        invariant
            i <= inputs.len(),
            all.len() == i,
            same_model(*old(model), *model),
            forall|q: int|
                0 <= q < i ==> outcome_sound(
                    #[trigger] all[q],
                    old(model).prefix_for(&inputs[q])@,
                    config,
                    old(model).vocabulary(),
                    old(model).end_marker(),
                ),
        decreases inputs.len() - i,
    {
        let ghost before = *model;
        let outcome: Generated = generate_one(model, backend, &inputs[i], config);
        proof {
            lemma_same_model_hands_on(*old(model), before, *model);
            assert(before.prefix_for(&inputs[i as int])@ == old(model).prefix_for(
                &inputs[i as int],
            )@);
        }
        all.push(outcome);
        i += 1;
    }
    Ok(all)
}

} // verus!
