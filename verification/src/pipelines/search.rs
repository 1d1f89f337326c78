//! The search controller: the state of the search for one input, the
//! candidates of each step, and the step itself.

use vstd::prelude::*;
use vstd::arithmetic::power::lemma_pow_positive;
use super::adapter::{BackendError, TensorBackend};
use super::config::{ConfigurationError, GenerateConfig};
use super::filter::{
    apply_temperature, apply_top_k, lemma_penalized_bounds, lemma_top_k_wide, penalise,
    drawing_weights, has_mass, penalised, penalty_stage, temperature_stage, top_k_stage,
    top_p_stage, weights_for_draw,
};
use super::hypothesis::{
    candidate_child, expanded, is_worst, lemma_expanded_entries, lemma_expanded_scores,
    lemma_with_completed_entries, length_weight, ranks_before, scores_descend, with_completed,
    worst_index, BeamGroup, BeamPolicy, Candidate, Hypothesis, HypothesisModel,
};
use super::ngram::{completes_seen_ngram, lemma_unbanned_token_keeps_fresh, no_repeat_after};
use super::score::{
    add_scores, copy_of, index_of_rank, lemma_best_exists, lemma_index_of_rank,
    lemma_rank_attained, lemma_rank_by_order, outranks, rank_of, ranked_len, score_sum,
    top_ranked, Score, TokenId, MIN_FINITE, NEG_INF,
};

verus! {

/// The score that every slot but the first starts from when hypotheses
/// are chosen by score: so far below the first that the first step takes
/// its hypotheses from the first slot as far as that slot has any.
pub const SEED_OFFSET: Score = -0x4000_0000_0000_0000;

/// Where a search stands.
#[derive(Clone, Copy, Debug, PartialEq, Eq, Structural)]
pub enum SearchState {
    /// The prefix is loaded and no step has been taken.
    Seeded,
    /// At least one step has been taken and more can follow.
    Searching,
    /// The search has ended.
    Done,
}

/// Whether `tokens` begins with `prefix`.
pub open spec fn starts_with(tokens: Seq<TokenId>, prefix: Seq<TokenId>) -> bool {
    prefix.len() <= tokens.len() && tokens.take(prefix.len() as int) == prefix
}

/// Whether every token after the first `from` is a token of the
/// vocabulary.
pub open spec fn in_vocabulary(tokens: Seq<TokenId>, from: int, vocab_size: int) -> bool {
    forall|k: int| from <= k < tokens.len() ==> 0 <= #[trigger] tokens[k] < vocab_size
}

/// Whether none of the tokens from position `from` up to position `to` is
/// the end marker.
pub open spec fn unended(tokens: Seq<TokenId>, from: int, to: int, eos: Option<TokenId>) -> bool {
    forall|k: int| from <= k < to ==> eos != Some(#[trigger] tokens[k])
}

/// Whether a sequence has ended: it has the maximum length, or its last
/// token was generated and is the end marker.
pub open spec fn ended_at(
    tokens: Seq<TokenId>,
    prefix_len: int,
    max_length: int,
    eos: Option<TokenId>,
) -> bool {
    tokens.len() == max_length || (tokens.len() > prefix_len && eos == Some(tokens.last()))
}

/// What holds of the generated part of a sequence that has not ended:
/// it is made of tokens of the vocabulary, none of them the end marker.
pub open spec fn grown(
    tokens: Seq<TokenId>,
    prefix_len: int,
    vocab_size: int,
    eos: Option<TokenId>,
) -> bool {
    &&& in_vocabulary(tokens, prefix_len, vocab_size)
    &&& unended(tokens, prefix_len, tokens.len() as int, eos)
}

/// What holds of a sequence that has ended: it has ended, its generated
/// part is made of tokens of the vocabulary, and the end marker stands
/// nowhere in it but at the end.
pub open spec fn finished(
    tokens: Seq<TokenId>,
    prefix_len: int,
    max_length: int,
    vocab_size: int,
    eos: Option<TokenId>,
) -> bool {
    &&& ended_at(tokens, prefix_len, max_length, eos)
    &&& in_vocabulary(tokens, prefix_len, vocab_size)
    &&& unended(tokens, prefix_len, tokens.len() - 1, eos)
}

/// The hypothesis that slot `slot` starts from.
pub open spec fn seeded(prefix: Seq<TokenId>, slot: usize, do_sample: bool) -> HypothesisModel {
    HypothesisModel {
        tokens: prefix,
        score: if slot == 0 || do_sample {
            0
        } else {
            SEED_OFFSET
        },
        finished: false,
        slot,
    }
}

/// The first reason for which a search cannot be set up; `None` where it
/// can.
pub open spec fn seed_violation(
    config: GenerateConfig,
    vocab_size: usize,
    prefix_len: int,
) -> Option<ConfigurationError> {
    if config.violation() is Some {
        config.violation()
    } else if vocab_size == 0 || vocab_size > i64::MAX || config.num_beams * vocab_size
        > usize::MAX {
        Some(ConfigurationError::VocabularySize)
    } else if prefix_len == 0 {
        Some(ConfigurationError::EmptyPrefix)
    } else if prefix_len > config.max_length {
        Some(ConfigurationError::PrefixTooLong)
    } else {
        None
    }
}

/// The scores of a row with the end marker banned where a sequence may
/// not end yet.
pub open spec fn suppress_stage(scores: Seq<Score>, eos: Option<TokenId>, may_end: bool) -> Seq<
    Score,
> {
    match eos {
        Some(e) => if !may_end && 0 <= e < scores.len() {
            scores.update(e as int, NEG_INF)
        } else {
            scores
        },
        None => scores,
    }
}

/// Bans the end marker where a sequence may not end yet.
pub fn suppress_end(scores: &mut Vec<Score>, eos: Option<TokenId>, may_end: bool)
    ensures
        final(scores)@ == suppress_stage(old(scores)@, eos, may_end),
{
    match eos {
        Some(e) => {
            if !may_end && 0 <= e && (e as u64) < scores.len() as u64 {
                scores.set(e as usize, NEG_INF);
            }
        },
        None => {},
    }
}

/// The search for one input.
#[derive(Debug)]
pub struct SearchController {
    /// The hypotheses of the search.
    pub group: BeamGroup,
    /// The parameters of the search.
    pub config: GenerateConfig,
    /// The number of tokens in the vocabulary.
    pub vocab_size: usize,
    /// The tokens that every hypothesis starts with.
    pub prefix: Vec<TokenId>,
    /// The number of tokens of each live hypothesis.
    pub length: u64,
    /// Where the search stands.
    pub state: SearchState,
}

impl SearchController {
    /// The length of the n-grams that may not repeat.
    pub open spec fn ngram_size(&self) -> int {
        self.config.no_repeat_ngram_size as int
    }

    /// What holds of every live hypothesis: it has the common length,
    /// starts with the prefix, repeats no n-gram in what was generated,
    /// and what was generated is made of tokens of the vocabulary, none of
    /// them the end marker.
    pub open spec fn live_sound(&self, h: HypothesisModel) -> bool {
        &&& h.tokens.len() == self.length
        &&& starts_with(h.tokens, self.prefix@)
        &&& self.ngram_size() > 0 ==> no_repeat_after(
            h.tokens,
            self.ngram_size(),
            self.prefix.len() as int,
        )
        &&& grown(
            h.tokens,
            self.prefix.len() as int,
            self.vocab_size as int,
            self.group.policy.eos_token_id,
        )
    }

    /// What holds of every finished hypothesis: its length is at least the
    /// minimum length and at most the common length of the live ones, it
    /// starts with the prefix, it repeats no n-gram in what was generated,
    /// it has ended, and what was generated is made of tokens of the
    /// vocabulary, with the end marker nowhere but at the end.
    pub open spec fn completed_sound(&self, h: HypothesisModel) -> bool {
        &&& self.config.min_length <= h.tokens.len() <= self.length
        &&& starts_with(h.tokens, self.prefix@)
        &&& self.ngram_size() > 0 ==> no_repeat_after(
            h.tokens,
            self.ngram_size(),
            self.prefix.len() as int,
        )
        &&& finished(
            h.tokens,
            self.prefix.len() as int,
            self.config.max_length as int,
            self.vocab_size as int,
            self.group.policy.eos_token_id,
        )
    }

    /// The invariant of a search.
    pub open spec fn wf(&self) -> bool {
        &&& self.config.valid()
        &&& self.group.wf()
        &&& self.group.policy.num_beams == self.config.num_beams
        &&& self.group.policy.max_length == self.config.max_length
        &&& self.group.policy.length_penalty == self.config.length_penalty
        &&& self.group.policy.early_stopping == self.config.early_stopping
        &&& 1 <= self.vocab_size <= i64::MAX
        &&& self.config.num_beams * self.vocab_size <= usize::MAX
        &&& 1 <= self.prefix.len() <= self.length <= self.config.max_length
        &&& forall|i: int|
            0 <= i < self.group.live.len() ==> self.live_sound(#[trigger] self.group.live[i]@)
        &&& forall|j: int|
            0 <= j < self.group.completed.len() ==> self.completed_sound(
                #[trigger] self.group.completed[j]@,
            )
        &&& self.group.live.len() > 0 ==> self.length < self.config.max_length
        &&& self.state != SearchState::Done ==> self.group.live.len() > 0
    }

    /// Sets up the search for one input: `num_beams` slots that all hold
    /// the prefix. When hypotheses are chosen by score, every slot but the
    /// first starts from `SEED_OFFSET`. A prefix that already has the
    /// maximum length ends the search at once, with the prefix finished in
    /// every slot.
    pub fn seed(
        config: GenerateConfig,
        vocab_size: usize,
        eos_token_id: Option<TokenId>,
        prefix: &Vec<TokenId>,
    ) -> (r: Result<SearchController, ConfigurationError>)
        ensures
            match r {
                Ok(c) => {
                    &&& seed_violation(config, vocab_size, prefix.len() as int) is None
                    &&& c.wf()
                    &&& c.config == config
                    &&& c.vocab_size == vocab_size
                    &&& c.group.policy.eos_token_id == eos_token_id
                    &&& c.prefix@ == prefix@
                    &&& c.length == prefix.len()
                    &&& if prefix.len() < config.max_length {
                        &&& c.state == SearchState::Seeded
                        &&& c.group.completed.len() == 0
                        &&& c.group.live_models() == Seq::new(
                            config.num_beams as nat,
                            |i: int| seeded(prefix@, i as usize, config.do_sample),
                        )
                    } else {
                        &&& c.state == SearchState::Done
                        &&& c.group.live.len() == 0
                        &&& c.group.completed_models() == Seq::new(
                            config.num_beams as nat,
                            |i: int| seeded(prefix@, i as usize, config.do_sample).seal(),
                        )
                    }
                },
                Err(e) => seed_violation(config, vocab_size, prefix.len() as int) == Some(e),
            },
    {
        match config.validate() {
            Err(e) => {
                return Err(e);
            },
            Ok(()) => {},
        }
        if vocab_size == 0 || vocab_size as u64 > i64::MAX as u64 || config.num_beams
            > usize::MAX as u64 {
            proof {
                if vocab_size >= 1 && config.num_beams > usize::MAX {
                    assert(config.num_beams * vocab_size > usize::MAX) by (nonlinear_arith)
                        requires
                            vocab_size >= 1,
                            config.num_beams > usize::MAX,
                    ;
                }
            }
            return Err(ConfigurationError::VocabularySize);
        }
        let beams: usize = config.num_beams as usize;
        if beams.checked_mul(vocab_size).is_none() {
            return Err(ConfigurationError::VocabularySize);
        }
        if prefix.len() == 0 {
            return Err(ConfigurationError::EmptyPrefix);
        }
        if prefix.len() as u64 > config.max_length {
            return Err(ConfigurationError::PrefixTooLong);
        }
        let policy = BeamPolicy {
            num_beams: beams,
            max_length: config.max_length,
            length_penalty: config.length_penalty,
            early_stopping: config.early_stopping,
            eos_token_id,
        };
        let at_limit: bool = prefix.len() as u64 == config.max_length;
        let mut group = BeamGroup::new(policy);
        let ghost size = config.no_repeat_ngram_size as int;
        let mut i: usize = 0;
        assert(group.live_models() =~= Seq::empty());
        assert(group.completed_models() =~= Seq::empty());
        while i < beams
            invariant
                i <= beams,
                beams == config.num_beams,
                config.valid(),
                1 <= prefix.len() <= config.max_length,
                at_limit == (prefix.len() == config.max_length),
                size == config.no_repeat_ngram_size,
                group.wf(),
                group.policy == policy,
                policy.num_beams == beams,
                policy.max_length == config.max_length,
                at_limit ==> group.live.len() == 0 && group.completed_models() == Seq::new(
                    i as nat,
                    |i: int| seeded(prefix@, i as usize, config.do_sample).seal(),
                ),
                !at_limit ==> group.completed.len() == 0 && group.live_models() == Seq::new(
                    i as nat,
                    |i: int| seeded(prefix@, i as usize, config.do_sample),
                ),
            decreases beams - i,
        {
            let h = Hypothesis {
                tokens: copy_of(prefix),
                score: if i == 0 || config.do_sample {
                    0
                } else {
                    SEED_OFFSET
                },
                finished: false,
                slot: i,
            };
            assert(h@ == seeded(prefix@, i, config.do_sample));
            if at_limit {
                proof {
                    let penalty = policy.length_penalty as nat;
                    assert forall|j: int| 0 <= j < group.completed.len() implies (
                    #[trigger] group.completed_models()[j]).weighable(penalty) by {
                        policy.lemma_admitted_weighable(group.completed[j]@);
                    }
                    policy.lemma_admitted_weighable(h@.seal());
                    lemma_with_completed_entries(
                        group.completed_models(),
                        h@.seal(),
                        beams as int,
                        penalty,
                    );
                }
                let ghost before = group.completed_models();
                group.complete(h);
                assert(group.completed_models() =~= Seq::new(
                    (i + 1) as nat,
                    |i: int| seeded(prefix@, i as usize, config.do_sample).seal(),
                ));
            } else {
                let ghost before = group.live_models();
                let ghost born = h@;
                group.live.push(h);
                assert(group.live_models() =~= before.push(born));
                assert(group.live_models() =~= Seq::new(
                    (i + 1) as nat,
                    |i: int| seeded(prefix@, i as usize, config.do_sample),
                ));
                assert forall|j: int| 0 <= j < group.live.len() implies group.policy.admits(
                    #[trigger] group.live[j]@,
                ) && !group.live[j].finished && group.live[j].slot == j by {
                    assert(group.live_models()[j] == group.live[j]@);
                }
            }
            i += 1;
        }
        let controller = SearchController {
            group,
            config,
            vocab_size,
            prefix: copy_of(prefix),
            length: prefix.len() as u64,
            state: if at_limit {
                SearchState::Done
            } else {
                SearchState::Seeded
            },
        };
        proof {
            assert(prefix@.take(prefix.len() as int) =~= prefix@);
            assert forall|i: int|
                0 <= i < controller.group.live.len() implies controller.live_sound(
                #[trigger] controller.group.live[i]@,
            ) by {
                assert(controller.group.live_models()[i] == controller.group.live[i]@);
            }
            assert forall|j: int|
                0 <= j < controller.group.completed.len() implies controller.completed_sound(
                #[trigger] controller.group.completed[j]@,
            ) by {
                assert(controller.group.completed_models()[j] == controller.group.completed[j]@);
            }
        }
        Ok(controller)
    }

    /// The tokens that slot `i` of the model has not been fed yet: the
    /// whole hypothesis before the first step, its last token afterwards.
    pub open spec fn pending(&self, i: int) -> Seq<TokenId> {
        if self.state == SearchState::Seeded {
            self.group.live[i]@.tokens
        } else {
            seq![self.group.live[i]@.tokens.last()]
        }
    }

    /// The tokens that each slot of the model has to be fed before the
    /// next step.
    pub fn pending_tails(&self) -> (tails: Vec<Vec<TokenId>>)
        requires
            self.wf(),
        ensures
            tails.len() == self.group.live.len(),
            forall|i: int| 0 <= i < tails.len() ==> (#[trigger] tails[i])@ == self.pending(i),
    {
        let mut tails: Vec<Vec<TokenId>> = Vec::new();
        let mut i: usize = 0;
        while i < self.group.live.len()
            invariant
                i <= self.group.live.len(),
                self.wf(),
                tails.len() == i,
                forall|q: int| 0 <= q < i ==> (#[trigger] tails[q])@ == self.pending(q),
            decreases self.group.live.len() - i,
        {
            let h = &self.group.live[i];
            assert(self.group.policy.admits(self.group.live[i as int]@));
            let tail: Vec<TokenId> = match self.state {
                SearchState::Seeded => copy_of(&h.tokens),
                _ => {
                    let mut last: Vec<TokenId> = Vec::new();
                    last.push(h.tokens[h.tokens.len() - 1]);
                    assert(last@ =~= seq![h.tokens@.last()]);
                    last
                },
            };
            tails.push(tail);
            i += 1;
        }
        tails
    }

    /// Whether a sequence that grows by one token now has at least the
    /// minimum length.
    pub open spec fn may_end(&self) -> bool {
        self.length + 1 >= self.config.min_length
    }

    /// Whether the model returned one row for each live hypothesis, each
    /// with one score for each token.
    pub open spec fn rows_fit(&self, rows: Seq<Vec<Score>>) -> bool {
        &&& rows.len() == self.group.live.len()
        &&& forall|s: int| 0 <= s < rows.len() ==> (#[trigger] rows[s]).len() == self.vocab_size
    }

    /// Whether every score is a log-probability: at most 0.
    pub open spec fn rows_are_log_probs(&self, rows: Seq<Vec<Score>>) -> bool {
        forall|s: int, t: int|
            0 <= s < rows.len() && 0 <= t < rows[s].len() ==> (#[trigger] rows[s][t]) <= 0
    }

    /// What is wrong with the rows that the model returned; `None` where
    /// nothing is.
    pub open spec fn rows_fault(&self, rows: Seq<Vec<Score>>) -> Option<BackendError> {
        if !self.rows_fit(rows) {
            Some(BackendError::DimensionMismatch)
        } else if !self.rows_are_log_probs(rows) {
            Some(BackendError::InvalidScore)
        } else {
            None
        }
    }

    /// Checks the rows that the model returned.
    pub fn check_rows(&self, rows: &Vec<Vec<Score>>) -> (r: Result<(), BackendError>)
        ensures
            r == match self.rows_fault(rows@) {
                Some(e) => Err::<(), BackendError>(e),
                None => Ok(()),
            },
    {
        if rows.len() != self.group.live.len() {
            return Err(BackendError::DimensionMismatch);
        }
        let mut s: usize = 0;
        while s < rows.len()
            invariant
                s <= rows.len(),
                forall|q: int| 0 <= q < s ==> (#[trigger] rows[q]).len() == self.vocab_size,
            decreases rows.len() - s,
        {
            if rows[s].len() != self.vocab_size {
                return Err(BackendError::DimensionMismatch);
            }
            s += 1;
        }
        let mut s: usize = 0;
        while s < rows.len()
            invariant
                s <= rows.len(),
                self.rows_fit(rows@),
                forall|q: int, t: int|
                    0 <= q < s && 0 <= t < rows[q].len() ==> (#[trigger] rows[q][t]) <= 0,
            decreases rows.len() - s,
        {
            let row = &rows[s];
            let mut t: usize = 0;
            while t < row.len()
                invariant
                    t <= row.len(),
                    s < rows.len(),
                    row == rows[s as int],
                    self.rows_fit(rows@),
                    forall|q: int, u: int|
                        0 <= q < s && 0 <= u < rows[q].len() ==> (#[trigger] rows[q][u]) <= 0,
                    forall|u: int| 0 <= u < t ==> (#[trigger] row[u]) <= 0,
                decreases row.len() - t,
            {
                if row[t] > 0 {
                    assert(rows[s as int][t as int] > 0);
                    return Err(BackendError::InvalidScore);
                }
                t += 1;
            }
            s += 1;
        }
        Ok(())
    }

    /// The scores by which the continuations of the hypothesis in `slot`
    /// are ranked: the row of the model with the end marker banned where a
    /// sequence may not end yet, after the repetition penalty and n-gram
    /// blocking.
    pub open spec fn beam_row(&self, slot: int, row: Seq<Score>) -> Seq<Score> {
        penalised(
            suppress_stage(row, self.group.policy.eos_token_id, self.may_end()),
            self.group.live[slot]@.tokens,
            self.config,
        )
    }

    /// The candidate at position `x` of a step: positions run over the
    /// tokens, and for each token over the slots.
    pub open spec fn candidate_at(&self, rows: Seq<Vec<Score>>, x: int) -> Candidate {
        let width = self.group.live.len() as int;
        let parent = x % width;
        let token = x / width;
        Candidate {
            parent: parent as usize,
            token: token as TokenId,
            log_prob: self.beam_row(parent, rows[parent]@)[token],
        }
    }

    /// The score that the hypothesis of a candidate would have.
    pub open spec fn candidate_key(&self, c: Candidate) -> Score {
        score_sum(self.group.live[c.parent as int].score, c.log_prob) as Score
    }

    /// The keys by which the candidates of a step are ranked.
    pub open spec fn beam_keys(&self, rows: Seq<Vec<Score>>) -> Seq<Score> {
        Seq::new(
            (self.vocab_size * self.group.live.len()) as nat,
            |x: int| self.candidate_key(self.candidate_at(rows, x)),
        )
    }

    /// The candidates that a step chooses from when hypotheses are chosen
    /// by score: the `2 * num_beams` best continuations over all slots,
    /// best first. Among equal scores the lower token comes first, and
    /// for one token the lower slot.
    pub open spec fn beam_candidates(&self, rows: Seq<Vec<Score>>) -> Seq<Candidate> {
        let keys = self.beam_keys(rows);
        Seq::new(
            ranked_len(2 * self.config.num_beams, keys.len() as int) as nat,
            |r: int| self.candidate_at(rows, index_of_rank(keys, r)),
        )
    }

    /// Whether a candidate may be taken: it continues a live hypothesis by
    /// a token of the vocabulary, its log-probability is at most 0, and
    /// unless that is `NEG_INF` it completes no n-gram that its hypothesis
    /// already holds and ends no sequence before the minimum length.
    pub open spec fn permits(&self, c: Candidate) -> bool {
        &&& c.parent < self.group.live.len()
        &&& 0 <= c.token < self.vocab_size
        &&& c.log_prob <= 0
        &&& c.log_prob != NEG_INF ==> {
            &&& !completes_seen_ngram(
                self.group.live[c.parent as int]@.tokens,
                self.ngram_size(),
                c.token as int,
            )
            &&& self.group.policy.eos_token_id == Some(c.token) ==> self.may_end()
        }
    }

    /// Whether `after` is what a step by score makes of this search for
    /// the given rows, which are free of faults, with `parents` naming
    /// the slot that each live hypothesis continues.
    pub open spec fn steps_by_score_with(
        &self,
        after: SearchController,
        rows: Seq<Vec<Score>>,
        parents: Seq<usize>,
    ) -> bool {
        &&& self.rows_fault(rows) is None
        &&& after.group.outcome(parents) == expanded(
            self.group.live_models(),
            self.group.completed_models(),
            self.group.policy,
            self.beam_candidates(rows),
            self.beam_candidates(rows).len() as int,
        )
    }

    /// Whether `after` is what a step by score makes of this search for
    /// some rows that are free of faults.
    pub open spec fn steps_by_score_to(&self, after: SearchController) -> bool {
        exists|rows: Seq<Vec<Score>>, parents: Seq<usize>|
            #[trigger] self.steps_by_score_with(after, rows, parents)
    }

    /// Whether the candidates are such as draws can give for the rows: at
    /// most one for each live hypothesis, in the order of the slots, each
    /// one permitted and drawable.
    pub open spec fn drawn_for(&self, rows: Seq<Vec<Score>>, candidates: Seq<Candidate>) -> bool {
        &&& self.rows_fault(rows) is None
        &&& candidates.len() <= self.group.live.len()
        &&& forall|k: int|
            0 <= k < candidates.len() ==> self.permits(#[trigger] candidates[k]) && self.drawable(
                rows,
                candidates[k],
            )
        &&& forall|k: int, l: int|
            0 <= k < l < candidates.len() ==> candidates[k].parent < candidates[l].parent
    }

    /// Whether `after` is what a step by draws makes of this search for
    /// the given rows and the candidates that the draws gave.
    pub open spec fn steps_by_draws_with(
        &self,
        after: SearchController,
        rows: Seq<Vec<Score>>,
        candidates: Seq<Candidate>,
        parents: Seq<usize>,
    ) -> bool {
        &&& self.drawn_for(rows, candidates)
        &&& after.group.outcome(parents) == expanded(
            self.group.live_models(),
            self.group.completed_models(),
            self.group.policy,
            candidates,
            candidates.len() as int,
        )
    }

    /// Whether `after` is what a step by draws makes of this search for
    /// some rows that are free of faults and some draws.
    pub open spec fn steps_by_draws_to(&self, after: SearchController) -> bool {
        exists|rows: Seq<Vec<Score>>, candidates: Seq<Candidate>, parents: Seq<usize>|
            #[trigger] self.steps_by_draws_with(after, rows, candidates, parents)
    }

    /// A step by score is determined by the search and the rows: two
    /// outcomes for the same rows hold the same hypotheses, live and
    /// finished, and name the same parents.
    pub proof fn lemma_step_by_score_determined(
        &self,
        first: SearchController,
        second: SearchController,
        rows: Seq<Vec<Score>>,
        first_parents: Seq<usize>,
        second_parents: Seq<usize>,
    )
        requires
            self.steps_by_score_with(first, rows, first_parents),
            self.steps_by_score_with(second, rows, second_parents),
        ensures
            first.group.live_models() == second.group.live_models(),
            first.group.completed_models() == second.group.completed_models(),
            first_parents == second_parents,
    {
    }

    /// The state after a step that leaves the hypotheses of `group`.
    pub open spec fn state_after(group: BeamGroup) -> SearchState {
        if group.live.len() == 0 || group.done() {
            SearchState::Done
        } else {
            SearchState::Searching
        }
    }

    /// Takes one step with the given candidates: they are taken in turn
    /// until `num_beams` hypotheses are live again, and the search ends
    /// where no hypothesis is live any more or the beam group is done.
    /// Returns for each hypothesis that is then live the slot of the
    /// hypothesis that it continues.
    pub fn step(&mut self, candidates: &Vec<Candidate>) -> (parents: Vec<usize>)
        requires
            old(self).wf(),
            old(self).state != SearchState::Done,
            forall|k: int|
                0 <= k < candidates.len() ==> old(self).permits(#[trigger] candidates[k]),
        ensures
            final(self).wf(),
            final(self).config == old(self).config,
            final(self).vocab_size == old(self).vocab_size,
            final(self).prefix == old(self).prefix,
            final(self).group.policy == old(self).group.policy,
            final(self).length == old(self).length + 1,
            final(self).group.outcome(parents@) == expanded(
                old(self).group.live_models(),
                old(self).group.completed_models(),
                old(self).group.policy,
                candidates@,
                candidates.len() as int,
            ),
            final(self).state == Self::state_after(final(self).group),
            parents.len() == final(self).group.live.len(),
            forall|i: int|
                0 <= i < parents.len() ==> (#[trigger] parents[i]) < old(self).group.live.len()
                    && final(self).group.live[i]@.tokens.drop_last() == old(
                    self,
                ).group.live[parents[i] as int]@.tokens,
            scores_descend(old(self).group.live_models(), final(self).group.outcome(parents@)),
    {
        let ghost before = *self;
        let ghost live = self.group.live_models();
        let ghost done = self.group.completed_models();
        let ghost policy = self.group.policy;
        let ghost size = self.ngram_size();
        let ghost prefix = self.prefix@;
        let ghost length = self.length as int;
        let ghost min_length = self.config.min_length as int;
        let ghost vocab = self.vocab_size as int;
        let ghost eos = self.group.policy.eos_token_id;
        let ghost alive = |h: HypothesisModel|
            h.tokens.len() == length + 1 && h.tokens.len() < policy.max_length && starts_with(
                h.tokens,
                prefix,
            ) && (size > 0 ==> no_repeat_after(h.tokens, size, prefix.len() as int)) && grown(
                h.tokens,
                prefix.len() as int,
                vocab,
                eos,
            );
        let ghost ended = |h: HypothesisModel|
            min_length <= h.tokens.len() <= length + 1 && starts_with(h.tokens, prefix) && (size > 0
                ==> no_repeat_after(h.tokens, size, prefix.len() as int)) && finished(
                h.tokens,
                prefix.len() as int,
                policy.max_length as int,
                vocab,
                eos,
            );
        proof {
            assert forall|i: int| 0 <= i < live.len() implies policy.admits(#[trigger] live[i]) by {
                assert(live[i] == self.group.live[i]@);
            }
            assert forall|j: int| 0 <= j < done.len() implies policy.admits(#[trigger] done[j])
                && ended(done[j]) by {
                assert(done[j] == self.group.completed[j]@);
            }
            assert forall|k: int|
                0 <= k < candidates.len() implies (#[trigger] candidates[k]).parent < live.len()
                && live[candidates[k].parent as int].tokens.len() < policy.max_length by {
                let at = candidates[k].parent as int;
                assert(self.permits(candidates[k]));
                assert(live[at] == self.group.live[at]@);
            }
            assert forall|k: int, slot: usize|
                0 <= k < candidates.len() && candidates[k].log_prob != NEG_INF implies {
                let child = #[trigger] candidate_child(live, candidates@, k, slot);
                if policy.terminal(child) {
                    ended(child.seal())
                } else {
                    alive(child)
                }
            } by {
                let c = candidates[k];
                assert(self.permits(c));
                let parent = live[c.parent as int];
                assert(parent == self.group.live[c.parent as int]@);
                assert(self.live_sound(parent));
                let child = candidate_child(live, candidates@, k, slot);
                assert(child.tokens == parent.tokens.push(c.token));
                assert(child.tokens.take(prefix.len() as int) =~= parent.tokens.take(
                    prefix.len() as int,
                ));
                if size > 0 {
                    lemma_unbanned_token_keeps_fresh(
                        parent.tokens,
                        size,
                        prefix.len() as int,
                        c.token,
                    );
                }
            }
            lemma_expanded_entries(
                live,
                done,
                policy,
                candidates@,
                candidates.len() as int,
                alive,
                ended,
            );
            assert forall|k: int|
                0 <= k < candidates.len() implies (#[trigger] candidates[k]).parent < live.len()
                && candidates[k].log_prob <= 0 by {
                assert(self.permits(candidates[k]));
            }
            lemma_expanded_scores(live, done, policy, candidates@, candidates.len() as int);
        }
        let parents: Vec<usize> = self.group.expand(candidates);
        self.length = self.length + 1;
        let finished: bool = self.group.live.len() == 0 || self.group.is_done();
        self.state = if finished {
            SearchState::Done
        } else {
            SearchState::Searching
        };
        proof {
            let after = expanded(live, done, policy, candidates@, candidates.len() as int);
            assert(self.group.live_models() == after.live);
            assert(self.group.completed_models() == after.completed);
            assert forall|i: int| 0 <= i < self.group.live.len() implies self.live_sound(
                #[trigger] self.group.live[i]@,
            ) by {
                assert(self.group.live[i]@ == after.live[i]);
                assert(alive(after.live[i]));
            }
            assert forall|j: int| 0 <= j < self.group.completed.len() implies self.completed_sound(
                #[trigger] self.group.completed[j]@,
            ) by {
                assert(self.group.completed[j]@ == after.completed[j]);
                assert(ended(after.completed[j]));
            }
            if self.group.live.len() > 0 {
                assert(self.group.live[0]@ == after.live[0]);
                assert(alive(after.live[0]));
            }
            assert forall|i: int| 0 <= i < parents.len() implies (#[trigger] parents[i])
                < before.group.live.len() && self.group.live[i]@.tokens.drop_last()
                == before.group.live[parents[i] as int]@.tokens by {
                assert(self.group.live[i]@ == after.live[i]);
                assert(alive(after.live[i]));
                assert(live[parents[i] as int] == before.group.live[parents[i] as int]@);
            }
        }
        parents
    }

    /// The continuation of a slot by a token, with the score of that token
    /// in the row of the slot, may be taken.
    pub proof fn lemma_beam_row_permits(&self, rows: Seq<Vec<Score>>, slot: int, token: int)
        requires
            self.wf(),
            self.rows_fault(rows) is None,
            0 <= slot < self.group.live.len(),
            0 <= token < self.vocab_size,
        ensures
            self.permits(
                Candidate {
                    parent: slot as usize,
                    token: token as TokenId,
                    log_prob: self.beam_row(slot, rows[slot]@)[token],
                },
            ),
    {
        let raw = rows[slot]@;
        assert(raw[token] <= 0);
        let history = self.group.live[slot]@.tokens;
        let open = suppress_stage(raw, self.group.policy.eos_token_id, self.may_end());
        let penalty = self.config.repetition_penalty as int;
        let after = penalty_stage(open, history, penalty);
        lemma_penalized_bounds(open[token], penalty);
    }

    /// The scores by which the continuations of the hypothesis in `slot`
    /// are ranked, from the row that the model returned for it.
    pub fn ranking_scores(&self, slot: usize, row: &Vec<Score>) -> (ranked: Vec<Score>)
        requires
            self.wf(),
            slot < self.group.live.len(),
        ensures
            ranked@ == self.beam_row(slot as int, row@),
    {
        let may_end: bool = self.length + 1 >= self.config.min_length;
        let mut ranked: Vec<Score> = copy_of(row);
        suppress_end(&mut ranked, self.group.policy.eos_token_id, may_end);
        penalise(&mut ranked, &self.group.live[slot].tokens, &self.config);
        ranked
    }

    /// The scores that are handed to the backend to be turned into the
    /// probabilities of a draw for the hypothesis in `slot`.
    pub fn sampling_scores(&self, slot: usize, row: &Vec<Score>) -> (scores: Vec<Score>)
        requires
            self.wf(),
            slot < self.group.live.len(),
        ensures
            scores@ == self.sampling_row(slot as int, row@),
    {
        let mut scores: Vec<Score> = self.ranking_scores(slot, row);
        apply_temperature(&mut scores, self.config.temperature);
        if self.config.top_k < scores.len() as u64 {
            apply_top_k(&mut scores, self.config.top_k as usize);
        } else {
            proof {
                lemma_top_k_wide(scores@, self.config.top_k as int);
            }
        }
        scores
    }

    /// The rows by which the continuations of each slot are ranked.
    fn beam_rows(&self, rows: &Vec<Vec<Score>>) -> (ranked: Vec<Vec<Score>>)
        requires
            self.wf(),
            self.state != SearchState::Done,
            self.rows_fault(rows@) is None,
        ensures
            ranked.len() == rows.len(),
            forall|s: int|
                0 <= s < ranked.len() ==> (#[trigger] ranked[s])@ == self.beam_row(s, rows[s]@),
    {
        let mut ranked: Vec<Vec<Score>> = Vec::new();
        let mut s: usize = 0;
        while s < rows.len()
            invariant
                s <= rows.len(),
                self.wf(),
                rows.len() == self.group.live.len(),
                ranked.len() == s,
                forall|q: int|
                    0 <= q < s ==> (#[trigger] ranked[q])@ == self.beam_row(q, rows[q]@),
            decreases rows.len() - s,
        {
            ranked.push(self.ranking_scores(s, &rows[s]));
            s += 1;
        }
        ranked
    }

    /// The candidates that a step chooses from when hypotheses are chosen
    /// by score, or what is wrong with the rows that the model returned.
    /// Every candidate may be taken.
    pub fn ranked_candidates(&self, rows: &Vec<Vec<Score>>) -> (r: Result<
        Vec<Candidate>,
        BackendError,
    >)
        requires
            self.wf(),
            self.state != SearchState::Done,
        ensures
            match r {
                Ok(c) => self.rows_fault(rows@) is None && c@ == self.beam_candidates(rows@)
                    && forall|k: int| 0 <= k < c.len() ==> self.permits(#[trigger] c[k]),
                Err(e) => self.rows_fault(rows@) == Some(e),
            },
    {
        match self.check_rows(rows) {
            Err(e) => {
                return Err(e);
            },
            Ok(()) => {},
        }
        let width: usize = self.group.live.len();
        let ranked: Vec<Vec<Score>> = self.beam_rows(rows);
        assert(self.vocab_size * width <= usize::MAX) by (nonlinear_arith)
            requires
                width <= self.config.num_beams,
                self.config.num_beams * self.vocab_size <= usize::MAX,
        ;
        let n: usize = self.vocab_size * width;
        let ghost wanted = self.beam_keys(rows@);
        let mut keys: Vec<Score> = Vec::new();
        let mut x: usize = 0;
        while x < n
            invariant
                x <= n,
                n == self.vocab_size * width,
                width == self.group.live.len(),
                width > 0,
                self.wf(),
                self.rows_fault(rows@) is None,
                ranked.len() == rows.len(),
                forall|s: int|
                    0 <= s < ranked.len() ==> (#[trigger] ranked[s])@ == self.beam_row(s, rows[s]@),
                wanted == self.beam_keys(rows@),
                keys.len() == x,
                forall|y: int| 0 <= y < x ==> #[trigger] keys[y] == wanted[y],
            decreases n - x,
        {
            let s: usize = x % width;
            let t: usize = x / width;
            assert(t < self.vocab_size) by (nonlinear_arith)
                requires
                    x < self.vocab_size * width,
                    t == x / width,
                    width > 0,
            ;
            assert(ranked[s as int]@ == self.beam_row(s as int, rows[s as int]@));
            assert(rows[s as int].len() == self.vocab_size);
            keys.push(add_scores(self.group.live[s].score, ranked[s][t]));
            x += 1;
        }
        assert(keys@ =~= wanted);
        let beams: usize = self.group.policy.num_beams;
        let limit: usize = if beams <= usize::MAX / 2 {
            2 * beams
        } else {
            usize::MAX
        };
        let order: Vec<usize> = top_ranked(&keys, limit);
        let mut out: Vec<Candidate> = Vec::new();
        let mut r: usize = 0;
        while r < order.len()
            invariant
                r <= order.len(),
                n == self.vocab_size * width,
                width == self.group.live.len(),
                width > 0,
                self.wf(),
                self.rows_fault(rows@) is None,
                ranked.len() == rows.len(),
                forall|s: int|
                    0 <= s < ranked.len() ==> (#[trigger] ranked[s])@ == self.beam_row(s, rows[s]@),
                keys@ == self.beam_keys(rows@),
                keys.len() == n,
                forall|q: int|
                    0 <= q < order.len() ==> order[q] < keys.len() && rank_of(
                        keys@,
                        #[trigger] order[q] as int,
                    ) == q,
                out.len() == r,
                forall|q: int|
                    0 <= q < r ==> #[trigger] out[q] == self.candidate_at(
                        rows@,
                        index_of_rank(keys@, q),
                    ) && self.permits(out[q]),
            decreases order.len() - r,
        {
            let x: usize = order[r];
            let s: usize = x % width;
            let t: usize = x / width;
            assert(t < self.vocab_size) by (nonlinear_arith)
                requires
                    x < self.vocab_size * width,
                    t == x / width,
                    width > 0,
            ;
            proof {
                lemma_index_of_rank(keys@, x as int);
                self.lemma_beam_row_permits(rows@, s as int, t as int);
                assert(ranked[s as int]@ == self.beam_row(s as int, rows[s as int]@));
                assert(rows[s as int].len() == self.vocab_size);
            }
            out.push(Candidate { parent: s, token: t as TokenId, log_prob: ranked[s][t] });
            r += 1;
        }
        assert(out@ =~= self.beam_candidates(rows@));
        Ok(out)
    }

    /// The scores that the probabilities of a draw are computed from: the
    /// scores by which the continuations of the slot are ranked, after
    /// temperature and top-k.
    pub open spec fn sampling_row(&self, slot: int, row: Seq<Score>) -> Seq<Score> {
        top_k_stage(
            temperature_stage(self.beam_row(slot, row), self.config.temperature as int),
            self.config.top_k as int,
        )
    }

    /// Whether the token of a candidate has a weight to be drawn with
    /// where the backend gives the tokens of its slot these weights.
    pub open spec fn draws_with(
        &self,
        rows: Seq<Vec<Score>>,
        c: Candidate,
        weights: Seq<u32>,
    ) -> bool {
        &&& weights.len() == self.vocab_size
        &&& drawing_weights(
            self.sampling_row(c.parent as int, rows[c.parent as int]@),
            weights,
            self.config.top_p as int,
        )[c.token as int] > 0
    }

    /// Whether a candidate can come of a draw: it carries the score that
    /// ranks its continuation, that score is not `NEG_INF`, its token is
    /// among those that temperature and top-k leave to draw from, and
    /// for some weights of the backend it is among those that top-p
    /// leaves, with a weight above 0.
    pub open spec fn drawable(&self, rows: Seq<Vec<Score>>, c: Candidate) -> bool {
        &&& c.log_prob != NEG_INF
        &&& c.log_prob == self.beam_row(c.parent as int, rows[c.parent as int]@)[c.token as int]
        &&& self.sampling_row(c.parent as int, rows[c.parent as int]@)[c.token as int] != NEG_INF
        &&& exists|weights: Seq<u32>| #[trigger] self.draws_with(rows, c, weights)
    }

    /// What is to be done with the weights that the backend returned for
    /// the scores of a slot: a fault where there is not one weight for
    /// each score, nothing where no token is left to draw, and otherwise
    /// a draw with the weights that top-p leaves.
    pub fn draw_request(&self, scores: &Vec<Score>, weights: &Vec<u32>) -> (r: Result<
        Option<Vec<u32>>,
        BackendError,
    >)
        ensures
            match r {
                Err(e) => e == BackendError::DimensionMismatch && weights.len() != scores.len(),
                Ok(None) => weights.len() == scores.len() && !has_mass(
                    drawing_weights(scores@, weights@, self.config.top_p as int),
                ),
                Ok(Some(masked)) => weights.len() == scores.len() && has_mass(masked@) && masked@
                    == drawing_weights(scores@, weights@, self.config.top_p as int),
            },
    {
        if weights.len() != scores.len() {
            return Err(BackendError::DimensionMismatch);
        }
        let (masked, any) = weights_for_draw(scores, weights, self.config.top_p);
        if any {
            Ok(Some(masked))
        } else {
            Ok(None)
        }
    }

    /// The candidate that a drawn token stands for: the hypothesis in
    /// `slot` continued by `token`, with the score that ranks that
    /// continuation. A token outside the vocabulary, or one that was
    /// given no weight, is a fault.
    pub fn drawn_candidate(
        &self,
        slot: usize,
        ranked: &Vec<Score>,
        weights: &Vec<u32>,
        token: usize,
    ) -> (r: Result<Candidate, BackendError>)
        requires
            ranked.len() == self.vocab_size,
            weights.len() == self.vocab_size,
            self.vocab_size <= i64::MAX,
        ensures
            r == if token < self.vocab_size && weights[token as int] > 0 {
                Ok::<Candidate, BackendError>(
                    Candidate {
                        parent: slot,
                        token: token as TokenId,
                        log_prob: ranked[token as int],
                    },
                )
            } else {
                Err(BackendError::InvalidDraw)
            },
    {
        if token < self.vocab_size && weights[token] > 0 {
            Ok(Candidate { parent: slot, token: token as TokenId, log_prob: ranked[token] })
        } else {
            Err(BackendError::InvalidDraw)
        }
    }

    /// The candidates of a step when tokens are drawn: one for each live
    /// hypothesis that has a token left to draw, in the order of the
    /// slots. For each slot the backend turns the scores of
    /// `sampling_row` into probabilities, and draws a token with the
    /// weights that top-p leaves. Every candidate may be taken.
    pub fn sampled_candidates<B: TensorBackend>(
        &self,
        rows: &Vec<Vec<Score>>,
        backend: &mut B,
    ) -> (r: Result<Vec<Candidate>, BackendError>)
        requires
            self.wf(),
            self.state != SearchState::Done,
        ensures
            self.rows_fault(rows@) matches Some(e) ==> r == Err::<Vec<Candidate>, BackendError>(e),
            r matches Ok(c) ==> self.drawn_for(rows@, c@),
    {
        match self.check_rows(rows) {
            Err(e) => {
                return Err(e);
            },
            Ok(()) => {},
        }
        let ranked: Vec<Vec<Score>> = self.beam_rows(rows);
        let mut out: Vec<Candidate> = Vec::new();
        let mut s: usize = 0;
        while s < ranked.len()
            invariant
                s <= ranked.len(),
                self.wf(),
                self.rows_fault(rows@) is None,
                ranked.len() == rows.len(),
                forall|q: int|
                    0 <= q < ranked.len() ==> (#[trigger] ranked[q])@ == self.beam_row(q, rows[q]@),
                out.len() <= s,
                forall|k: int|
                    0 <= k < out.len() ==> self.permits(#[trigger] out[k]) && self.drawable(
                        rows@,
                        out[k],
                    ),
                forall|k: int| 0 <= k < out.len() ==> (#[trigger] out[k]).parent < s,
                forall|k: int, l: int| 0 <= k < l < out.len() ==> out[k].parent < out[l].parent,
            decreases ranked.len() - s,
        {
            assert(ranked[s as int]@ == self.beam_row(s as int, rows[s as int]@));
            assert(rows[s as int].len() == self.vocab_size);
            let scores: Vec<Score> = self.sampling_scores(s, &rows[s]);
            let weights: Vec<u32> = match backend.softmax(&scores) {
                Ok(w) => w,
                Err(e) => {
                    return Err(e);
                },
            };
            let request: Option<Vec<u32>> = match self.draw_request(&scores, &weights) {
                Ok(request) => request,
                Err(e) => {
                    return Err(e);
                },
            };
            if let Some(masked) = request {
                let token: usize = match backend.draw(&masked) {
                    Ok(t) => t,
                    Err(e) => {
                        return Err(e);
                    },
                };
                let c: Candidate = match self.drawn_candidate(s, &ranked[s], &masked, token) {
                    Ok(c) => c,
                    Err(e) => {
                        return Err(e);
                    },
                };
                proof {
                    self.lemma_beam_row_permits(rows@, s as int, token as int);
                    let kept = top_p_stage(scores@, weights@, self.config.top_p as int);
                    assert(masked[token as int] > 0);
                    assert(kept[token as int] != NEG_INF);
                    assert(scores[token as int] != NEG_INF);
                    let cooled = temperature_stage(
                        ranked[s as int]@,
                        self.config.temperature as int,
                    );
                    assert(cooled[token as int] != NEG_INF);
                    assert(ranked[s as int][token as int] != NEG_INF);
                    assert(scores@ == self.sampling_row(s as int, rows[s as int]@));
                    assert(self.draws_with(rows@, c, weights@));
                }
                let ghost before = out@;
                out.push(c);
                assert forall|k: int, l: int| 0 <= k < l < out.len() implies out[k].parent
                    < out[l].parent by {
                    if l < before.len() {
                        assert(out[k] == before[k] && out[l] == before[l]);
                    } else {
                        assert(out[k] == before[k]);
                    }
                }
            }
            s += 1;
        }
        Ok(out)
    }

    /// Takes one step with the rows that the model returned: chooses the
    /// candidates, by score or by draws, and takes them in turn. Returns
    /// for each hypothesis that is then live the slot of the hypothesis
    /// that it continues. On a fault nothing changes.
    pub fn advance<B: TensorBackend>(&mut self, rows: &Vec<Vec<Score>>, backend: &mut B) -> (r:
        Result<Vec<usize>, BackendError>)
        requires
            old(self).wf(),
            old(self).state != SearchState::Done,
        ensures
            final(self).wf(),
            final(self).config == old(self).config,
            final(self).vocab_size == old(self).vocab_size,
            final(self).prefix == old(self).prefix,
            final(self).group.policy == old(self).group.policy,
            old(self).rows_fault(rows@) matches Some(e) ==> r == Err::<Vec<usize>, BackendError>(e),
            !old(self).config.do_sample && old(self).rows_fault(rows@) is None ==> r is Ok,
            match r {
                Ok(parents) => {
                    &&& final(self).length == old(self).length + 1
                    &&& final(self).state == Self::state_after(final(self).group)
                    &&& parents.len() == final(self).group.live.len()
                    &&& forall|i: int|
                        0 <= i < parents.len() ==> (#[trigger] parents[i]) < old(
                            self,
                        ).group.live.len() && final(self).group.live[i]@.tokens.drop_last() == old(
                            self,
                        ).group.live[parents[i] as int]@.tokens
                    &&& scores_descend(
                        old(self).group.live_models(),
                        final(self).group.outcome(parents@),
                    )
                    &&& !old(self).config.do_sample ==> final(self).group.outcome(parents@)
                        == expanded(
                        old(self).group.live_models(),
                        old(self).group.completed_models(),
                        old(self).group.policy,
                        old(self).beam_candidates(rows@),
                        old(self).beam_candidates(rows@).len() as int,
                    )
                    &&& old(self).config.do_sample ==> exists|candidates: Seq<Candidate>|
                        #[trigger] old(self).steps_by_draws_with(
                            *final(self),
                            rows@,
                            candidates,
                            parents@,
                        )
                },
                Err(_) => *final(self) == *old(self),
            },
    {
        let chosen = if self.config.do_sample {
            self.sampled_candidates(rows, backend)
        } else {
            self.ranked_candidates(rows)
        };
        match chosen {
            Ok(candidates) => {
                let parents = self.step(&candidates);
                proof {
                    if self.config.do_sample {
                        assert(old(self).steps_by_draws_with(
                            *self,
                            rows@,
                            candidates@,
                            parents@,
                        ));
                    }
                }
                Ok(parents)
            },
            Err(e) => Err(e),
        }
    }

    /// The token that greedy decoding appends to the hypothesis in the
    /// first slot: the one with the best score in its row, and among
    /// several the lowest.
    pub open spec fn greedy_token(&self, rows: Seq<Vec<Score>>) -> int {
        index_of_rank(self.beam_row(0, rows[0]@), 0)
    }

    /// With a single live hypothesis, the first candidate of a step that
    /// chooses by score is the greedy one: the search by score with one
    /// beam continues its hypothesis as greedy decoding does. This holds
    /// as long as no sum of scores falls below the lowest finite score.
    pub proof fn lemma_single_beam_is_greedy(&self, rows: Seq<Vec<Score>>)
        requires
            self.wf(),
            self.group.live.len() == 1,
            self.rows_fault(rows) is None,
            self.group.live[0].score != NEG_INF,
            forall|t: int|
                0 <= t < self.vocab_size ==> {
                    let x = #[trigger] self.beam_row(0, rows[0]@)[t];
                    x == NEG_INF || MIN_FINITE <= self.group.live[0].score + x <= i64::MAX
                },
        ensures
            self.beam_candidates(rows).len() >= 1,
            0 <= self.greedy_token(rows) < self.vocab_size,
            self.beam_candidates(rows)[0] == (Candidate {
                parent: 0,
                token: self.greedy_token(rows) as TokenId,
                log_prob: self.beam_row(0, rows[0]@)[self.greedy_token(rows)],
            }),
    {
        let row = self.beam_row(0, rows[0]@);
        let keys = self.beam_keys(rows);
        let base = self.group.live[0].score;
        assert(rows[0].len() == self.vocab_size);
        assert(row.len() == self.vocab_size);
        assert(keys.len() == self.vocab_size) by (nonlinear_arith)
            requires
                keys.len() == self.vocab_size * 1,
        ;
        assert forall|x: int| 0 <= x < keys.len() implies #[trigger] keys[x] == score_sum(
            base,
            row[x],
        ) by {
            assert(self.candidate_at(rows, x).parent == 0);
            assert(self.candidate_at(rows, x).log_prob == row[x]);
        }
        assert forall|x: int, y: int| 0 <= x < row.len() && 0 <= y < row.len() implies (outranks(
            row,
            x,
            y,
        ) <==> outranks(keys, x, y)) by {
            assert(keys[x] == score_sum(base, row[x]));
            assert(keys[y] == score_sum(base, row[y]));
        }
        lemma_best_exists(row);
        let g = index_of_rank(row, 0);
        lemma_rank_by_order(row, keys, g);
        lemma_index_of_rank(keys, g);
        assert(self.candidate_at(rows, g).parent == 0);
        assert(self.candidate_at(rows, g).token == g);
    }

    /// The hypothesis that greedy decoding makes of the hypothesis in the
    /// first slot: that hypothesis continued by the greedy token.
    pub open spec fn greedy_child(&self, rows: Seq<Vec<Score>>) -> HypothesisModel {
        let token = self.greedy_token(rows);
        self.group.live[0]@.child(token as TokenId, self.beam_row(0, rows[0]@)[token], 0)
    }

    /// With one beam and nothing finished yet, a step of the search by
    /// score does what a step of greedy decoding does: where the greedy
    /// continuation has not ended it is the one live hypothesis
    /// afterwards, and where it has ended it is the one finished
    /// hypothesis. This holds as long as the greedy token is not banned
    /// and no sum of scores falls below the lowest finite score.
    pub proof fn lemma_single_beam_step(&self, rows: Seq<Vec<Score>>)
        requires
            self.wf(),
            self.config.num_beams == 1,
            self.group.live.len() == 1,
            self.group.completed.len() == 0,
            self.rows_fault(rows) is None,
            self.group.live[0].score != NEG_INF,
            forall|t: int|
                0 <= t < self.vocab_size ==> {
                    let x = #[trigger] self.beam_row(0, rows[0]@)[t];
                    x == NEG_INF || MIN_FINITE <= self.group.live[0].score + x <= i64::MAX
                },
            self.beam_row(0, rows[0]@)[self.greedy_token(rows)] != NEG_INF,
        ensures
            ({
                let candidates = self.beam_candidates(rows);
                let after = expanded(
                    self.group.live_models(),
                    self.group.completed_models(),
                    self.group.policy,
                    candidates,
                    candidates.len() as int,
                );
                let child = self.greedy_child(rows);
                if self.group.policy.terminal(child) {
                    after.completed == seq![child.seal()]
                } else {
                    after.live == seq![child] && after.completed.len() == 0 && after.parents
                        == seq![0usize]
                }
            }),
    {
        let live = self.group.live_models();
        let done = self.group.completed_models();
        let policy = self.group.policy;
        let penalty = policy.length_penalty as nat;
        let candidates = self.beam_candidates(rows);
        let row = self.beam_row(0, rows[0]@);
        let keys = self.beam_keys(rows);
        let base = self.group.live[0].score;
        let child = self.greedy_child(rows);
        let parent = live[0];
        self.lemma_single_beam_is_greedy(rows);
        assert(rows[0].len() == self.vocab_size);
        assert(keys.len() == self.vocab_size) by (nonlinear_arith)
            requires
                keys.len() == self.vocab_size * 1,
        ;
        assert(parent == self.group.live[0]@);
        assert(done =~= Seq::empty());
        let start = expanded(live, done, policy, candidates, 0);
        let first = expanded(live, done, policy, candidates, 1);
        assert(start.live.len() == 0);
        assert(candidates[0].parent == 0);
        assert(parent.child(candidates[0].token, candidates[0].log_prob, 0) == child);
        if policy.terminal(child) {
            assert(first.completed =~= seq![child.seal()]);
            assert(first.live.len() == 0);
        } else {
            assert(first.live =~= seq![child]);
            assert(first.parents =~= seq![0usize]);
            assert(first.completed.len() == 0);
        }
        if candidates.len() == 2 {
            let second = expanded(live, done, policy, candidates, 2);
            let c = candidates[1];
            assert(c.parent == 0);
            let other = parent.child(c.token, c.log_prob, first.live.len() as usize);
            if policy.terminal(child) && c.log_prob != NEG_INF && policy.terminal(other) {
                lemma_rank_attained(keys, 1);
                lemma_best_exists(keys);
                let g = index_of_rank(keys, 0);
                let x = index_of_rank(keys, 1);
                assert(self.candidate_at(rows, x).token == x);
                assert(self.candidate_at(rows, x).log_prob == row[x]);
                assert(self.candidate_at(rows, g).log_prob == row[g]);
                assert(keys[x] == score_sum(base, row[x]));
                assert(keys[g] == score_sum(base, row[g]));
                assert(outranks(keys, g, x));
                assert(other.score <= child.score);
                let joined = seq![child.seal()].push(other.seal());
                let grown = parent.tokens.len() as int + 1;
                let weight = length_weight(grown, penalty);
                assert(self.group.policy.admits(self.group.live[0]@));
                lemma_pow_positive(grown, penalty);
                assert(other.score * weight <= child.score * weight) by (nonlinear_arith)
                    requires
                        other.score <= child.score,
                        weight > 0,
                ;
                assert(!joined[1].adjusted_above(joined[0], penalty));
                assert(ranks_before(joined, 0, 1, penalty));
                assert(is_worst(joined, 1, penalty));
                let w = worst_index(joined, penalty);
                assert(is_worst(joined, w, penalty));
                if w == 0 {
                    assert(ranks_before(joined, 1, 0, penalty));
                }
                assert(joined.remove(1) =~= seq![child.seal()]);
                assert(second.completed == with_completed(
                    first.completed,
                    other.seal(),
                    policy.num_beams as int,
                    penalty,
                ));
            }
        }
    }
}

} // verus!
