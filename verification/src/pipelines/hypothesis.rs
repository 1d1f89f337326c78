//! Hypotheses, the beam group that holds them, and the order in which
//! finished hypotheses are ranked.

use vstd::prelude::*;
use vstd::arithmetic::power::{lemma_pow_positive, pow};
use super::config::{checked_length_weight, lemma_pow_base_increases, MAX_LENGTH_WEIGHT};
use super::score::{add_scores, copy_of, score_sum, Score, TokenId, NEG_INF};

verus! {

/// Whether the ratio `s1 / w1` is above the ratio `s2 / w2`, for positive
/// `w1` and `w2`.
pub open spec fn ratio_above(s1: int, w1: int, s2: int, w2: int) -> bool {
    s1 * w2 > s2 * w1
}

/// The order of ratios is transitive.
pub proof fn lemma_ratio_transitive(s1: int, w1: int, s2: int, w2: int, s3: int, w3: int)
    requires
        w1 > 0,
        w2 > 0,
        w3 > 0,
        !ratio_above(s2, w2, s1, w1),
        !ratio_above(s3, w3, s2, w2),
    ensures
        !ratio_above(s3, w3, s1, w1),
        ratio_above(s1, w1, s2, w2) || ratio_above(s2, w2, s3, w3) ==> ratio_above(s1, w1, s3, w3),
{
    let d12 = s1 * w2 - s2 * w1;
    let d23 = s2 * w3 - s3 * w2;
    let d13 = s1 * w3 - s3 * w1;
    assert(d12 * w3 + d23 * w1 == d13 * w2) by (nonlinear_arith)
        requires
            d12 == s1 * w2 - s2 * w1,
            d23 == s2 * w3 - s3 * w2,
            d13 == s1 * w3 - s3 * w1,
    ;
    assert(d12 * w3 >= 0 && (d12 > 0 ==> d12 * w3 > 0)) by (nonlinear_arith)
        requires
            d12 >= 0,
            w3 > 0,
    ;
    assert(d23 * w1 >= 0 && (d23 > 0 ==> d23 * w1 > 0)) by (nonlinear_arith)
        requires
            d23 >= 0,
            w1 > 0,
    ;
    assert(d13 >= 0 && (d13 * w2 > 0 ==> d13 > 0)) by (nonlinear_arith)
        requires
            d13 * w2 >= 0,
            w2 > 0,
    ;
}

/// One candidate output sequence under construction.
#[derive(Debug)]
pub struct Hypothesis {
    /// The tokens so far, the prefix included.
    pub tokens: Vec<TokenId>,
    /// The sum of the log-probabilities of the generated tokens.
    pub score: Score,
    /// Whether the sequence has ended.
    pub finished: bool,
    /// The slot of the cached decoder state that belongs to this sequence.
    pub slot: usize,
}

/// What a hypothesis stands for.
pub struct HypothesisModel {
    pub tokens: Seq<TokenId>,
    pub score: Score,
    pub finished: bool,
    pub slot: usize,
}

impl View for Hypothesis {
    type V = HypothesisModel;

    open spec fn view(&self) -> HypothesisModel {
        HypothesisModel {
            tokens: self.tokens@,
            score: self.score,
            finished: self.finished,
            slot: self.slot,
        }
    }
}

/// What each hypothesis of a list stands for.
pub open spec fn models(list: Seq<Hypothesis>) -> Seq<HypothesisModel> {
    list.map_values(|h: Hypothesis| h@)
}

/// The weight by which a score is divided to adjust it for length.
pub open spec fn length_weight(length: int, penalty: nat) -> int {
    pow(length, penalty)
}

impl HypothesisModel {
    /// Whether the length-adjusted score of `self`, its score divided by
    /// its length raised to `penalty`, is above that of `other`.
    pub open spec fn adjusted_above(self, other: HypothesisModel, penalty: nat) -> bool {
        ratio_above(
            self.score as int,
            length_weight(self.tokens.len() as int, penalty),
            other.score as int,
            length_weight(other.tokens.len() as int, penalty),
        )
    }

    /// Whether the length of the sequence fits the weight limit.
    pub open spec fn weighable(self, penalty: nat) -> bool {
        1 <= self.tokens.len() && length_weight(self.tokens.len() as int, penalty)
            <= MAX_LENGTH_WEIGHT
    }

    /// The hypothesis that continues `self` by `token` and takes `slot`.
    pub open spec fn child(self, token: TokenId, log_prob: Score, slot: usize) -> HypothesisModel {
        HypothesisModel {
            tokens: self.tokens.push(token),
            score: score_sum(self.score, log_prob) as Score,
            finished: false,
            slot,
        }
    }

    /// The same hypothesis, marked as finished.
    pub open spec fn seal(self) -> HypothesisModel {
        HypothesisModel { finished: true, ..self }
    }
}

/// Whether entry `i` is ranked before entry `j`: by the higher adjusted
/// score, and among equals by the earlier position.
pub open spec fn ranks_before(entries: Seq<HypothesisModel>, i: int, j: int, penalty: nat) -> bool {
    entries[i].adjusted_above(entries[j], penalty) || (!entries[j].adjusted_above(
        entries[i],
        penalty,
    ) && i < j)
}

/// The ranking of entries is transitive.
pub proof fn lemma_ranks_transitive(
    entries: Seq<HypothesisModel>,
    i: int,
    j: int,
    k: int,
    penalty: nat,
)
    requires
        0 <= i < entries.len(),
        0 <= j < entries.len(),
        0 <= k < entries.len(),
        entries[i].weighable(penalty),
        entries[j].weighable(penalty),
        entries[k].weighable(penalty),
        ranks_before(entries, i, j, penalty),
        ranks_before(entries, j, k, penalty),
    ensures
        ranks_before(entries, i, k, penalty),
{
    let (a, b, c) = (entries[i], entries[j], entries[k]);
    lemma_pow_positive(a.tokens.len() as int, penalty);
    lemma_pow_positive(b.tokens.len() as int, penalty);
    lemma_pow_positive(c.tokens.len() as int, penalty);
    lemma_ratio_transitive(
        a.score as int,
        length_weight(a.tokens.len() as int, penalty),
        b.score as int,
        length_weight(b.tokens.len() as int, penalty),
        c.score as int,
        length_weight(c.tokens.len() as int, penalty),
    );
}

impl Hypothesis {
    /// The hypothesis that continues this one by `token`, whose
    /// log-probability is added to the score, and takes `slot`. A
    /// log-probability of at most 0 never raises the score.
    pub fn extend(&self, token: TokenId, log_prob: Score, slot: usize) -> (next: Hypothesis)
        ensures
            next@ == self@.child(token, log_prob, slot),
            log_prob <= 0 ==> next.score <= self.score,
    {
        let mut tokens: Vec<TokenId> = copy_of(&self.tokens);
        tokens.push(token);
        Hypothesis { tokens, score: add_scores(self.score, log_prob), finished: false, slot }
    }

    /// Whether the length-adjusted score of this hypothesis is above that
    /// of `other`.
    pub fn adjusted_above(&self, other: &Hypothesis, penalty: u32) -> (above: bool)
        requires
            self@.weighable(penalty as nat),
            other@.weighable(penalty as nat),
        ensures
            above == self@.adjusted_above(other@, penalty as nat),
    {
        let own: u64 = match checked_length_weight(self.tokens.len() as u64, penalty) {
            Some(w) => w,
            None => 0,
        };
        let their: u64 = match checked_length_weight(other.tokens.len() as u64, penalty) {
            Some(w) => w,
            None => 0,
        };
        let (s1, s2) = (self.score, other.score);
        assert(-0x8000_0000_0000_0000 * 0x4000_0000_0000_0000 <= s1 * their
            <= 0x8000_0000_0000_0000 * 0x4000_0000_0000_0000) by (nonlinear_arith)
            requires
                -0x8000_0000_0000_0000 <= s1 <= 0x8000_0000_0000_0000,
                0 <= their <= 0x4000_0000_0000_0000,
        ;
        assert(-0x8000_0000_0000_0000 * 0x4000_0000_0000_0000 <= s2 * own
            <= 0x8000_0000_0000_0000 * 0x4000_0000_0000_0000) by (nonlinear_arith)
            requires
                -0x8000_0000_0000_0000 <= s2 <= 0x8000_0000_0000_0000,
                0 <= own <= 0x4000_0000_0000_0000,
        ;
        (s1 as i128) * (their as i128) > (s2 as i128) * (own as i128)
    }
}

/// The rules by which a beam group grows and ends.
#[derive(Clone, Copy, Debug)]
pub struct BeamPolicy {
    /// The greatest number of live hypotheses, and of finished ones kept.
    pub num_beams: usize,
    /// The length at which a hypothesis ends in any case.
    pub max_length: u64,
    /// The exponent of the length penalty.
    pub length_penalty: u32,
    /// Whether the search ends as soon as `num_beams` hypotheses are
    /// finished.
    pub early_stopping: bool,
    /// The token that ends a sequence, if there is one.
    pub eos_token_id: Option<TokenId>,
}

impl BeamPolicy {
    /// Whether the policy allows a beam at all and every length up to
    /// `max_length` fits the weight limit.
    pub open spec fn valid(&self) -> bool {
        &&& self.num_beams >= 1
        &&& length_weight(self.max_length as int, self.length_penalty as nat) <= MAX_LENGTH_WEIGHT
    }

    /// Whether a hypothesis has a length that the policy admits.
    pub open spec fn admits(&self, h: HypothesisModel) -> bool {
        1 <= h.tokens.len() <= self.max_length
    }

    /// Whether a hypothesis that was just extended has ended: its last
    /// token is the end marker, or it has reached the maximum length.
    pub open spec fn terminal(&self, h: HypothesisModel) -> bool {
        h.tokens.len() >= self.max_length || (h.tokens.len() > 0 && self.eos_token_id == Some(
            h.tokens.last(),
        ))
    }

    /// A hypothesis that the policy admits can be weighed.
    pub proof fn lemma_admitted_weighable(&self, h: HypothesisModel)
        requires
            self.valid(),
            self.admits(h),
        ensures
            h.weighable(self.length_penalty as nat),
    {
        lemma_pow_base_increases(
            h.tokens.len() as int,
            self.max_length as int,
            self.length_penalty as nat,
        );
    }
}

/// One way to continue a live hypothesis.
#[derive(Clone, Copy, Debug)]
pub struct Candidate {
    /// The position of the hypothesis to continue among the live ones.
    pub parent: usize,
    /// The token to append.
    pub token: TokenId,
    /// The log-probability of that token after that hypothesis.
    pub log_prob: Score,
}

/// Whether entry `w` is ranked after every other entry.
pub open spec fn is_worst(entries: Seq<HypothesisModel>, w: int, penalty: nat) -> bool {
    &&& 0 <= w < entries.len()
    &&& forall|j: int| 0 <= j < entries.len() && j != w ==> ranks_before(entries, j, w, penalty)
}

/// The entry that is ranked after every other entry.
pub open spec fn worst_index(entries: Seq<HypothesisModel>, penalty: nat) -> int {
    choose|w: int| is_worst(entries, w, penalty)
}

/// The finished hypotheses after `h` has joined them: `h` is appended,
/// and where that exceeds `capacity` the entry ranked last is dropped.
pub open spec fn with_completed(
    done: Seq<HypothesisModel>,
    h: HypothesisModel,
    capacity: int,
    penalty: nat,
) -> Seq<HypothesisModel> {
    let joined = done.push(h);
    if joined.len() <= capacity {
        joined
    } else {
        joined.remove(worst_index(joined, penalty))
    }
}

/// A beam group after a step.
pub struct Expansion {
    /// The hypotheses that are live after the step.
    pub live: Seq<HypothesisModel>,
    /// The finished hypotheses after the step.
    pub completed: Seq<HypothesisModel>,
    /// For each hypothesis that is live after the step, the slot of the
    /// hypothesis that it continues.
    pub parents: Seq<usize>,
}

/// The beam group after the first `n` candidates have been taken in turn.
/// A candidate is taken while fewer than `num_beams` hypotheses are live
/// again, unless its log-probability is `NEG_INF`: its parent is continued
/// by its token, and the child joins the finished hypotheses where it has
/// ended, and otherwise the live ones, in the next free slot.
pub open spec fn expanded(
    live: Seq<HypothesisModel>,
    done: Seq<HypothesisModel>,
    policy: BeamPolicy,
    candidates: Seq<Candidate>,
    n: int,
) -> Expansion
    decreases n,
{
    if n <= 0 {
        Expansion { live: Seq::empty(), completed: done, parents: Seq::empty() }
    } else {
        let before = expanded(live, done, policy, candidates, n - 1);
        let c = candidates[n - 1];
        let child = live[c.parent as int].child(c.token, c.log_prob, before.live.len() as usize);
        if before.live.len() >= policy.num_beams || c.log_prob == NEG_INF {
            before
        } else if policy.terminal(child) {
            Expansion {
                completed: with_completed(
                    before.completed,
                    child.seal(),
                    policy.num_beams as int,
                    policy.length_penalty as nat,
                ),
                ..before
            }
        } else {
            Expansion {
                live: before.live.push(child),
                parents: before.parents.push(c.parent),
                ..before
            }
        }
    }
}

/// The hypothesis that candidate `k` stands for, in `slot`.
pub open spec fn candidate_child(
    live: Seq<HypothesisModel>,
    candidates: Seq<Candidate>,
    k: int,
    slot: usize,
) -> HypothesisModel {
    live[candidates[k].parent as int].child(candidates[k].token, candidates[k].log_prob, slot)
}

/// Every finished hypothesis after `h` has joined is `h` or was finished
/// before, and at most `capacity` are held.
pub proof fn lemma_with_completed_entries(
    done: Seq<HypothesisModel>,
    h: HypothesisModel,
    capacity: int,
    penalty: nat,
)
    requires
        done.len() <= capacity,
        forall|i: int| 0 <= i < done.len() ==> (#[trigger] done[i]).weighable(penalty),
        h.weighable(penalty),
    ensures
        with_completed(done, h, capacity, penalty).len() <= capacity,
        done.len() < capacity ==> with_completed(done, h, capacity, penalty) == done.push(h),
        forall|i: int|
            0 <= i < with_completed(done, h, capacity, penalty).len() ==> {
                let e = #[trigger] with_completed(done, h, capacity, penalty)[i];
                e == h || done.contains(e)
            },
{
    let joined = done.push(h);
    let after = with_completed(done, h, capacity, penalty);
    if joined.len() > capacity {
        lemma_worst_exists(joined, penalty, joined.len() as int);
        let w = worst_index(joined, penalty);
        assert(is_worst(joined, w, penalty));
        assert forall|i: int| 0 <= i < after.len() implies {
            let e = #[trigger] after[i];
            e == h || done.contains(e)
        } by {
            let at = if i < w {
                i
            } else {
                i + 1
            };
            assert(after[i] == joined[at]);
            if at < done.len() {
                assert(done[at] == joined[at]);
            }
        }
    } else {
        assert forall|i: int| 0 <= i < after.len() implies {
            let e = #[trigger] after[i];
            e == h || done.contains(e)
        } by {
            if i < done.len() {
                assert(done[i] == joined[i]);
            }
        }
    }
}

/// Whether entry `w` is ranked after every other of the first `n` entries.
spec fn worst_among(entries: Seq<HypothesisModel>, w: int, n: int, penalty: nat) -> bool {
    &&& 0 <= w < n
    &&& forall|j: int| 0 <= j < n && j != w ==> ranks_before(entries, j, w, penalty)
}

/// Among the first `n` entries, `n` above 0, one is ranked after all the
/// others; over all entries that is the worst entry.
proof fn lemma_worst_exists(entries: Seq<HypothesisModel>, penalty: nat, n: int)
    requires
        1 <= n <= entries.len(),
        forall|i: int| 0 <= i < entries.len() ==> (#[trigger] entries[i]).weighable(penalty),
    ensures
        exists|w: int| worst_among(entries, w, n, penalty),
        n == entries.len() ==> is_worst(entries, worst_index(entries, penalty), penalty),
    decreases n,
{
    if n == 1 {
        assert(worst_among(entries, 0, n, penalty));
    } else {
        let last = n - 1;
        lemma_worst_exists(entries, penalty, last);
        let u = choose|w: int| worst_among(entries, w, last, penalty);
        assert(entries[u].weighable(penalty));
        assert(entries[last].weighable(penalty));
        if ranks_before(entries, u, last, penalty) {
            assert forall|j: int| 0 <= j < n && j != last implies ranks_before(
                entries,
                j,
                last,
                penalty,
            ) by {
                if j != u {
                    assert(entries[j].weighable(penalty));
                    lemma_ranks_transitive(entries, j, u, last, penalty);
                }
            }
            assert(worst_among(entries, last, n, penalty));
        } else {
            assert(ranks_before(entries, last, u, penalty));
            assert(worst_among(entries, u, n, penalty));
        }
    }
    if n == entries.len() {
        let w = choose|w: int| worst_among(entries, w, n, penalty);
        assert(is_worst(entries, w, penalty));
    }
}

/// What holds of every hypothesis before a step and of every child that a
/// candidate stands for holds of every hypothesis after the step: `alive`
/// of the live ones, `ended` of the finished ones. Each live hypothesis
/// continues the hypothesis in the slot recorded for it.
pub proof fn lemma_expanded_entries(
    live: Seq<HypothesisModel>,
    done: Seq<HypothesisModel>,
    policy: BeamPolicy,
    candidates: Seq<Candidate>,
    n: int,
    alive: spec_fn(HypothesisModel) -> bool,
    ended: spec_fn(HypothesisModel) -> bool,
)
    requires
        0 <= n <= candidates.len(),
        policy.valid(),
        done.len() <= policy.num_beams,
        forall|i: int| 0 <= i < live.len() ==> policy.admits(#[trigger] live[i]),
        forall|j: int| 0 <= j < done.len() ==> policy.admits(#[trigger] done[j]) && ended(done[j]),
        forall|k: int|
            0 <= k < n ==> (#[trigger] candidates[k]).parent < live.len()
                && live[candidates[k].parent as int].tokens.len() < policy.max_length,
        forall|k: int, slot: usize|
            0 <= k < n && candidates[k].log_prob != NEG_INF ==> {
                let child = #[trigger] candidate_child(live, candidates, k, slot);
                if policy.terminal(child) {
                    ended(child.seal())
                } else {
                    alive(child)
                }
            },
    ensures
        ({
            let after = expanded(live, done, policy, candidates, n);
            &&& after.live.len() == after.parents.len()
            &&& after.live.len() <= policy.num_beams
            &&& after.live.len() <= n
            &&& after.completed.len() <= policy.num_beams
            &&& forall|i: int|
                0 <= i < after.live.len() ==> alive(#[trigger] after.live[i]) && policy.admits(
                    after.live[i],
                ) && after.parents[i] < live.len() && after.live[i].tokens.drop_last()
                    == live[after.parents[i] as int].tokens
            &&& forall|j: int|
                0 <= j < after.completed.len() ==> ended(#[trigger] after.completed[j])
                    && policy.admits(after.completed[j])
        }),
    decreases n,
{
    if n > 0 {
        lemma_expanded_entries(live, done, policy, candidates, n - 1, alive, ended);
        let before = expanded(live, done, policy, candidates, n - 1);
        let after = expanded(live, done, policy, candidates, n);
        let c = candidates[n - 1];
        let slot = before.live.len() as usize;
        let child = candidate_child(live, candidates, n - 1, slot);
        let parent = live[c.parent as int];
        assert(policy.admits(parent));
        assert(child.tokens.drop_last() =~= parent.tokens);
        if before.live.len() >= policy.num_beams || c.log_prob == NEG_INF {
        } else if policy.terminal(child) {
            let penalty = policy.length_penalty as nat;
            assert forall|i: int| 0 <= i < before.completed.len() implies (
            #[trigger] before.completed[i]).weighable(penalty) by {
                policy.lemma_admitted_weighable(before.completed[i]);
            }
            policy.lemma_admitted_weighable(child.seal());
            lemma_with_completed_entries(
                before.completed,
                child.seal(),
                policy.num_beams as int,
                penalty,
            );
            assert forall|j: int| 0 <= j < after.completed.len() implies ended(
                #[trigger] after.completed[j],
            ) && policy.admits(after.completed[j]) by {
                let e = after.completed[j];
                if e != child.seal() {
                    assert(before.completed.contains(e));
                    let at = choose|at: int|
                        0 <= at < before.completed.len() && before.completed[at] == e;
                    assert(ended(before.completed[at]));
                }
            }
        } else {
            assert forall|i: int| 0 <= i < after.live.len() implies alive(#[trigger] after.live[i])
                && policy.admits(after.live[i]) && after.parents[i] < live.len()
                && after.live[i].tokens.drop_last() == live[after.parents[i] as int].tokens by {
                if i < before.live.len() {
                    assert(after.live[i] == before.live[i]);
                    assert(after.parents[i] == before.parents[i]);
                }
            }
        }
    }
}

/// Whether each hypothesis that is live after a step continues a
/// hypothesis that was live before it and has no score above that one's.
pub open spec fn scores_descend(live: Seq<HypothesisModel>, after: Expansion) -> bool {
    &&& after.live.len() == after.parents.len()
    &&& forall|i: int|
        0 <= i < after.live.len() ==> (#[trigger] after.parents[i]) < live.len()
            && after.live[i].score <= live[after.parents[i] as int].score
}

/// Where no candidate has a log-probability above 0, no hypothesis that
/// is live after the step has a score above that of the hypothesis that
/// it continues.
pub proof fn lemma_expanded_scores(
    live: Seq<HypothesisModel>,
    done: Seq<HypothesisModel>,
    policy: BeamPolicy,
    candidates: Seq<Candidate>,
    n: int,
)
    requires
        0 <= n <= candidates.len(),
        forall|k: int|
            0 <= k < n ==> (#[trigger] candidates[k]).parent < live.len() && candidates[k].log_prob
                <= 0,
    ensures
        scores_descend(live, expanded(live, done, policy, candidates, n)),
    decreases n,
{
    if n > 0 {
        lemma_expanded_scores(live, done, policy, candidates, n - 1);
        let before = expanded(live, done, policy, candidates, n - 1);
        let after = expanded(live, done, policy, candidates, n);
        let c = candidates[n - 1];
        let parent = live[c.parent as int];
        let child = parent.child(c.token, c.log_prob, before.live.len() as usize);
        assert(c.parent < live.len());
        assert(c.log_prob != NEG_INF ==> child.score <= parent.score);
        assert forall|i: int| 0 <= i < after.live.len() implies (#[trigger] after.parents[i])
            < live.len() && after.live[i].score <= live[after.parents[i] as int].score by {
            if i < before.live.len() {
                assert(after.live[i] == before.live[i]);
                assert(after.parents[i] == before.parents[i]);
            } else {
                assert(after.live[i] == child);
                assert(after.parents[i] == c.parent);
            }
        }
    }
}

/// The outcome of a step that leaves these hypotheses.
pub open spec fn outcome_of(
    live: Seq<HypothesisModel>,
    completed: Seq<HypothesisModel>,
    parents: Seq<usize>,
) -> Expansion {
    Expansion { live, completed, parents }
}

/// Whether the policy admits every hypothesis of the list, and each is
/// marked as the list requires.
pub open spec fn all_admitted(list: Seq<Hypothesis>, policy: BeamPolicy, finished: bool) -> bool {
    forall|i: int|
        0 <= i < list.len() ==> policy.admits((#[trigger] list[i])@) && list[i].finished
            == finished
}

/// Whether every hypothesis of the list holds the slot of its position.
pub open spec fn slots_in_order(list: Seq<Hypothesis>) -> bool {
    forall|i: int| 0 <= i < list.len() ==> (#[trigger] list[i]).slot == i
}

proof fn lemma_admitted_push(
    list: Seq<Hypothesis>,
    h: Hypothesis,
    policy: BeamPolicy,
    finished: bool,
)
    requires
        all_admitted(list, policy, finished),
        policy.admits(h@),
        h.finished == finished,
    ensures
        all_admitted(list.push(h), policy, finished),
        slots_in_order(list) && h.slot == list.len() ==> slots_in_order(list.push(h)),
{
    let grown = list.push(h);
    assert forall|i: int| 0 <= i < grown.len() implies policy.admits((#[trigger] grown[i])@)
        && grown[i].finished == finished by {
        if i < list.len() {
            assert(grown[i] == list[i]);
        }
    }
    if slots_in_order(list) && h.slot == list.len() {
        assert forall|i: int| 0 <= i < grown.len() implies (#[trigger] grown[i]).slot == i by {
            if i < list.len() {
                assert(grown[i] == list[i]);
            }
        }
    }
}

proof fn lemma_admitted_remove(list: Seq<Hypothesis>, w: int, policy: BeamPolicy, finished: bool)
    requires
        all_admitted(list, policy, finished),
        0 <= w < list.len(),
    ensures
        all_admitted(list.remove(w), policy, finished),
{
    let rest = list.remove(w);
    assert forall|i: int| 0 <= i < rest.len() implies policy.admits((#[trigger] rest[i])@)
        && rest[i].finished == finished by {
        if i < w {
            assert(rest[i] == list[i]);
        } else {
            assert(rest[i] == list[i + 1]);
        }
    }
}

/// The hypotheses tracked for one input: those that are still live, and
/// the best of those that are finished.
#[derive(Debug)]
pub struct BeamGroup {
    /// The hypotheses that can still grow.
    pub live: Vec<Hypothesis>,
    /// The finished hypotheses, in the order in which they ended.
    pub completed: Vec<Hypothesis>,
    /// The rules of the search.
    pub policy: BeamPolicy,
}

impl BeamGroup {
    /// What the live hypotheses stand for.
    pub open spec fn live_models(&self) -> Seq<HypothesisModel> {
        models(self.live@)
    }

    /// What the finished hypotheses stand for.
    pub open spec fn completed_models(&self) -> Seq<HypothesisModel> {
        models(self.completed@)
    }

    /// The invariant of a beam group: neither set holds more than
    /// `num_beams` hypotheses, every length is admitted, exactly the
    /// finished hypotheses are marked so, and each live hypothesis holds
    /// the slot of its position.
    pub open spec fn wf(&self) -> bool {
        &&& self.policy.valid()
        &&& self.live.len() <= self.policy.num_beams
        &&& self.completed.len() <= self.policy.num_beams
        &&& all_admitted(self.live@, self.policy, false)
        &&& all_admitted(self.completed@, self.policy, true)
        &&& slots_in_order(self.live@)
    }

    /// The outcome of a step that leaves this beam group, with the slots
    /// that its live hypotheses continue.
    pub open spec fn outcome(&self, parents: Seq<usize>) -> Expansion {
        outcome_of(self.live_models(), self.completed_models(), parents)
    }

    /// Whether no live hypothesis has an adjusted score above that of any
    /// finished one, so that continuing is not expected to improve on the
    /// worst finished hypothesis. The bound is a rule of thumb: a live
    /// hypothesis may still come to a better adjusted score as it grows.
    pub open spec fn outlasted(&self) -> bool {
        &&& self.completed.len() > 0
        &&& forall|i: int, j: int|
            0 <= i < self.live.len() && 0 <= j < self.completed.len()
                ==> !#[trigger] self.live[i]@.adjusted_above(
                self.completed[j]@,
                self.policy.length_penalty as nat,
            )
    }

    /// Whether the search may end: `num_beams` hypotheses are finished,
    /// and early stopping is on or the live hypotheses are outlasted.
    pub open spec fn done(&self) -> bool {
        self.completed.len() >= self.policy.num_beams && (self.policy.early_stopping
            || self.outlasted())
    }

    /// A beam group with no hypothesis yet.
    pub fn new(policy: BeamPolicy) -> (group: BeamGroup)
        requires
            policy.valid(),
        ensures
            group.wf(),
            group.policy == policy,
            group.live@.len() == 0,
            group.completed@.len() == 0,
    {
        BeamGroup { live: Vec::new(), completed: Vec::new(), policy }
    }

    /// The position of the finished hypothesis that is ranked last.
    fn worst_completed(&self) -> (w: usize)
        requires
            self.completed.len() > 0,
            self.policy.valid(),
            all_admitted(self.completed@, self.policy, true),
        ensures
            is_worst(self.completed_models(), w as int, self.policy.length_penalty as nat),
            w == worst_index(self.completed_models(), self.policy.length_penalty as nat),
    {
        let ghost entries = self.completed_models();
        let ghost penalty = self.policy.length_penalty as nat;
        proof {
            assert forall|i: int| 0 <= i < entries.len() implies (#[trigger] entries[i]).weighable(
                penalty,
            ) by {
                self.policy.lemma_admitted_weighable(self.completed[i]@);
            }
        }
        let mut w: usize = 0;
        let mut j: usize = 1;
        while j < self.completed.len()
            invariant
                1 <= j <= self.completed.len(),
                w < j,
                entries == self.completed_models(),
                penalty == self.policy.length_penalty as nat,
                forall|i: int|
                    0 <= i < entries.len() ==> (#[trigger] entries[i]).weighable(penalty),
                forall|m: int| 0 <= m < j && m != w ==> ranks_before(entries, m, w as int, penalty),
            decreases self.completed.len() - j,
        {
            assert(entries[j as int].weighable(penalty));
            assert(entries[w as int].weighable(penalty));
            if !self.completed[j].adjusted_above(&self.completed[w], self.policy.length_penalty) {
                assert forall|m: int| 0 <= m < j + 1 && m != j implies ranks_before(
                    entries,
                    m,
                    j as int,
                    penalty,
                ) by {
                    if m != w {
                        assert(entries[m].weighable(penalty));
                        lemma_ranks_transitive(entries, m, w as int, j as int, penalty);
                    }
                }
                w = j;
            }
            j += 1;
        }
        proof {
            let chosen = worst_index(entries, penalty);
            assert(is_worst(entries, w as int, penalty));
            if chosen != w {
                assert(ranks_before(entries, chosen, w as int, penalty));
                assert(ranks_before(entries, w as int, chosen, penalty));
            }
        }
        w
    }

    /// Adds a hypothesis to the finished ones, marked as finished; where
    /// more than `num_beams` are then held, the one ranked last is dropped.
    pub fn complete(&mut self, h: Hypothesis)
        requires
            old(self).wf(),
            old(self).policy.admits(h@),
        ensures
            final(self).wf(),
            final(self).policy == old(self).policy,
            final(self).live == old(self).live,
            final(self).completed_models() == with_completed(
                old(self).completed_models(),
                h@.seal(),
                old(self).policy.num_beams as int,
                old(self).policy.length_penalty as nat,
            ),
    {
        let sealed = Hypothesis { tokens: h.tokens, score: h.score, finished: true, slot: h.slot };
        let ghost joined = old(self).completed_models().push(sealed@);
        proof {
            lemma_admitted_push(self.completed@, sealed, self.policy, true);
        }
        self.completed.push(sealed);
        assert(self.completed_models() =~= joined);
        if self.completed.len() > self.policy.num_beams {
            let w: usize = self.worst_completed();
            proof {
                lemma_admitted_remove(self.completed@, w as int, self.policy, true);
            }
            self.completed.remove(w);
            assert(self.completed_models() =~= joined.remove(w as int));
        }
    }

    /// Moves `h` to the finished hypotheses where it has ended, and hands
    /// it back where it has not.
    pub fn finish(&mut self, h: Hypothesis) -> (kept: Option<Hypothesis>)
        requires
            old(self).wf(),
            old(self).policy.admits(h@),
        ensures
            final(self).wf(),
            final(self).policy == old(self).policy,
            final(self).live == old(self).live,
            old(self).policy.terminal(h@) ==> kept is None && final(self).completed_models()
                == with_completed(
                old(self).completed_models(),
                h@.seal(),
                old(self).policy.num_beams as int,
                old(self).policy.length_penalty as nat,
            ),
            !old(self).policy.terminal(h@) ==> kept == Some(h) && final(self).completed == old(
                self,
            ).completed,
    {
        let at_limit: bool = h.tokens.len() as u64 >= self.policy.max_length;
        let ended: bool = at_limit || match self.policy.eos_token_id {
            Some(e) => h.tokens[h.tokens.len() - 1] == e,
            None => false,
        };
        if ended {
            self.complete(h);
            None
        } else {
            Some(h)
        }
    }

    /// Takes the candidates in turn until `num_beams` hypotheses are live
    /// again, and returns for each hypothesis that is then live the slot
    /// of the hypothesis that it continues. The cached decoder state has
    /// to be reordered by what is returned before the next step.
    pub fn expand(&mut self, candidates: &Vec<Candidate>) -> (parents: Vec<usize>)
        requires
            old(self).wf(),
            forall|k: int|
                0 <= k < candidates.len() ==> (#[trigger] candidates[k]).parent < old(
                    self,
                ).live.len() && old(self).live[candidates[k].parent as int].tokens.len() < old(
                    self,
                ).policy.max_length,
        ensures
            final(self).wf(),
            final(self).policy == old(self).policy,
            final(self).outcome(parents@) == expanded(
                old(self).live_models(),
                old(self).completed_models(),
                old(self).policy,
                candidates@,
                candidates.len() as int,
            ),
    {
        let mut next: Vec<Hypothesis> = Vec::new();
        let mut parents: Vec<usize> = Vec::new();
        let mut k: usize = 0;
        assert(models(next@) =~= Seq::empty());
        assert(parents@ =~= Seq::empty());
        while k < candidates.len()
            invariant
                k <= candidates.len(),
                self.wf(),
                self.policy == old(self).policy,
                self.live == old(self).live,
                next.len() <= self.policy.num_beams,
                forall|k: int|
                    0 <= k < candidates.len() ==> (#[trigger] candidates[k]).parent
                        < self.live.len() && self.live[candidates[k].parent as int].tokens.len()
                        < self.policy.max_length,
                all_admitted(next@, old(self).policy, false),
                slots_in_order(next@),
                outcome_of(models(next@), self.completed_models(), parents@) == expanded(
                    old(self).live_models(),
                    old(self).completed_models(),
                    self.policy,
                    candidates@,
                    k as int,
                ),
            decreases candidates.len() - k,
        {
            let c: Candidate = candidates[k];
            if next.len() < self.policy.num_beams && c.log_prob != NEG_INF {
                let child: Hypothesis = self.live[c.parent].extend(c.token, c.log_prob, next.len());
                let ghost grown = models(next@).push(child@);
                assert(self.policy.admits(child@));
                match self.finish(child) {
                    Some(h) => {
                        proof {
                            lemma_admitted_push(next@, h, self.policy, false);
                        }
                        next.push(h);
                        parents.push(c.parent);
                        assert(models(next@) =~= grown);
                    },
                    None => {},
                }
            }
            k += 1;
        }
        self.live = next;
        parents
    }

    /// Whether the search may end.
    pub fn is_done(&self) -> (done: bool)
        requires
            self.wf(),
        ensures
            done == self.done(),
    {
        if self.completed.len() < self.policy.num_beams {
            return false;
        }
        if self.policy.early_stopping {
            return true;
        }
        let ghost penalty = self.policy.length_penalty as nat;
        let mut i: usize = 0;
        while i < self.live.len()
            invariant
                i <= self.live.len(),
                self.wf(),
                !self.policy.early_stopping,
                self.completed.len() >= self.policy.num_beams,
                penalty == self.policy.length_penalty as nat,
                forall|a: int, b: int|
                    0 <= a < i && 0 <= b < self.completed.len()
                        ==> !#[trigger] self.live[a]@.adjusted_above(
                        self.completed[b]@,
                        penalty,
                    ),
            decreases self.live.len() - i,
        {
            let mut j: usize = 0;
            while j < self.completed.len()
                invariant
                    i < self.live.len(),
                    j <= self.completed.len(),
                    self.wf(),
                    !self.policy.early_stopping,
                    self.completed.len() >= self.policy.num_beams,
                    penalty == self.policy.length_penalty as nat,
                    forall|b: int|
                        0 <= b < j ==> !#[trigger] self.live[i as int]@.adjusted_above(
                            self.completed[b]@,
                            penalty,
                        ),
                decreases self.completed.len() - j,
            {
                proof {
                    self.policy.lemma_admitted_weighable(self.live[i as int]@);
                    self.policy.lemma_admitted_weighable(self.completed[j as int]@);
                }
                if self.live[i].adjusted_above(&self.completed[j], self.policy.length_penalty) {
                    return false;
                }
                j += 1;
            }
            i += 1;
        }
        true
    }
}

} // verus!
