//! The transforms applied to the scores of the next token before a
//! selection: repetition penalty, n-gram blocking, temperature, top-k and
//! top-p, in that order.

use vstd::prelude::*;
use super::config::GenerateConfig;
use super::ngram::{apply_ngram_ban, ban_stage, lemma_ban_stage_off};
use super::score::{
    best_remaining, clamp_finite, copy_of, count_set, filled_flags, lemma_count_set_bound,
    lemma_count_set_update, lemma_rank_bound, lemma_rank_injective, outranks, rank_of,
    top_ranked, Score, TokenId, MIN_FINITE, NEG_INF, UNIT,
};

verus! {

/// The score `x` multiplied by `num / den`, rounded towards zero and
/// limited to the finite scores. A banned score stays banned.
pub open spec fn scaled(x: Score, num: int, den: int) -> int {
    if x == NEG_INF {
        NEG_INF as int
    } else if x < 0 {
        clamp_finite(-((-x) * num / den))
    } else {
        clamp_finite(x * num / den)
    }
}

/// Multiplies a score by `num / den`.
pub fn scale_score(x: Score, num: u64, den: u64) -> (r: Score)
    requires
        den > 0,
    ensures
        r == scaled(x, num as int, den as int),
{
    if x == NEG_INF {
        NEG_INF
    } else if x < 0 {
        let magnitude: u128 = (-(x as i128)) as u128;
        assert(magnitude * num <= 0x8000_0000_0000_0000 * 0x1_0000_0000_0000_0000)
            by (nonlinear_arith)
            requires
                magnitude <= 0x8000_0000_0000_0000,
                num <= 0x1_0000_0000_0000_0000,
        ;
        let quotient: u128 = magnitude * (num as u128) / (den as u128);
        if quotient > i64::MAX as u128 {
            MIN_FINITE
        } else {
            -(quotient as i64)
        }
    } else {
        let magnitude: u128 = x as u128;
        assert(magnitude * num <= 0x8000_0000_0000_0000 * 0x1_0000_0000_0000_0000)
            by (nonlinear_arith)
            requires
                magnitude <= 0x8000_0000_0000_0000,
                num <= 0x1_0000_0000_0000_0000,
        ;
        let quotient: u128 = magnitude * (num as u128) / (den as u128);
        if quotient > i64::MAX as u128 {
            i64::MAX
        } else {
            quotient as i64
        }
    }
}

/// A score made less likely by the repetition penalty: a negative score is
/// multiplied by the penalty, any other is divided by it.
pub open spec fn penalized(x: Score, penalty: int) -> int {
    if x < 0 {
        scaled(x, penalty, UNIT as int)
    } else {
        scaled(x, UNIT as int, penalty)
    }
}

/// A score divided by the temperature.
pub open spec fn tempered(x: Score, temperature: int) -> int {
    scaled(x, UNIT as int, temperature)
}

/// Whether token `t` occurs in `history`.
pub open spec fn occurs(history: Seq<TokenId>, t: int) -> bool {
    exists|k: int| 0 <= k < history.len() && #[trigger] history[k] == t
}

/// A penalty of at least one never makes a token more likely, and a
/// penalty of exactly one changes nothing.
pub proof fn lemma_penalized_bounds(x: Score, penalty: int)
    requires
        penalty >= UNIT,
    ensures
        penalized(x, penalty) <= x,
        penalty == UNIT ==> penalized(x, penalty) == x,
{
    if x == NEG_INF {
    } else if x < 0 {
        let m = -x;
        assert(m * penalty / (UNIT as int) >= m) by (nonlinear_arith)
            requires
                m >= 0,
                penalty >= UNIT,
                UNIT == 1000,
        ;
        assert(m * (UNIT as int) / (UNIT as int) == m) by (nonlinear_arith)
            requires
                UNIT == 1000,
        ;
    } else {
        assert(x * (UNIT as int) / penalty <= x) by (nonlinear_arith)
            requires
                x >= 0,
                penalty >= UNIT,
                UNIT == 1000,
        ;
        assert(x * (UNIT as int) / (UNIT as int) == x) by (nonlinear_arith)
            requires
                UNIT == 1000,
        ;
    }
}

/// A temperature of exactly one changes nothing.
pub proof fn lemma_tempered_identity(x: Score)
    ensures
        tempered(x, UNIT as int) == x,
{
    if x != NEG_INF {
        let m = -x;
        assert(m * (UNIT as int) / (UNIT as int) == m) by (nonlinear_arith)
            requires
                UNIT == 1000,
        ;
        assert(x * (UNIT as int) / (UNIT as int) == x) by (nonlinear_arith)
            requires
                UNIT == 1000,
        ;
    }
}

/// The scores after the repetition penalty: that of every token that
/// occurs in `history` is penalized, once, the others are as they were.
pub open spec fn penalty_stage(scores: Seq<Score>, history: Seq<TokenId>, penalty: int) -> Seq<
    Score,
> {
    Seq::new(
        scores.len(),
        |t: int|
            if occurs(history, t) {
                penalized(scores[t], penalty) as Score
            } else {
                scores[t]
            },
    )
}

/// The scores after each has been divided by the temperature.
pub open spec fn temperature_stage(scores: Seq<Score>, temperature: int) -> Seq<Score> {
    Seq::new(scores.len(), |t: int| tempered(scores[t], temperature) as Score)
}

/// The scores after top-k: the `k` best are kept, the lower token being
/// the better among equal scores, and all the others are `NEG_INF`. With
/// `k` at 0 nothing changes.
pub open spec fn top_k_stage(scores: Seq<Score>, k: int) -> Seq<Score> {
    if k == 0 {
        scores
    } else {
        Seq::new(
            scores.len(),
            |t: int|
                if rank_of(scores, t) < k {
                    scores[t]
                } else {
                    NEG_INF
                },
        )
    }
}

/// Applies the repetition penalty to the scores.
pub fn apply_repetition_penalty(scores: &mut Vec<Score>, history: &Vec<TokenId>, penalty: u64)
    requires
        penalty > 0,
    ensures
        final(scores)@ == penalty_stage(old(scores)@, history@, penalty as int),
{
    let mut seen: Vec<bool> = filled_flags(scores.len(), false);
    let mut i: usize = 0;
    while i < history.len()
        invariant
            penalty > 0,
            i <= history.len(),
            scores.len() == old(scores).len(),
            seen.len() == scores.len(),
            forall|t: int|
                0 <= t < scores.len() ==> (#[trigger] seen[t] <==> occurs(
                    history@.subrange(0, i as int),
                    t,
                )),
            forall|t: int|
                0 <= t < scores.len() ==> #[trigger] scores[t] == if seen[t] {
                    penalized(old(scores)[t], penalty as int)
                } else {
                    old(scores)[t] as int
                },
        decreases history.len() - i,
    {
        let token: TokenId = history[i];
        let ghost head = history@.subrange(0, i as int);
        let ghost grown = history@.subrange(0, i + 1);
        if 0 <= token && (token as u64) < (scores.len() as u64) {
            let at: usize = token as usize;
            if !seen[at] {
                let x: Score = scores[at];
                let y: Score = if x < 0 {
                    scale_score(x, penalty, UNIT)
                } else {
                    scale_score(x, UNIT, penalty)
                };
                scores.set(at, y);
                seen.set(at, true);
            }
        }
        assert forall|t: int| 0 <= t < scores.len() implies (#[trigger] seen[t] <==> occurs(
            grown,
            t,
        )) by {
            if occurs(head, t) {
                let k = choose|k: int| 0 <= k < head.len() && #[trigger] head[k] == t;
                assert(grown[k] == t);
            }
            if occurs(grown, t) {
                let k = choose|k: int| 0 <= k < grown.len() && #[trigger] grown[k] == t;
                if k < i {
                    assert(head[k] == t);
                }
            }
            if t == token {
                assert(grown[i as int] == t);
            }
        }
        i += 1;
    }
    assert(history@.subrange(0, i as int) =~= history@);
    assert(scores@ =~= penalty_stage(old(scores)@, history@, penalty as int));
}

/// Divides every score by the temperature.
pub fn apply_temperature(scores: &mut Vec<Score>, temperature: u64)
    requires
        temperature > 0,
    ensures
        final(scores)@ == temperature_stage(old(scores)@, temperature as int),
{
    let mut i: usize = 0;
    while i < scores.len()
        invariant
            temperature > 0,
            i <= scores.len(),
            scores.len() == old(scores).len(),
            forall|t: int|
                0 <= t < i ==> #[trigger] scores[t] == tempered(old(scores)[t], temperature as int),
            forall|t: int| i <= t < scores.len() ==> #[trigger] scores[t] == old(scores)[t],
        decreases scores.len() - i,
    {
        let y: Score = scale_score(scores[i], UNIT, temperature);
        scores.set(i, y);
        i += 1;
    }
    assert(scores@ =~= temperature_stage(old(scores)@, temperature as int));
}

/// Keeps the `k` best scores and sets all the others to `NEG_INF`.
pub fn apply_top_k(scores: &mut Vec<Score>, k: usize)
    ensures
        final(scores)@ == top_k_stage(old(scores)@, k as int),
{
    if k == 0 {
        return ;
    }
    let n: usize = scores.len();
    let order: Vec<usize> = top_ranked(scores, k);
    let mut kept: Vec<bool> = filled_flags(n, false);
    let mut r: usize = 0;
    while r < order.len()
        invariant
            r <= order.len(),
            n == scores.len(),
            kept.len() == n,
            scores@ == old(scores)@,
            forall|q: int|
                0 <= q < order.len() ==> order[q] < n && rank_of(
                    scores@,
                    #[trigger] order[q] as int,
                ) == q,
            forall|t: int|
                0 <= t < n ==> (#[trigger] kept[t] <==> exists|q: int|
                    0 <= q < r && #[trigger] order[q] == t),
        decreases order.len() - r,
    {
        let at: usize = order[r];
        kept.set(at, true);
        assert forall|t: int| 0 <= t < n implies (#[trigger] kept[t] <==> exists|q: int|
            0 <= q < r + 1 && #[trigger] order[q] == t) by {
            if t == at {
                assert(order[r as int] == t);
            }
        }
        r += 1;
    }
    let mut i: usize = 0;
    while i < n
        invariant
            i <= n,
            k > 0,
            n == scores.len(),
            n == old(scores).len(),
            kept.len() == n,
            order.len() == if k < n {
                k
            } else {
                n
            },
            forall|q: int|
                0 <= q < order.len() ==> order[q] < n && rank_of(
                    old(scores)@,
                    #[trigger] order[q] as int,
                ) == q,
            forall|t: int|
                0 <= t < n ==> (#[trigger] kept[t] <==> exists|q: int|
                    0 <= q < order.len() && #[trigger] order[q] == t),
            forall|t: int|
                0 <= t < i ==> #[trigger] scores[t] == if rank_of(old(scores)@, t) < k {
                    old(scores)[t]
                } else {
                    NEG_INF
                },
            forall|t: int| i <= t < n ==> #[trigger] scores[t] == old(scores)[t],
        decreases n - i,
    {
        proof {
            let t = i as int;
            let rank = rank_of(old(scores)@, t);
            lemma_rank_bound(old(scores)@, t);
            if kept[t] {
                let q = choose|q: int| 0 <= q < order.len() && #[trigger] order[q] == t;
                assert(rank_of(old(scores)@, order[q] as int) == q);
            } else if rank < k {
                assert(rank < order.len());
                let other = order[rank as int];
                assert(rank_of(old(scores)@, other as int) == rank);
                lemma_rank_injective(old(scores)@, t, other as int);
                assert(order[rank as int] == t);
            }
        }
        if !kept[i] {
            scores.set(i, NEG_INF);
        }
        i += 1;
    }
    assert(scores@ =~= top_k_stage(old(scores)@, k as int));
}

/// The greatest weight that a token can carry.
pub const MAX_WEIGHT: i64 = 0xffff_ffff;

/// The weight by which each token is ranked for the nucleus: its
/// probability mass, or nothing where its score is banned.
pub open spec fn nucleus_weights(scores: Seq<Score>, weights: Seq<u32>) -> Seq<i64> {
    Seq::new(
        scores.len(),
        |t: int|
            if scores[t] == NEG_INF {
                0i64
            } else {
                weights[t] as i64
            },
    )
}

/// The sum of the first `n` weights.
pub open spec fn mass_total(weights: Seq<i64>, n: int) -> int
    decreases n,
{
    if n <= 0 {
        0
    } else {
        mass_total(weights, n - 1) + weights[n - 1]
    }
}

/// The sum of those of the first `n` weights whose position is ranked
/// before position `i`.
pub open spec fn mass_outranking(weights: Seq<i64>, i: int, n: int) -> int
    decreases n,
{
    if n <= 0 {
        0
    } else {
        mass_outranking(weights, i, n - 1) + if outranks(weights, n - 1, i) {
            weights[n - 1] as int
        } else {
            0
        }
    }
}

/// The sum of those of the first `n` weights whose flag is set.
pub open spec fn mass_set(weights: Seq<i64>, flags: Seq<bool>, n: int) -> int
    decreases n,
{
    if n <= 0 {
        0
    } else {
        mass_set(weights, flags, n - 1) + if flags[n - 1] {
            weights[n - 1] as int
        } else {
            0
        }
    }
}

/// Whether position `i` belongs to the nucleus: the mass ranked before it
/// is still below the share `top_p` of the whole mass. The nucleus is the
/// shortest run of best positions whose mass reaches that share.
pub open spec fn in_nucleus(weights: Seq<i64>, i: int, top_p: int) -> bool {
    mass_outranking(weights, i, weights.len() as int) * UNIT < top_p * mass_total(
        weights,
        weights.len() as int,
    )
}

proof fn lemma_mass_counts_set(weights: Seq<i64>, flags: Seq<bool>, s: int, n: int)
    requires
        flags.len() == weights.len(),
        0 <= n <= weights.len(),
        forall|j: int| 0 <= j < weights.len() ==> (flags[j] <==> outranks(weights, j, s)),
    ensures
        mass_outranking(weights, s, n) == mass_set(weights, flags, n),
    decreases n,
{
    if n > 0 {
        lemma_mass_counts_set(weights, flags, s, n - 1);
    }
}

proof fn lemma_mass_at_least_set(weights: Seq<i64>, flags: Seq<bool>, s: int, n: int)
    requires
        flags.len() == weights.len(),
        0 <= n <= weights.len(),
        forall|j: int| 0 <= j < weights.len() ==> #[trigger] weights[j] >= 0,
        forall|j: int| 0 <= j < weights.len() && flags[j] ==> outranks(weights, j, s),
    ensures
        mass_outranking(weights, s, n) >= mass_set(weights, flags, n),
    decreases n,
{
    if n > 0 {
        lemma_mass_at_least_set(weights, flags, s, n - 1);
    }
}

proof fn lemma_mass_set_update(weights: Seq<i64>, flags: Seq<bool>, at: int, n: int)
    requires
        flags.len() == weights.len(),
        0 <= at < flags.len(),
        0 <= n <= flags.len(),
        !flags[at],
    ensures
        mass_set(weights, flags.update(at, true), n) == mass_set(weights, flags, n) + if at < n {
            weights[at] as int
        } else {
            0
        },
    decreases n,
{
    if n > 0 {
        lemma_mass_set_update(weights, flags, at, n - 1);
    }
}

proof fn lemma_mass_set_bound(weights: Seq<i64>, flags: Seq<bool>, n: int)
    requires
        flags.len() == weights.len(),
        0 <= n <= flags.len(),
        forall|j: int| 0 <= j < weights.len() ==> 0 <= #[trigger] weights[j] <= MAX_WEIGHT,
    ensures
        0 <= mass_set(weights, flags, n) <= mass_total(weights, n) <= n * MAX_WEIGHT,
        (forall|j: int| 0 <= j < n ==> !flags[j]) ==> mass_set(weights, flags, n) == 0,
    decreases n,
{
    if n > 0 {
        lemma_mass_set_bound(weights, flags, n - 1);
    }
}

/// The ranking weights of the nucleus, with their sum.
fn weigh(scores: &Vec<Score>, weights: &Vec<u32>) -> (r: (Vec<i64>, u128))
    requires
        weights.len() == scores.len(),
    ensures
        r.0@ == nucleus_weights(scores@, weights@),
        r.1 == mass_total(r.0@, r.0.len() as int),
        r.1 <= r.0.len() * MAX_WEIGHT,
        forall|j: int| 0 <= j < r.0.len() ==> 0 <= #[trigger] r.0[j] <= MAX_WEIGHT,
{
    let mut keys: Vec<i64> = Vec::new();
    let mut total: u128 = 0;
    let mut i: usize = 0;
    while i < scores.len()
        invariant
            i <= scores.len(),
            weights.len() == scores.len(),
            keys.len() == i,
            forall|t: int|
                0 <= t < i ==> #[trigger] keys[t] == nucleus_weights(scores@, weights@)[t],
            total == mass_total(keys@, i as int),
            total <= i * MAX_WEIGHT,
        decreases scores.len() - i,
    {
        let w: i64 = if scores[i] == NEG_INF {
            0
        } else {
            weights[i] as i64
        };
        proof {
            lemma_mass_total_push(keys@, w);
        }
        keys.push(w);
        total = total + w as u128;
        i += 1;
    }
    assert(keys@ =~= nucleus_weights(scores@, weights@));
    (keys, total)
}

proof fn lemma_mass_total_push(weights: Seq<i64>, w: i64)
    ensures
        mass_total(weights.push(w), weights.len() as int + 1) == mass_total(
            weights,
            weights.len() as int,
        ) + w,
{
    lemma_mass_total_prefix(weights, weights.push(w), weights.len() as int);
}

proof fn lemma_mass_total_prefix(a: Seq<i64>, b: Seq<i64>, n: int)
    requires
        0 <= n <= a.len(),
        n <= b.len(),
        forall|j: int| 0 <= j < n ==> a[j] == b[j],
    ensures
        mass_total(a, n) == mass_total(b, n),
    decreases n,
{
    if n > 0 {
        lemma_mass_total_prefix(a, b, n - 1);
    }
}

/// The scores after top-p: the nucleus is kept and every other score is
/// `NEG_INF`. Tokens are ranked by the probability mass in `weights`, the
/// lower token first among equals, and a banned token carries no mass. The
/// best token with any mass is always kept. With `top_p` at one or more
/// nothing changes.
pub open spec fn top_p_stage(scores: Seq<Score>, weights: Seq<u32>, top_p: int) -> Seq<Score> {
    if top_p >= UNIT {
        scores
    } else {
        Seq::new(
            scores.len(),
            |t: int|
                if in_nucleus(nucleus_weights(scores, weights), t, top_p) {
                    scores[t]
                } else {
                    NEG_INF
                },
        )
    }
}

/// Keeps the nucleus and sets every other score to `NEG_INF`.
pub fn apply_top_p(scores: &mut Vec<Score>, weights: &Vec<u32>, top_p: u64)
    requires
        weights.len() == old(scores).len(),
    ensures
        final(scores)@ == top_p_stage(old(scores)@, weights@, top_p as int),
{
    if top_p >= UNIT {
        return ;
    }
    let n: usize = scores.len();
    let (keys, total) = weigh(scores, weights);
    let mut taken: Vec<bool> = filled_flags(n, false);
    let mut mass: u128 = 0;
    let mut open: bool = true;
    assert(top_p * total <= 1000 * (n * MAX_WEIGHT)) by (nonlinear_arith)
        requires
            top_p < 1000,
            total <= n * MAX_WEIGHT,
    ;
    let bound: u128 = (top_p as u128) * total;
    proof {
        lemma_mass_set_bound(keys@, taken@, n as int);
    }
    while open
        invariant
            n == scores.len(),
            keys@ == nucleus_weights(old(scores)@, weights@),
            keys.len() == n,
            taken.len() == n,
            scores@ == old(scores)@,
            weights.len() == n,
            top_p < UNIT,
            total == mass_total(keys@, n as int),
            bound == top_p * total,
            mass == mass_set(keys@, taken@, n as int),
            forall|j: int| 0 <= j < n ==> 0 <= #[trigger] keys[j] <= MAX_WEIGHT,
            forall|j: int, l: int|
                0 <= j < n && 0 <= l < n && taken[j] && !taken[l] ==> outranks(keys@, j, l),
            forall|j: int| 0 <= j < n && taken[j] ==> in_nucleus(keys@, j, top_p as int),
            !open ==> forall|j: int|
                0 <= j < n && !taken[j] ==> !in_nucleus(keys@, j, top_p as int),
        decreases n - count_set(taken@, n as int), if open { 1int } else { 0int },
    {
        proof {
            lemma_mass_set_bound(keys@, taken@, n as int);
            lemma_count_set_bound(taken@, n as int);
        }
        assert(mass * 1000 <= 1000 * (n * MAX_WEIGHT)) by (nonlinear_arith)
            requires
                mass <= n * MAX_WEIGHT,
        ;
        match best_remaining(&keys, &taken) {
            Some(b) => {
                proof {
                    lemma_mass_counts_set(keys@, taken@, b as int, n as int);
                }
                if mass * 1000 < bound {
                    proof {
                        lemma_mass_set_update(keys@, taken@, b as int, n as int);
                        lemma_count_set_update(taken@, b as int, n as int);
                        lemma_mass_set_bound(keys@, taken@.update(b as int, true), n as int);
                    }
                    mass = mass + keys[b] as u128;
                    taken.set(b, true);
                } else {
                    assert forall|j: int| 0 <= j < n && !taken[j] implies !in_nucleus(
                        keys@,
                        j,
                        top_p as int,
                    ) by {
                        lemma_mass_at_least_set(keys@, taken@, j, n as int);
                        let before = mass_outranking(keys@, j, n as int);
                        assert(before * 1000 >= mass * 1000) by (nonlinear_arith)
                            requires
                                before >= mass,
                        ;
                    }
                    open = false;
                }
            },
            None => {
                open = false;
            },
        }
    }
    let mut i: usize = 0;
    while i < n
        invariant
            i <= n,
            n == scores.len(),
            n == old(scores).len(),
            taken.len() == n,
            forall|t: int| 0 <= t < i ==> #[trigger] scores[t] == if taken[t] {
                old(scores)[t]
            } else {
                NEG_INF
            },
            forall|t: int| i <= t < n ==> #[trigger] scores[t] == old(scores)[t],
        decreases n - i,
    {
        if !taken[i] {
            scores.set(i, NEG_INF);
        }
        i += 1;
    }
    assert(scores@ =~= top_p_stage(old(scores)@, weights@, top_p as int));
}

/// The scores by which hypotheses are ranked and extended: the raw scores
/// after the repetition penalty and n-gram blocking.
pub open spec fn penalised(
    scores: Seq<Score>,
    history: Seq<TokenId>,
    config: GenerateConfig,
) -> Seq<Score> {
    ban_stage(
        penalty_stage(scores, history, config.repetition_penalty as int),
        history,
        config.no_repeat_ngram_size as int,
    )
}

/// The scores after the first four stages: repetition penalty, n-gram
/// blocking, temperature and top-k.
pub open spec fn shaped(scores: Seq<Score>, history: Seq<TokenId>, config: GenerateConfig) -> Seq<
    Score,
> {
    top_k_stage(
        temperature_stage(penalised(scores, history, config), config.temperature as int),
        config.top_k as int,
    )
}

/// The scores after all five stages. `weights` holds the probability mass
/// of each token under the scores of the first four stages.
pub open spec fn filtered(
    scores: Seq<Score>,
    history: Seq<TokenId>,
    config: GenerateConfig,
    weights: Seq<u32>,
) -> Seq<Score> {
    top_p_stage(shaped(scores, history, config), weights, config.top_p as int)
}

/// With a repetition penalty of one, no n-gram blocking, a temperature
/// of one, no top-k and a top-p of one, the five stages change nothing.
pub proof fn lemma_filter_noop(
    scores: Seq<Score>,
    history: Seq<TokenId>,
    config: GenerateConfig,
    weights: Seq<u32>,
)
    requires
        config.repetition_penalty == UNIT,
        config.no_repeat_ngram_size == 0,
        config.temperature == UNIT,
        config.top_k == 0,
        config.top_p == UNIT,
    ensures
        penalised(scores, history, config) == scores,
        shaped(scores, history, config) == scores,
        filtered(scores, history, config, weights) == scores,
{
    let after_penalty = penalty_stage(scores, history, UNIT as int);
    assert forall|t: int| 0 <= t < scores.len() implies after_penalty[t] == scores[t] by {
        lemma_penalized_bounds(scores[t], UNIT as int);
    }
    assert(after_penalty =~= scores);
    lemma_ban_stage_off(scores, history);
    let after_temperature = temperature_stage(scores, UNIT as int);
    assert forall|t: int| 0 <= t < scores.len() implies after_temperature[t] == scores[t] by {
        lemma_tempered_identity(scores[t]);
    }
    assert(after_temperature =~= scores);
}

/// A top-k that keeps as many tokens as there are changes nothing.
pub proof fn lemma_top_k_wide(scores: Seq<Score>, k: int)
    requires
        k >= scores.len(),
    ensures
        top_k_stage(scores, k) == scores,
{
    if k > 0 {
        assert forall|t: int| 0 <= t < scores.len() implies rank_of(scores, t) < k by {
            lemma_rank_bound(scores, t);
        }
        assert(top_k_stage(scores, k) =~= scores);
    }
}

/// Applies the repetition penalty and n-gram blocking.
pub fn penalise(scores: &mut Vec<Score>, history: &Vec<TokenId>, config: &GenerateConfig)
    requires
        config.repetition_penalty > 0,
    ensures
        final(scores)@ == penalised(old(scores)@, history@, *config),
{
    apply_repetition_penalty(scores, history, config.repetition_penalty);
    if config.no_repeat_ngram_size <= history.len() as u64 {
        apply_ngram_ban(scores, history, config.no_repeat_ngram_size as usize);
    } else {
        assert(scores@ =~= ban_stage(scores@, history@, config.no_repeat_ngram_size as int));
    }
}

/// Applies the first four stages.
pub fn shape(scores: &mut Vec<Score>, history: &Vec<TokenId>, config: &GenerateConfig)
    requires
        config.repetition_penalty > 0,
        config.temperature > 0,
    ensures
        final(scores)@ == shaped(old(scores)@, history@, *config),
{
    penalise(scores, history, config);
    apply_temperature(scores, config.temperature);
    if config.top_k < scores.len() as u64 {
        apply_top_k(scores, config.top_k as usize);
    } else {
        proof {
            lemma_top_k_wide(scores@, config.top_k as int);
        }
    }
}

/// Applies all five stages. `weights` holds the probability mass of each
/// token under the scores of the first four stages.
pub fn filter_scores(
    scores: &mut Vec<Score>,
    history: &Vec<TokenId>,
    config: &GenerateConfig,
    weights: &Vec<u32>,
)
    requires
        config.repetition_penalty > 0,
        config.temperature > 0,
        weights.len() == old(scores).len(),
    ensures
        final(scores)@ == filtered(old(scores)@, history@, *config, weights@),
{
    shape(scores, history, config);
    apply_top_p(scores, weights, config.top_p);
}

/// The weights with which a token is drawn: the probability mass of each
/// token that is left after top-p, and nothing for the others.
pub open spec fn drawing_weights(scores: Seq<Score>, weights: Seq<u32>, top_p: int) -> Seq<u32> {
    Seq::new(
        scores.len(),
        |t: int|
            if top_p_stage(scores, weights, top_p)[t] == NEG_INF {
                0u32
            } else {
                weights[t]
            },
    )
}

/// Whether any of the weights is above 0.
pub open spec fn has_mass(weights: Seq<u32>) -> bool {
    exists|t: int| 0 <= t < weights.len() && #[trigger] weights[t] > 0
}

/// The weights with which a token is drawn after top-p, and whether any
/// token has a weight above 0.
pub fn weights_for_draw(scores: &Vec<Score>, weights: &Vec<u32>, top_p: u64) -> (r: (
    Vec<u32>,
    bool,
))
    requires
        weights.len() == scores.len(),
    ensures
        r.0@ == drawing_weights(scores@, weights@, top_p as int),
        r.1 == has_mass(r.0@),
{
    let mut kept: Vec<Score> = copy_of(scores);
    apply_top_p(&mut kept, weights, top_p);
    let mut out: Vec<u32> = Vec::new();
    let mut any: bool = false;
    let mut t: usize = 0;
    while t < kept.len()
        invariant
            t <= kept.len(),
            kept.len() == scores.len(),
            weights.len() == scores.len(),
            kept@ == top_p_stage(scores@, weights@, top_p as int),
            out.len() == t,
            forall|u: int|
                0 <= u < t ==> #[trigger] out[u] == drawing_weights(
                    scores@,
                    weights@,
                    top_p as int,
                )[u],
            any == exists|u: int| 0 <= u < t && #[trigger] out[u] > 0,
        decreases kept.len() - t,
    {
        let w: u32 = if kept[t] == NEG_INF {
            0
        } else {
            weights[t]
        };
        let ghost before = out@;
        out.push(w);
        proof {
            if any {
                let u = choose|u: int| 0 <= u < t && #[trigger] before[u] > 0;
                assert(out[u] > 0);
            }
            if w > 0 {
                assert(out[t as int] > 0);
            }
            if exists|u: int| 0 <= u < t + 1 && #[trigger] out[u] > 0 {
                let u = choose|u: int| 0 <= u < t + 1 && #[trigger] out[u] > 0;
                if u < t {
                    assert(before[u] > 0);
                }
            }
        }
        any = any || w > 0;
        t += 1;
    }
    assert(out@ =~= drawing_weights(scores@, weights@, top_p as int));
    (out, any)
}

} // verus!
