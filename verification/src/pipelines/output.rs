//! The choice of the sequences to return once a search has ended.
//!
//! Finished hypotheses are ranked by their score divided by their length
//! raised to the length penalty, the higher the better, and among equals
//! the one that finished first.

use vstd::prelude::*;
use super::hypothesis::{
    lemma_ranks_transitive, models, ranks_before, BeamGroup, BeamPolicy, Hypothesis,
    HypothesisModel,
};
use super::score::{
    count_set, filled_flags, lemma_count_set_bound, lemma_count_set_update, TokenId,
};

verus! {

/// How many of the first `n` entries are ranked before entry `i`.
pub open spec fn count_ranked_before(
    entries: Seq<HypothesisModel>,
    i: int,
    n: int,
    penalty: nat,
) -> nat
    decreases n,
{
    if n <= 0 {
        0
    } else {
        count_ranked_before(entries, i, n - 1, penalty) + if ranks_before(
            entries,
            n - 1,
            i,
            penalty,
        ) {
            1nat
        } else {
            0nat
        }
    }
}

/// The rank of entry `i` by adjusted score: the number of entries ranked
/// before it. The best entry has rank 0.
pub open spec fn adjusted_rank(entries: Seq<HypothesisModel>, i: int, penalty: nat) -> nat {
    count_ranked_before(entries, i, entries.len() as int, penalty)
}

proof fn lemma_rank_counts_flags(
    entries: Seq<HypothesisModel>,
    flags: Seq<bool>,
    s: int,
    n: int,
    penalty: nat,
)
    requires
        flags.len() == entries.len(),
        0 <= n <= entries.len(),
        forall|j: int|
            0 <= j < entries.len() ==> (flags[j] <==> ranks_before(entries, j, s, penalty)),
    ensures
        count_ranked_before(entries, s, n, penalty) == count_set(flags, n),
    decreases n,
{
    if n > 0 {
        lemma_rank_counts_flags(entries, flags, s, n - 1, penalty);
    }
}

proof fn lemma_count_ranked_strict(
    entries: Seq<HypothesisModel>,
    i: int,
    j: int,
    n: int,
    penalty: nat,
)
    requires
        0 <= i < entries.len(),
        0 <= j < entries.len(),
        0 <= n <= entries.len(),
        forall|k: int| 0 <= k < entries.len() ==> (#[trigger] entries[k]).weighable(penalty),
        ranks_before(entries, i, j, penalty),
    ensures
        count_ranked_before(entries, i, n, penalty) <= count_ranked_before(entries, j, n, penalty),
        n > i ==> count_ranked_before(entries, i, n, penalty) < count_ranked_before(
            entries,
            j,
            n,
            penalty,
        ),
    decreases n,
{
    if n > 0 {
        lemma_count_ranked_strict(entries, i, j, n - 1, penalty);
        if ranks_before(entries, n - 1, i, penalty) {
            assert(entries[n - 1].weighable(penalty));
            assert(entries[i].weighable(penalty));
            assert(entries[j].weighable(penalty));
            lemma_ranks_transitive(entries, n - 1, i, j, penalty);
        }
    }
}

/// Of two entries the one with the lower rank has the adjusted score that
/// is not below the other's: ranks follow the order of adjusted scores,
/// and no two entries share a rank.
pub proof fn lemma_adjusted_rank_order(entries: Seq<HypothesisModel>, i: int, j: int, penalty: nat)
    requires
        0 <= i < entries.len(),
        0 <= j < entries.len(),
        forall|k: int| 0 <= k < entries.len() ==> (#[trigger] entries[k]).weighable(penalty),
        adjusted_rank(entries, i, penalty) <= adjusted_rank(entries, j, penalty),
    ensures
        !entries[j].adjusted_above(entries[i], penalty),
        adjusted_rank(entries, i, penalty) == adjusted_rank(entries, j, penalty) ==> i == j,
{
    if i != j {
        if ranks_before(entries, j, i, penalty) {
            lemma_count_ranked_strict(entries, j, i, entries.len() as int, penalty);
        } else {
            lemma_count_ranked_strict(entries, i, j, entries.len() as int, penalty);
        }
    }
}

/// The best entry whose flag is clear.
fn best_entry(entries: &Vec<Hypothesis>, taken: &Vec<bool>, policy: &BeamPolicy) -> (best: Option<
    usize,
>)
    requires
        taken.len() == entries.len(),
        policy.valid(),
        forall|i: int| 0 <= i < entries.len() ==> policy.admits(#[trigger] entries[i]@),
    ensures
        match best {
            Some(b) => b < entries.len() && !taken[b as int] && forall|j: int|
                0 <= j < entries.len() && !taken[j] && j != b ==> ranks_before(
                    models(entries@),
                    b as int,
                    j,
                    policy.length_penalty as nat,
                ),
            None => forall|j: int| 0 <= j < entries.len() ==> taken[j],
        },
{
    let ghost list = models(entries@);
    let ghost penalty = policy.length_penalty as nat;
    proof {
        assert forall|i: int| 0 <= i < list.len() implies (#[trigger] list[i]).weighable(
            penalty,
        ) by {
            policy.lemma_admitted_weighable(entries[i]@);
        }
    }
    let mut best: Option<usize> = None;
    let mut i: usize = 0;
    while i < entries.len()
        invariant
            i <= entries.len(),
            taken.len() == entries.len(),
            list == models(entries@),
            penalty == policy.length_penalty as nat,
            forall|k: int| 0 <= k < list.len() ==> (#[trigger] list[k]).weighable(penalty),
            match best {
                Some(b) => b < i && !taken[b as int] && forall|j: int|
                    0 <= j < i && !taken[j] && j != b ==> ranks_before(list, b as int, j, penalty),
                None => forall|j: int| 0 <= j < i ==> taken[j],
            },
        decreases entries.len() - i,
    {
        if !taken[i] {
            match best {
                Some(b) => {
                    assert(list[b as int].weighable(penalty));
                    assert(list[i as int].weighable(penalty));
                    if entries[i].adjusted_above(&entries[b], policy.length_penalty) {
                        assert forall|j: int|
                            0 <= j < i + 1 && !taken[j] && j != i implies ranks_before(
                            list,
                            i as int,
                            j,
                            penalty,
                        ) by {
                            if j != b {
                                assert(list[j].weighable(penalty));
                                lemma_ranks_transitive(list, i as int, b as int, j, penalty);
                            }
                        }
                        best = Some(i);
                    }
                },
                None => {
                    best = Some(i);
                },
            }
        }
        i += 1;
    }
    best
}

/// The number of entries that a ranking of at most `limit` returns.
pub open spec fn ranking_len(limit: int, n: int) -> int {
    if limit < n {
        limit
    } else {
        n
    }
}

/// The positions of the `limit` best entries in rank order, or of all
/// entries where there are fewer.
pub fn rank_entries(entries: &Vec<Hypothesis>, limit: usize, policy: &BeamPolicy) -> (order: Vec<
    usize,
>)
    requires
        policy.valid(),
        forall|i: int| 0 <= i < entries.len() ==> policy.admits(#[trigger] entries[i]@),
    ensures
        order.len() == ranking_len(limit as int, entries.len() as int),
        forall|r: int|
            0 <= r < order.len() ==> order[r] < entries.len() && adjusted_rank(
                models(entries@),
                #[trigger] order[r] as int,
                policy.length_penalty as nat,
            ) == r,
{
    let n: usize = entries.len();
    let ghost list = models(entries@);
    let ghost penalty = policy.length_penalty as nat;
    let mut taken: Vec<bool> = filled_flags(n, false);
    let mut order: Vec<usize> = Vec::new();
    while order.len() < limit
        invariant
            n == entries.len(),
            policy.valid(),
            forall|i: int| 0 <= i < entries.len() ==> policy.admits(#[trigger] entries[i]@),
            list == models(entries@),
            penalty == policy.length_penalty as nat,
            taken.len() == n,
            order.len() <= limit,
            order.len() <= n,
            count_set(taken@, n as int) == order.len(),
            forall|j: int, l: int|
                0 <= j < n && 0 <= l < n && taken[j] && !taken[l] ==> ranks_before(
                    list,
                    j,
                    l,
                    penalty,
                ),
            forall|r: int|
                0 <= r < order.len() ==> order[r] < n && adjusted_rank(
                    list,
                    #[trigger] order[r] as int,
                    penalty,
                ) == r,
        ensures
            order.len() == ranking_len(limit as int, n as int),
            forall|r: int|
                0 <= r < order.len() ==> order[r] < n && adjusted_rank(
                    list,
                    #[trigger] order[r] as int,
                    penalty,
                ) == r,
        decreases limit - order.len(),
    {
        match best_entry(entries, &taken, policy) {
            Some(b) => {
                proof {
                    lemma_rank_counts_flags(list, taken@, b as int, n as int, penalty);
                    lemma_count_set_update(taken@, b as int, n as int);
                    lemma_count_set_bound(taken@, n as int);
                }
                taken.set(b, true);
                order.push(b);
            },
            None => {
                proof {
                    lemma_count_set_bound(taken@, n as int);
                }
                break ;
            },
        }
    }
    order
}

/// The report that fewer hypotheses finished than were asked for. It is
/// no failure of the search: the sequences that could be had come with it.
#[derive(Debug)]
pub struct InsufficientHypothesesError {
    /// The number of sequences asked for.
    pub requested: u64,
    /// The number of finished hypotheses.
    pub completed: usize,
    /// The finished sequences, best first, followed by the best
    /// unfinished ones.
    pub sequences: Vec<Vec<TokenId>>,
}

/// The token sequences that a list of vectors holds.
pub open spec fn sequences_of(list: Seq<Vec<TokenId>>) -> Seq<Seq<TokenId>> {
    list.map_values(|v: Vec<TokenId>| v@)
}

/// The first `max_length` tokens of a sequence, or all of a shorter one.
pub open spec fn truncated(tokens: Seq<TokenId>, max_length: int) -> Seq<TokenId> {
    if tokens.len() > max_length {
        tokens.take(max_length)
    } else {
        tokens
    }
}

/// Whether `tokens` is the sequence of entry `i`, and that entry has rank
/// `r`.
pub open spec fn holds_rank(
    entries: Seq<HypothesisModel>,
    i: int,
    r: int,
    tokens: Seq<TokenId>,
    policy: BeamPolicy,
) -> bool {
    &&& 0 <= i < entries.len()
    &&& adjusted_rank(entries, i, policy.length_penalty as nat) == r
    &&& tokens == truncated(entries[i].tokens, policy.max_length as int)
}

/// Whether the sequence at position `r` of `chosen` is that of the entry
/// of rank `r`.
pub open spec fn ranked_at(
    entries: Seq<HypothesisModel>,
    chosen: Seq<Seq<TokenId>>,
    r: int,
    policy: BeamPolicy,
) -> bool {
    exists|i: int| holds_rank(entries, i, r, chosen[r], policy)
}

/// Whether `chosen` holds the sequences of the `limit` best entries, best
/// first, or of all entries where there are fewer.
pub open spec fn is_top(
    entries: Seq<HypothesisModel>,
    chosen: Seq<Seq<TokenId>>,
    limit: int,
    policy: BeamPolicy,
) -> bool {
    &&& chosen.len() == ranking_len(limit, entries.len() as int)
    &&& forall|r: int| 0 <= r < chosen.len() ==> #[trigger] ranked_at(entries, chosen, r, policy)
}

/// The sequences chosen come in the order of their adjusted scores: of
/// two of them, the later one belongs to an entry whose adjusted score is
/// not above that of the entry of the earlier one.
pub proof fn lemma_top_descends(
    entries: Seq<HypothesisModel>,
    chosen: Seq<Seq<TokenId>>,
    limit: int,
    policy: BeamPolicy,
    a: int,
    b: int,
)
    requires
        policy.valid(),
        forall|i: int| 0 <= i < entries.len() ==> policy.admits(#[trigger] entries[i]),
        is_top(entries, chosen, limit, policy),
        0 <= a <= b < chosen.len(),
    ensures
        exists|i: int, j: int|
            #![trigger entries[i], entries[j]]
            holds_rank(entries, i, a, chosen[a], policy) && holds_rank(
                entries,
                j,
                b,
                chosen[b],
                policy,
            ) && !entries[j].adjusted_above(entries[i], policy.length_penalty as nat),
{
    let penalty = policy.length_penalty as nat;
    assert(ranked_at(entries, chosen, a, policy));
    assert(ranked_at(entries, chosen, b, policy));
    let i = choose|i: int| holds_rank(entries, i, a, chosen[a], policy);
    let j = choose|j: int| holds_rank(entries, j, b, chosen[b], policy);
    assert forall|k: int| 0 <= k < entries.len() implies (#[trigger] entries[k]).weighable(
        penalty,
    ) by {
        policy.lemma_admitted_weighable(entries[k]);
    }
    lemma_adjusted_rank_order(entries, i, j, penalty);
    assert(holds_rank(entries, i, a, chosen[a], policy) && holds_rank(
        entries,
        j,
        b,
        chosen[b],
        policy,
    ) && !entries[j].adjusted_above(entries[i], penalty));
}

/// A copy of the first `max_length` tokens of a sequence.
fn copy_truncated(tokens: &Vec<TokenId>, max_length: u64) -> (copy: Vec<TokenId>)
    ensures
        copy@ == truncated(tokens@, max_length as int),
{
    let keep: usize = if tokens.len() as u64 > max_length {
        max_length as usize
    } else {
        tokens.len()
    };
    let mut copy: Vec<TokenId> = Vec::new();
    let mut i: usize = 0;
    while i < keep
        invariant
            i <= keep <= tokens.len(),
            copy@ == tokens@.take(i as int),
        decreases keep - i,
    {
        copy.push(tokens[i]);
        assert(copy@ =~= tokens@.take(i + 1));
        i += 1;
    }
    assert(tokens@.take(tokens.len() as int) =~= tokens@);
    copy
}

/// Appends to `out` the sequences of the `limit` best entries, best first.
fn gather(entries: &Vec<Hypothesis>, limit: u64, policy: &BeamPolicy, out: &mut Vec<Vec<TokenId>>)
    requires
        policy.valid(),
        forall|i: int| 0 <= i < entries.len() ==> policy.admits(#[trigger] entries[i]@),
    ensures
        final(out)@.len() >= old(out)@.len(),
        sequences_of(final(out)@).take(old(out)@.len() as int) == sequences_of(old(out)@),
        is_top(
            models(entries@),
            sequences_of(final(out)@).skip(old(out)@.len() as int),
            limit as int,
            *policy,
        ),
{
    let bounded: usize = if limit > entries.len() as u64 {
        entries.len()
    } else {
        limit as usize
    };
    let order: Vec<usize> = rank_entries(entries, bounded, policy);
    let ghost list = models(entries@);
    let ghost base = old(out)@.len() as int;
    let mut r: usize = 0;
    assert(sequences_of(out@).take(base) =~= sequences_of(old(out)@));
    while r < order.len()
        invariant
            r <= order.len(),
            list == models(entries@),
            base == old(out)@.len(),
            out@.len() == base + r,
            order.len() == ranking_len(limit as int, entries.len() as int),
            sequences_of(out@).take(base) == sequences_of(old(out)@),
            forall|q: int|
                0 <= q < order.len() ==> order[q] < entries.len() && adjusted_rank(
                    list,
                    #[trigger] order[q] as int,
                    policy.length_penalty as nat,
                ) == q,
            forall|q: int|
                0 <= q < r ==> #[trigger] ranked_at(
                    list,
                    sequences_of(out@).skip(base),
                    q,
                    *policy,
                ),
        decreases order.len() - r,
    {
        let at: usize = order[r];
        let copy: Vec<TokenId> = copy_truncated(&entries[at].tokens, policy.max_length);
        let ghost before = sequences_of(out@);
        out.push(copy);
        proof {
            let after = sequences_of(out@);
            assert(after =~= before.push(copy@));
            assert(after.take(base) =~= before.take(base));
            assert forall|q: int| 0 <= q < r + 1 implies #[trigger] ranked_at(
                list,
                after.skip(base),
                q,
                *policy,
            ) by {
                if q < r {
                    assert(ranked_at(list, before.skip(base), q, *policy));
                    assert(after.skip(base)[q] == before.skip(base)[q]);
                    let i = choose|i: int| holds_rank(list, i, q, before.skip(base)[q], *policy);
                    assert(holds_rank(list, i, q, after.skip(base)[q], *policy));
                } else {
                    assert(order[q] == at);
                    assert(holds_rank(list, at as int, q, after.skip(base)[q], *policy));
                }
            }
        }
        r += 1;
    }
}

/// The sequences to return for a beam group: those of the `count` best
/// finished hypotheses, best first. Where fewer than `count` hypotheses
/// are finished, the report of that comes back instead; it holds the
/// sequences of all finished hypotheses, best first, followed by those of
/// the best live ones, cut at the maximum length, as far as they go.
pub fn select_outputs(group: &BeamGroup, count: u64) -> (r: Result<
    Vec<Vec<TokenId>>,
    InsufficientHypothesesError,
>)
    requires
        group.wf(),
    ensures
        match r {
            Ok(list) => group.completed.len() >= count && is_top(
                group.completed_models(),
                sequences_of(list@),
                count as int,
                group.policy,
            ),
            Err(e) => group.completed.len() < count && e.requested == count && e.completed
                == group.completed.len() && e.sequences.len() >= e.completed && is_top(
                group.completed_models(),
                sequences_of(e.sequences@).take(e.completed as int),
                count as int,
                group.policy,
            ) && is_top(
                group.live_models(),
                sequences_of(e.sequences@).skip(e.completed as int),
                count - e.completed,
                group.policy,
            ),
        },
{
    let mut out: Vec<Vec<TokenId>> = Vec::new();
    gather(&group.completed, count, &group.policy, &mut out);
    assert(sequences_of(out@).skip(0) =~= sequences_of(out@));
    if group.completed.len() as u64 >= count {
        Ok(out)
    } else {
        let ghost head = sequences_of(out@);
        let finished: usize = group.completed.len();
        gather(&group.live, count - finished as u64, &group.policy, &mut out);
        assert(head.len() == finished);
        Err(InsufficientHypothesesError { requested: count, completed: finished, sequences: out })
    }
}

} // verus!
