//! Blocking of repeated n-grams.
//!
//! A token is banned after a history when appending it would complete an
//! n-gram that the history already holds. The table of the banned tokens
//! of a hypothesis, from the last `n - 1` tokens to the tokens that have
//! followed them before, is not stored: it is read off the history each
//! time, and so grows and goes with the hypothesis.

use vstd::prelude::*;
use super::score::{Score, TokenId, NEG_INF};

verus! {

/// Whether the `n` tokens that start at `i` equal the `n` tokens that start
/// at `j`.
pub open spec fn same_ngram(tokens: Seq<TokenId>, i: int, j: int, n: int) -> bool {
    tokens.subrange(i, i + n) == tokens.subrange(j, j + n)
}

/// Whether some n-gram occurs at two positions of `tokens`.
pub open spec fn has_repeated_ngram(tokens: Seq<TokenId>, n: int) -> bool {
    exists|i: int, j: int|
        0 <= i < j && j + n <= tokens.len() && #[trigger] same_ngram(tokens, i, j, n)
}

/// Whether no n-gram that ends after the first `from` tokens repeats an
/// n-gram that starts earlier.
pub open spec fn no_repeat_after(tokens: Seq<TokenId>, n: int, from: int) -> bool {
    forall|i: int, j: int|
        0 <= i < j && j + n <= tokens.len() && from < j + n ==> !#[trigger] same_ngram(
            tokens,
            i,
            j,
            n,
        )
}

/// The last `n - 1` tokens of `history`: what a new token is appended to
/// when it forms the next n-gram.
pub open spec fn ngram_stem(history: Seq<TokenId>, n: int) -> Seq<TokenId> {
    history.subrange(history.len() - (n - 1), history.len() as int)
}

/// Whether the n-gram that starts at `i` consists of the last `n - 1`
/// tokens of `history` followed by `token`.
pub open spec fn completes_at(history: Seq<TokenId>, n: int, i: int, token: int) -> bool {
    &&& 0 <= i
    &&& i + n <= history.len()
    &&& history.subrange(i, i + n - 1) == ngram_stem(history, n)
    &&& history[i + n - 1] == token
}

/// Whether appending `token` to `history` would complete an n-gram that
/// `history` already holds. Never where `n` is 0.
pub open spec fn completes_seen_ngram(history: Seq<TokenId>, n: int, token: int) -> bool {
    n > 0 && exists|i: int| completes_at(history, n, i, token)
}

/// A history to which a token that completes no seen n-gram is appended
/// does not come to repeat an n-gram in the appended part.
pub proof fn lemma_unbanned_token_keeps_fresh(
    history: Seq<TokenId>,
    n: int,
    from: int,
    token: TokenId,
)
    requires
        n > 0,
        no_repeat_after(history, n, from),
        !completes_seen_ngram(history, n, token as int),
    ensures
        no_repeat_after(history.push(token), n, from),
{
    let grown = history.push(token);
    assert forall|i: int, j: int|
        0 <= i < j && j + n <= grown.len() && from < j + n implies !#[trigger] same_ngram(
        grown,
        i,
        j,
        n,
    ) by {
        if same_ngram(grown, i, j, n) {
            let first = grown.subrange(i, i + n);
            let second = grown.subrange(j, j + n);
            assert(first =~= history.subrange(i, i + n));
            if j + n <= history.len() {
                assert(second =~= history.subrange(j, j + n));
                assert(same_ngram(history, i, j, n));
            } else {
                assert(second =~= ngram_stem(history, n).push(token));
                assert(history.subrange(i, i + n - 1) =~= first.subrange(0, n - 1));
                assert(ngram_stem(history, n) =~= second.subrange(0, n - 1));
                assert(history[i + n - 1] == first[n - 1]);
                assert(completes_at(history, n, i, token as int));
            }
        }
    }
}

/// A sequence whose first `from` tokens repeat no n-gram, and whose later
/// n-grams repeat none either, repeats no n-gram at all.
pub proof fn lemma_fresh_everywhere(tokens: Seq<TokenId>, n: int, from: int)
    requires
        n > 0,
        0 <= from <= tokens.len(),
        !has_repeated_ngram(tokens.subrange(0, from), n),
        no_repeat_after(tokens, n, from),
    ensures
        !has_repeated_ngram(tokens, n),
{
    let head = tokens.subrange(0, from);
    if has_repeated_ngram(tokens, n) {
        let (i, j) = choose|i: int, j: int|
            0 <= i < j && j + n <= tokens.len() && #[trigger] same_ngram(tokens, i, j, n);
        if j + n <= from {
            assert(head.subrange(i, i + n) =~= tokens.subrange(i, i + n));
            assert(head.subrange(j, j + n) =~= tokens.subrange(j, j + n));
            assert(same_ngram(head, i, j, n));
        }
    }
}

/// Whether the `n - 1` tokens that start at `i` are the last `n - 1` tokens
/// of `history`.
fn stem_matches(history: &Vec<TokenId>, n: usize, i: usize) -> (found: bool)
    requires
        n > 0,
        i + n <= history.len(),
    ensures
        found == (history@.subrange(i as int, i + n - 1) == ngram_stem(history@, n as int)),
{
    let start: usize = history.len() - (n - 1);
    let ghost gram = history@.subrange(i as int, i + n - 1);
    let ghost stem = ngram_stem(history@, n as int);
    let mut k: usize = 0;
    while k < n - 1
        invariant
            n > 0,
            k <= n - 1,
            i + n <= history.len(),
            start == history.len() - (n - 1),
            gram == history@.subrange(i as int, i + n - 1),
            stem == ngram_stem(history@, n as int),
            forall|m: int| 0 <= m < k ==> #[trigger] gram[m] == stem[m],
        decreases n - 1 - k,
    {
        if history[i + k] != history[start + k] {
            assert(gram[k as int] != stem[k as int]);
            return false;
        }
        k += 1;
    }
    assert(gram =~= stem);
    true
}

/// Whether `token` completes a seen n-gram that starts before `bound`.
spec fn completes_before(history: Seq<TokenId>, n: int, bound: int, token: int) -> bool {
    exists|m: int| m < bound && #[trigger] completes_at(history, n, m, token)
}

/// The scores after n-gram blocking: `NEG_INF` for every token that would
/// complete an n-gram already held by `history`, the others as they are.
/// With `n` at 0 nothing changes.
pub open spec fn ban_stage(scores: Seq<Score>, history: Seq<TokenId>, n: int) -> Seq<Score> {
    Seq::new(
        scores.len(),
        |t: int|
            if completes_seen_ngram(history, n, t) {
                NEG_INF
            } else {
                scores[t]
            },
    )
}

/// Without a size nothing is blocked.
pub proof fn lemma_ban_stage_off(scores: Seq<Score>, history: Seq<TokenId>)
    ensures
        ban_stage(scores, history, 0) == scores,
{
    assert(ban_stage(scores, history, 0) =~= scores);
}

/// Applies n-gram blocking to the scores.
pub fn apply_ngram_ban(scores: &mut Vec<Score>, history: &Vec<TokenId>, n: usize)
    ensures
        final(scores)@ == ban_stage(old(scores)@, history@, n as int),
{
    if n == 0 || history.len() < n {
        assert(scores@ =~= ban_stage(scores@, history@, n as int));
        return ;
    }
    let last_start: usize = history.len() - n;
    let mut i: usize = 0;
    while i <= last_start
        invariant
            n > 0,
            last_start + n == history.len(),
            i <= last_start + 1,
            scores.len() == old(scores).len(),
            forall|t: int|
                0 <= t < scores.len() ==> #[trigger] scores[t] == if completes_before(
                    history@,
                    n as int,
                    i as int,
                    t,
                ) {
                    NEG_INF
                } else {
                    old(scores)[t]
                },
        decreases last_start + 1 - i,
    {
        let token: TokenId = history[i + n - 1];
        let matched: bool = stem_matches(history, n, i);
        let ghost before = scores@;
        if matched && 0 <= token && (token as u64) < (scores.len() as u64) {
            scores.set(token as usize, NEG_INF);
        }
        assert forall|t: int| 0 <= t < scores.len() implies #[trigger] scores[t]
            == if completes_before(history@, n as int, i + 1, t) {
            NEG_INF
        } else {
            old(scores)[t]
        } by {
            assert(before[t] == if completes_before(history@, n as int, i as int, t) {
                NEG_INF
            } else {
                old(scores)[t]
            });
            if completes_before(history@, n as int, i as int, t) {
                let m = choose|m: int| m < i && #[trigger] completes_at(history@, n as int, m, t);
                assert(m < i + 1 && completes_at(history@, n as int, m, t));
            } else if completes_before(history@, n as int, i + 1, t) {
                let m = choose|m: int|
                    m < i + 1 && #[trigger] completes_at(history@, n as int, m, t);
                assert(m == i);
            } else {
                if matched && t == token {
                    assert(completes_at(history@, n as int, i as int, t));
                }
            }
        }
        i += 1;
    }
    assert forall|t: int| 0 <= t < old(scores).len() implies #[trigger] scores[t]
        == if completes_seen_ngram(history@, n as int, t) {
        NEG_INF
    } else {
        old(scores)[t]
    } by {
        if completes_seen_ngram(history@, n as int, t) {
            let m = choose|m: int| completes_at(history@, n as int, m, t);
            assert(m < i && completes_at(history@, n as int, m, t));
        } else if completes_before(history@, n as int, i as int, t) {
            let m = choose|m: int| m < i && #[trigger] completes_at(history@, n as int, m, t);
            assert(completes_at(history@, n as int, m, t));
        }
    }
    assert(scores@ =~= ban_stage(old(scores)@, history@, n as int));
}

} // verus!
