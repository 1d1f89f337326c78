//! Integer scores and the order in which candidates are ranked.

use vstd::prelude::*;

verus! {

/// A log-probability or logit in fixed-point units.
pub type Score = i64;

/// A token of the vocabulary.
pub type TokenId = i64;

/// The score of a banned candidate: below every finite score.
pub const NEG_INF: Score = i64::MIN;

/// The lowest finite score.
pub const MIN_FINITE: Score = i64::MIN + 1;

/// The fixed-point denominator of the real-valued parameters: a
/// temperature of `1500` stands for 1.5.
pub const UNIT: u64 = 1000;

/// `v` limited to the finite scores.
pub open spec fn clamp_finite(v: int) -> int {
    if v < MIN_FINITE as int {
        MIN_FINITE as int
    } else if v > i64::MAX as int {
        i64::MAX as int
    } else {
        v
    }
}

/// The sum of two scores. A banned score absorbs; otherwise the sum is
/// limited to the finite scores.
pub open spec fn score_sum(a: Score, b: Score) -> int {
    if a == NEG_INF || b == NEG_INF {
        NEG_INF as int
    } else {
        clamp_finite(a + b)
    }
}

/// Adds two scores.
pub fn add_scores(a: Score, b: Score) -> (sum: Score)
    ensures
        sum == score_sum(a, b),
{
    if a == NEG_INF || b == NEG_INF {
        NEG_INF
    } else {
        let wide: i128 = a as i128 + b as i128;
        if wide < MIN_FINITE as i128 {
            MIN_FINITE
        } else if wide > i64::MAX as i128 {
            i64::MAX
        } else {
            wide as i64
        }
    }
}

/// Whether position `i` is ranked before position `j`: by the higher key,
/// and among equal keys by the lower position.
pub open spec fn outranks(keys: Seq<i64>, i: int, j: int) -> bool {
    keys[i] > keys[j] || (keys[i] == keys[j] && i < j)
}

/// How many of the first `n` positions are ranked before position `i`.
pub open spec fn count_outranking(keys: Seq<i64>, i: int, n: int) -> nat
    decreases n,
{
    if n <= 0 {
        0
    } else {
        count_outranking(keys, i, n - 1) + if outranks(keys, n - 1, i) {
            1nat
        } else {
            0nat
        }
    }
}

/// The rank of position `i`: the number of positions ranked before it.
/// The best position has rank 0.
pub open spec fn rank_of(keys: Seq<i64>, i: int) -> nat {
    count_outranking(keys, i, keys.len() as int)
}

/// How many of the first `n` flags are set.
pub open spec fn count_set(flags: Seq<bool>, n: int) -> nat
    decreases n,
{
    if n <= 0 {
        0
    } else {
        count_set(flags, n - 1) + if flags[n - 1] {
            1nat
        } else {
            0nat
        }
    }
}

/// A position that outranks another has the strictly lower rank, so no two
/// positions share a rank.
pub proof fn lemma_rank_strict(keys: Seq<i64>, i: int, j: int)
    requires
        0 <= i < keys.len(),
        0 <= j < keys.len(),
        outranks(keys, i, j),
    ensures
        rank_of(keys, i) < rank_of(keys, j),
{
    lemma_count_strict(keys, i, j, keys.len() as int);
}

proof fn lemma_count_strict(keys: Seq<i64>, i: int, j: int, n: int)
    requires
        0 <= i < keys.len(),
        0 <= j < keys.len(),
        0 <= n <= keys.len(),
        outranks(keys, i, j),
    ensures
        count_outranking(keys, i, n) <= count_outranking(keys, j, n),
        n > i ==> count_outranking(keys, i, n) < count_outranking(keys, j, n),
    decreases n,
{
    if n > 0 {
        lemma_count_strict(keys, i, j, n - 1);
    }
}

/// Two positions of equal rank are the same position.
pub proof fn lemma_rank_injective(keys: Seq<i64>, i: int, j: int)
    requires
        0 <= i < keys.len(),
        0 <= j < keys.len(),
        rank_of(keys, i) == rank_of(keys, j),
    ensures
        i == j,
{
    if i != j {
        if outranks(keys, i, j) {
            lemma_rank_strict(keys, i, j);
        } else {
            lemma_rank_strict(keys, j, i);
        }
    }
}

/// Every rank is below the number of positions.
pub proof fn lemma_rank_bound(keys: Seq<i64>, i: int)
    requires
        0 <= i < keys.len(),
    ensures
        rank_of(keys, i) < keys.len(),
{
    lemma_count_bound(keys, i, keys.len() as int);
}

proof fn lemma_count_bound(keys: Seq<i64>, i: int, n: int)
    requires
        0 <= i < keys.len(),
        0 <= n <= keys.len(),
    ensures
        count_outranking(keys, i, n) <= n,
        n > i ==> count_outranking(keys, i, n) < n,
    decreases n,
{
    if n > 0 {
        lemma_count_bound(keys, i, n - 1);
    }
}

/// Where the set flags are exactly the positions ranked before `s`, the
/// rank of `s` is the number of set flags.
pub proof fn lemma_rank_counts_set(keys: Seq<i64>, flags: Seq<bool>, s: int, n: int)
    requires
        flags.len() == keys.len(),
        0 <= n <= keys.len(),
        forall|j: int| 0 <= j < keys.len() ==> (flags[j] <==> outranks(keys, j, s)),
    ensures
        count_outranking(keys, s, n) == count_set(flags, n),
    decreases n,
{
    if n > 0 {
        lemma_rank_counts_set(keys, flags, s, n - 1);
    }
}

/// Setting a clear flag raises the count by one.
pub proof fn lemma_count_set_update(flags: Seq<bool>, at: int, n: int)
    requires
        0 <= at < flags.len(),
        0 <= n <= flags.len(),
        !flags[at],
    ensures
        count_set(flags.update(at, true), n) == count_set(flags, n) + if at < n {
            1nat
        } else {
            0nat
        },
    decreases n,
{
    if n > 0 {
        lemma_count_set_update(flags, at, n - 1);
    }
}

/// The count of set flags is at most `n`, and equals `n` only where all of
/// the first `n` flags are set.
pub proof fn lemma_count_set_bound(flags: Seq<bool>, n: int)
    requires
        0 <= n <= flags.len(),
    ensures
        count_set(flags, n) <= n,
        (forall|j: int| 0 <= j < n ==> flags[j]) ==> count_set(flags, n) == n,
        (exists|j: int| 0 <= j < n && !flags[j]) ==> count_set(flags, n) < n,
    decreases n,
{
    if n > 0 {
        lemma_count_set_bound(flags, n - 1);
        if exists|j: int| 0 <= j < n && !flags[j] {
            let j = choose|j: int| 0 <= j < n && !flags[j];
            if j < n - 1 {
                assert(0 <= j < n - 1 && !flags[j]);
            }
        }
    }
}

/// A vector of `n` copies of `value`.
pub fn filled_flags(n: usize, value: bool) -> (flags: Vec<bool>)
    ensures
        flags.len() == n,
        forall|j: int| 0 <= j < n ==> flags[j] == value,
        !value ==> count_set(flags@, n as int) == 0,
{
    let mut flags: Vec<bool> = Vec::new();
    let mut i: usize = 0;
    while i < n
        invariant
            i <= n,
            flags.len() == i,
            forall|j: int| 0 <= j < i ==> flags[j] == value,
            !value ==> count_set(flags@, i as int) == 0,
        decreases n - i,
    {
        proof {
            lemma_count_set_push(flags@, value);
        }
        flags.push(value);
        i += 1;
    }
    flags
}

/// Appending a flag leaves the count over the earlier flags unchanged.
pub proof fn lemma_count_set_push(flags: Seq<bool>, value: bool)
    ensures
        count_set(flags.push(value), flags.len() as int) == count_set(flags, flags.len() as int),
        count_set(flags.push(value), flags.len() as int + 1) == count_set(flags, flags.len() as int)
            + if value {
            1nat
        } else {
            0nat
        },
{
    lemma_count_set_prefix(flags, flags.push(value), flags.len() as int);
}

proof fn lemma_count_set_prefix(a: Seq<bool>, b: Seq<bool>, n: int)
    requires
        0 <= n <= a.len(),
        n <= b.len(),
        forall|j: int| 0 <= j < n ==> a[j] == b[j],
    ensures
        count_set(a, n) == count_set(b, n),
    decreases n,
{
    if n > 0 {
        lemma_count_set_prefix(a, b, n - 1);
    }
}

/// The best position whose flag is clear: the one that outranks every
/// other such position. `None` where every flag is set.
pub fn best_remaining(keys: &Vec<i64>, taken: &Vec<bool>) -> (best: Option<usize>)
    requires
        taken.len() == keys.len(),
    ensures
        match best {
            Some(b) => b < keys.len() && !taken[b as int] && forall|j: int|
                0 <= j < keys.len() && !taken[j] && j != b ==> outranks(keys@, b as int, j),
            None => forall|j: int| 0 <= j < keys.len() ==> taken[j],
        },
{
    let mut best: Option<usize> = None;
    let mut i: usize = 0;
    while i < keys.len()
        invariant
            i <= keys.len(),
            taken.len() == keys.len(),
            match best {
                Some(b) => b < i && !taken[b as int] && forall|j: int|
                    0 <= j < i && !taken[j] && j != b ==> outranks(keys@, b as int, j),
                None => forall|j: int| 0 <= j < i ==> taken[j],
            },
        decreases keys.len() - i,
    {
        if !taken[i] {
            match best {
                Some(b) => {
                    if keys[i] > keys[b] {
                        best = Some(i);
                    }
                },
                None => {
                    best = Some(i);
                },
            }
        }
        i += 1;
    }
    best
}

/// The number of positions that `top_ranked` returns.
pub open spec fn ranked_len(limit: int, n: int) -> int {
    if limit < n {
        limit
    } else {
        n
    }
}

/// The `limit` best positions of `keys` in rank order, or all of them where
/// there are fewer.
pub fn top_ranked(keys: &Vec<i64>, limit: usize) -> (order: Vec<usize>)
    ensures
        order.len() == ranked_len(limit as int, keys.len() as int),
        forall|r: int|
            0 <= r < order.len() ==> order[r] < keys.len() && rank_of(
                keys@,
                #[trigger] order[r] as int,
            ) == r,
{
    let n: usize = keys.len();
    let mut taken: Vec<bool> = filled_flags(n, false);
    let mut order: Vec<usize> = Vec::new();
    while order.len() < limit
        invariant
            n == keys.len(),
            taken.len() == n,
            order.len() <= limit,
            order.len() <= n,
            count_set(taken@, n as int) == order.len(),
            forall|j: int, l: int|
                0 <= j < n && 0 <= l < n && taken[j] && !taken[l] ==> outranks(keys@, j, l),
            forall|r: int|
                0 <= r < order.len() ==> order[r] < n && rank_of(keys@, #[trigger] order[r] as int)
                    == r,
        ensures
            order.len() == ranked_len(limit as int, n as int),
            forall|r: int|
                0 <= r < order.len() ==> order[r] < n && rank_of(keys@, #[trigger] order[r] as int)
                    == r,
        decreases limit - order.len(),
    {
        match best_remaining(keys, &taken) {
            Some(b) => {
                proof {
                    lemma_rank_counts_set(keys@, taken@, b as int, n as int);
                    lemma_count_set_update(taken@, b as int, n as int);
                    lemma_count_set_bound(taken@, n as int);
                }
                taken.set(b, true);
                order.push(b);
            },
            None => {
                proof {
                    lemma_count_set_bound(taken@, n as int);
                }
                break ;
            },
        }
    }
    order
}

/// Whether position `b` is clear and ranked before every other clear one
/// of the first `n` positions.
spec fn best_clear(keys: Seq<i64>, flags: Seq<bool>, b: int, n: int) -> bool {
    &&& 0 <= b < n
    &&& !flags[b]
    &&& forall|j: int| 0 <= j < n && !flags[j] && j != b ==> outranks(keys, b, j)
}

/// Whether one of the first `n` flags is clear.
spec fn some_clear(flags: Seq<bool>, n: int) -> bool {
    exists|j: int| 0 <= j < n && !flags[j]
}

proof fn lemma_best_clear_exists(keys: Seq<i64>, flags: Seq<bool>, n: int)
    requires
        0 <= n <= keys.len(),
        flags.len() == keys.len(),
        some_clear(flags, n),
    ensures
        exists|b: int| best_clear(keys, flags, b, n),
    decreases n,
{
    let last = n - 1;
    if some_clear(flags, last) {
        lemma_best_clear_exists(keys, flags, last);
        let u = choose|b: int| best_clear(keys, flags, b, last);
        if !flags[last] && outranks(keys, last, u) {
            assert forall|j: int| 0 <= j < n && !flags[j] && j != last implies outranks(
                keys,
                last,
                j,
            ) by {
                if j != u {
                    assert(outranks(keys, u, j));
                }
            }
            assert(best_clear(keys, flags, last, n));
        } else {
            assert forall|j: int| 0 <= j < n && !flags[j] && j != u implies outranks(
                keys,
                u,
                j,
            ) by {
                if j != last {
                    assert(outranks(keys, u, j));
                }
            }
            assert(best_clear(keys, flags, u, n));
        }
    } else {
        let witness = choose|j: int| 0 <= j < n && !flags[j];
        if witness < last {
            assert(0 <= witness < last && !flags[witness]);
        }
        assert forall|j: int| 0 <= j < n && !flags[j] && j != last implies outranks(
            keys,
            last,
            j,
        ) by {
            assert(0 <= j < last && !flags[j]);
        }
        assert(best_clear(keys, flags, last, n));
    }
}

/// Flags that mark `r` positions, each ranked before every position that
/// is not marked.
proof fn lemma_ranked_prefix(keys: Seq<i64>, r: int) -> (flags: Seq<bool>)
    requires
        0 <= r <= keys.len(),
    ensures
        flags.len() == keys.len(),
        count_set(flags, keys.len() as int) == r,
        forall|j: int, l: int|
            0 <= j < keys.len() && 0 <= l < keys.len() && flags[j] && !flags[l] ==> outranks(
                keys,
                j,
                l,
            ),
    decreases r,
{
    let n = keys.len() as int;
    if r == 0 {
        let flags = Seq::new(keys.len(), |j: int| false);
        lemma_count_clear(flags, n);
        flags
    } else {
        let before = lemma_ranked_prefix(keys, r - 1);
        lemma_count_set_bound(before, n);
        if !some_clear(before, n) {
            assert(forall|j: int| 0 <= j < n ==> before[j]);
        }
        lemma_best_clear_exists(keys, before, n);
        let b = choose|b: int| best_clear(keys, before, b, n);
        lemma_count_set_update(before, b, n);
        before.update(b, true)
    }
}

proof fn lemma_count_clear(flags: Seq<bool>, n: int)
    requires
        0 <= n <= flags.len(),
        forall|j: int| 0 <= j < n ==> !flags[j],
    ensures
        count_set(flags, n) == 0,
    decreases n,
{
    if n > 0 {
        lemma_count_clear(flags, n - 1);
    }
}

/// Every rank below the number of positions belongs to a position.
pub proof fn lemma_rank_attained(keys: Seq<i64>, r: int)
    requires
        0 <= r < keys.len(),
    ensures
        0 <= index_of_rank(keys, r) < keys.len(),
        rank_of(keys, index_of_rank(keys, r)) == r,
{
    let n = keys.len() as int;
    let flags = lemma_ranked_prefix(keys, r);
    lemma_count_set_bound(flags, n);
    if !some_clear(flags, n) {
        assert(forall|j: int| 0 <= j < n ==> flags[j]);
    }
    lemma_best_clear_exists(keys, flags, n);
    let b = choose|b: int| best_clear(keys, flags, b, n);
    assert forall|j: int| 0 <= j < n implies (flags[j] <==> outranks(keys, j, b)) by {
        if !flags[j] && j != b {
            assert(outranks(keys, b, j));
        }
    }
    lemma_rank_counts_set(keys, flags, b, n);
    lemma_index_of_rank(keys, b);
}

/// Where there is any position, one has rank 0: the position of the
/// highest key, and among several the lowest.
pub proof fn lemma_best_exists(keys: Seq<i64>)
    requires
        keys.len() > 0,
    ensures
        0 <= index_of_rank(keys, 0) < keys.len(),
        rank_of(keys, index_of_rank(keys, 0)) == 0,
        forall|j: int|
            0 <= j < keys.len() && j != index_of_rank(keys, 0) ==> outranks(
                keys,
                index_of_rank(keys, 0),
                j,
            ),
{
    lemma_rank_attained(keys, 0);
    let b = index_of_rank(keys, 0);
    assert forall|j: int| 0 <= j < keys.len() && j != b implies outranks(keys, b, j) by {
        if outranks(keys, j, b) {
            lemma_rank_strict(keys, j, b);
        }
    }
}

/// Keys that are ordered alike give every position the same rank.
pub proof fn lemma_rank_by_order(a: Seq<i64>, b: Seq<i64>, i: int)
    requires
        a.len() == b.len(),
        0 <= i < a.len(),
        forall|x: int, y: int|
            0 <= x < a.len() && 0 <= y < a.len() ==> (outranks(a, x, y) <==> outranks(b, x, y)),
    ensures
        rank_of(a, i) == rank_of(b, i),
{
    lemma_count_by_order(a, b, i, a.len() as int);
}

proof fn lemma_count_by_order(a: Seq<i64>, b: Seq<i64>, i: int, n: int)
    requires
        a.len() == b.len(),
        0 <= i < a.len(),
        0 <= n <= a.len(),
        forall|x: int, y: int|
            0 <= x < a.len() && 0 <= y < a.len() ==> (outranks(a, x, y) <==> outranks(b, x, y)),
    ensures
        count_outranking(a, i, n) == count_outranking(b, i, n),
    decreases n,
{
    if n > 0 {
        lemma_count_by_order(a, b, i, n - 1);
    }
}

/// The position of rank `r`.
pub open spec fn index_of_rank(keys: Seq<i64>, r: int) -> int {
    choose|x: int| 0 <= x < keys.len() && rank_of(keys, x) == r
}

/// A position is the position of its rank.
pub proof fn lemma_index_of_rank(keys: Seq<i64>, x: int)
    requires
        0 <= x < keys.len(),
    ensures
        index_of_rank(keys, rank_of(keys, x) as int) == x,
{
    let r = rank_of(keys, x) as int;
    let y = index_of_rank(keys, r);
    assert(0 <= y < keys.len() && rank_of(keys, y) == r);
    lemma_rank_injective(keys, x, y);
}

/// A copy of a sequence of tokens or scores.
pub fn copy_of(values: &Vec<i64>) -> (copy: Vec<i64>)
    ensures
        copy@ == values@,
{
    let mut copy: Vec<i64> = Vec::new();
    let mut i: usize = 0;
    while i < values.len()
        invariant
            i <= values.len(),
            copy@ == values@.subrange(0, i as int),
        decreases values.len() - i,
    {
        copy.push(values[i]);
        assert(copy@ =~= values@.subrange(0, i + 1));
        i += 1;
    }
    assert(values@.subrange(0, i as int) =~= values@);
    copy
}

} // verus!
