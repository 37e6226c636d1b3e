//! Roulette-wheel selection: pick the index whose cumulative-weight band
//! contains a uniform draw, so each index is chosen with probability
//! proportional to its weight.

use vstd::prelude::*;

verus! {

/// The sum of the first `k` weights.
pub open spec fn sum_prefix(s: Seq<u64>, k: int) -> int
    decreases k,
{
    if k <= 0 {
        0
    } else {
        sum_prefix(s, k - 1) + s[k - 1]
    }
}

/// The sum of all the weights.
pub open spec fn sum_weights(s: Seq<u64>) -> int {
    sum_prefix(s, s.len() as int)
}

/// Prefix sums grow with the prefix.
pub proof fn lemma_sum_prefix_mono(s: Seq<u64>, i: int, j: int)
    requires
        0 <= i <= j,
    ensures
        sum_prefix(s, i) <= sum_prefix(s, j),
    decreases j,
{
    if i < j {
        lemma_sum_prefix_mono(s, i, j - 1);
    }
}

/// A prefix sum only reads the weights it covers, so appending one more
/// weight leaves it unchanged.
pub proof fn lemma_sum_prefix_push(s: Seq<u64>, x: u64, k: int)
    requires
        0 <= k <= s.len(),
    ensures
        sum_prefix(s.push(x), k) == sum_prefix(s, k),
    decreases k,
{
    if k > 0 {
        lemma_sum_prefix_push(s, x, k - 1);
    }
}

/// Roulette-wheel selection: given a draw `r` below the total weight,
/// return the unique index whose cumulative band contains `r`. An index
/// of weight zero owns an empty band and is never returned.
pub fn select_weighted(weights: &Vec<u64>, r: u64) -> (i: usize)
    requires
        r < sum_weights(weights@),
    ensures
        i < weights@.len(),
        sum_prefix(weights@, i as int) <= r < sum_prefix(weights@, i as int + 1),
        weights@[i as int] > 0,
{
    let len: usize = weights.len();
    let mut acc: u64 = 0;
    let mut i: usize = 0;
    while i < len
        invariant
            len == weights@.len(),
            r < sum_weights(weights@),
            0 <= i <= len,
            acc == sum_prefix(weights@, i as int),
            acc <= r,
        decreases len - i,
    {
        let w: u64 = weights[i];
        proof {
            lemma_sum_prefix_mono(weights@, i as int + 1, len as int);
        }
        if (r as u128) < acc as u128 + w as u128 {
            return i;
        }
        acc = acc + w;
        i = i + 1;
    }
    proof {
        assert(false);
    }
    0
}

} // verus!
