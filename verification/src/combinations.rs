//! Index combinations, enumerated by itertools.

use vstd::prelude::*;
use itertools::Itertools;
use crate::order::{strictly_increasing, lex_lt};

verus! {

/// `c` is a `k`-element subset of `0..n`, listed in increasing order.
pub open spec fn is_combination(c: Seq<usize>, n: nat, k: nat) -> bool {
    &&& c.len() == k
    &&& strictly_increasing(c)
    &&& forall|i: int| 0 <= i < c.len() ==> #[trigger] c[i] < n
}

/// All `k`-element subsets of `0..n`, each in increasing order, listed in
/// lexicographic order; this is `(0..n).combinations(k)` of itertools.
///
/// Trusted: the contract restates what the itertools source of
/// `Itertools::combinations` shows for a strictly increasing pool: it walks
/// the index vectors `0..k` upward in lexicographic order, yielding every
/// increasing choice of `k` pool positions once (none when `k > n`, the
/// single empty choice when `k == 0`).
#[verifier::external_body]
pub(crate) fn index_combinations(n: usize, k: usize) -> (cs: Vec<Vec<usize>>)
    ensures
        forall|i: int| 0 <= i < cs@.len() ==> is_combination(#[trigger] cs@[i]@, n as nat, k as nat),
        forall|c: Seq<usize>| is_combination(c, n as nat, k as nat) ==> exists|i: int|
            0 <= i < cs@.len() && #[trigger] cs@[i]@ == c,
        forall|i: int, j: int| 0 <= i < j < cs@.len() ==> lex_lt(#[trigger] cs@[i]@, #[trigger] cs@[j]@),
{
    (0..n).combinations(k).collect()
}

/// A strictly increasing sequence with entries below `n` has at most `n`
/// entries; its `i`-th entry is at least `i`.
pub proof fn lemma_increasing_bounded(c: Seq<usize>, n: nat)
    requires
        strictly_increasing(c),
        forall|i: int| 0 <= i < c.len() ==> #[trigger] c[i] < n,
    ensures
        c.len() <= n,
        forall|i: int| 0 <= i < c.len() ==> #[trigger] c[i] >= i,
{
    assert forall|i: int| 0 <= i < c.len() implies #[trigger] c[i] >= i by {
        lemma_entry_at_least_index(c, i);
    }
    if c.len() > n {
        assert(c[n as int] >= n);
    }
}

proof fn lemma_entry_at_least_index(c: Seq<usize>, i: int)
    requires
        strictly_increasing(c),
        0 <= i < c.len(),
    ensures
        c[i] >= i,
    decreases i,
{
    if i > 0 {
        lemma_entry_at_least_index(c, i - 1);
        assert(c[i - 1] < c[i]);
    }
}

} // verus!
