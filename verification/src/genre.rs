//! Helpers for assembling species presets.

use vstd::prelude::*;

verus! {

/// The interaction vector of length `n` that `make_interaction` builds from
/// `pairs`: every entry is `zero` except those named by a pair with an index
/// below `n`; a later pair for the same index overrides an earlier one.
pub open spec fn interaction_vector<T>(n: nat, zero: T, pairs: Seq<(usize, T)>) -> Seq<T>
    decreases pairs.len(),
{
    if pairs.len() == 0 {
        Seq::new(n, |_k: int| zero)
    } else {
        let prev = interaction_vector(n, zero, pairs.drop_last());
        let (idx, coeff) = pairs.last();
        if idx < n { prev.update(idx as int, coeff) } else { prev }
    }
}

/// Build the interaction vector of one species in an `n`-species system:
/// coefficient `c` goes to index `i` for each pair `(i, c)` with `i < n`;
/// every other entry is `zero`.
pub fn make_interaction<T: Copy>(n: usize, zero: T, pairs: &[(usize, T)]) -> (v: Vec<T>)
    ensures
        v@ == interaction_vector(n as nat, zero, pairs@),
        v@.len() == n,
{
    let mut v: Vec<T> = Vec::new();
    let mut k: usize = 0;
    while k < n
        invariant
            k <= n,
            v@ == Seq::new(k as nat, |_j: int| zero),
        decreases n - k,
    {
        v.push(zero);
        proof {
            assert(v@ =~= Seq::new((k + 1) as nat, |_j: int| zero));
        }
        k = k + 1;
    }
    let mut i: usize = 0;
    assert(pairs@.subrange(0, 0) =~= Seq::<(usize, T)>::empty());
    while i < pairs.len()
        invariant
            i <= pairs@.len(),
            v@ == interaction_vector(n as nat, zero, pairs@.subrange(0, i as int)),
            v@.len() == n,
        decreases pairs.len() - i,
    {
        let (idx, coeff) = pairs[i];
        if idx < n {
            v[idx] = coeff;
        }
        assert(pairs@.subrange(0, i + 1).drop_last() =~= pairs@.subrange(0, i as int));
        i = i + 1;
    }
    assert(pairs@.subrange(0, pairs.len() as int) =~= pairs@);
    v
}

/// Each entry of the interaction vector is the coefficient of the last pair
/// that names its index, or `zero` when no pair names it.
pub proof fn lemma_interaction_vector_entries<T>(n: nat, zero: T, pairs: Seq<(usize, T)>, k: int)
    requires
        0 <= k < n,
    ensures
        interaction_vector(n, zero, pairs).len() == n,
        (forall|j: int| 0 <= j < pairs.len() ==> (#[trigger] pairs[j]).0 != k)
            ==> interaction_vector(n, zero, pairs)[k] == zero,
        forall|j: int| 0 <= j < pairs.len() && (#[trigger] pairs[j]).0 == k
            && (forall|l: int| j < l < pairs.len() ==> (#[trigger] pairs[l]).0 != k)
            ==> interaction_vector(n, zero, pairs)[k] == pairs[j].1,
    decreases pairs.len(),
{
    if pairs.len() > 0 {
        let t = pairs.drop_last();
        lemma_interaction_vector_entries(n, zero, t, k);
        assert forall|j: int| 0 <= j < t.len() implies #[trigger] t[j] == pairs[j] by {}
        let last = pairs.len() - 1;
        assert(pairs[last] == pairs.last());
        if (forall|j: int| 0 <= j < pairs.len() ==> (#[trigger] pairs[j]).0 != k) {
            assert(pairs[last].0 != k);
            assert forall|j: int| 0 <= j < t.len() implies (#[trigger] t[j]).0 != k by {
                assert(pairs[j].0 != k);
            }
        }
        assert forall|j: int| 0 <= j < pairs.len() && (#[trigger] pairs[j]).0 == k
            && (forall|l: int| j < l < pairs.len() ==> (#[trigger] pairs[l]).0 != k)
            implies interaction_vector(n, zero, pairs)[k] == pairs[j].1 by {
            if j < last {
                assert(pairs[last].0 != k);
                assert forall|l: int| j < l < t.len() implies (#[trigger] t[l]).0 != k by {
                    assert(pairs[l].0 != k);
                }
                assert(t[j] == pairs[j]);
            }
        }
    }
}

} // verus!
