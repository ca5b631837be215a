//! Ordering things by score, best first.
//!
//! A score is given by its key: an unsigned number that grows with it. For a score that is not negative, the
//! bits of its single-precision representation are such a key.
use vstd::prelude::*;

verus! {

/// Where index `i` comes in a list of indices that is ordered by key, best first: behind all that are at least
/// as good.
pub open spec fn slot(keys: Seq<u32>, order: Seq<int>, i: int, from: int) -> int
    decreases order.len() - from,
{
    if from >= order.len() || keys[order[from]] < keys[i] {
        from
    } else {
        slot(keys, order, i, from + 1)
    }
}

/// The first `n` indices, ordered by key, best first; of equal keys the lower index comes first.
pub open spec fn ranked_upto(keys: Seq<u32>, n: int) -> Seq<int>
    decreases n,
{
    if n <= 0 {
        Seq::empty()
    } else {
        let before = ranked_upto(keys, n - 1);
        before.insert(slot(keys, before, n - 1, 0), n - 1)
    }
}

/// All indices, ordered by key, best first; of equal keys the lower index comes first.
pub open spec fn ranked(keys: Seq<u32>) -> Seq<int> {
    ranked_upto(keys, keys.len() as int)
}

/// The indices of a list as mathematical integers.
pub open spec fn ints(v: Seq<usize>) -> Seq<int> {
    v.map_values(|i: usize| i as int)
}

proof fn lemma_slot(keys: Seq<u32>, order: Seq<int>, i: int, from: int)
    requires
        0 <= from <= order.len(),
        forall|a: int, b: int| 0 <= a < b < order.len() ==> keys[order[a]] >= keys[order[b]],
    ensures
        from <= slot(keys, order, i, from) <= order.len(),
        forall|a: int| from <= a < slot(keys, order, i, from) ==> keys[order[a]] >= keys[i],
        forall|a: int| slot(keys, order, i, from) <= a < order.len() ==> keys[order[a]] < keys[i],
    decreases order.len() - from,
{
    if from < order.len() && keys[order[from]] >= keys[i] {
        lemma_slot(keys, order, i, from + 1);
    }
}

/// The order holds every index once; keys do not grow along it, and equal keys keep their order.
pub proof fn law_ranked_upto(keys: Seq<u32>, n: int)
    requires
        0 <= n <= keys.len(),
    ensures
        ranked_upto(keys, n).len() == n,
        forall|a: int| 0 <= a < n ==> 0 <= #[trigger] ranked_upto(keys, n)[a] < n,
        forall|a: int, b: int|
            0 <= a < b < n ==> keys[#[trigger] ranked_upto(keys, n)[a]] > keys[#[trigger] ranked_upto(keys, n)[b]] || (
            keys[ranked_upto(keys, n)[a]] == keys[ranked_upto(keys, n)[b]] && ranked_upto(keys, n)[a]
                < ranked_upto(keys, n)[b]),
    decreases n,
{
    if n > 0 {
        law_ranked_upto(keys, n - 1);
        let before = ranked_upto(keys, n - 1);
        assert forall|a: int, b: int| 0 <= a < b < before.len() implies keys[before[a]] >= keys[before[b]] by {}
        lemma_slot(keys, before, n - 1, 0);
        let p = slot(keys, before, n - 1, 0);
        let after = ranked_upto(keys, n);
        assert forall|a: int| 0 <= a < n implies after[a] == (if a < p {
            before[a]
        } else if a == p {
            n - 1
        } else {
            before[a - 1]
        }) by {}
    }
}

/// Every index is in the order.
pub proof fn law_ranked_complete(keys: Seq<u32>, n: int, i: int)
    requires
        0 <= i < n <= keys.len(),
    ensures
        ranked_upto(keys, n).contains(i),
    decreases n,
{
    let before = ranked_upto(keys, n - 1);
    law_ranked_upto(keys, n - 1);
    assert forall|a: int, b: int| 0 <= a < b < before.len() implies keys[before[a]] >= keys[before[b]] by {}
    lemma_slot(keys, before, n - 1, 0);
    let p = slot(keys, before, n - 1, 0);
    let after = ranked_upto(keys, n);
    if i == n - 1 {
        assert(after[p] == i);
    } else {
        law_ranked_complete(keys, n - 1, i);
        let a = choose|a: int| 0 <= a < before.len() && before[a] == i;
        if a < p {
            assert(after[a] == i);
        } else {
            assert(after[a + 1] == i);
        }
    }
}

/// Orders the indices of a list of keys, best first.
pub fn rank(keys: &[u32]) -> (order: Vec<usize>)
    ensures
        ints(order@) == ranked(keys@),
        order@.len() == keys@.len(),
        forall|a: int| 0 <= a < order@.len() ==> (#[trigger] order@[a]) < keys@.len(),
{
    let mut order: Vec<usize> = Vec::new();
    assert(ints(order@) =~= ranked_upto(keys@, 0));
    for i in 0..keys.len()
        invariant
            ints(order@) == ranked_upto(keys@, i as int),
            order@.len() == i,
            forall|a: int| 0 <= a < order@.len() ==> (#[trigger] order@[a]) < i,
    {
        let ghost before = ints(order@);
        let mut p: usize = 0;
        while p < order.len() && keys[order[p]] >= keys[i]
            invariant
                p <= order@.len(),
                i < keys@.len(),
                before == ints(order@),
                forall|a: int| 0 <= a < order@.len() ==> (#[trigger] order@[a]) < i,
                slot(keys@, before, i as int, 0) == slot(keys@, before, i as int, p as int),
            decreases order@.len() - p,
        {
            assert(before[p as int] == order@[p as int]);
            p = p + 1;
        }
        proof {
            if p < order@.len() {
                assert(before[p as int] == order@[p as int]);
            }
            assert(slot(keys@, before, i as int, p as int) == p);
        }
        let ghost old_order = order@;
        order.insert(p, i);
        proof {
            assert(order@ =~= old_order.insert(p as int, i));
            assert(ints(order@) =~= before.insert(p as int, i as int));
        }
    }
    order
}

} // verus!
