//! Counting the positions at which something holds.

use vstd::prelude::*;

verus! {

/// The positions below `n + 1` at which `p` holds are those below `n`, and `n`
/// itself where `p` holds there. They are finitely many.
pub proof fn lemma_one_more(p: spec_fn(int) -> bool, n: int)
    requires
        0 <= n,
    ensures
        Set::new(|k: int| 0 <= k < n && p(k)).finite(),
        Set::new(|k: int| 0 <= k < n + 1 && p(k)).finite(),
        Set::new(|k: int| 0 <= k < n + 1 && p(k)).len() == Set::new(
            |k: int| 0 <= k < n && p(k),
        ).len() + if p(n) {
            1nat
        } else {
            0nat
        },
{
    let below = Set::new(|k: int| 0 <= k < n && p(k));
    let upto = Set::new(|k: int| 0 <= k < n + 1 && p(k));
    let all = vstd::set_lib::set_int_range(0, n);
    vstd::set_lib::lemma_int_range(0, n);
    assert(below.subset_of(all));
    vstd::set_lib::lemma_set_subset_finite(all, below);
    if p(n) {
        assert(upto =~= below.insert(n));
    } else {
        assert(upto =~= below);
    }
}

/// No position lies below zero.
pub proof fn lemma_none(p: spec_fn(int) -> bool)
    ensures
        Set::new(|k: int| 0 <= k < 0 && p(k)).len() == 0,
{
    assert(Set::new(|k: int| 0 <= k < 0 && p(k)) =~= Set::<int>::empty());
}

} // verus!
