//! What grounding counts, stated of weights, nodes and places in the response.

use crate::context::MatrixModel;
use crate::count;
use crate::grounding;
use crate::grounding::GroundingCounts;
use crate::kstorage;
use crate::TokenId;
use vstd::prelude::*;

verus! {

/// Retained links are counted by place: a place counts where the transition
/// from its id to the next, read in that order, has a positive weight.
pub proof fn links_are_counted_by_place(m: MatrixModel, outputs: Seq<TokenId>)
    ensures
        grounding::links(m, outputs) == Set::new(
            |k: int| 0 <= k < outputs.len() - 1 && (m.weight)(outputs[k], outputs[k + 1]) > 0,
        ).len(),
    decreases outputs.len(),
{
    let here = Set::new(
        |k: int| 0 <= k < outputs.len() - 1 && (m.weight)(outputs[k], outputs[k + 1]) > 0,
    );
    if outputs.len() < 2 {
        assert(here =~= Set::<int>::empty());
    } else {
        let init = outputs.drop_last();
        let n = outputs.len() - 2;
        links_are_counted_by_place(m, init);
        let p = |k: int| (m.weight)(outputs[k], outputs[k + 1]) > 0;
        count::lemma_one_more(p, n);
        assert(here =~= Set::new(|k: int| 0 <= k < n + 1 && p(k)));
        assert(Set::new(
            |k: int| 0 <= k < init.len() - 1 && (m.weight)(init[k], init[k + 1]) > 0,
        ) =~= Set::new(|k: int| 0 <= k < n && p(k)));
    }
}

/// No link is retained where no consecutive pair, read in order, was measured;
/// every one is where all were, and only there.
pub proof fn links_are_none_or_all(m: MatrixModel, outputs: Seq<TokenId>)
    ensures
        grounding::links(m, outputs) == 0 <==> (forall|k: int|
            0 <= k < outputs.len() - 1 ==> (m.weight)(#[trigger] outputs[k], outputs[k + 1]) <= 0),
        outputs.len() > 0 ==> (grounding::links(m, outputs) == outputs.len() - 1 <==> (forall|
            k: int,
        |
            0 <= k < outputs.len() - 1 ==> (m.weight)(#[trigger] outputs[k], outputs[k + 1]) > 0)),
    decreases outputs.len(),
{
    grounding::links_grow_with_the_matrix(m, m, outputs);
    if outputs.len() >= 2 {
        let init = outputs.drop_last();
        let n = outputs.len() - 2;
        links_are_none_or_all(m, init);
        grounding::links_grow_with_the_matrix(m, m, init);
        assert(outputs[n + 1] == outputs.last());
        assert forall|k: int| 0 <= k < n implies #[trigger] init[k] == outputs[k] && init[k + 1]
            == outputs[k + 1] by {}
        if forall|k: int|
            0 <= k < outputs.len() - 1 ==> (m.weight)(#[trigger] outputs[k], outputs[k + 1]) <= 0 {
            assert forall|k: int| 0 <= k < init.len() - 1 implies (m.weight)(
                #[trigger] init[k],
                init[k + 1],
            ) <= 0 by {
                assert((m.weight)(outputs[k], outputs[k + 1]) <= 0);
            }
            assert((m.weight)(outputs[n], outputs[n + 1]) <= 0);
        }
        if forall|k: int|
            0 <= k < outputs.len() - 1 ==> (m.weight)(#[trigger] outputs[k], outputs[k + 1]) > 0 {
            assert forall|k: int| 0 <= k < init.len() - 1 implies (m.weight)(
                #[trigger] init[k],
                init[k + 1],
            ) > 0 by {
                assert((m.weight)(outputs[k], outputs[k + 1]) > 0);
            }
            assert((m.weight)(outputs[n], outputs[n + 1]) > 0);
        }
        if grounding::links(m, outputs) == 0 {
            assert forall|k: int| 0 <= k < outputs.len() - 1 implies (m.weight)(
                #[trigger] outputs[k],
                outputs[k + 1],
            ) <= 0 by {
                if k < n {
                    assert((m.weight)(init[k], init[k + 1]) <= 0);
                }
            }
        }
        if grounding::links(m, outputs) == outputs.len() - 1 {
            assert forall|k: int| 0 <= k < outputs.len() - 1 implies (m.weight)(
                #[trigger] outputs[k],
                outputs[k + 1],
            ) > 0 by {
                if k < n {
                    assert((m.weight)(init[k], init[k + 1]) > 0);
                }
            }
        }
    }
}

/// What is kept of a list are the items at the kept places, in their order:
/// there is a rising list of places that holds every kept place and no other,
/// and the result holds the items there.
pub proof fn kept_items_stand_at_the_kept_places<T>(
    items: Seq<T>,
    keep: spec_fn(int) -> bool,
) -> (at: Seq<int>)
    ensures
        at.len() == kstorage::kept(items, keep).len(),
        forall|i: int, j: int| 0 <= i < j < at.len() ==> at[i] < at[j],
        forall|i: int|
            0 <= i < at.len() ==> 0 <= #[trigger] at[i] < items.len() && keep(at[i])
                && kstorage::kept(items, keep)[i] == items[at[i]],
        forall|k: int| 0 <= k < items.len() && #[trigger] keep(k) ==> at.contains(k),
        kstorage::kept(items, keep).len() == Set::new(
            |k: int| 0 <= k < items.len() && keep(k),
        ).len(),
    decreases items.len(),
{
    if items.len() == 0 {
        count::lemma_none(keep);
        assert(Set::new(|k: int| 0 <= k < items.len() && keep(k)) =~= Set::new(
            |k: int| 0 <= k < 0 && keep(k),
        ));
        Seq::empty()
    } else {
        let n = items.len() - 1;
        let before = kept_items_stand_at_the_kept_places(items.drop_last(), keep);
        count::lemma_one_more(keep, n);
        let at = if keep(n) {
            before.push(n)
        } else {
            before
        };
        assert forall|k: int| 0 <= k < items.len() && #[trigger] keep(k) implies at.contains(k) by {
            if k < n {
                let i = before.index_of(k);
                assert(at[i] == k);
            } else {
                assert(at[before.len() as int] == k);
            }
        }
        at
    }
}

/// A response is counted id by id: the total is its length, the measured ids
/// are the places with a yes, with repetitions, and the flagged ids are those
/// at the places with a no, in order of appearance.
pub proof fn responses_are_counted_by_place(
    r: GroundingCounts,
    m: MatrixModel,
    outputs: Seq<TokenId>,
    verdicts: Seq<bool>,
) -> (at: Seq<int>)
    requires
        grounding::counted(r, m, outputs, verdicts),
    ensures
        r.total == outputs.len(),
        r.in_context == Set::new(|k: int| 0 <= k < outputs.len() && verdicts[k]).len(),
        r.r_link == Set::new(
            |k: int| 0 <= k < outputs.len() - 1 && (m.weight)(outputs[k], outputs[k + 1]) > 0,
        ).len(),
        at.len() == r.flagged@.len(),
        forall|i: int, j: int| 0 <= i < j < at.len() ==> at[i] < at[j],
        forall|i: int|
            0 <= i < at.len() ==> 0 <= #[trigger] at[i] < outputs.len() && !verdicts[at[i]]
                && r.flagged@[i] == outputs[at[i]],
        forall|k: int| 0 <= k < outputs.len() && !#[trigger] verdicts[k] ==> at.contains(k),
{
    links_are_counted_by_place(m, outputs);
    let yes = |k: int| verdicts[k];
    let no = |k: int| !verdicts[k];
    let _ = kept_items_stand_at_the_kept_places(outputs, yes);
    assert(Set::new(|k: int| 0 <= k < outputs.len() && verdicts[k]) =~= Set::new(
        |k: int| 0 <= k < outputs.len() && yes(k),
    ));
    let at = kept_items_stand_at_the_kept_places(outputs, no);
    assert forall|i: int| 0 <= i < at.len() implies 0 <= #[trigger] at[i] < outputs.len()
        && !verdicts[at[i]] && r.flagged@[i] == outputs[at[i]] by {
        assert(no(at[i]));
    }
    assert forall|k: int| 0 <= k < outputs.len() && !#[trigger] verdicts[k] implies at.contains(
        k,
    ) by {
        assert(no(k));
    }
    at
}

/// Every verdict is an answer of the membership function to the id at its
/// place.
pub proof fn verdicts_answer_their_ids<M: Fn(TokenId) -> bool>(
    membership: &M,
    outputs: Seq<TokenId>,
    verdicts: Seq<bool>,
    k: int,
)
    requires
        grounding::judged(membership, outputs, verdicts),
        0 <= k < outputs.len(),
    ensures
        verdicts.len() == outputs.len(),
        call_ensures(membership, (outputs[k],), verdicts[k]),
{
    assert(call_ensures(membership, (outputs[k],), verdicts[k]));
}

} // verus!
