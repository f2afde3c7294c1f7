//! The grounding verdict in whole numbers.
//!
//! Between the measured context and a response:
//!
//! - coverage is `in_context` out of `total`;
//! - novelty is the number of `flagged` ids out of `total`;
//! - `r_link` counts retained links: response bigrams that are measured
//!   transitions.
//!
//! Grounding is a recommendation, never a mutation: the matrix is only read.

use crate::context::{ContextMatrix, MatrixModel};
use crate::kstorage;
use crate::TokenId;
use vstd::prelude::*;

verus! {

/// What grounding counts in a response.
#[derive(Debug, PartialEq, Eq)]
pub struct GroundingCounts {
    /// Number of response ids.
    pub total: usize,
    /// Response ids that are measured, with repetitions.
    pub in_context: usize,
    /// Response bigrams whose transition was measured.
    pub r_link: u64,
    /// The ids that are not measured, in order of appearance.
    pub flagged: Vec<TokenId>,
}

/// How many bigrams of `outputs` are measured transitions.
pub open spec fn links(m: MatrixModel, outputs: Seq<TokenId>) -> nat
    decreases outputs.len(),
{
    if outputs.len() < 2 {
        0
    } else {
        links(m, outputs.drop_last()) + if m.edge(
            outputs[outputs.len() - 2],
            outputs.last(),
        ) {
            1nat
        } else {
            0nat
        }
    }
}

/// The verdicts are answers of `membership`, one for each id.
pub open spec fn judged<M: Fn(TokenId) -> bool>(
    membership: &M,
    outputs: Seq<TokenId>,
    verdicts: Seq<bool>,
) -> bool {
    &&& verdicts.len() == outputs.len()
    &&& forall|k: int|
        0 <= k < outputs.len() ==> call_ensures(membership, (outputs[k],), #[trigger] verdicts[k])
}

/// `r` counts a response under the given verdicts.
pub open spec fn counted(
    r: GroundingCounts,
    m: MatrixModel,
    outputs: Seq<TokenId>,
    verdicts: Seq<bool>,
) -> bool {
    &&& r.total == outputs.len()
    &&& r.in_context == kstorage::kept(outputs, |k: int| verdicts[k]).len()
    &&& r.flagged@ == kstorage::kept(outputs, |k: int| !verdicts[k])
    &&& r.r_link == links(m, outputs)
}

/// The measured transitions among the bigrams of `outputs`.
fn count_links(matrix: &ContextMatrix, outputs: &[TokenId]) -> (r: u64)
    requires
        matrix.wf(),
    ensures
        r == links(matrix@, outputs@),
{
    let n = outputs.len();
    let mut r: u64 = 0;
    let mut i: usize = 1;
    while i < n
        invariant
            1 <= i,
            n == outputs@.len(),
            i <= n || n == 0,
            matrix.wf(),
            n > 0 ==> r == links(matrix@, outputs@.take(i as int)),
            n == 0 ==> r == 0,
            r < i,
        decreases n - i,
    {
        assert(outputs@.take(i + 1).drop_last() =~= outputs@.take(i as int));
        let w: i64 = match matrix.cell(outputs[i - 1], outputs[i]) {
            Some(w) => w,
            None => 0,
        };
        if w > 0 {
            r = r + 1;
        }
        proof {
            matrix.lemma_valid();
        }
        i = i + 1;
    }
    if n > 0 {
        assert(outputs@.take(n as int) =~= outputs@);
    }
    r
}

/// Ground `outputs` against a measured context: `membership` decides which
/// ids are measured, `matrix` supplies the measured transition graph.
pub fn recommend_with<M: Fn(TokenId) -> bool>(
    membership: &M,
    matrix: &ContextMatrix,
    outputs: &[TokenId],
) -> (r: GroundingCounts)
    requires
        matrix.wf(),
        forall|t: TokenId| #[trigger] call_requires(membership, (t,)),
    ensures
        exists|verdicts: Seq<bool>| #[trigger]
            judged(membership, outputs@, verdicts) && counted(r, matrix@, outputs@, verdicts),
{
    let ghost mut verdicts: Seq<bool> = Seq::empty();
    let mut in_context: usize = 0;
    let mut flagged: Vec<TokenId> = Vec::new();
    for i in 0..outputs.len()
        invariant
            forall|t: TokenId| #[trigger] call_requires(membership, (t,)),
            verdicts.len() == i,
            in_context <= i,
            forall|k: int|
                0 <= k < i ==> call_ensures(membership, (outputs@[k],), #[trigger] verdicts[k]),
            in_context == kstorage::kept(outputs@.take(i as int), |k: int| verdicts[k]).len(),
            flagged@ == kstorage::kept(outputs@.take(i as int), |k: int| !verdicts[k]),
    {
        let measured = membership(outputs[i]);
        let ghost before = verdicts;
        proof {
            verdicts = verdicts.push(measured);
            let t = outputs@.take(i as int);
            let u = outputs@.take(i + 1);
            assert(u.drop_last() =~= t);
            lemma_kept_agrees(t, |k: int| before[k], |k: int| verdicts[k]);
            lemma_kept_agrees(t, |k: int| !before[k], |k: int| !verdicts[k]);
        }
        if measured {
            in_context = in_context + 1;
        } else {
            flagged.push(outputs[i]);
        }
    }
    assert(outputs@.take(outputs@.len() as int) =~= outputs@);
    let r = GroundingCounts {
        total: outputs.len(),
        in_context,
        r_link: count_links(matrix, outputs),
        flagged,
    };
    assert(judged(membership, outputs@, verdicts));
    r
}

proof fn lemma_kept_agrees(s: Seq<TokenId>, p: spec_fn(int) -> bool, q: spec_fn(int) -> bool)
    requires
        forall|k: int| 0 <= k < s.len() ==> #[trigger] p(k) == q(k),
    ensures
        kstorage::kept(s, p) == kstorage::kept(s, q),
    decreases s.len(),
{
    if s.len() > 0 {
        lemma_kept_agrees(s.drop_last(), p, q);
        assert(p(s.len() - 1) == q(s.len() - 1));
    }
}

proof fn lemma_kept_filter(
    s: Seq<TokenId>,
    keep: spec_fn(int) -> bool,
    pred: spec_fn(TokenId) -> bool,
)
    requires
        forall|k: int| 0 <= k < s.len() ==> #[trigger] keep(k) == pred(s[k]),
    ensures
        kstorage::kept(s, keep) == s.filter(pred),
    decreases s.len(),
{
    if s.len() == 0 {
        assert(s.filter(pred) =~= Seq::empty());
    } else {
        let init = s.drop_last();
        assert forall|k: int| 0 <= k < init.len() implies #[trigger] keep(k) == pred(init[k]) by {
            assert(init[k] == s[k]);
        }
        lemma_kept_filter(init, keep, pred);
        init.lemma_filter_push(s.last(), pred);
        assert(init.push(s.last()) =~= s);
        assert(keep(s.len() - 1) == pred(s[s.len() - 1]));
    }
}

/// Ground `outputs` against the matrix nodes as the measured context.
pub fn recommend(matrix: &ContextMatrix, outputs: &[TokenId]) -> (r: GroundingCounts)
    requires
        matrix.wf(),
    ensures
        r.total == outputs@.len(),
        r.in_context == outputs@.filter(|t: TokenId| matrix@.grounded(t)).len(),
        r.flagged@ == outputs@.filter(|t: TokenId| !matrix@.grounded(t)),
        r.r_link == links(matrix@, outputs@),
{
    let membership = |t: TokenId| -> (b: bool)
        ensures
            b == matrix@.grounded(t),
        { matrix.grounded(t) };
    let r = recommend_with(&membership, matrix, outputs);
    proof {
        let verdicts = choose|verdicts: Seq<bool>| #[trigger]
            judged(&membership, outputs@, verdicts) && counted(r, matrix@, outputs@, verdicts);
        lemma_kept_filter(
            outputs@,
            |k: int| verdicts[k],
            |t: TokenId| matrix@.grounded(t),
        );
        lemma_kept_filter(
            outputs@,
            |k: int| !verdicts[k],
            |t: TokenId| !matrix@.grounded(t),
        );
    }
    r
}

// ── Laws ───────────────────────────────────────────────────────────────────

/// Coverage and novelty add up to the whole response.
pub proof fn coverage_and_novelty_add_up(
    r: GroundingCounts,
    m: MatrixModel,
    outputs: Seq<TokenId>,
    verdicts: Seq<bool>,
)
    requires
        counted(r, m, outputs, verdicts),
    ensures
        r.in_context + r.flagged@.len() == r.total,
        r.flagged@.len() == 0 <==> r.in_context == r.total,
{
    lemma_kept_splits(outputs, |k: int| verdicts[k], |k: int| !verdicts[k]);
}

proof fn lemma_kept_splits(s: Seq<TokenId>, p: spec_fn(int) -> bool, q: spec_fn(int) -> bool)
    requires
        forall|k: int| 0 <= k < s.len() ==> #[trigger] p(k) == !q(k),
    ensures
        kstorage::kept(s, p).len() + kstorage::kept(s, q).len() == s.len(),
    decreases s.len(),
{
    if s.len() > 0 {
        lemma_kept_splits(s.drop_last(), p, q);
        assert(p(s.len() - 1) == !q(s.len() - 1));
    }
}

/// Retained links are at most the bigrams of the response, and they can only
/// grow with the matrix.
pub proof fn links_grow_with_the_matrix(m: MatrixModel, n: MatrixModel, outputs: Seq<TokenId>)
    requires
        forall|a: TokenId, b: TokenId| #[trigger] (m.weight)(a, b) <= (n.weight)(a, b),
    ensures
        links(m, outputs) <= links(n, outputs),
        outputs.len() > 0 ==> links(n, outputs) <= outputs.len() - 1,
        outputs.len() == 0 ==> links(n, outputs) == 0,
    decreases outputs.len(),
{
    if outputs.len() >= 2 {
        links_grow_with_the_matrix(m, n, outputs.drop_last());
        let a = outputs[outputs.len() - 2];
        let b = outputs.last();
        assert((m.weight)(a, b) <= (n.weight)(a, b));
    }
}

} // verus!
