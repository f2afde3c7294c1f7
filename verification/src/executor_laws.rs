//! Laws of the executor: tenants are isolated.

use crate::executor;
use crate::golden;
use crate::golden::{FpgaPipelineResult, RunModel, Stage};
use crate::hashing;
use crate::order;
use crate::passthrough::{GroundModel, GroundReportEntry, GroundWireResult};
use crate::wire::{CommandModel, Reply, Request, RequestModel};
use crate::TokenId;
use vstd::prelude::*;

verus! {

/// The models of a series of requests.
pub open spec fn request_models(requests: Seq<Request>) -> Seq<RequestModel> {
    requests.map_values(|r: Request| r@)
}

/// The driver answered two submissions alike: to equal requests, with equal
/// requests before them in their own submission, it gave equal replies. What
/// it was asked before either submission made no difference.
pub open spec fn answered_alike(
    requests_a: Seq<Request>,
    replies_a: Seq<Reply>,
    requests_b: Seq<Request>,
    replies_b: Seq<Reply>,
) -> bool {
    forall|i: int|
        0 <= i < requests_a.len() && i < requests_b.len() && request_models(
            requests_a.take(i + 1),
        ) == request_models(requests_b.take(i + 1)) ==> (#[trigger] replies_a[i])@ == (#[trigger] replies_b[i])@
}

/// Two pipeline results say the same.
pub open spec fn same_pass(
    a: Result<FpgaPipelineResult, String>,
    b: Result<FpgaPipelineResult, String>,
) -> bool {
    match (a, b) {
        (Ok(x), Ok(y)) => x.materialized_ids@ == y.materialized_ids@ && x.restored_ids@
            == y.restored_ids@ && x.leaks@ == y.leaks@,
        (Err(x), Err(y)) => x@ == y@,
        _ => false,
    }
}

/// Two ground results say the same.
pub open spec fn same_verdict(
    a: Result<GroundWireResult, String>,
    b: Result<GroundWireResult, String>,
) -> bool {
    match (a, b) {
        (Ok(x), Ok(y)) => x.prior_ids@ == y.prior_ids@ && x.prior_values@ == y.prior_values@
            && x.report_ids@ == y.report_ids@ && x.report_values@ == y.report_values@,
        (Err(x), Err(y)) => x@ == y@,
        _ => false,
    }
}

proof fn lemma_one_longer(
    requests_a: Seq<Request>,
    replies_a: Seq<Reply>,
    requests_b: Seq<Request>,
    replies_b: Seq<Reply>,
    n: int,
)
    requires
        answered_alike(requests_a, replies_a, requests_b, replies_b),
        requests_a.len() == replies_a.len(),
        requests_b.len() == replies_b.len(),
        0 <= n < requests_a.len(),
        n < requests_b.len(),
        request_models(requests_a.take(n)) == request_models(requests_b.take(n)),
        executor::models(replies_a.take(n)) == executor::models(replies_b.take(n)),
        requests_a[n]@ == requests_b[n]@,
    ensures
        request_models(requests_a.take(n + 1)) == request_models(requests_b.take(n + 1)),
        executor::models(replies_a.take(n + 1)) == executor::models(replies_b.take(n + 1)),
{
    assert(request_models(requests_a.take(n + 1)) =~= request_models(requests_a.take(n)).push(
        requests_a[n]@,
    ));
    assert(request_models(requests_b.take(n + 1)) =~= request_models(requests_b.take(n)).push(
        requests_b[n]@,
    ));
    assert(replies_a[n]@ == replies_b[n]@);
    assert(executor::models(replies_a.take(n + 1)) =~= executor::models(replies_a.take(n)).push(
        replies_a[n]@,
    ));
    assert(executor::models(replies_b.take(n + 1)) =~= executor::models(replies_b.take(n)).push(
        replies_b[n]@,
    ));
}

// ── The pipeline ───────────────────────────────────────────────────────────

/// The arguments of a pass decide where its run begins.
pub proof fn arguments_decide_the_start<P: Fn(&Vec<u8>) -> (u32, u32)>(
    a: RunModel,
    b: RunModel,
    doc_ids: Seq<TokenId>,
    lut_ids: Seq<TokenId>,
    vocab_ids: Seq<TokenId>,
    position: &P,
)
    requires
        hashing::is_steady(position),
        executor::begins(a, doc_ids, lut_ids, vocab_ids, position),
        executor::begins(b, doc_ids, lut_ids, vocab_ids, position),
    ensures
        a == b,
{
    order::lemma_ascending_unique(a.lut, b.lut);
    assert forall|ps: Seq<(u32, u32)>, qs: Seq<(u32, u32)>| #[trigger]
        hashing::are_positions(ps, doc_ids, position) && #[trigger] hashing::are_positions(
            qs,
            doc_ids,
            position,
        ) implies ps == qs by {
        hashing::positions_are_steady(ps, qs, doc_ids, position);
    }
    order::lemma_ascending_unique(a.positions, b.positions);
    assert(a =~= b);
}

/// Every submission carries its own graph: it begins by having the driver
/// check the graph of its own LUT and vocabulary, and whatever follows comes
/// after the driver was configured with that graph.
pub proof fn submissions_configure_their_own_graph<D>(
    start: RunModel,
    drivers: Seq<D>,
    requests: Seq<Request>,
    replies: Seq<Reply>,
)
    requires
        start.stage == Stage::Validate,
        executor::due(start, drivers, requests, replies),
        executor::cortex_after(start, executor::models(replies)).stage == Stage::Done,
    ensures
        requests.len() > 0,
        requests[0]@ == RequestModel::Validate(golden::cortex_graph(start.lut, start.vocab)),
        requests.len() > 1 ==> requests[1]@ == RequestModel::Submit(
            CommandModel::Configure { spec: golden::cortex_graph(start.lut, start.vocab) },
        ),
{
    if requests.len() == 0 {
        assert(executor::models(replies) =~= Seq::empty());
    }
    assert(executor::models(replies.take(0)) =~= Seq::empty());
    assert(requests[0]@ == start.request()->0);
    if requests.len() > 1 {
        let first = executor::models(replies.take(1));
        assert(first =~= seq![replies[0]@]);
        assert(first.drop_last() =~= Seq::empty());
        assert(executor::cortex_after(start, first) == executor::cortex_after(
            start,
            first.drop_last(),
        ).advance(first.last()));
        assert(executor::cortex_after(start, first.drop_last()) == start);
        assert(executor::cortex_after(start, first).request() == Some(requests[1]@));
    }
}

proof fn lemma_passes_agree<D>(
    start: RunModel,
    drivers_a: Seq<D>,
    requests_a: Seq<Request>,
    replies_a: Seq<Reply>,
    drivers_b: Seq<D>,
    requests_b: Seq<Request>,
    replies_b: Seq<Reply>,
    n: int,
)
    requires
        executor::due(start, drivers_a, requests_a, replies_a),
        executor::due(start, drivers_b, requests_b, replies_b),
        answered_alike(requests_a, replies_a, requests_b, replies_b),
        0 <= n <= requests_a.len(),
        n <= requests_b.len(),
    ensures
        request_models(requests_a.take(n)) == request_models(requests_b.take(n)),
        executor::models(replies_a.take(n)) == executor::models(replies_b.take(n)),
    decreases n,
{
    if n == 0 {
        assert(request_models(requests_a.take(n)) =~= request_models(requests_b.take(n)));
        assert(executor::models(replies_a.take(n)) =~= executor::models(replies_b.take(n)));
    } else {
        lemma_passes_agree(
            start,
            drivers_a,
            requests_a,
            replies_a,
            drivers_b,
            requests_b,
            replies_b,
            n - 1,
        );
        assert(Some(requests_a[n - 1]@) == Some(requests_b[n - 1]@));
        lemma_one_longer(requests_a, replies_a, requests_b, replies_b, n - 1);
    }
}

/// Tenants are isolated: two submissions with the same arguments make the same
/// requests and come to the same result, whatever states they found their
/// drivers in, as far as the drivers answer alike. Of an earlier submission
/// nothing shows.
pub proof fn tenants_are_isolated<D, P: Fn(&Vec<u8>) -> (u32, u32)>(
    doc_ids: Seq<TokenId>,
    lut_ids: Seq<TokenId>,
    vocab_ids: Seq<TokenId>,
    position: &P,
    start_a: RunModel,
    drivers_a: Seq<D>,
    requests_a: Seq<Request>,
    replies_a: Seq<Reply>,
    result_a: Result<FpgaPipelineResult, String>,
    start_b: RunModel,
    drivers_b: Seq<D>,
    requests_b: Seq<Request>,
    replies_b: Seq<Reply>,
    result_b: Result<FpgaPipelineResult, String>,
)
    requires
        hashing::is_steady(position),
        executor::begins(start_a, doc_ids, lut_ids, vocab_ids, position),
        executor::due(start_a, drivers_a, requests_a, replies_a),
        executor::concludes(
            executor::cortex_after(start_a, executor::models(replies_a)),
            result_a,
        ),
        executor::begins(start_b, doc_ids, lut_ids, vocab_ids, position),
        executor::due(start_b, drivers_b, requests_b, replies_b),
        executor::concludes(
            executor::cortex_after(start_b, executor::models(replies_b)),
            result_b,
        ),
        answered_alike(requests_a, replies_a, requests_b, replies_b),
    ensures
        request_models(requests_a) == request_models(requests_b),
        executor::models(replies_a) == executor::models(replies_b),
        same_pass(result_a, result_b),
{
    arguments_decide_the_start(start_a, start_b, doc_ids, lut_ids, vocab_ids, position);
    let n: int = if requests_a.len() <= requests_b.len() {
        requests_a.len() as int
    } else {
        requests_b.len() as int
    };
    lemma_passes_agree(
        start_a,
        drivers_a,
        requests_a,
        replies_a,
        drivers_b,
        requests_b,
        replies_b,
        n,
    );
    if requests_a.len() < requests_b.len() {
        assert(replies_a.take(n) =~= replies_a);
        assert(executor::cortex_after(start_b, executor::models(replies_b.take(n))).request() == Some(
            requests_b[n]@,
        ));
    }
    if requests_b.len() < requests_a.len() {
        assert(replies_b.take(n) =~= replies_b);
        assert(executor::cortex_after(start_a, executor::models(replies_a.take(n))).request() == Some(
            requests_a[n]@,
        ));
    }
    assert(requests_a.take(n) =~= requests_a);
    assert(requests_b.take(n) =~= requests_b);
    assert(replies_a.take(n) =~= replies_a);
    assert(replies_b.take(n) =~= replies_b);
}

// ── The ground pass ────────────────────────────────────────────────────────

proof fn lemma_verdicts_agree<D>(
    start: GroundModel,
    drivers_a: Seq<D>,
    requests_a: Seq<Request>,
    replies_a: Seq<Reply>,
    drivers_b: Seq<D>,
    requests_b: Seq<Request>,
    replies_b: Seq<Reply>,
    n: int,
)
    requires
        executor::ground_due(start, drivers_a, requests_a, replies_a),
        executor::ground_due(start, drivers_b, requests_b, replies_b),
        answered_alike(requests_a, replies_a, requests_b, replies_b),
        0 <= n <= requests_a.len(),
        n <= requests_b.len(),
    ensures
        request_models(requests_a.take(n)) == request_models(requests_b.take(n)),
        executor::models(replies_a.take(n)) == executor::models(replies_b.take(n)),
    decreases n,
{
    if n == 0 {
        assert(request_models(requests_a.take(n)) =~= request_models(requests_b.take(n)));
        assert(executor::models(replies_a.take(n)) =~= executor::models(replies_b.take(n)));
    } else {
        lemma_verdicts_agree(
            start,
            drivers_a,
            requests_a,
            replies_a,
            drivers_b,
            requests_b,
            replies_b,
            n - 1,
        );
        assert(Some(requests_a[n - 1]@) == Some(requests_b[n - 1]@));
        lemma_one_longer(requests_a, replies_a, requests_b, replies_b, n - 1);
    }
}

/// Ground passes are isolated too: two declarations of one verdict make the
/// same requests and come to the same result, whatever states they found their
/// drivers in, as far as the drivers answer alike.
pub proof fn verdicts_are_isolated<D>(
    prior: Seq<(TokenId, i64)>,
    report: Seq<GroundReportEntry>,
    scale: i64,
    start_a: GroundModel,
    drivers_a: Seq<D>,
    requests_a: Seq<Request>,
    replies_a: Seq<Reply>,
    result_a: Result<GroundWireResult, String>,
    start_b: GroundModel,
    drivers_b: Seq<D>,
    requests_b: Seq<Request>,
    replies_b: Seq<Reply>,
    result_b: Result<GroundWireResult, String>,
)
    requires
        executor::declares(start_a, prior, report, scale),
        executor::ground_due(start_a, drivers_a, requests_a, replies_a),
        executor::passes(executor::ground_after(start_a, executor::models(replies_a)), result_a),
        executor::declares(start_b, prior, report, scale),
        executor::ground_due(start_b, drivers_b, requests_b, replies_b),
        executor::passes(executor::ground_after(start_b, executor::models(replies_b)), result_b),
        answered_alike(requests_a, replies_a, requests_b, replies_b),
    ensures
        request_models(requests_a) == request_models(requests_b),
        executor::models(replies_a) == executor::models(replies_b),
        same_verdict(result_a, result_b),
{
    assert(start_a =~= start_b);
    let n: int = if requests_a.len() <= requests_b.len() {
        requests_a.len() as int
    } else {
        requests_b.len() as int
    };
    lemma_verdicts_agree(
        start_a,
        drivers_a,
        requests_a,
        replies_a,
        drivers_b,
        requests_b,
        replies_b,
        n,
    );
    if requests_a.len() < requests_b.len() {
        assert(replies_a.take(n) =~= replies_a);
        assert(executor::ground_after(start_b, executor::models(replies_b.take(n))).request() == Some(
            requests_b[n]@,
        ));
    }
    if requests_b.len() < requests_a.len() {
        assert(replies_b.take(n) =~= replies_b);
        assert(executor::ground_after(start_a, executor::models(replies_a.take(n))).request() == Some(
            requests_a[n]@,
        ));
    }
    assert(requests_a.take(n) =~= requests_a);
    assert(requests_b.take(n) =~= requests_b);
    assert(replies_a.take(n) =~= replies_a);
    assert(replies_b.take(n) =~= replies_b);
}

} // verus!
