//! What runs over the bridge ask, read and report, stated of responses, texts
//! and places.

use crate::executor;
use crate::executor::ModuleDriver;
use crate::golden;
use crate::golden::{FpgaPipelineResult, RunModel, Stage};
use crate::hashing;
use crate::index_laws;
use crate::lattice;
use crate::order;
use crate::passthrough;
use crate::passthrough::{GroundModel, GroundReportEntry, GroundStage, GroundWireResult};
use crate::text;
use crate::text_laws;
use crate::tid;
use crate::wire;
use crate::wire::{
    CommandModel, ModuleCommand, ModuleGraphSpec, ModuleKind, ModuleResponse, NodeId, PacketModel, PortId, Reply,
    ReplyModel, Request, RequestModel, ResponseModel,
};
use crate::TokenId;
use vstd::prelude::*;

verus! {

// ── Outputs ────────────────────────────────────────────────────────────────

/// The first output on a node and port is the one with no such output before
/// it, and there is none where no response is such an output.
pub proof fn the_first_output_is_taken(
    rs: Seq<ResponseModel>,
    node: NodeId,
    port: PortId,
    k: int,
    packet: PacketModel,
)
    ensures
        0 <= k < rs.len() && rs[k] == (ResponseModel::Output { node, port, packet }) && (forall|
            j: int,
        |
            0 <= j < k ==> !(#[trigger] rs[j] matches ResponseModel::Output { node: n, port: p, .. }
                && n == node && p == port)) ==> golden::first_output(rs, node, port) == Some(
            packet.ids,
        ),
        (forall|j: int|
            0 <= j < rs.len() ==> !(#[trigger] rs[j] matches ResponseModel::Output {
                node: n,
                port: p,
                ..
            } && n == node && p == port)) <==> golden::first_output(rs, node, port) is None,
    decreases rs.len(),
{
    if rs.len() > 0 {
        let rest = rs.drop_first();
        the_first_output_is_taken(rest, node, port, k - 1, packet);
        assert forall|j: int| 0 <= j < rest.len() implies #[trigger] rest[j] == rs[j + 1] by {}
        if forall|j: int|
            0 <= j < rs.len() ==> !(#[trigger] rs[j] matches ResponseModel::Output {
                node: n,
                port: p,
                ..
            } && n == node && p == port) {
            assert forall|j: int| 0 <= j < rest.len() implies !(
            #[trigger] rest[j] matches ResponseModel::Output { node: n, port: p, .. } && n == node
                && p == port) by {
                assert(rs[j + 1] == rest[j]);
            }
            assert(!(rs[0] matches ResponseModel::Output { node: n, port: p, .. } && n == node && p
                == port));
        }
        if golden::first_output(rs, node, port) is None {
            assert forall|j: int| 0 <= j < rs.len() implies !(
            #[trigger] rs[j] matches ResponseModel::Output { node: n, port: p, .. } && n == node
                && p == port) by {
                if j > 0 {
                    assert(rest[j - 1] == rs[j]);
                }
            }
        }
        if 0 < k < rs.len() && (forall|j: int|
            0 <= j < k ==> !(#[trigger] rs[j] matches ResponseModel::Output { node: n, port: p, .. }
                && n == node && p == port)) {
            assert(!(rs[0] matches ResponseModel::Output { node: n, port: p, .. } && n == node && p
                == port));
            assert forall|j: int| 0 <= j < k - 1 implies !(
            #[trigger] rest[j] matches ResponseModel::Output { node: n, port: p, .. } && n == node
                && p == port) by {
                assert(rs[j + 1] == rest[j]);
            }
            assert(rest[k - 1] == rs[k]);
        }
    }
}

/// The last output of the ground node on a port is the one with no such output
/// behind it, and there is none where no response is such an output.
pub proof fn the_last_output_is_taken(
    rs: Seq<ResponseModel>,
    port: PortId,
    k: int,
    packet: PacketModel,
)
    ensures
        0 <= k < rs.len() && rs[k] == (ResponseModel::Output { node: 0, port, packet }) && (forall|
            j: int,
        |
            k < j < rs.len() ==> !(#[trigger] rs[j] matches ResponseModel::Output {
                node: n,
                port: p,
                ..
            } && n == 0 && p == port)) ==> passthrough::last_output(rs, port) == Some(packet),
        (forall|j: int|
            0 <= j < rs.len() ==> !(#[trigger] rs[j] matches ResponseModel::Output {
                node: n,
                port: p,
                ..
            } && n == 0 && p == port)) <==> passthrough::last_output(rs, port) is None,
    decreases rs.len(),
{
    if rs.len() > 0 {
        let init = rs.drop_last();
        let n = rs.len() - 1;
        the_last_output_is_taken(init, port, k, packet);
        assert forall|j: int| 0 <= j < n implies #[trigger] init[j] == rs[j] by {}
        assert(rs[n] == rs.last());
        if forall|j: int|
            0 <= j < rs.len() ==> !(#[trigger] rs[j] matches ResponseModel::Output {
                node: n,
                port: p,
                ..
            } && n == 0 && p == port) {
            assert forall|j: int| 0 <= j < init.len() implies !(
            #[trigger] init[j] matches ResponseModel::Output { node: n, port: p, .. } && n == 0 && p
                == port) by {
                assert(rs[j] == init[j]);
            }
        }
        if passthrough::last_output(rs, port) is None {
            assert forall|j: int| 0 <= j < rs.len() implies !(
            #[trigger] rs[j] matches ResponseModel::Output { node: n, port: p, .. } && n == 0 && p
                == port) by {
                if j < n {
                    assert(init[j] == rs[j]);
                }
            }
        }
        if 0 <= k < n && (forall|j: int|
            k < j < rs.len() ==> !(#[trigger] rs[j] matches ResponseModel::Output {
                node: n,
                port: p,
                ..
            } && n == 0 && p == port)) {
            assert(!(rs[n] matches ResponseModel::Output { node: n, port: p, .. } && n == 0 && p
                == port));
            assert forall|j: int| k < j < init.len() implies !(
            #[trigger] init[j] matches ResponseModel::Output { node: n, port: p, .. } && n == 0 && p
                == port) by {
                assert(rs[j] == init[j]);
            }
            assert(init[k] == rs[k]);
        }
    }
}

/// The leaks are the materialized ids that were not restored, at their places
/// and with their repetitions.
pub proof fn leaks_keep_their_places(
    materialized: Seq<TokenId>,
    restored: Seq<TokenId>,
) -> (at: Seq<int>)
    ensures
        at.len() == golden::leaked(materialized, restored).len(),
        forall|i: int, j: int| 0 <= i < j < at.len() ==> at[i] < at[j],
        forall|i: int|
            0 <= i < at.len() ==> 0 <= #[trigger] at[i] < materialized.len() && golden::leaked(
                materialized,
                restored,
            )[i] == materialized[at[i]],
        forall|k: int|
            0 <= k < materialized.len() ==> (at.contains(k) <==> !restored.contains(
                #[trigger] materialized[k],
            )),
    decreases materialized.len(),
{
    let out = |id: TokenId| !restored.contains(id);
    if materialized.len() == 0 {
        assert(materialized.filter(out) =~= Seq::empty());
        Seq::empty()
    } else {
        let init = materialized.drop_last();
        let n = materialized.len() - 1;
        let before = leaks_keep_their_places(init, restored);
        init.lemma_filter_push(materialized.last(), out);
        assert(init.push(materialized.last()) =~= materialized);
        let at = if out(materialized.last()) {
            before.push(n)
        } else {
            before
        };
        assert forall|k: int| 0 <= k < materialized.len() implies (at.contains(k)
            <==> !restored.contains(#[trigger] materialized[k])) by {
            if k < n {
                assert(init[k] == materialized[k]);
                assert(before.contains(k) <==> !restored.contains(init[k]));
                if before.contains(k) {
                    let i = before.index_of(k);
                    assert(at[i] == k);
                }
                if at.contains(k) {
                    let i = at.index_of(k);
                    assert(before[i] == k);
                }
            } else if out(materialized.last()) {
                assert(at[before.len() as int] == n);
            } else if at.contains(n) {
                let i = at.index_of(n);
                assert(before[i] < init.len());
            }
        }
        at
    }
}

// ── The pipeline ───────────────────────────────────────────────────────────

/// The graph of a pass: a slice with the LUT and a gate with the vocabulary,
/// each as a comma-separated list of ids, and one edge from the slice to
/// `gate_TF`.
pub proof fn graphs_carry_lut_and_vocabulary(lut: Seq<TokenId>, vocab: Seq<TokenId>)
    ensures
        ({
            let g = golden::cortex_graph(lut, vocab);
            &&& g.nodes.len() == 2
            &&& g.nodes[0].node == 0 && g.nodes[0].kind == ModuleKind::Slice
            &&& g.nodes[1].node == 1 && g.nodes[1].kind == ModuleKind::Gate
            &&& g.nodes[0].config.len() == 2 && g.nodes[1].config.len() == 1
            &&& g.nodes[0].config[0].0 == "encoding"@ && g.nodes[0].config[0].1 == "tid"@
            &&& g.nodes[0].config[1].0 == "lut_ids"@ && g.nodes[1].config[0].0 == "lut_ids"@
            &&& text::pieces(g.nodes[0].config[1].1, |c: char| c == ',') == lut.map_values(
                |n: u32| text::decimal(n as nat),
            ) || lut.len() == 0 && g.nodes[0].config[1].1.len() == 0
            &&& text::pieces(g.nodes[1].config[0].1, |c: char| c == ',') == vocab.map_values(
                |n: u32| text::decimal(n as nat),
            ) || vocab.len() == 0 && g.nodes[1].config[0].1.len() == 0
            &&& g.edges.len() == 1
            &&& g.edges[0].from == (0u32, 0u32) && g.edges[0].to == (1u32, 0u32)
        }),
        golden::cortex_edge().from == (0u32, 0u32),
        golden::cortex_edge().to == (1u32, 0u32),
{
    lemma_listed_ids(lut);
    lemma_listed_ids(vocab);
}

proof fn lemma_listed_ids(ids: Seq<TokenId>)
    ensures
        text::pieces(text::joined(text::numerals(ids)), |c: char| c == ',') == ids.map_values(
            |n: u32| text::decimal(n as nat),
        ) || ids.len() == 0 && text::joined(text::numerals(ids)).len() == 0,
{
    let parts = text::numerals(ids);
    assert(parts =~= ids.map_values(|n: u32| text::decimal(n as nat)));
    if ids.len() > 0 {
        assert forall|i: int, k: int| 0 <= i < parts.len() && 0 <= k < parts[i].len() implies
            #[trigger] parts[i][k] != ',' by {
            text::lemma_decimal(ids[i] as nat);
            assert(text::is_digit(text::decimal(ids[i] as nat)[k]));
        }
        text::lemma_split_joined(parts);
        assert(text::comma() =~= |c: char| c == ',');
    }
}

/// An accepted pass asks for eight things, in this order: the check of its
/// graph, the configuration with it, the document's addresses fed to the slice,
/// a step of the slice, its output, that output fed to `gate_TF`, a step of
/// `gate_TF`, and its output.
pub proof fn passes_ask_for_eight_things(
    start: RunModel,
    slice: Seq<ResponseModel>,
    ids: Seq<TokenId>,
)
    requires
        start.stage == Stage::Validate,
        golden::first_output(slice, 0, 0) == Some(ids),
    ensures
        ({
            let yes = ReplyModel::Accepted;
            let graph = golden::cortex_graph(start.lut, start.vocab);
            let sliced = start.advance(yes).advance(yes).advance(yes).advance(yes).advance(
                ReplyModel::Drained(slice),
            );
            &&& start.request() == Some(RequestModel::Validate(graph))
            &&& start.advance(yes).request() == Some(
                RequestModel::Submit(CommandModel::Configure { spec: graph }),
            )
            &&& start.advance(yes).advance(yes).request() == Some(
                RequestModel::Submit(
                    CommandModel::Feed {
                        node: 0,
                        port: 0,
                        packet: PacketModel { ids: start.positions, values: Seq::empty() },
                    },
                ),
            )
            &&& start.advance(yes).advance(yes).advance(yes).request() == Some(
                RequestModel::Submit(CommandModel::Step { node: 0 }),
            )
            &&& start.advance(yes).advance(yes).advance(yes).advance(yes).request() == Some(
                RequestModel::Drain,
            )
            &&& sliced.request() == Some(
                RequestModel::Submit(
                    CommandModel::Feed {
                        node: 1,
                        port: 0,
                        packet: PacketModel { ids, values: Seq::empty() },
                    },
                ),
            )
            &&& sliced.advance(yes).request() == Some(
                RequestModel::Submit(CommandModel::Step { node: 1 }),
            )
            &&& sliced.advance(yes).advance(yes).request() == Some(RequestModel::Drain)
        }),
{
}

/// A run goes on reply by reply.
pub proof fn runs_go_on_reply_by_reply(
    run: RunModel,
    ground: GroundModel,
    replies: Seq<ReplyModel>,
    r: ReplyModel,
)
    ensures
        executor::cortex_after(run, Seq::empty()) == run,
        executor::cortex_after(run, replies.push(r)) == executor::cortex_after(
            run,
            replies,
        ).advance(r),
        executor::ground_after(ground, Seq::empty()) == ground,
        executor::ground_after(ground, replies.push(r)) == executor::ground_after(
            ground,
            replies,
        ).advance(r),
{
    assert(replies.push(r).drop_last() =~= replies);
}

/// A pass whose requests are all accepted gives what came out: the slice's ids
/// as materialized, those of `gate_TF` as restored, and as leaks the
/// materialized ids that were not restored.
pub proof fn accepted_passes_report_both_outputs(
    start: RunModel,
    slice: Seq<ResponseModel>,
    gate: Seq<ResponseModel>,
    r: Result<FpgaPipelineResult, String>,
    id: TokenId,
)
    requires
        start.stage == Stage::Validate,
        start.error is None,
        executor::concludes(
            start.advance(ReplyModel::Accepted).advance(ReplyModel::Accepted).advance(
                ReplyModel::Accepted,
            ).advance(ReplyModel::Accepted).advance(ReplyModel::Drained(slice)).advance(
                ReplyModel::Accepted,
            ).advance(ReplyModel::Accepted).advance(ReplyModel::Drained(gate)),
            r,
        ),
        golden::first_output(slice, 0, 0) is Some,
        golden::first_output(gate, 1, 0) is Some,
    ensures
        r is Ok,
        r->Ok_0.materialized_ids@ == golden::first_output(slice, 0, 0)->0,
        r->Ok_0.restored_ids@ == golden::first_output(gate, 1, 0)->0,
        r->Ok_0.leaks@ == golden::leaked(
            golden::first_output(slice, 0, 0)->0,
            golden::first_output(gate, 1, 0)->0,
        ),
        r->Ok_0.leaks@.contains(id) <==> r->Ok_0.materialized_ids@.contains(id)
            && !r->Ok_0.restored_ids@.contains(id),
{
    golden::every_materialized_id_is_restored_or_leaked(
        golden::first_output(slice, 0, 0)->0,
        golden::first_output(gate, 1, 0)->0,
        id,
    );
}

/// A pass that failed reports why, and one that did not reports no error.
pub proof fn failed_passes_report_why(
    run: RunModel,
    r: Result<FpgaPipelineResult, String>,
    ground: GroundModel,
    g: Result<GroundWireResult, String>,
)
    ensures
        executor::concludes(run, r) ==> run.stage == Stage::Done && (r is Err <==> run.error
            is Some) && (r is Err ==> r->Err_0@ == run.error->0),
        executor::passes(ground, g) ==> ground.stage == GroundStage::Done && (g is Err
            <==> ground.error is Some) && (g is Err ==> g->Err_0@ == ground.error->0) && (g is Ok
            ==> g->Ok_0.prior_ids@ == ground.prior_out.ids && g->Ok_0.prior_values@
            == ground.prior_out.values && g->Ok_0.report_ids@ == ground.report_out.ids
            && g->Ok_0.report_values@ == ground.report_out.values),
{
}

/// A missing output is reported with its node and port, and ends the pass.
pub proof fn missing_outputs_are_named(run: RunModel, rs: Seq<ResponseModel>)
    requires
        run.stage == Stage::DrainSlice || run.stage == Stage::DrainGate,
        golden::first_output(
            rs,
            if run.stage == Stage::DrainSlice {
                0
            } else {
                1
            },
            0,
        ) is None,
    ensures
        run.advance(ReplyModel::Drained(rs)).stage == Stage::Done,
        run.advance(ReplyModel::Drained(rs)).error == Some(
            "no output on node "@ + (if run.stage == Stage::DrainSlice {
                seq!['0']
            } else {
                seq!['1']
            }) + " port "@ + seq!['0'],
        ),
{
    assert(text::decimal(0) =~= seq!['0']);
    assert(text::decimal(1) =~= seq!['1']);
}

/// A pass begins with a rising list of the LUT's and the document's ids, the
/// vocabulary as it is, and a rising list of the addresses of the document's
/// tokens.
pub proof fn passes_begin_with_their_arguments<P: Fn(&Vec<u8>) -> (u32, u32)>(
    run: RunModel,
    doc_ids: Seq<TokenId>,
    lut_ids: Seq<TokenId>,
    vocab_ids: Seq<TokenId>,
    position: &P,
    f: spec_fn(Seq<u8>) -> (u32, u32),
    id: TokenId,
    bit: u32,
)
    requires
        executor::begins(run, doc_ids, lut_ids, vocab_ids, position),
        forall|v: &Vec<u8>, p: (u32, u32)| #[trigger]
            call_ensures(position, (v,), p) ==> p == f(v@) && p.0 < 1024 && p.1 < 32,
    ensures
        run.stage == Stage::Validate,
        forall|i: int, j: int| 0 <= i < j < run.lut.len() ==> run.lut[i] < run.lut[j],
        run.lut.contains(id) <==> lut_ids.contains(id) || doc_ids.contains(id),
        run.vocab == vocab_ids,
        forall|i: int, j: int|
            0 <= i < j < run.positions.len() ==> run.positions[i] < run.positions[j],
        run.positions.contains(bit) <==> (exists|k: int|
            0 <= k < doc_ids.len() && 32 * f(tid::tid(#[trigger] doc_ids[k])).0 + f(
                tid::tid(doc_ids[k]),
            ).1 == bit),
        run.materialized.len() == 0,
        run.restored.len() == 0,
        run.error is None,
{
    assert(run.lut.to_set().contains(id) == lut_ids.to_set().union(doc_ids.to_set()).contains(id));
    let ps = choose|ps: Seq<(u32, u32)>| #[trigger]
        hashing::are_positions(ps, doc_ids, position) && run.positions.to_set() == ps.map_values(
            |p: (u32, u32)| lattice::address(p),
        ).to_set();
    let bits = ps.map_values(|p: (u32, u32)| lattice::address(p));
    assert(run.positions.to_set().contains(bit) == bits.to_set().contains(bit));
    assert forall|k: int| 0 <= k < doc_ids.len() implies #[trigger] bits[k] == 32 * f(
        tid::tid(doc_ids[k]),
    ).0 + f(tid::tid(doc_ids[k])).1 by {
        assert(hashing::stands(position, tid::tid(doc_ids[k]), ps[k]));
        index_laws::addresses_count_the_bits(ps[k], bits[k]);
    }
    if bits.contains(bit) {
        let k = bits.index_of(bit);
        assert(bits[k] == bit);
        assert(doc_ids[k] == doc_ids[k]);
    }
    if exists|k: int|
        0 <= k < doc_ids.len() && 32 * f(tid::tid(#[trigger] doc_ids[k])).0 + f(
            tid::tid(doc_ids[k]),
        ).1 == bit {
        let k = choose|k: int|
            0 <= k < doc_ids.len() && 32 * f(tid::tid(#[trigger] doc_ids[k])).0 + f(
                tid::tid(doc_ids[k]),
            ).1 == bit;
        assert(bits[k] == bit);
    }
}

// ── The driver ─────────────────────────────────────────────────────────────

/// Every request of a carried run was put to the driver, in the state that the
/// request before it left, and its reply is the driver's own answer: an
/// accepted or refused one to a check or a submission, in the driver's words,
/// and the driver's responses, or its refusal, to a drain.
pub proof fn replies_are_the_drivers_answers<D: ModuleDriver>(
    borrows: Seq<&mut D>,
    drivers: Seq<D>,
    requests: Seq<Request>,
    replies: Seq<Reply>,
    k: int,
)
    requires
        executor::carried(borrows, drivers, requests, replies),
        0 <= k < requests.len(),
    ensures
        borrows.len() == requests.len(),
        *borrows[k] == drivers[k],
        requests[k] matches Request::Validate(spec) ==> (replies[k] is Accepted && (exists|
            outcome: Result<(), String>,
        | #[trigger] call_ensures(D::validate, (borrows[k], spec), outcome) && outcome is Ok)) || (
        replies[k] matches Reply::Refused(e) && (exists|outcome: Result<(), String>| #[trigger]
            call_ensures(D::validate, (borrows[k], spec), outcome) && outcome == Err::<(), String>(e))),
        requests[k] matches Request::Submit(command) ==> (replies[k] is Accepted && (exists|
            outcome: Result<(), String>,
        | #[trigger] call_ensures(D::submit, (borrows[k], command), outcome) && outcome is Ok)) || (
        replies[k] matches Reply::Refused(e) && (exists|outcome: Result<(), String>| #[trigger]
            call_ensures(D::submit, (borrows[k], command), outcome) && outcome == Err::<(), String>(e))),
        requests[k] is Drain ==> (replies[k] matches Reply::Drained(rs) && (exists|
            outcome: Result<Vec<ModuleResponse>, String>,
        | #[trigger]
            call_ensures(D::drain, (borrows[k],), outcome) && outcome == Ok::<
            Vec<ModuleResponse>,
            String,
        >(rs))) || (replies[k] matches Reply::Refused(e) && (exists|
            outcome: Result<Vec<ModuleResponse>, String>,
        | #[trigger]
            call_ensures(D::drain, (borrows[k],), outcome) && outcome == Err::<
            Vec<ModuleResponse>,
            String,
        >(e))),
{
    assert(executor::asked(borrows[k], drivers[k], requests[k], replies[k]));
}

/// A due request is the one that the run asks for after the replies before it,
/// and replies are of the kind that their request can have.
pub proof fn due_requests_follow_the_replies<D>(
    start: RunModel,
    ground: GroundModel,
    drivers: Seq<D>,
    requests: Seq<Request>,
    replies: Seq<Reply>,
    k: int,
)
    requires
        0 <= k < requests.len(),
    ensures
        executor::due(start, drivers, requests, replies) ==> drivers.len() == requests.len() + 1
            && replies.len() == requests.len() && executor::cortex_after(
            start,
            replies.take(k).map_values(|r: Reply| r@),
        ).request() == Some(requests[k]@) && (replies[k]@ is Drained ==> requests[k]@ is Drain) && (
        replies[k]@ is Accepted ==> !(requests[k]@ is Drain)),
        executor::ground_due(ground, drivers, requests, replies) ==> drivers.len()
            == requests.len() + 1 && replies.len() == requests.len() && executor::ground_after(
            ground,
            replies.take(k).map_values(|r: Reply| r@),
        ).request() == Some(requests[k]@) && (replies[k]@ is Drained ==> requests[k]@ is Drain) && (
        replies[k]@ is Accepted ==> !(requests[k]@ is Drain)),
{
    assert(executor::models(replies.take(k)) =~= replies.take(k).map_values(|r: Reply| r@));
    if executor::due(start, drivers, requests, replies) {
        assert(executor::cortex_after(start, executor::models(replies.take(k))).request() == Some(
            requests[k]@,
        ));
    }
    if executor::ground_due(ground, drivers, requests, replies) {
        assert(executor::ground_after(ground, executor::models(replies.take(k))).request() == Some(
            requests[k]@,
        ));
    }
}

// ── The verdict ────────────────────────────────────────────────────────────

/// A prior is written pair by pair, id and weight with a colon between them
/// and commas between pairs.
pub proof fn priors_are_written_pair_by_pair(
    p: (TokenId, i64),
    a: Seq<(TokenId, i64)>,
    b: Seq<(TokenId, i64)>,
)
    ensures
        passthrough::prior_text(Seq::empty()).len() == 0,
        passthrough::prior_text(seq![p]) == text::decimal(p.0 as nat) + seq![':']
            + text::signed_decimal(p.1 as int),
        a.len() > 0 && b.len() > 0 ==> passthrough::prior_text(a + b) == passthrough::prior_text(a)
            + seq![','] + passthrough::prior_text(b),
{
    let part = |p: (TokenId, i64)| passthrough::prior_part(p);
    text_laws::joining_puts_commas_between(
        a.map_values(part),
        b.map_values(part),
        passthrough::prior_part(p),
    );
    let none = Seq::<(TokenId, i64)>::empty();
    assert(none.map_values(part) =~= Seq::empty());
    assert(seq![p].map_values(part) =~= seq![passthrough::prior_part(p)]);
    assert(passthrough::prior_part(p) =~= text::decimal(p.0 as nat) + seq![':']
        + text::signed_decimal(p.1 as int));
    assert((a + b).map_values(part) =~= a.map_values(part) + b.map_values(part));
}

/// A report is written entry by entry, its five fields with colons between
/// them and commas between entries.
pub proof fn reports_are_written_entry_by_entry(
    e: GroundReportEntry,
    a: Seq<GroundReportEntry>,
    b: Seq<GroundReportEntry>,
)
    ensures
        passthrough::report_text(Seq::empty()).len() == 0,
        passthrough::report_text(seq![e]) == text::decimal(e.id as nat) + seq![':'] + e.tau@ + seq![
            ':',
        ] + e.rho@ + seq![':'] + e.srho@ + seq![':'] + text::decimal(e.r_link as nat),
        a.len() > 0 && b.len() > 0 ==> passthrough::report_text(a + b) == passthrough::report_text(
            a,
        ) + seq![','] + passthrough::report_text(b),
{
    let part = |e: GroundReportEntry| passthrough::report_part(e);
    text_laws::joining_puts_commas_between(
        a.map_values(part),
        b.map_values(part),
        passthrough::report_part(e),
    );
    let none = Seq::<GroundReportEntry>::empty();
    assert(none.map_values(part) =~= Seq::empty());
    assert(seq![e].map_values(part) =~= seq![passthrough::report_part(e)]);
    assert(passthrough::report_part(e) =~= text::decimal(e.id as nat) + seq![':'] + e.tau@ + seq![
        ':',
    ] + e.rho@ + seq![':'] + e.srho@ + seq![':'] + text::decimal(e.r_link as nat));
    assert((a + b).map_values(part) =~= a.map_values(part) + b.map_values(part));
}

/// The ground graph is one node that carries the prior, the report and the
/// scale as declared.
pub proof fn ground_graphs_carry_the_declaration(prior: Seq<char>, report: Seq<char>, scale: i64)
    ensures
        ({
            let g = passthrough::ground_graph(prior, report, scale);
            &&& g.nodes.len() == 1 && g.edges.len() == 0
            &&& g.nodes[0].node == 0 && g.nodes[0].kind == ModuleKind::Ground
            &&& g.nodes[0].config.len() == 3
            &&& g.nodes[0].config[0].0 == "prior"@ && g.nodes[0].config[0].1 == prior
            &&& g.nodes[0].config[1].0 == "report"@ && g.nodes[0].config[1].1 == report
            &&& g.nodes[0].config[2].0 == "scale"@ && g.nodes[0].config[2].1
                == text::signed_decimal(scale as int)
        }),
{
}

/// A declared verdict asks for five things, in this order: the check of its
/// graph, the configuration with it, an empty beat fed to the node, a step, and
/// the output.
pub proof fn verdicts_ask_for_five_things(start: GroundModel)
    requires
        start.stage == GroundStage::Validate,
    ensures
        ({
            let yes = ReplyModel::Accepted;
            let graph = passthrough::ground_graph(start.prior, start.report, start.scale);
            &&& start.request() == Some(RequestModel::Validate(graph))
            &&& start.advance(yes).request() == Some(
                RequestModel::Submit(CommandModel::Configure { spec: graph }),
            )
            &&& start.advance(yes).advance(yes).request() == Some(
                RequestModel::Submit(
                    CommandModel::Feed {
                        node: 0,
                        port: 0,
                        packet: PacketModel { ids: Seq::empty(), values: Seq::empty() },
                    },
                ),
            )
            &&& start.advance(yes).advance(yes).advance(yes).request() == Some(
                RequestModel::Submit(CommandModel::Step { node: 0 }),
            )
            &&& start.advance(yes).advance(yes).advance(yes).advance(yes).request() == Some(
                RequestModel::Drain,
            )
        }),
{
}

/// A refusal ends a verdict with the driver's words; a drain ends it with both
/// packets, or with the word for the first that is missing.
pub proof fn verdicts_end_with_both_packets_or_a_word(
    run: GroundModel,
    rs: Seq<ResponseModel>,
    words: Seq<char>,
)
    ensures
        run.advance(ReplyModel::Refused(words)).stage == GroundStage::Done,
        run.advance(ReplyModel::Refused(words)).error == Some(words),
        run.advance(ReplyModel::Drained(rs)).stage == GroundStage::Done,
        passthrough::last_output(rs, 0) is None ==> run.advance(ReplyModel::Drained(rs)).error
            == Some("no prior packet on ground port 0"@),
        passthrough::last_output(rs, 0) is Some && passthrough::last_output(rs, 1) is None
            ==> run.advance(ReplyModel::Drained(rs)).error == Some(
            "no report packet on ground port 1"@,
        ),
        passthrough::last_output(rs, 0) is Some && passthrough::last_output(rs, 1) is Some
            ==> run.advance(ReplyModel::Drained(rs)).error == run.error && run.advance(
            ReplyModel::Drained(rs),
        ).prior_out == passthrough::last_output(rs, 0)->0 && run.advance(
            ReplyModel::Drained(rs),
        ).report_out == passthrough::last_output(rs, 1)->0,
{
}

/// A verdict begins with its own prior, report and scale, and nothing drained.
pub proof fn verdicts_begin_with_their_declaration(
    run: GroundModel,
    prior: Seq<(TokenId, i64)>,
    report: Seq<GroundReportEntry>,
    scale: i64,
)
    requires
        executor::declares(run, prior, report, scale),
    ensures
        run.stage == GroundStage::Validate,
        run.prior == passthrough::prior_text(prior),
        run.report == passthrough::report_text(report),
        run.scale == scale,
        run.prior_out.ids.len() == 0,
        run.prior_out.values.len() == 0,
        run.report_out.ids.len() == 0,
        run.report_out.values.len() == 0,
        run.error is None,
{
}

/// A graph is read node by node, pair by pair and edge by edge.
pub proof fn graphs_are_read_as_they_are(g: ModuleGraphSpec, k: int, i: int)
    ensures
        g@.nodes.len() == g.nodes@.len(),
        g@.edges == g.edges@,
        0 <= k < g.nodes@.len() ==> g@.nodes[k].node == g.nodes@[k].node && g@.nodes[k].kind
            == g.nodes@[k].kind && g@.nodes[k].config.len() == g.nodes@[k].config@.len(),
        0 <= k < g.nodes@.len() && 0 <= i < g.nodes@[k].config@.len() ==> g@.nodes[k].config[i] == (
            g.nodes@[k].config@[i].0@,
            g.nodes@[k].config@[i].1@,
        ),
{
}

/// Commands, requests and replies are read as they are.
pub proof fn commands_are_read_as_they_are(c: ModuleCommand, q: Request, r: Reply)
    ensures
        c matches ModuleCommand::Configure { spec } ==> c@ == (CommandModel::Configure {
            spec: spec@,
        }),
        c matches ModuleCommand::Feed { node, port, packet } ==> c@ == (CommandModel::Feed {
            node,
            port,
            packet: PacketModel { ids: packet.ids@, values: packet.values@ },
        }),
        c matches ModuleCommand::Step { node } ==> c@ == (CommandModel::Step { node }),
        q matches Request::Validate(spec) ==> q@ == RequestModel::Validate(spec@),
        q matches Request::Submit(command) ==> q@ == RequestModel::Submit(command@),
        q is Drain <==> q@ is Drain,
        r is Accepted <==> r@ is Accepted,
        r matches Reply::Refused(e) ==> r@ == ReplyModel::Refused(e@),
        r matches Reply::Drained(rs) ==> r@ == ReplyModel::Drained(wire::responses(rs@)),
{
}

/// The words for a missing output name its node and its port.
pub proof fn missing_outputs_have_words(node: NodeId, port: PortId)
    ensures
        golden::no_output(node, port) == "no output on node "@ + text::decimal(node as nat)
            + " port "@ + text::decimal(port as nat),
{
}

/// Responses are read one by one, a packet of ids has no values, and only a
/// drain brings responses.
pub proof fn wire_values_are_read_as_they_are(
    rs: Seq<ModuleResponse>,
    ids: Seq<TokenId>,
    k: int,
    q: RequestModel,
    r: ReplyModel,
)
    ensures
        wire::responses(rs).len() == rs.len(),
        0 <= k < rs.len() && rs[k] is Other ==> wire::responses(rs)[k] is Other,
        0 <= k < rs.len() ==> (rs[k] matches ModuleResponse::Output { node, port, packet }
            ==> wire::responses(rs)[k] == (ResponseModel::Output {
            node,
            port,
            packet: PacketModel { ids: packet.ids@, values: packet.values@ },
        })),
        wire::id_packet(ids).ids == ids,
        wire::id_packet(ids).values.len() == 0,
        wire::answers(q, r) <==> (r is Refused || (r is Drained <==> q is Drain)),
{
}

} // verus!
