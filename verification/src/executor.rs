//! Runs over a module driver.
//!
//! One executor serves many submissions: every submission carries its own
//! graph, so tenants are isolated by configuration, and the executor keeps no
//! state between them.

use crate::golden;
use crate::golden::{CortexRun, FpgaPipelineResult, RunModel, Stage};
use crate::hashing;
use crate::lattice;
use crate::order;
use crate::passthrough;
use crate::passthrough::{GroundModel, GroundReportEntry, GroundRun, GroundStage, GroundWireResult};
use crate::text;
use crate::wire;
use crate::wire::{ModuleCommand, ModuleGraphSpec, ModuleResponse, Reply, ReplyModel, Request};
use crate::TokenId;
use vstd::prelude::*;

verus! {

/// The execution backend: takes wire commands and gives back responses. A
/// refusal comes with the backend's words.
pub trait ModuleDriver {
    /// Check a graph.
    fn validate(&mut self, spec: ModuleGraphSpec) -> Result<(), String>;

    /// Submit a command.
    fn submit(&mut self, command: ModuleCommand) -> Result<(), String>;

    /// Drain the pending responses.
    fn drain(&mut self) -> Result<Vec<ModuleResponse>, String>;
}

/// The reply that a check or a submission amounts to: accepted, or refused in
/// the driver's words.
pub open spec fn acceptance(outcome: Result<(), String>) -> Reply {
    match outcome {
        Ok(_) => Reply::Accepted,
        Err(e) => Reply::Refused(e),
    }
}

/// The reply that a drain amounts to: the responses, or a refusal in the
/// driver's words.
pub open spec fn drainage(outcome: Result<Vec<ModuleResponse>, String>) -> Reply {
    match outcome {
        Ok(responses) => Reply::Drained(responses),
        Err(e) => Reply::Refused(e),
    }
}

/// `reply` is what the driver answers to `request` when it is asked through
/// `d`, found in the state `before`.
pub open spec fn asked<D: ModuleDriver>(
    d: &mut D,
    before: D,
    request: Request,
    reply: Reply,
) -> bool {
    &&& *d == before
    &&& match request {
        Request::Validate(spec) => exists|outcome: Result<(), String>| #[trigger]
            call_ensures(D::validate, (d, spec), outcome) && reply == acceptance(outcome),
        Request::Submit(command) => exists|outcome: Result<(), String>| #[trigger]
            call_ensures(D::submit, (d, command), outcome) && reply == acceptance(outcome),
        Request::Drain => exists|outcome: Result<Vec<ModuleResponse>, String>| #[trigger]
            call_ensures(D::drain, (d,), outcome) && reply == drainage(outcome),
    }
}

/// The replies are the driver's answers to the requests, asked once each and
/// in turn. The driver stands in `drivers[i]` when it is asked request `i`
/// through `borrows[i]`.
pub open spec fn carried<D: ModuleDriver>(
    borrows: Seq<&mut D>,
    drivers: Seq<D>,
    requests: Seq<Request>,
    replies: Seq<Reply>,
) -> bool {
    &&& borrows.len() == requests.len()
    &&& forall|i: int|
        0 <= i < requests.len() ==> asked(
            borrows[i],
            drivers[i],
            #[trigger] requests[i],
            replies[i],
        )
}

/// Carry one request to a driver, once and as it is, and pass the driver's
/// answer on. What the driver does with the request is its own affair.
fn carry<D: ModuleDriver>(driver: &mut D, request: Request) -> (r: Reply)
    ensures
        exists|d: &mut D| #[trigger]
            asked(d, *old(driver), request, r) && *final(d) == *final(driver),
        wire::answers(request@, r@),
{
    match request {
        Request::Validate(spec) => {
            let validate = D::validate;
            let outcome = validate(driver, spec);
            proof {
                let d = choose|d: &mut D| #[trigger]
                    call_ensures(D::validate, (d, spec), outcome) && *d == *old(driver) && *final(d)
                        == *driver;
                assert(asked(d, *old(driver), request, acceptance(outcome)));
            }
            match outcome {
                Ok(_) => Reply::Accepted,
                Err(e) => Reply::Refused(e),
            }
        },
        Request::Submit(command) => {
            let submit = D::submit;
            let outcome = submit(driver, command);
            proof {
                let d = choose|d: &mut D| #[trigger]
                    call_ensures(D::submit, (d, command), outcome) && *d == *old(driver)
                        && *final(d) == *driver;
                assert(asked(d, *old(driver), request, acceptance(outcome)));
            }
            match outcome {
                Ok(_) => Reply::Accepted,
                Err(e) => Reply::Refused(e),
            }
        },
        Request::Drain => {
            let drain = D::drain;
            let outcome = drain(driver);
            proof {
                let d = choose|d: &mut D| #[trigger]
                    call_ensures(D::drain, (d,), outcome) && *d == *old(driver) && *final(d)
                        == *driver;
                assert(asked(d, *old(driver), request, drainage(outcome)));
            }
            match outcome {
                Ok(responses) => Reply::Drained(responses),
                Err(e) => Reply::Refused(e),
            }
        },
    }
}

/// A pipeline run after a series of replies, each to the request that was due.
pub open spec fn cortex_after(run: RunModel, replies: Seq<ReplyModel>) -> RunModel
    decreases replies.len(),
{
    if replies.len() == 0 {
        run
    } else {
        cortex_after(run, replies.drop_last()).advance(replies.last())
    }
}

/// A ground run after a series of replies, each to the request that was due.
pub open spec fn ground_after(run: GroundModel, replies: Seq<ReplyModel>) -> GroundModel
    decreases replies.len(),
{
    if replies.len() == 0 {
        run
    } else {
        ground_after(run, replies.drop_last()).advance(replies.last())
    }
}

/// The models of a series of replies.
pub open spec fn models(replies: Seq<Reply>) -> Seq<ReplyModel> {
    replies.map_values(|r: Reply| r@)
}

/// Each request is the one that was due in a pipeline run after the replies
/// before it, and has a reply that it can have. The driver stands in
/// `drivers[i]` before request `i` and in `drivers[i + 1]` after it.
pub open spec fn due<D>(
    start: RunModel,
    drivers: Seq<D>,
    requests: Seq<Request>,
    replies: Seq<Reply>,
) -> bool {
    &&& drivers.len() == requests.len() + 1
    &&& replies.len() == requests.len()
    &&& forall|i: int|
        0 <= i < requests.len() ==> cortex_after(start, models(replies.take(i))).request() == Some(
            (#[trigger] requests[i])@,
        ) && wire::answers(requests[i]@, replies[i]@)
}

/// Each request is the one that was due in a ground run after the replies
/// before it, and has a reply that it can have. The driver stands in
/// `drivers[i]` before request `i` and in `drivers[i + 1]` after it.
pub open spec fn ground_due<D>(
    start: GroundModel,
    drivers: Seq<D>,
    requests: Seq<Request>,
    replies: Seq<Reply>,
) -> bool {
    &&& drivers.len() == requests.len() + 1
    &&& replies.len() == requests.len()
    &&& forall|i: int|
        0 <= i < requests.len() ==> ground_after(start, models(replies.take(i))).request() == Some(
            (#[trigger] requests[i])@,
        ) && wire::answers(requests[i]@, replies[i]@)
}

/// `run` begins a pass over a document, a LUT and a vocabulary.
pub open spec fn begins<P: Fn(&Vec<u8>) -> (u32, u32)>(
    run: RunModel,
    doc_ids: Seq<TokenId>,
    lut_ids: Seq<TokenId>,
    vocab_ids: Seq<TokenId>,
    position: &P,
) -> bool {
    &&& run.stage == Stage::Validate
    &&& order::ascending(run.lut)
    &&& run.lut.to_set() == lut_ids.to_set().union(doc_ids.to_set())
    &&& run.vocab == vocab_ids
    &&& order::ascending(run.positions)
    &&& exists|ps: Seq<(u32, u32)>| #[trigger]
        hashing::are_positions(ps, doc_ids, position) && run.positions.to_set() == ps.map_values(
            |p: (u32, u32)| lattice::address(p),
        ).to_set()
    &&& run.materialized == Seq::<TokenId>::empty()
    &&& run.restored == Seq::<TokenId>::empty()
    &&& run.error is None
}

/// The result that a finished pipeline run has.
pub open spec fn concludes(run: RunModel, r: Result<FpgaPipelineResult, String>) -> bool {
    &&& run.stage == Stage::Done
    &&& match r {
        Ok(pass) => run.error is None && pass.materialized_ids@ == run.materialized
            && pass.restored_ids@ == run.restored && pass.leaks@ == golden::leaked(
            run.materialized,
            run.restored,
        ),
        Err(e) => run.error == Some(e@),
    }
}

/// `run` begins to declare a verdict.
pub open spec fn declares(
    run: GroundModel,
    prior: Seq<(TokenId, i64)>,
    report: Seq<GroundReportEntry>,
    scale: i64,
) -> bool {
    &&& run.stage == GroundStage::Validate
    &&& run.prior == passthrough::prior_text(prior)
    &&& run.report == passthrough::report_text(report)
    &&& run.scale == scale
    &&& run.prior_out == wire::id_packet(Seq::empty())
    &&& run.report_out == wire::id_packet(Seq::empty())
    &&& run.error is None
}

/// The result that a finished ground run has.
pub open spec fn passes(run: GroundModel, r: Result<GroundWireResult, String>) -> bool {
    &&& run.stage == GroundStage::Done
    &&& match r {
        Ok(out) => run.error is None && out.prior_ids@ == run.prior_out.ids && out.prior_values@
            == run.prior_out.values && out.report_ids@ == run.report_out.ids && out.report_values@
            == run.report_out.values,
        Err(e) => run.error == Some(e@),
    }
}

/// One more reply comes behind the models of those before it.
proof fn lemma_said(replies: Seq<Reply>, said: Reply)
    ensures
        models(replies.push(said)) == models(replies).push(said@),
        models(replies).push(said@).drop_last() == models(replies),
        replies.push(said).take(replies.len() as int) == replies,
        forall|i: int| 0 <= i <= replies.len() ==> #[trigger] replies.push(said).take(i)
            == replies.take(i),
{
    assert(models(replies.push(said)) =~= models(replies).push(said@));
    assert(models(replies).push(said@).drop_last() =~= models(replies));
    assert(replies.push(said).take(replies.len() as int) =~= replies);
    assert forall|i: int| 0 <= i <= replies.len() implies #[trigger] replies.push(said).take(i)
        == replies.take(i) by {
        assert(replies.push(said).take(i) =~= replies.take(i));
    }
}

/// One driver serving many submissions.
pub struct BridgeExecutor<D: ModuleDriver> {
    driver: D,
}

impl<D: ModuleDriver> BridgeExecutor<D> {
    /// The driver that serves the submissions.
    pub closed spec fn backend(&self) -> D {
        self.driver
    }

    /// An executor over a driver.
    pub fn new(driver: D) -> (r: Self)
        ensures
            r.backend() == driver,
    {
        BridgeExecutor { driver }
    }

    /// Run the cortex pipeline over the driver.
    ///
    /// - `doc_ids`: one document of encoding ids;
    /// - `lut_ids`: the measured LUT ids;
    /// - `vocab_ids`: the decoder vocabulary;
    /// - `position`: where a token stands in a sketch.
    ///
    /// Each request that falls due is put to the driver, once and in turn, and
    /// the driver's answer to it is the reply that the run goes on with. The
    /// result is that of the run over those replies. What the driver answers
    /// is its own affair.
    pub fn run_cortex_pipeline<P: Fn(&Vec<u8>) -> (u32, u32)>(
        &mut self,
        doc_ids: &[TokenId],
        lut_ids: &[TokenId],
        vocab_ids: &[TokenId],
        position: &P,
    ) -> (r: Result<FpgaPipelineResult, String>)
        requires
            hashing::is_locator(position),
        ensures
            exists|
                start: RunModel,
                borrows: Seq<&mut D>,
                drivers: Seq<D>,
                requests: Seq<Request>,
                replies: Seq<Reply>,
            |
                ({
                    &&& begins(start, doc_ids@, lut_ids@, vocab_ids@, position)
                    &&& #[trigger] due(start, drivers, requests, replies)
                    &&& drivers[0] == old(self).backend()
                    &&& drivers.last() == final(self).backend()
                    &&& #[trigger] carried(borrows, drivers, requests, replies)
                    &&& forall|i: int|
                        0 <= i < borrows.len() ==> *final(#[trigger] borrows[i]) == drivers[i + 1]
                    &&& concludes(cortex_after(start, models(replies)), r)
                }),
    {
        let positions = hashing::positions_of(doc_ids, position);
        let mut run = CortexRun::start(doc_ids, positions.as_slice(), lut_ids, vocab_ids);
        assert(begins(run@, doc_ids@, lut_ids@, vocab_ids@, position)) by {
            assert(hashing::are_positions(positions@, doc_ids@, position));
        }
        let ghost start = run@;
        let ghost mut drivers: Seq<D> = seq![self.driver];
        let ghost mut requests: Seq<Request> = Seq::empty();
        let ghost mut replies: Seq<Reply> = Seq::empty();
        assert(models(replies) =~= Seq::empty());
        assert(carried(Seq::empty(), drivers, requests, replies));
        while !run.is_done()
            invariant
                run@ == cortex_after(start, models(replies)),
                due(start, drivers, requests, replies),
                drivers[0] == old(self).driver,
                drivers.last() == self.driver,
                exists|borrows: Seq<&mut D>| #[trigger]
                    carried(borrows, drivers, requests, replies) && (forall|i: int|
                        0 <= i < borrows.len() ==> *final(#[trigger] borrows[i]) == drivers[i + 1]),
            decreases golden::remaining(run@.stage),
        {
            if let Some(request) = run.request() {
                let ghost before = run@;
                let ghost asked_for = request;
                let reply = carry(&mut self.driver, request);
                let ghost said = reply;
                run.advance(reply);
                proof {
                    golden::runs_progress(before, said@);
                    lemma_said(replies, said);
                    let d = choose|d: &mut D| #[trigger]
                        asked(d, drivers.last(), asked_for, said) && *final(d) == self.driver;
                    let bs = choose|bs: Seq<&mut D>| #[trigger]
                        carried(bs, drivers, requests, replies) && (forall|i: int|
                            0 <= i < bs.len() ==> *final(#[trigger] bs[i]) == drivers[i + 1]);
                    assert(carried(
                        bs.push(d),
                        drivers.push(self.driver),
                        requests.push(asked_for),
                        replies.push(said),
                    ));
                    drivers = drivers.push(self.driver);
                    requests = requests.push(asked_for);
                    replies = replies.push(said);
                }
            }
        }
        run.outcome()
    }

    /// Declare a grounding verdict into a one-node ground graph and run it
    /// through the driver.
    ///
    /// The cortex decides; the driver passes the declared prior and report
    /// through, quantized by `scale`. Each request that falls due is put to the
    /// driver, once and in turn; with a scale that is not positive the driver is
    /// not called.
    pub fn run_ground_passthrough(
        &mut self,
        prior: &[(TokenId, i64)],
        report: &[GroundReportEntry],
        scale: i64,
    ) -> (r: Result<GroundWireResult, String>)
        ensures
            scale <= 0 ==> (r matches Err(e) && e@ == "scale must be positive, got "@
                + text::signed_decimal(scale as int)),
            scale <= 0 ==> final(self).backend() == old(self).backend(),
            scale > 0 ==> exists|
                start: GroundModel,
                borrows: Seq<&mut D>,
                drivers: Seq<D>,
                requests: Seq<Request>,
                replies: Seq<Reply>,
            |
                ({
                    &&& declares(start, prior@, report@, scale)
                    &&& #[trigger] ground_due(start, drivers, requests, replies)
                    &&& drivers[0] == old(self).backend()
                    &&& drivers.last() == final(self).backend()
                    &&& #[trigger] carried(borrows, drivers, requests, replies)
                    &&& forall|i: int|
                        0 <= i < borrows.len() ==> *final(#[trigger] borrows[i]) == drivers[i + 1]
                    &&& passes(ground_after(start, models(replies)), r)
                }),
    {
        let mut run = match GroundRun::start(prior, report, scale) {
            Ok(run) => run,
            Err(e) => {
                return Err(e);
            },
        };
        let ghost start = run@;
        let ghost mut drivers: Seq<D> = seq![self.driver];
        let ghost mut requests: Seq<Request> = Seq::empty();
        let ghost mut replies: Seq<Reply> = Seq::empty();
        assert(models(replies) =~= Seq::empty());
        assert(carried(Seq::empty(), drivers, requests, replies));
        while !run.is_done()
            invariant
                run@ == ground_after(start, models(replies)),
                ground_due(start, drivers, requests, replies),
                drivers[0] == old(self).driver,
                drivers.last() == self.driver,
                exists|borrows: Seq<&mut D>| #[trigger]
                    carried(borrows, drivers, requests, replies) && (forall|i: int|
                        0 <= i < borrows.len() ==> *final(#[trigger] borrows[i]) == drivers[i + 1]),
            decreases passthrough::remaining(run@.stage),
        {
            if let Some(request) = run.request() {
                let ghost before = run@;
                let ghost asked_for = request;
                let reply = carry(&mut self.driver, request);
                let ghost said = reply;
                run.advance(reply);
                proof {
                    passthrough::runs_progress(before, said@);
                    lemma_said(replies, said);
                    let d = choose|d: &mut D| #[trigger]
                        asked(d, drivers.last(), asked_for, said) && *final(d) == self.driver;
                    let bs = choose|bs: Seq<&mut D>| #[trigger]
                        carried(bs, drivers, requests, replies) && (forall|i: int|
                            0 <= i < bs.len() ==> *final(#[trigger] bs[i]) == drivers[i + 1]);
                    assert(carried(
                        bs.push(d),
                        drivers.push(self.driver),
                        requests.push(asked_for),
                        replies.push(said),
                    ));
                    drivers = drivers.push(self.driver);
                    requests = requests.push(asked_for);
                    replies = replies.push(said);
                }
            }
        }
        run.outcome()
    }
}

/// Run the cortex pipeline over a fresh executor: the requests go to `driver`,
/// as it is handed over.
pub fn run_cortex_pipeline<D: ModuleDriver, P: Fn(&Vec<u8>) -> (u32, u32)>(
    driver: D,
    doc_ids: &[TokenId],
    lut_ids: &[TokenId],
    vocab_ids: &[TokenId],
    position: &P,
) -> (r: Result<FpgaPipelineResult, String>)
    requires
        hashing::is_locator(position),
    ensures
        exists|
            start: RunModel,
            borrows: Seq<&mut D>,
            drivers: Seq<D>,
            requests: Seq<Request>,
            replies: Seq<Reply>,
        |
            ({
                &&& begins(start, doc_ids@, lut_ids@, vocab_ids@, position)
                &&& #[trigger] due(start, drivers, requests, replies)
                &&& drivers[0] == driver
                &&& #[trigger] carried(borrows, drivers, requests, replies)
                &&& forall|i: int|
                    0 <= i < borrows.len() ==> *final(#[trigger] borrows[i]) == drivers[i + 1]
                &&& concludes(cortex_after(start, models(replies)), r)
            }),
{
    let mut executor = BridgeExecutor::new(driver);
    executor.run_cortex_pipeline(doc_ids, lut_ids, vocab_ids, position)
}

} // verus!
