//! The grounding verdict on the wire.
//!
//! The cortex decides the prior and the report; the bridge's one-node ground
//! graph passes both through. [`GroundRun`] decides what the bridge is asked
//! and what its replies mean; the caller carries the requests.

use crate::text;
use crate::wire;
use crate::wire::{
    CommandModel, GraphModel, ModuleCommand, ModuleEdge, ModuleGraphSpec, ModuleKind,
    ModuleNodeSpec, ModuleResponse, NodeModel, Packet, PacketModel, PortId, Reply, ReplyModel,
    Request, RequestModel, ResponseModel,
};
use crate::TokenId;
use vstd::prelude::*;
use vstd::slice::slice_to_vec;
use vstd::string::*;

verus! {

/// One entry of the declared grounding report. The ratios are carried as the
/// texts that stand in the wire config.
#[derive(Debug, PartialEq, Eq)]
pub struct GroundReportEntry {
    pub id: TokenId,
    pub tau: String,
    pub rho: String,
    pub srho: String,
    pub r_link: u64,
}

impl Clone for GroundReportEntry {
    fn clone(&self) -> (r: Self)
        ensures
            r.id == self.id,
            r.tau@ == self.tau@,
            r.rho@ == self.rho@,
            r.srho@ == self.srho@,
            r.r_link == self.r_link,
    {
        GroundReportEntry {
            id: self.id,
            tau: self.tau.clone(),
            rho: self.rho.clone(),
            srho: self.srho.clone(),
            r_link: self.r_link,
        }
    }
}

/// The verbatim wire output of the ground module.
#[derive(Debug, PartialEq, Eq)]
pub struct GroundWireResult {
    /// Prior ids and weights emitted on output port 0.
    pub prior_ids: Vec<TokenId>,
    pub prior_values: Vec<i64>,
    /// Report ids and values emitted on output port 1.
    pub report_ids: Vec<TokenId>,
    pub report_values: Vec<i64>,
}

impl Clone for GroundWireResult {
    fn clone(&self) -> (r: Self)
        ensures
            r.prior_ids@ == self.prior_ids@,
            r.prior_values@ == self.prior_values@,
            r.report_ids@ == self.report_ids@,
            r.report_values@ == self.report_values@,
    {
        GroundWireResult {
            prior_ids: slice_to_vec(self.prior_ids.as_slice()),
            prior_values: slice_to_vec(self.prior_values.as_slice()),
            report_ids: slice_to_vec(self.report_ids.as_slice()),
            report_values: slice_to_vec(self.report_values.as_slice()),
        }
    }
}

// ── The wire config ────────────────────────────────────────────────────────

/// `id:weight`.
pub open spec fn prior_part(p: (TokenId, i64)) -> Seq<char> {
    text::decimal(p.0 as nat).push(':') + text::signed_decimal(p.1 as int)
}

/// `id:tau:rho:srho:r_link`.
pub open spec fn report_part(e: GroundReportEntry) -> Seq<char> {
    text::decimal(e.id as nat).push(':') + e.tau@.push(':') + e.rho@.push(':') + e.srho@.push(':')
        + text::decimal(e.r_link as nat)
}

/// The config text of a prior.
pub open spec fn prior_text(prior: Seq<(TokenId, i64)>) -> Seq<char> {
    text::joined(prior.map_values(|p: (TokenId, i64)| prior_part(p)))
}

/// The config text of a report.
pub open spec fn report_text(report: Seq<GroundReportEntry>) -> Seq<char> {
    text::joined(report.map_values(|e: GroundReportEntry| report_part(e)))
}

fn push_colon(s: &mut String)
    ensures
        final(s)@ == old(s)@.push(':'),
{
    proof {
        reveal_strlit(":");
        assert(s@ + ":"@ =~= s@.push(':'));
    }
    s.append(":");
}

/// The config text of a prior.
pub fn prior_config(prior: &[(TokenId, i64)]) -> (r: String)
    ensures
        r@ == prior_text(prior@),
{
    let mut r = String::new();
    let ghost parts = prior@.map_values(|p: (TokenId, i64)| prior_part(p));
    assert(parts.take(0) =~= Seq::empty());
    for i in 0..prior.len()
        invariant
            parts == prior@.map_values(|p: (TokenId, i64)| prior_part(p)),
            r@ == text::joined(parts.take(i as int)),
    {
        let ghost now = parts.take(i + 1);
        assert(now.drop_last() =~= parts.take(i as int));
        if i > 0 {
            text::push_comma(&mut r);
        }
        let (id, weight) = prior[i];
        text::push_decimal(&mut r, id as u64);
        push_colon(&mut r);
        text::push_signed(&mut r, weight);
        assert(r@ =~= text::joined(now));
    }
    assert(parts.take(prior@.len() as int) =~= parts);
    r
}

/// The config text of a report.
pub fn report_config(report: &[GroundReportEntry]) -> (r: String)
    ensures
        r@ == report_text(report@),
{
    let mut r = String::new();
    let ghost parts = report@.map_values(|e: GroundReportEntry| report_part(e));
    assert(parts.take(0) =~= Seq::empty());
    for i in 0..report.len()
        invariant
            parts == report@.map_values(|e: GroundReportEntry| report_part(e)),
            r@ == text::joined(parts.take(i as int)),
    {
        let ghost now = parts.take(i + 1);
        assert(now.drop_last() =~= parts.take(i as int));
        if i > 0 {
            text::push_comma(&mut r);
        }
        let entry = &report[i];
        text::push_decimal(&mut r, entry.id as u64);
        push_colon(&mut r);
        r.append(entry.tau.as_str());
        push_colon(&mut r);
        r.append(entry.rho.as_str());
        push_colon(&mut r);
        r.append(entry.srho.as_str());
        push_colon(&mut r);
        text::push_decimal(&mut r, entry.r_link);
        assert(r@ =~= text::joined(now));
    }
    assert(parts.take(report@.len() as int) =~= parts);
    r
}

/// The one-node ground graph with its declared prior, report and scale.
pub open spec fn ground_graph(prior: Seq<char>, report: Seq<char>, scale: i64) -> GraphModel {
    GraphModel {
        nodes: seq![
            NodeModel {
                node: 0,
                kind: ModuleKind::Ground,
                config: seq![
                    ("prior"@, prior),
                    ("report"@, report),
                    ("scale"@, text::signed_decimal(scale as int)),
                ],
            },
        ],
        edges: Seq::empty(),
    }
}

fn ground_graph_spec(prior: &String, report: &String, scale: i64) -> (r: ModuleGraphSpec)
    ensures
        r@ == ground_graph(prior@, report@, scale),
{
    let mut scale_text = String::new();
    text::push_signed(&mut scale_text, scale);
    assert(scale_text@ =~= text::signed_decimal(scale as int));
    let mut config: Vec<(String, String)> = Vec::new();
    config.push(("prior".to_owned(), prior.clone()));
    config.push(("report".to_owned(), report.clone()));
    config.push(("scale".to_owned(), scale_text));
    let node = ModuleNodeSpec { node: 0, kind: ModuleKind::Ground, config };
    assert(node@ =~= ground_graph(prior@, report@, scale).nodes[0]);
    let mut nodes: Vec<ModuleNodeSpec> = Vec::new();
    nodes.push(node);
    let edges: Vec<ModuleEdge> = Vec::new();
    let r = ModuleGraphSpec { nodes, edges };
    assert(r@.nodes =~= ground_graph(prior@, report@, scale).nodes);
    r
}

// ── Outputs ────────────────────────────────────────────────────────────────

/// The packet of the last output of node 0 on a port.
pub open spec fn last_output(rs: Seq<ResponseModel>, port: PortId) -> Option<PacketModel>
    decreases rs.len(),
{
    if rs.len() == 0 {
        None
    } else {
        match rs.last() {
            ResponseModel::Output { node, port: p, packet } if node == 0 && p == port => Some(
                packet,
            ),
            _ => last_output(rs.drop_last(), port),
        }
    }
}

fn take_last(responses: &Vec<ModuleResponse>, port: PortId) -> (r: Option<(Vec<TokenId>, Vec<i64>)>)
    ensures
        match r {
            Some((ids, values)) => last_output(wire::responses(responses@), port) == Some(
                (PacketModel { ids: ids@, values: values@ }),
            ),
            None => last_output(wire::responses(responses@), port) is None,
        },
{
    let ghost all = wire::responses(responses@);
    assert(all.take(all.len() as int) =~= all);
    let mut i: usize = responses.len();
    while i > 0
        invariant
            i <= responses@.len(),
            all == wire::responses(responses@),
            last_output(all.take(i as int), port) == last_output(all, port),
        decreases i,
    {
        assert(all.take(i as int).last() == responses@[i - 1]@);
        assert(all.take(i as int).drop_last() =~= all.take(i - 1));
        i = i - 1;
        if let ModuleResponse::Output { node, port: p, packet } = &responses[i] {
            if *node == 0 && *p == port {
                return Some(
                    (slice_to_vec(packet.ids.as_slice()), slice_to_vec(packet.values.as_slice())),
                );
            }
        }
    }
    None
}

// ── The run ────────────────────────────────────────────────────────────────

/// How far a run has come: the request that is due.
#[derive(Clone, Copy, Debug, PartialEq, Eq, Structural)]
pub enum GroundStage {
    Validate,
    Configure,
    Feed,
    Step,
    Drain,
    Done,
}

/// One pass of a declared verdict through the bridge.
#[derive(Debug)]
pub struct GroundRun {
    stage: GroundStage,
    prior: String,
    report: String,
    scale: i64,
    prior_ids: Vec<TokenId>,
    prior_values: Vec<i64>,
    report_ids: Vec<TokenId>,
    report_values: Vec<i64>,
    error: Option<String>,
}

/// Model of a [`GroundRun`].
#[verifier::ext_equal]
pub struct GroundModel {
    pub stage: GroundStage,
    /// Config text of the prior.
    pub prior: Seq<char>,
    /// Config text of the report.
    pub report: Seq<char>,
    /// Quantization scale.
    pub scale: i64,
    /// Packet on output port 0, once drained.
    pub prior_out: PacketModel,
    /// Packet on output port 1, once drained.
    pub report_out: PacketModel,
    /// Why the run failed.
    pub error: Option<Seq<char>>,
}

impl GroundModel {
    /// The request that is due, none when the run is done.
    pub open spec fn request(self) -> Option<RequestModel> {
        let graph = ground_graph(self.prior, self.report, self.scale);
        match self.stage {
            GroundStage::Validate => Some(RequestModel::Validate(graph)),
            GroundStage::Configure => Some(
                RequestModel::Submit(CommandModel::Configure { spec: graph }),
            ),
            GroundStage::Feed => Some(
                RequestModel::Submit(
                    CommandModel::Feed {
                        node: 0,
                        port: 0,
                        packet: wire::id_packet(Seq::empty()),
                    },
                ),
            ),
            GroundStage::Step => Some(RequestModel::Submit(CommandModel::Step { node: 0 })),
            GroundStage::Drain => Some(RequestModel::Drain),
            GroundStage::Done => None,
        }
    }

    /// The run at another stage.
    pub open spec fn at(self, stage: GroundStage) -> GroundModel {
        GroundModel { stage, ..self }
    }

    /// The run, failed.
    pub open spec fn failed(self, error: Seq<char>) -> GroundModel {
        GroundModel { stage: GroundStage::Done, error: Some(error), ..self }
    }

    /// The run after a reply to the request that was due.
    pub open spec fn advance(self, reply: ReplyModel) -> GroundModel {
        match reply {
            ReplyModel::Refused(e) => self.failed(e),
            ReplyModel::Accepted => match self.stage {
                GroundStage::Validate => self.at(GroundStage::Configure),
                GroundStage::Configure => self.at(GroundStage::Feed),
                GroundStage::Feed => self.at(GroundStage::Step),
                GroundStage::Step => self.at(GroundStage::Drain),
                _ => self,
            },
            ReplyModel::Drained(rs) => match (last_output(rs, 0), last_output(rs, 1)) {
                (None, _) => self.failed("no prior packet on ground port 0"@),
                (Some(_), None) => self.failed("no report packet on ground port 1"@),
                (Some(prior), Some(report)) => GroundModel {
                    stage: GroundStage::Done,
                    prior_out: prior,
                    report_out: report,
                    ..self
                },
            },
        }
    }
}

impl View for GroundRun {
    type V = GroundModel;

    closed spec fn view(&self) -> GroundModel {
        GroundModel {
            stage: self.stage,
            prior: self.prior@,
            report: self.report@,
            scale: self.scale,
            prior_out: PacketModel { ids: self.prior_ids@, values: self.prior_values@ },
            report_out: PacketModel { ids: self.report_ids@, values: self.report_values@ },
            error: match self.error {
                Some(e) => Some(e@),
                None => None,
            },
        }
    }
}

impl GroundRun {
    /// Declare a verdict. The scale must be positive.
    pub fn start(prior: &[(TokenId, i64)], report: &[GroundReportEntry], scale: i64) -> (r: Result<
        Self,
        String,
    >)
        ensures
            match r {
                Ok(run) => scale > 0 && run@.stage == GroundStage::Validate && run@.prior
                    == prior_text(prior@) && run@.report == report_text(report@) && run@.scale
                    == scale && run@.prior_out == wire::id_packet(Seq::empty()) && run@.report_out
                    == wire::id_packet(Seq::empty()) && run@.error is None,
                Err(e) => scale <= 0 && e@ == "scale must be positive, got "@
                    + text::signed_decimal(scale as int),
            },
    {
        if scale <= 0 {
            let mut e = "scale must be positive, got ".to_owned();
            text::push_signed(&mut e, scale);
            return Err(e);
        }
        Ok(
            GroundRun {
                stage: GroundStage::Validate,
                prior: prior_config(prior),
                report: report_config(report),
                scale,
                prior_ids: Vec::new(),
                prior_values: Vec::new(),
                report_ids: Vec::new(),
                report_values: Vec::new(),
                error: None,
            },
        )
    }

    /// Whether the run is done.
    pub fn is_done(&self) -> (r: bool)
        ensures
            r == (self@.stage == GroundStage::Done),
    {
        self.stage == GroundStage::Done
    }

    /// The request that is due, none when the run is done.
    pub fn request(&self) -> (r: Option<Request>)
        ensures
            match r {
                Some(q) => self@.request() == Some(q@),
                None => self@.request() is None,
            },
    {
        match self.stage {
            GroundStage::Validate => Some(
                Request::Validate(ground_graph_spec(&self.prior, &self.report, self.scale)),
            ),
            GroundStage::Configure => Some(
                Request::Submit(
                    ModuleCommand::Configure {
                        spec: ground_graph_spec(&self.prior, &self.report, self.scale),
                    },
                ),
            ),
            GroundStage::Feed => {
                let packet = Packet { ids: Vec::new(), values: Vec::new() };
                assert(packet@ =~= wire::id_packet(Seq::empty()));
                Some(Request::Submit(ModuleCommand::Feed { node: 0, port: 0, packet }))
            },
            GroundStage::Step => Some(Request::Submit(ModuleCommand::Step { node: 0 })),
            GroundStage::Drain => Some(Request::Drain),
            GroundStage::Done => None,
        }
    }

    /// Take the reply to the request that was due.
    pub fn advance(&mut self, reply: Reply)
        requires
            old(self)@.request() is Some,
            wire::answers(old(self)@.request()->0, reply@),
        ensures
            final(self)@ == old(self)@.advance(reply@),
    {
        match reply {
            Reply::Refused(e) => {
                self.error = Some(e);
                self.stage = GroundStage::Done;
            },
            Reply::Accepted => {
                self.stage = match self.stage {
                    GroundStage::Validate => GroundStage::Configure,
                    GroundStage::Configure => GroundStage::Feed,
                    GroundStage::Feed => GroundStage::Step,
                    GroundStage::Step => GroundStage::Drain,
                    other => other,
                };
            },
            Reply::Drained(rs) => {
                match (take_last(&rs, 0), take_last(&rs, 1)) {
                    (Some(prior), Some(report)) => {
                        self.prior_ids = prior.0;
                        self.prior_values = prior.1;
                        self.report_ids = report.0;
                        self.report_values = report.1;
                    },
                    (None, _) => {
                        self.error = Some("no prior packet on ground port 0".to_owned());
                    },
                    (Some(_), None) => {
                        self.error = Some("no report packet on ground port 1".to_owned());
                    },
                }
                self.stage = GroundStage::Done;
            },
        }
    }

    /// The result of a run that is done.
    pub fn outcome(self) -> (r: Result<GroundWireResult, String>)
        requires
            self@.stage == GroundStage::Done,
        ensures
            match r {
                Ok(out) => self@.error is None && out.prior_ids@ == self@.prior_out.ids
                    && out.prior_values@ == self@.prior_out.values && out.report_ids@
                    == self@.report_out.ids && out.report_values@ == self@.report_out.values,
                Err(e) => self@.error == Some(e@),
            },
    {
        match self.error {
            Some(e) => Err(e),
            None => Ok(
                GroundWireResult {
                    prior_ids: self.prior_ids,
                    prior_values: self.prior_values,
                    report_ids: self.report_ids,
                    report_values: self.report_values,
                },
            ),
        }
    }
}

// ── Laws ───────────────────────────────────────────────────────────────────

/// How many requests a run at a stage may still make.
pub open spec fn remaining(stage: GroundStage) -> nat {
    match stage {
        GroundStage::Validate => 5,
        GroundStage::Configure => 4,
        GroundStage::Feed => 3,
        GroundStage::Step => 2,
        GroundStage::Drain => 1,
        GroundStage::Done => 0,
    }
}

/// Every reply brings a run nearer to its end, and leaves the declaration as
/// it was.
pub proof fn runs_progress(run: GroundModel, reply: ReplyModel)
    requires
        run.request() is Some,
        wire::answers(run.request()->0, reply),
    ensures
        remaining(run.advance(reply).stage) < remaining(run.stage),
        run.advance(reply).prior == run.prior,
        run.advance(reply).report == run.report,
        run.advance(reply).scale == run.scale,
{
}

/// A run whose requests are all accepted ends with the packets of the drain,
/// verbatim.
pub proof fn verdicts_pass_through(start: GroundModel, rs: Seq<ResponseModel>)
    requires
        start.stage == GroundStage::Validate,
        start.error is None,
        last_output(rs, 0) is Some,
        last_output(rs, 1) is Some,
    ensures
        ({
            let yes = ReplyModel::Accepted;
            let end = start.advance(yes).advance(yes).advance(yes).advance(yes).advance(
                ReplyModel::Drained(rs),
            );
            &&& end.stage == GroundStage::Done
            &&& end.error is None
            &&& end.prior_out == last_output(rs, 0)->0
            &&& end.report_out == last_output(rs, 1)->0
        }),
{
}

} // verus!
