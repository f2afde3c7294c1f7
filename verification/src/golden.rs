//! The cortex black box as a module pipeline.
//!
//! ```text
//! doc ids ──► Slice (materialize, tid-encoded LUT) ──► Gate (gate_TF) ──► restored
//! ```
//!
//! The LUT is never gated: novel ids of a document are registered into the
//! slice LUT before slicing, and only the output passes `gate_TF`.
//! Out-of-vocabulary ids are reported as leaks, never hidden.
//!
//! [`CortexRun`] decides what the bridge is asked and what its replies mean;
//! the caller carries the requests.

use crate::lattice;
use crate::order;
use crate::text;
use crate::wire;
use crate::wire::{
    CommandModel, GraphModel, ModuleCommand, ModuleEdge, ModuleGraphSpec, ModuleKind,
    ModuleNodeSpec, ModuleResponse, NodeId, NodeModel, Packet, PortId, Reply, ReplyModel, Request,
    RequestModel, ResponseModel,
};
use crate::TokenId;
use vstd::prelude::*;
use vstd::slice::slice_to_vec;
use vstd::string::*;

verus! {

/// Comma-separated id list (wire config encoding).
pub fn csv(ids: &[TokenId]) -> (r: String)
    ensures
        r@ == text::joined(text::numerals(ids@)),
{
    let mut r = String::new();
    text::push_ids(&mut r, ids);
    assert(Seq::<char>::empty() + text::joined(text::numerals(ids@)) =~= text::joined(
        text::numerals(ids@),
    ));
    r
}

// ── The declaration ────────────────────────────────────────────────────────

/// One declared node of a pipeline.
#[derive(Debug)]
pub struct PipelineNode {
    pub node: NodeId,
    pub kind: ModuleKind,
    pub label: String,
}

/// A declared pipeline: labelled nodes and the edges between them.
#[derive(Debug)]
pub struct Pipeline {
    nodes: Vec<PipelineNode>,
    edges: Vec<ModuleEdge>,
}

impl Pipeline {
    /// The declared nodes: id, kind and label.
    pub closed spec fn declared(&self) -> Seq<(NodeId, ModuleKind, Seq<char>)> {
        self.nodes@.map_values(|n: PipelineNode| (n.node, n.kind, n.label@))
    }

    /// The declared edges.
    pub closed spec fn connected(&self) -> Seq<ModuleEdge> {
        self.edges@
    }

    /// The declared nodes.
    pub fn nodes(&self) -> (r: &[PipelineNode])
        ensures
            r@.map_values(|n: PipelineNode| (n.node, n.kind, n.label@)) == self.declared(),
    {
        self.nodes.as_slice()
    }

    /// The declared edges.
    pub fn edges(&self) -> (r: &[ModuleEdge])
        ensures
            r@ == self.connected(),
    {
        self.edges.as_slice()
    }
}

/// The one edge of the cortex pipeline: slice output to gate input.
pub open spec fn cortex_edge() -> ModuleEdge {
    ModuleEdge { from: (0, 0), to: (1, 0) }
}

/// The cortex pipeline declaration.
///
/// - node 0 `Slice`: `materialize`, positions to token ids (tid-encoded LUT);
/// - node 1 `Gate`: `gate_TF`, output-only vocabulary gate.
pub fn cortex_pipeline() -> (r: Pipeline)
    ensures
        r.declared() == seq![
            (0u32, ModuleKind::Slice, "materialize"@),
            (1u32, ModuleKind::Gate, "gate_TF"@),
        ],
        r.connected() == seq![cortex_edge()],
{
    let mut nodes: Vec<PipelineNode> = Vec::new();
    nodes.push(PipelineNode { node: 0, kind: ModuleKind::Slice, label: "materialize".to_owned() });
    nodes.push(PipelineNode { node: 1, kind: ModuleKind::Gate, label: "gate_TF".to_owned() });
    let mut edges: Vec<ModuleEdge> = Vec::new();
    edges.push(ModuleEdge { from: (0, 0), to: (1, 0) });
    let r = Pipeline { nodes, edges };
    assert(r.declared() =~= seq![
        (0u32, ModuleKind::Slice, "materialize"@),
        (1u32, ModuleKind::Gate, "gate_TF"@),
    ]);
    assert(r.connected() =~= seq![cortex_edge()]);
    r
}

/// The wire graph of the pipeline over a slice LUT and a gate vocabulary.
pub open spec fn cortex_graph(lut: Seq<TokenId>, vocab: Seq<TokenId>) -> GraphModel {
    GraphModel {
        nodes: seq![
            NodeModel {
                node: 0,
                kind: ModuleKind::Slice,
                config: seq![
                    ("encoding"@, "tid"@),
                    ("lut_ids"@, text::joined(text::numerals(lut))),
                ],
            },
            NodeModel {
                node: 1,
                kind: ModuleKind::Gate,
                config: seq![("lut_ids"@, text::joined(text::numerals(vocab)))],
            },
        ],
        edges: seq![cortex_edge()],
    }
}

/// The wire graph of the pipeline over a slice LUT and a gate vocabulary.
pub fn cortex_graph_spec(lut: &[TokenId], vocab: &[TokenId]) -> (r: ModuleGraphSpec)
    ensures
        r@ == cortex_graph(lut@, vocab@),
{
    let mut slice: Vec<(String, String)> = Vec::new();
    slice.push(("encoding".to_owned(), "tid".to_owned()));
    slice.push(("lut_ids".to_owned(), csv(lut)));
    let mut gate: Vec<(String, String)> = Vec::new();
    gate.push(("lut_ids".to_owned(), csv(vocab)));
    let a = ModuleNodeSpec { node: 0, kind: ModuleKind::Slice, config: slice };
    let b = ModuleNodeSpec { node: 1, kind: ModuleKind::Gate, config: gate };
    assert(a@ =~= cortex_graph(lut@, vocab@).nodes[0]);
    assert(b@ =~= cortex_graph(lut@, vocab@).nodes[1]);
    let mut nodes: Vec<ModuleNodeSpec> = Vec::new();
    nodes.push(a);
    nodes.push(b);
    let mut edges: Vec<ModuleEdge> = Vec::new();
    edges.push(ModuleEdge { from: (0, 0), to: (1, 0) });
    let r = ModuleGraphSpec { nodes, edges };
    assert(r@.nodes =~= cortex_graph(lut@, vocab@).nodes);
    assert(r@.edges =~= cortex_graph(lut@, vocab@).edges);
    r
}

// ── Results ────────────────────────────────────────────────────────────────

/// Result of one pipeline pass.
#[derive(Debug, PartialEq, Eq)]
pub struct FpgaPipelineResult {
    /// Ids materialized from the full (ungated) sketch.
    pub materialized_ids: Vec<TokenId>,
    /// Materialized ids that survive `gate_TF`.
    pub restored_ids: Vec<TokenId>,
    /// Materialized ids outside the decoder vocabulary.
    pub leaks: Vec<TokenId>,
}

impl Clone for FpgaPipelineResult {
    fn clone(&self) -> (r: Self)
        ensures
            r.materialized_ids@ == self.materialized_ids@,
            r.restored_ids@ == self.restored_ids@,
            r.leaks@ == self.leaks@,
    {
        FpgaPipelineResult {
            materialized_ids: slice_to_vec(self.materialized_ids.as_slice()),
            restored_ids: slice_to_vec(self.restored_ids.as_slice()),
            leaks: slice_to_vec(self.leaks.as_slice()),
        }
    }
}

/// The materialized ids that were not restored, in order.
pub open spec fn leaked(materialized: Seq<TokenId>, restored: Seq<TokenId>) -> Seq<TokenId> {
    materialized.filter(|id: TokenId| !restored.contains(id))
}

impl FpgaPipelineResult {
    /// Whether nothing leaked.
    pub fn ok(&self) -> (r: bool)
        ensures
            r == (self.leaks@.len() == 0),
    {
        self.leaks.len() == 0
    }
}

fn holds(ids: &Vec<TokenId>, id: TokenId) -> (r: bool)
    ensures
        r == ids@.contains(id),
{
    for i in 0..ids.len()
        invariant
            forall|k: int| 0 <= k < i ==> #[trigger] ids@[k] != id,
    {
        if ids[i] == id {
            assert(ids@[i as int] == id);
            return true;
        }
    }
    false
}

/// The result of a pass, from the two outputs.
pub fn conclude(materialized_ids: Vec<TokenId>, restored_ids: Vec<TokenId>) -> (r:
    FpgaPipelineResult)
    ensures
        r.materialized_ids@ == materialized_ids@,
        r.restored_ids@ == restored_ids@,
        r.leaks@ == leaked(materialized_ids@, restored_ids@),
{
    let mut leaks: Vec<TokenId> = Vec::new();
    let ghost out = |id: TokenId| !restored_ids@.contains(id);
    assert(materialized_ids@.take(0).filter(out) =~= Seq::empty());
    for i in 0..materialized_ids.len()
        invariant
            out == (|id: TokenId| !restored_ids@.contains(id)),
            leaks@ == materialized_ids@.take(i as int).filter(out),
    {
        let id = materialized_ids[i];
        proof {
            let t = materialized_ids@.take(i as int);
            assert(materialized_ids@.take(i + 1) =~= t.push(id));
            t.lemma_filter_push(id, out);
        }
        if !holds(&restored_ids, id) {
            leaks.push(id);
        }
    }
    assert(materialized_ids@.take(materialized_ids@.len() as int) =~= materialized_ids@);
    FpgaPipelineResult { materialized_ids, restored_ids, leaks }
}

// ── Outputs ────────────────────────────────────────────────────────────────

/// The ids of the first output on `(node, port)`.
pub open spec fn first_output(rs: Seq<ResponseModel>, node: NodeId, port: PortId) -> Option<
    Seq<TokenId>,
>
    decreases rs.len(),
{
    if rs.len() == 0 {
        None
    } else {
        match rs[0] {
            ResponseModel::Output { node: n, port: p, packet } if n == node && p == port => Some(
                packet.ids,
            ),
            _ => first_output(rs.drop_first(), node, port),
        }
    }
}

/// The words for a missing output.
pub open spec fn no_output(node: NodeId, port: PortId) -> Seq<char> {
    "no output on node "@ + text::decimal(node as nat) + " port "@ + text::decimal(port as nat)
}

/// Take the first output on `(node, port)` from drained responses.
pub fn take_output(responses: Vec<ModuleResponse>, node: NodeId, port: PortId) -> (r: Result<
    Vec<TokenId>,
    String,
>)
    ensures
        match r {
            Ok(ids) => first_output(wire::responses(responses@), node, port) == Some(ids@),
            Err(e) => first_output(wire::responses(responses@), node, port) is None && e@
                == no_output(node, port),
        },
{
    let ghost all = wire::responses(responses@);
    assert(all.skip(0) =~= all);
    for i in 0..responses.len()
        invariant
            all == wire::responses(responses@),
            first_output(all.skip(i as int), node, port) == first_output(all, node, port),
    {
        assert(all.skip(i as int)[0] == responses@[i as int]@);
        assert(all.skip(i as int).drop_first() =~= all.skip(i + 1));
        if let ModuleResponse::Output { node: n, port: p, packet } = &responses[i] {
            if *n == node && *p == port {
                return Ok(slice_to_vec(packet.ids.as_slice()));
            }
        }
    }
    assert(all.skip(all.len() as int) =~= Seq::empty());
    let mut e = "no output on node ".to_owned();
    text::push_decimal(&mut e, node as u64);
    e.append(" port ");
    text::push_decimal(&mut e, port as u64);
    Err(e)
}

// ── The run ────────────────────────────────────────────────────────────────

/// How far a run has come: the request that is due.
#[derive(Clone, Copy, Debug, PartialEq, Eq, Structural)]
pub enum Stage {
    Validate,
    Configure,
    FeedSlice,
    StepSlice,
    DrainSlice,
    FeedGate,
    StepGate,
    DrainGate,
    Done,
}

/// One pass of the cortex pipeline over the bridge.
#[derive(Debug)]
pub struct CortexRun {
    stage: Stage,
    lut: Vec<TokenId>,
    vocab: Vec<TokenId>,
    positions: Vec<u32>,
    materialized: Vec<TokenId>,
    restored: Vec<TokenId>,
    error: Option<String>,
}

/// Model of a [`CortexRun`].
#[verifier::ext_equal]
pub struct RunModel {
    pub stage: Stage,
    /// Ids of the slice LUT.
    pub lut: Seq<TokenId>,
    /// Ids of the vocabulary.
    pub vocab: Seq<TokenId>,
    /// Active bit addresses of the document.
    pub positions: Seq<u32>,
    /// Output of the slice, once drained.
    pub materialized: Seq<TokenId>,
    /// Output of `gate_TF`, once drained.
    pub restored: Seq<TokenId>,
    /// Why the run failed.
    pub error: Option<Seq<char>>,
}

impl RunModel {
    /// The request that is due, none when the run is done.
    pub open spec fn request(self) -> Option<RequestModel> {
        let graph = cortex_graph(self.lut, self.vocab);
        match self.stage {
            Stage::Validate => Some(RequestModel::Validate(graph)),
            Stage::Configure => Some(
                RequestModel::Submit(CommandModel::Configure { spec: graph }),
            ),
            Stage::FeedSlice => Some(
                RequestModel::Submit(
                    CommandModel::Feed {
                        node: 0,
                        port: 0,
                        packet: wire::id_packet(self.positions),
                    },
                ),
            ),
            Stage::StepSlice => Some(RequestModel::Submit(CommandModel::Step { node: 0 })),
            Stage::DrainSlice => Some(RequestModel::Drain),
            Stage::FeedGate => Some(
                RequestModel::Submit(
                    CommandModel::Feed {
                        node: 1,
                        port: 0,
                        packet: wire::id_packet(self.materialized),
                    },
                ),
            ),
            Stage::StepGate => Some(RequestModel::Submit(CommandModel::Step { node: 1 })),
            Stage::DrainGate => Some(RequestModel::Drain),
            Stage::Done => None,
        }
    }

    /// The run at another stage.
    pub open spec fn at(self, stage: Stage) -> RunModel {
        RunModel { stage, ..self }
    }

    /// The run, failed.
    pub open spec fn failed(self, error: Seq<char>) -> RunModel {
        RunModel { stage: Stage::Done, error: Some(error), ..self }
    }

    /// The run after a reply to the request that was due.
    pub open spec fn advance(self, reply: ReplyModel) -> RunModel {
        match reply {
            ReplyModel::Refused(e) => self.failed(e),
            ReplyModel::Accepted => match self.stage {
                Stage::Validate => self.at(Stage::Configure),
                Stage::Configure => self.at(Stage::FeedSlice),
                Stage::FeedSlice => self.at(Stage::StepSlice),
                Stage::StepSlice => self.at(Stage::DrainSlice),
                Stage::FeedGate => self.at(Stage::StepGate),
                Stage::StepGate => self.at(Stage::DrainGate),
                _ => self,
            },
            ReplyModel::Drained(rs) => match self.stage {
                Stage::DrainSlice => match first_output(rs, 0, 0) {
                    Some(ids) => RunModel { stage: Stage::FeedGate, materialized: ids, ..self },
                    None => self.failed(no_output(0, 0)),
                },
                Stage::DrainGate => match first_output(rs, 1, 0) {
                    Some(ids) => RunModel { stage: Stage::Done, restored: ids, ..self },
                    None => self.failed(no_output(1, 0)),
                },
                _ => self,
            },
        }
    }
}

impl View for CortexRun {
    type V = RunModel;

    closed spec fn view(&self) -> RunModel {
        RunModel {
            stage: self.stage,
            lut: self.lut@,
            vocab: self.vocab@,
            positions: self.positions@,
            materialized: self.materialized@,
            restored: self.restored@,
            error: match self.error {
                Some(e) => Some(e@),
                None => None,
            },
        }
    }
}

impl CortexRun {
    /// Begin a pass.
    ///
    /// - `doc_ids`: one document of encoding ids (the `tid{n}` stream);
    /// - `positions`: the position that each document id hashes to;
    /// - `lut_ids`: the measured LUT ids (registered before this pass);
    /// - `vocab_ids`: the decoder vocabulary.
    ///
    /// The slice LUT holds the measured and the document ids; the document
    /// sketch holds the addresses of the document ids. Both are sorted and
    /// free of duplicates.
    pub fn start(
        doc_ids: &[TokenId],
        positions: &[(u32, u32)],
        lut_ids: &[TokenId],
        vocab_ids: &[TokenId],
    ) -> (r: Self)
        requires
            positions@.len() == doc_ids@.len(),
            forall|k: int| 0 <= k < positions@.len() ==> lattice::in_grid(#[trigger] positions@[k]),
        ensures
            r@.stage == Stage::Validate,
            order::ascending(r@.lut),
            r@.lut.to_set() == lut_ids@.to_set().union(doc_ids@.to_set()),
            r@.vocab == vocab_ids@,
            order::ascending(r@.positions),
            r@.positions.to_set() == positions@.map_values(
                |p: (u32, u32)| lattice::address(p),
            ).to_set(),
            r@.materialized == Seq::<TokenId>::empty(),
            r@.restored == Seq::<TokenId>::empty(),
            r@.error is None,
    {
        let mut all: Vec<TokenId> = slice_to_vec(lut_ids);
        for i in 0..doc_ids.len()
            invariant
                all@ == lut_ids@ + doc_ids@.take(i as int),
        {
            all.push(doc_ids[i]);
            assert(all@ =~= lut_ids@ + doc_ids@.take(i + 1));
        }
        let lut = order::sorted_ids(all.as_slice());
        proof {
            assert(doc_ids@.take(doc_ids@.len() as int) =~= doc_ids@);
            lemma_concatenated_set(lut_ids@, doc_ids@);
        }
        let sketch = lattice::HLLSet::from_positions(positions);
        proof {
            sketch.lemma_bits();
        }
        CortexRun {
            stage: Stage::Validate,
            lut,
            vocab: slice_to_vec(vocab_ids),
            positions: slice_to_vec(sketch.positions()),
            materialized: Vec::new(),
            restored: Vec::new(),
            error: None,
        }
    }

    /// Whether the run is done.
    pub fn is_done(&self) -> (r: bool)
        ensures
            r == (self@.stage == Stage::Done),
    {
        self.stage == Stage::Done
    }

    /// The request that is due, none when the run is done.
    pub fn request(&self) -> (r: Option<Request>)
        ensures
            match r {
                Some(q) => self@.request() == Some(q@),
                None => self@.request() is None,
            },
    {
        match self.stage {
            Stage::Validate => Some(
                Request::Validate(cortex_graph_spec(self.lut.as_slice(), self.vocab.as_slice())),
            ),
            Stage::Configure => Some(
                Request::Submit(
                    ModuleCommand::Configure {
                        spec: cortex_graph_spec(self.lut.as_slice(), self.vocab.as_slice()),
                    },
                ),
            ),
            Stage::FeedSlice => Some(feed(0, self.positions.as_slice())),
            Stage::StepSlice => Some(Request::Submit(ModuleCommand::Step { node: 0 })),
            Stage::DrainSlice => Some(Request::Drain),
            Stage::FeedGate => Some(feed(1, self.materialized.as_slice())),
            Stage::StepGate => Some(Request::Submit(ModuleCommand::Step { node: 1 })),
            Stage::DrainGate => Some(Request::Drain),
            Stage::Done => None,
        }
    }

    /// Take the reply to the request that was due.
    pub fn advance(&mut self, reply: Reply)
        requires
            old(self)@.request() is Some,
            wire::answers(old(self)@.request()->0, reply@),
        ensures
            final(self)@ == old(self)@.advance(reply@),
    {
        match reply {
            Reply::Refused(e) => {
                self.error = Some(e);
                self.stage = Stage::Done;
            },
            Reply::Accepted => {
                self.stage = match self.stage {
                    Stage::Validate => Stage::Configure,
                    Stage::Configure => Stage::FeedSlice,
                    Stage::FeedSlice => Stage::StepSlice,
                    Stage::StepSlice => Stage::DrainSlice,
                    Stage::FeedGate => Stage::StepGate,
                    Stage::StepGate => Stage::DrainGate,
                    other => other,
                };
            },
            Reply::Drained(rs) => {
                if self.stage == Stage::DrainSlice {
                    match take_output(rs, 0, 0) {
                        Ok(ids) => {
                            self.materialized = ids;
                            self.stage = Stage::FeedGate;
                        },
                        Err(e) => {
                            self.error = Some(e);
                            self.stage = Stage::Done;
                        },
                    }
                } else {
                    match take_output(rs, 1, 0) {
                        Ok(ids) => {
                            self.restored = ids;
                            self.stage = Stage::Done;
                        },
                        Err(e) => {
                            self.error = Some(e);
                            self.stage = Stage::Done;
                        },
                    }
                }
            },
        }
    }

    /// The result of a run that is done.
    pub fn outcome(self) -> (r: Result<FpgaPipelineResult, String>)
        requires
            self@.stage == Stage::Done,
        ensures
            match r {
                Ok(pass) => self@.error is None && pass.materialized_ids@ == self@.materialized
                    && pass.restored_ids@ == self@.restored && pass.leaks@ == leaked(
                    self@.materialized,
                    self@.restored,
                ),
                Err(e) => self@.error == Some(e@),
            },
    {
        match self.error {
            Some(e) => Err(e),
            None => Ok(conclude(self.materialized, self.restored)),
        }
    }
}

/// Feed ids into port 0 of a node.
fn feed(node: NodeId, ids: &[TokenId]) -> (r: Request)
    ensures
        r@ == RequestModel::Submit(
            CommandModel::Feed { node, port: 0, packet: wire::id_packet(ids@) },
        ),
{
    let packet = Packet { ids: slice_to_vec(ids), values: Vec::new() };
    assert(packet@ =~= wire::id_packet(ids@));
    Request::Submit(ModuleCommand::Feed { node, port: 0, packet })
}

proof fn lemma_concatenated_set(a: Seq<TokenId>, b: Seq<TokenId>)
    ensures
        (a + b).to_set() == a.to_set().union(b.to_set()),
{
    let c = a + b;
    assert forall|x: TokenId| #[trigger]
        c.to_set().contains(x) == a.to_set().union(b.to_set()).contains(x) by {
        if a.contains(x) {
            assert(c[a.index_of(x)] == x);
        }
        if b.contains(x) {
            assert(c[a.len() + b.index_of(x)] == x);
        }
        if c.contains(x) {
            let k = c.index_of(x);
            if k < a.len() {
                assert(a[k] == x);
            } else {
                assert(b[k - a.len()] == x);
            }
        }
    }
    assert(c.to_set() =~= a.to_set().union(b.to_set()));
}

// ── Laws ───────────────────────────────────────────────────────────────────

/// The wire graph has the nodes and edges that the pipeline declares.
pub proof fn graph_follows_the_declaration(
    p: Pipeline,
    lut: Seq<TokenId>,
    vocab: Seq<TokenId>,
    k: int,
)
    requires
        p.declared() == seq![
            (0u32, ModuleKind::Slice, "materialize"@),
            (1u32, ModuleKind::Gate, "gate_TF"@),
        ],
        p.connected() == seq![cortex_edge()],
        0 <= k < p.declared().len(),
    ensures
        cortex_graph(lut, vocab).nodes.len() == p.declared().len(),
        cortex_graph(lut, vocab).nodes[k].node == p.declared()[k].0,
        cortex_graph(lut, vocab).nodes[k].kind == p.declared()[k].1,
        cortex_graph(lut, vocab).edges == p.connected(),
{
}

/// Nothing materialized is hidden: each id is either restored or reported as a
/// leak, never both; and nothing else leaks.
pub proof fn every_materialized_id_is_restored_or_leaked(
    materialized: Seq<TokenId>,
    restored: Seq<TokenId>,
    id: TokenId,
)
    ensures
        leaked(materialized, restored).contains(id) <==> materialized.contains(id)
            && !restored.contains(id),
{
    let out = |x: TokenId| !restored.contains(x);
    let leaks = leaked(materialized, restored);
    if leaks.contains(id) {
        materialized.lemma_filter_contains_rev(out, id);
        let k = leaks.index_of(id);
        materialized.lemma_filter_pred(out, k);
    }
    if materialized.contains(id) && !restored.contains(id) {
        materialized.lemma_filter_contains(out, materialized.index_of(id));
    }
}

/// A pass is clean exactly when every materialized id is restored.
pub proof fn clean_passes_restore_everything(
    materialized: Seq<TokenId>,
    restored: Seq<TokenId>,
)
    ensures
        leaked(materialized, restored).len() == 0 <==> (forall|id: TokenId| #[trigger]
            materialized.contains(id) ==> restored.contains(id)),
{
    let leaks = leaked(materialized, restored);
    if leaks.len() == 0 {
        assert forall|id: TokenId| #[trigger] materialized.contains(id) implies restored.contains(
            id,
        ) by {
            every_materialized_id_is_restored_or_leaked(materialized, restored, id);
        }
    }
    if forall|id: TokenId| #[trigger] materialized.contains(id) ==> restored.contains(id) {
        if leaks.len() > 0 {
            every_materialized_id_is_restored_or_leaked(materialized, restored, leaks[0]);
            assert(leaks.contains(leaks[0]));
        }
    }
}

/// A run whose requests are all accepted asks for eight things in order and
/// ends with what the two drains brought.
pub proof fn accepted_runs_conclude(
    start: RunModel,
    slice: Seq<ResponseModel>,
    gate: Seq<ResponseModel>,
)
    requires
        start.stage == Stage::Validate,
        start.error is None,
    ensures
        ({
            let yes = ReplyModel::Accepted;
            let drained = start.advance(yes).advance(yes).advance(yes).advance(yes);
            let sliced = drained.advance(ReplyModel::Drained(slice));
            let gated = sliced.advance(yes).advance(yes);
            let end = gated.advance(ReplyModel::Drained(gate));
            &&& drained.request() == Some(RequestModel::Drain)
            &&& first_output(slice, 0, 0) is None ==> sliced.stage == Stage::Done && sliced.error
                == Some(no_output(0, 0))
            &&& first_output(slice, 0, 0) is Some ==> {
                &&& sliced.materialized == first_output(slice, 0, 0)->0
                &&& gated.request() == Some(RequestModel::Drain)
                &&& end.stage == Stage::Done
                &&& end.materialized == sliced.materialized
                &&& first_output(gate, 1, 0) is Some ==> end.error is None && end.restored
                    == first_output(gate, 1, 0)->0
                &&& first_output(gate, 1, 0) is None ==> end.error == Some(no_output(1, 0))
            }
        }),
{
}

/// How many requests a run at a stage may still make.
pub open spec fn remaining(stage: Stage) -> nat {
    match stage {
        Stage::Validate => 8,
        Stage::Configure => 7,
        Stage::FeedSlice => 6,
        Stage::StepSlice => 5,
        Stage::DrainSlice => 4,
        Stage::FeedGate => 3,
        Stage::StepGate => 2,
        Stage::DrainGate => 1,
        Stage::Done => 0,
    }
}

/// Every reply brings a run nearer to its end, and leaves the LUT, the
/// vocabulary and the document as they were.
pub proof fn runs_progress(run: RunModel, reply: ReplyModel)
    requires
        run.request() is Some,
        wire::answers(run.request()->0, reply),
    ensures
        remaining(run.advance(reply).stage) < remaining(run.stage),
        run.advance(reply).lut == run.lut,
        run.advance(reply).vocab == run.vocab,
        run.advance(reply).positions == run.positions,
{
}

/// A refused request ends the run at once with the bridge's words.
pub proof fn refusals_end_the_run(run: RunModel, words: Seq<char>)
    ensures
        run.advance(ReplyModel::Refused(words)).stage == Stage::Done,
        run.advance(ReplyModel::Refused(words)).error == Some(words),
{
}

} // verus!
