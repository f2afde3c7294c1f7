//! The wire vocabulary between the cortex and the module bridge: graphs,
//! packets, commands and responses, each with its model.

use crate::TokenId;
use vstd::prelude::*;

verus! {

/// A node of a module graph.
pub type NodeId = u32;

/// An input or output of a node.
pub type PortId = u32;

/// The kinds of module that the cortex declares.
#[derive(Clone, Copy, Debug, PartialEq, Eq, Structural)]
pub enum ModuleKind {
    /// Positions to token ids, through a LUT.
    Slice,
    /// Output-only vocabulary gate.
    Gate,
    /// Declared prior and report, passed through.
    Ground,
}

// ── Graphs ─────────────────────────────────────────────────────────────────

/// One node of a graph, with its configuration pairs.
#[derive(Debug)]
pub struct ModuleNodeSpec {
    pub node: NodeId,
    pub kind: ModuleKind,
    pub config: Vec<(String, String)>,
}

/// An edge from an output port to an input port.
#[derive(Clone, Copy, Debug, PartialEq, Eq)]
pub struct ModuleEdge {
    pub from: (NodeId, PortId),
    pub to: (NodeId, PortId),
}

/// A module graph, ready to be validated and configured.
#[derive(Debug)]
pub struct ModuleGraphSpec {
    pub nodes: Vec<ModuleNodeSpec>,
    pub edges: Vec<ModuleEdge>,
}

/// Model of a [`ModuleNodeSpec`].
#[verifier::ext_equal]
pub struct NodeModel {
    pub node: NodeId,
    pub kind: ModuleKind,
    pub config: Seq<(Seq<char>, Seq<char>)>,
}

/// Model of a [`ModuleGraphSpec`].
#[verifier::ext_equal]
pub struct GraphModel {
    pub nodes: Seq<NodeModel>,
    pub edges: Seq<ModuleEdge>,
}

impl View for ModuleNodeSpec {
    type V = NodeModel;

    open spec fn view(&self) -> NodeModel {
        NodeModel {
            node: self.node,
            kind: self.kind,
            config: self.config@.map_values(|p: (String, String)| (p.0@, p.1@)),
        }
    }
}

impl View for ModuleGraphSpec {
    type V = GraphModel;

    open spec fn view(&self) -> GraphModel {
        GraphModel {
            nodes: self.nodes@.map_values(|n: ModuleNodeSpec| n@),
            edges: self.edges@,
        }
    }
}

// ── Packets, commands, responses ───────────────────────────────────────────

/// One beat of data on a port.
#[derive(Debug, PartialEq, Eq)]
pub struct Packet {
    pub ids: Vec<TokenId>,
    pub values: Vec<i64>,
}

/// A command to the bridge.
#[derive(Debug)]
pub enum ModuleCommand {
    Configure { spec: ModuleGraphSpec },
    Feed { node: NodeId, port: PortId, packet: Packet },
    Step { node: NodeId },
}

/// A response of the bridge, as far as the cortex reads it.
#[derive(Debug)]
pub enum ModuleResponse {
    Output { node: NodeId, port: PortId, packet: Packet },
    Other,
}

/// Model of a [`Packet`].
#[verifier::ext_equal]
pub struct PacketModel {
    pub ids: Seq<TokenId>,
    pub values: Seq<i64>,
}

/// Model of a [`ModuleCommand`].
#[verifier::ext_equal]
pub enum CommandModel {
    Configure { spec: GraphModel },
    Feed { node: NodeId, port: PortId, packet: PacketModel },
    Step { node: NodeId },
}

/// Model of a [`ModuleResponse`].
#[verifier::ext_equal]
pub enum ResponseModel {
    Output { node: NodeId, port: PortId, packet: PacketModel },
    Other,
}

impl View for Packet {
    type V = PacketModel;

    open spec fn view(&self) -> PacketModel {
        PacketModel { ids: self.ids@, values: self.values@ }
    }
}

impl View for ModuleCommand {
    type V = CommandModel;

    open spec fn view(&self) -> CommandModel {
        match self {
            ModuleCommand::Configure { spec } => CommandModel::Configure { spec: spec@ },
            ModuleCommand::Feed { node, port, packet } => CommandModel::Feed {
                node: *node,
                port: *port,
                packet: packet@,
            },
            ModuleCommand::Step { node } => CommandModel::Step { node: *node },
        }
    }
}

impl View for ModuleResponse {
    type V = ResponseModel;

    open spec fn view(&self) -> ResponseModel {
        match self {
            ModuleResponse::Output { node, port, packet } => ResponseModel::Output {
                node: *node,
                port: *port,
                packet: packet@,
            },
            ModuleResponse::Other => ResponseModel::Other,
        }
    }
}

/// The models of a list of responses.
pub open spec fn responses(rs: Seq<ModuleResponse>) -> Seq<ResponseModel> {
    rs.map_values(|r: ModuleResponse| r@)
}

/// A packet of ids without values.
pub open spec fn id_packet(ids: Seq<TokenId>) -> PacketModel {
    PacketModel { ids, values: Seq::empty() }
}

// ── Driving the bridge ─────────────────────────────────────────────────────

/// What the bridge is asked next.
#[derive(Debug)]
pub enum Request {
    /// Check a graph.
    Validate(ModuleGraphSpec),
    /// Submit a command.
    Submit(ModuleCommand),
    /// Drain the pending responses.
    Drain,
}

/// What came of the request.
#[derive(Debug)]
pub enum Reply {
    /// The graph is valid, or the command was taken.
    Accepted,
    /// The request was refused, with the bridge's words.
    Refused(String),
    /// The drained responses.
    Drained(Vec<ModuleResponse>),
}

/// Model of a [`Request`].
#[verifier::ext_equal]
pub enum RequestModel {
    Validate(GraphModel),
    Submit(CommandModel),
    Drain,
}

/// Model of a [`Reply`].
#[verifier::ext_equal]
pub enum ReplyModel {
    Accepted,
    Refused(Seq<char>),
    Drained(Seq<ResponseModel>),
}

impl View for Request {
    type V = RequestModel;

    open spec fn view(&self) -> RequestModel {
        match self {
            Request::Validate(spec) => RequestModel::Validate(spec@),
            Request::Submit(command) => RequestModel::Submit(command@),
            Request::Drain => RequestModel::Drain,
        }
    }
}

impl View for Reply {
    type V = ReplyModel;

    open spec fn view(&self) -> ReplyModel {
        match self {
            Reply::Accepted => ReplyModel::Accepted,
            Reply::Refused(e) => ReplyModel::Refused(e@),
            Reply::Drained(rs) => ReplyModel::Drained(responses(rs@)),
        }
    }
}

/// `reply` is one that `request` can have: a drain answers with responses, and
/// anything else is accepted; each may be refused.
pub open spec fn answers(request: RequestModel, reply: ReplyModel) -> bool {
    match reply {
        ReplyModel::Accepted => !(request is Drain),
        ReplyModel::Refused(_) => true,
        ReplyModel::Drained(_) => request is Drain,
    }
}

} // verus!
