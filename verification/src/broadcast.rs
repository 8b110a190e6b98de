//! The gossip protocol: deduplicated flooding over an assigned topology,
//! with periodic anti-entropy.
//!
//! This module holds the protocol's payloads and its mathematical model:
//! what a node is, and what each event does to it.

use crate::message::{BodyView, EventsView, MessageView};
use crate::node::{HandlerError, InitPayloadView};
use crate::topology::{assigned, Topology};
use vstd::prelude::*;

verus! {

/// The payloads of the broadcast protocol.
#[derive(Debug, Clone, PartialEq, Eq)]
pub enum BroadcastPayload {
    /// A client hands a value to the cluster.
    Broadcast { message: u64 },
    BroadcastOk,
    /// A client asks for the values a node has seen.
    Read,
    ReadOk { messages: Vec<u64> },
    /// The coordinator assigns neighbours.
    Topology { topology: Topology },
    TopologyOk,
    /// A node passes one value on to a neighbour.
    Sync { message: u64 },
    /// A node passes several values on to a neighbour at once.
    SyncMany { messages: Vec<u64> },
}

/// Mathematical model of a [`BroadcastPayload`].
pub enum BroadcastPayloadView {
    Broadcast { message: u64 },
    BroadcastOk,
    Read,
    ReadOk { messages: Seq<u64> },
    Topology { topology: Seq<(Seq<char>, Seq<Seq<char>>)> },
    TopologyOk,
    Sync { message: u64 },
    SyncMany { messages: Seq<u64> },
}

impl DeepView for BroadcastPayload {
    type V = BroadcastPayloadView;

    open spec fn deep_view(&self) -> BroadcastPayloadView {
        match self {
            BroadcastPayload::Broadcast { message } => BroadcastPayloadView::Broadcast {
                message: *message,
            },
            BroadcastPayload::BroadcastOk => BroadcastPayloadView::BroadcastOk,
            BroadcastPayload::Read => BroadcastPayloadView::Read,
            BroadcastPayload::ReadOk { messages } => BroadcastPayloadView::ReadOk {
                messages: messages@,
            },
            BroadcastPayload::Topology { topology } => BroadcastPayloadView::Topology {
                topology: topology.deep_view(),
            },
            BroadcastPayload::TopologyOk => BroadcastPayloadView::TopologyOk,
            BroadcastPayload::Sync { message } => BroadcastPayloadView::Sync { message: *message },
            BroadcastPayload::SyncMany { messages } => BroadcastPayloadView::SyncMany {
                messages: messages@,
            },
        }
    }
}

/// Where a node takes its neighbours from.
#[derive(Clone, Copy, Debug, PartialEq, Eq, Structural)]
pub enum TopologyStrategy {
    /// From the `topology` messages of the coordinator.
    Assigned,
    /// From the handshake: every other member of the cluster is a neighbour,
    /// and `topology` messages are acknowledged without effect.
    FullMesh,
}

/// How a node passes values on.
#[derive(Clone, Copy, Debug, PartialEq, Eq, Structural)]
pub enum SyncFormat {
    /// One `sync` envelope per value and neighbour.
    PerValue,
    /// One `sync` envelope per neighbour, carrying all the values.
    Digest,
}

/// The choices made once per deployment.
#[derive(Clone, Copy, Debug, PartialEq, Eq, Structural)]
pub struct BroadcastConfig {
    pub topology: TopologyStrategy,
    pub sync: SyncFormat,
}

/// Mathematical model of a broadcast node.
pub struct BroadcastModel {
    pub config: BroadcastConfig,
    /// The node's identity.
    pub id: Seq<char>,
    /// The nodes it passes values on to, in the order they were assigned.
    pub neighbours: Seq<Seq<char>>,
    /// The values it has seen, in the order of their first observation.
    pub seen: Seq<u64>,
}

pub type Envelope = MessageView<BroadcastPayloadView>;

/// The members of `ids` other than `me`, in order.
pub open spec fn others(ids: Seq<Seq<char>>, me: Seq<char>) -> Seq<Seq<char>>
    decreases ids.len(),
{
    if ids.len() == 0 {
        Seq::empty()
    } else if ids.last() == me {
        others(ids.drop_last(), me)
    } else {
        others(ids.drop_last(), me).push(ids.last())
    }
}

/// The values among `values` that a node which has seen `seen` observes for
/// the first time, in order and each once.
pub open spec fn novel(seen: Seq<u64>, values: Seq<u64>) -> Seq<u64>
    decreases values.len(),
{
    if values.len() == 0 {
        Seq::empty()
    } else {
        let earlier = novel(seen, values.drop_last());
        if seen.contains(values.last()) || earlier.contains(values.last()) {
            earlier
        } else {
            earlier.push(values.last())
        }
    }
}

/// The values an envelope hands to the node it is for.
pub open spec fn carried(payload: BroadcastPayloadView) -> Seq<u64> {
    match payload {
        BroadcastPayloadView::Broadcast { message } => seq![message],
        BroadcastPayloadView::Sync { message } => seq![message],
        BroadcastPayloadView::SyncMany { messages } => messages,
        _ => Seq::empty(),
    }
}

/// The envelope by which `from` passes the single value `message` on to `to`.
pub open spec fn sync_one(from: Seq<char>, to: Seq<char>, message: u64) -> Envelope {
    MessageView {
        src: from,
        dest: to,
        body: BodyView {
            msg_id: Some(0),
            in_reply_to: None,
            payload: BroadcastPayloadView::Sync { message },
        },
    }
}

/// The envelope by which `from` passes all of `messages` on to `to`.
pub open spec fn sync_many(from: Seq<char>, to: Seq<char>, messages: Seq<u64>) -> Envelope {
    MessageView {
        src: from,
        dest: to,
        body: BodyView {
            msg_id: None,
            in_reply_to: None,
            payload: BroadcastPayloadView::SyncMany { messages },
        },
    }
}

/// One `sync` from `from` with `message` for each of `to`, in order.
pub open spec fn gossip(from: Seq<char>, to: Seq<Seq<char>>, message: u64) -> Seq<Envelope> {
    Seq::new(to.len(), |i: int| sync_one(from, to[i], message))
}

/// One `sync` from `from` with all of `messages` for each of `to`, in order.
pub open spec fn digests(from: Seq<char>, to: Seq<Seq<char>>, messages: Seq<u64>) -> Seq<
    Envelope,
> {
    Seq::new(to.len(), |i: int| sync_many(from, to[i], messages))
}

/// The gossip of each of `messages` in turn.
pub open spec fn gossip_each(from: Seq<char>, to: Seq<Seq<char>>, messages: Seq<u64>) -> Seq<
    Envelope,
>
    decreases messages.len(),
{
    if messages.len() == 0 {
        Seq::empty()
    } else {
        gossip_each(from, to, messages.drop_last()) + gossip(from, to, messages.last())
    }
}

/// The envelopes by which `from` passes `messages` on to each of `to`, in
/// the given format. Nothing is sent for no values.
pub open spec fn announce(
    format: SyncFormat,
    from: Seq<char>,
    to: Seq<Seq<char>>,
    messages: Seq<u64>,
) -> Seq<Envelope> {
    match format {
        SyncFormat::PerValue => gossip_each(from, to, messages),
        SyncFormat::Digest => if messages.len() == 0 {
            Seq::empty()
        } else {
            digests(from, to, messages)
        },
    }
}

impl BroadcastModel {
    /// No value is recorded twice.
    pub open spec fn wf(self) -> bool {
        self.seen.no_duplicates()
    }

    /// A node that has not been told anything yet.
    pub open spec fn fresh(config: BroadcastConfig) -> BroadcastModel {
        BroadcastModel { config, id: Seq::empty(), neighbours: Seq::empty(), seen: Seq::empty() }
    }

    /// What passes `messages` on to every neighbour, in the node's format.
    pub open spec fn announce(self, messages: Seq<u64>) -> Seq<Envelope> {
        announce(self.config.sync, self.id, self.neighbours, messages)
    }

    /// The node after the handshake: it knows its identity, and under
    /// [`TopologyStrategy::FullMesh`] its neighbours are the other members.
    pub open spec fn init(self, init: InitPayloadView) -> BroadcastModel {
        BroadcastModel {
            id: init.node_id,
            neighbours: match self.config.topology {
                TopologyStrategy::Assigned => self.neighbours,
                TopologyStrategy::FullMesh => others(init.node_ids, init.node_id),
            },
            ..self
        }
    }

    /// The node after it has taken in `values`.
    pub open spec fn absorb(self, values: Seq<u64>) -> BroadcastModel {
        BroadcastModel { seen: self.seen + novel(self.seen, values), ..self }
    }

    /// The node after `topology` arrived: under
    /// [`TopologyStrategy::Assigned`] the neighbours assigned to it are added
    /// behind those it has.
    pub open spec fn assign(self, topology: Seq<(Seq<char>, Seq<Seq<char>>)>) -> BroadcastModel {
        match (self.config.topology, assigned(topology, self.id)) {
            (TopologyStrategy::Assigned, Some(more)) => BroadcastModel {
                neighbours: self.neighbours + more,
                ..self
            },
            _ => self,
        }
    }

    /// Whether the node answers `request` with a reply.
    pub open spec fn answers(request: Envelope) -> bool {
        request.body.payload is Broadcast || request.body.payload is Read
            || request.body.payload is Topology
    }

    /// The node after `request` arrived, and what it sends.
    ///
    /// - `broadcast`: a value seen for the first time is recorded and passed
    ///   on to every neighbour; the sender gets `broadcast_ok` in any case.
    /// - `read`: the sender gets `read_ok` with every value seen.
    /// - `topology`: see [`BroadcastModel::assign`]; the sender gets
    ///   `topology_ok`.
    /// - `sync`: the values seen for the first time are recorded and passed
    ///   on to every neighbour. There is no reply.
    /// - Replies that arrive are ignored.
    ///
    /// A request that calls for a reply which cannot be numbered is refused
    /// and changes nothing.
    pub open spec fn receive(self, request: Envelope) -> (
        BroadcastModel,
        Result<Seq<Envelope>, HandlerError>,
    ) {
        if Self::answers(request) && !request.answerable() {
            (self, Err(HandlerError::MessageIdExhausted))
        } else {
            match request.body.payload {
                BroadcastPayloadView::Broadcast { message } => (
                    self.absorb(seq![message]),
                    Ok(
                        self.announce(novel(self.seen, seq![message])).push(
                            request.reply(BroadcastPayloadView::BroadcastOk),
                        ),
                    ),
                ),
                BroadcastPayloadView::Read => (
                    self,
                    Ok(seq![request.reply(BroadcastPayloadView::ReadOk { messages: self.seen })]),
                ),
                BroadcastPayloadView::Topology { topology } => (
                    self.assign(topology),
                    Ok(seq![request.reply(BroadcastPayloadView::TopologyOk)]),
                ),
                BroadcastPayloadView::Sync { .. } | BroadcastPayloadView::SyncMany { .. } => (
                    self.absorb(carried(request.body.payload)),
                    Ok(self.announce(novel(self.seen, carried(request.body.payload)))),
                ),
                _ => (self, Ok(Seq::empty())),
            }
        }
    }

    /// The envelopes `input` makes the node send; none where it refuses.
    pub open spec fn emits(self, input: EventsView<BroadcastPayloadView>) -> Seq<Envelope> {
        match self.step(input).1 {
            Ok(sent) => sent,
            Err(_) => Seq::empty(),
        }
    }

    /// The node after `input`, and what it sends. A heartbeat passes every
    /// value seen on to every neighbour once more; the end of the input
    /// changes nothing.
    pub open spec fn step(self, input: EventsView<BroadcastPayloadView>) -> (
        BroadcastModel,
        Result<Seq<Envelope>, HandlerError>,
    ) {
        match input {
            EventsView::Message(request) => self.receive(request),
            EventsView::Heartbeat => (self, Ok(self.announce(self.seen))),
            EventsView::EOF => (self, Ok(Seq::empty())),
        }
    }
}

} // verus!
