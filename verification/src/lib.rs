//! A sans-I/O core for nodes of a simulated distributed system.
//!
//! Nodes exchange envelopes ([`Message`]) with clients and with each other.
//! A handler ([`NodeType`]) is a deterministic state machine that is driven
//! by [`Events`] and answers each event with the envelopes it wants sent.
//! [`Node`] wraps a handler with the initial handshake. The featured handler
//! is [`BroadcastNode`], a gossip protocol with deduplicated flooding and
//! periodic anti-entropy.

pub mod anti_entropy;
pub mod broadcast;
pub mod broadcast_laws;
pub mod broadcast_node;
pub mod cluster;
pub mod decimal;
pub mod echo;
pub mod flooding;
pub mod message;
pub mod node;
pub mod seen_set;
pub mod topology;
pub mod unique_ids;

pub use broadcast::{
    BroadcastConfig, BroadcastModel, BroadcastPayload, BroadcastPayloadView, SyncFormat,
    TopologyStrategy,
};
pub use broadcast_node::BroadcastNode;
pub use cluster::Cluster;
pub use decimal::decimal_string;
pub use echo::{EchoNode, EchoPayload, EchoPayloadView};
pub use message::{Body, BodyView, Events, EventsView, Message, MessageView};
pub use node::{
    HandlerError, Init, InitPayload, InitPayloadView, InitView, Node, NodeError, NodeModel, NodeType,
    Phase,
};
pub use seen_set::SeenSet;
pub use topology::Topology;
pub use unique_ids::{GeneratePayload, GeneratePayloadView, UniqueIdsModel, UniqueIdsNode};
