//! A cluster node for a fault-tolerant value-broadcast protocol: the message
//! types, the dissemination engine with its per-peer bookkeeping, and the
//! retry tracker that resends unacknowledged propagations.

pub mod adjacent;
pub mod body;
pub mod broadcast;
pub mod client;
pub mod cluster;
pub mod dissemination;
pub mod echo;
pub mod ids;
pub mod message;
pub mod node;
pub mod retry;
pub mod settle;
pub mod tracker;
pub mod unique_ids;

pub use adjacent::Adjecent;
pub use broadcast::{BroadcastNode, Handled};
pub use client::{handshake, Handshake, OrInit};
pub use body::{BroadcastBody, EchoBody, IdBody, InitBody};
pub use echo::EchoNode;
pub use ids::{MessageId, MessageIdCounter};
pub use message::{Message, MessageBody, MessageView};
pub use tracker::{Tracker, TrackerAction, TrackerStep};
pub use unique_ids::IdsNode;
