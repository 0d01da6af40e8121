//! The bodies that a [`Message`](crate::message::Message) can carry, one enum
//! per protocol, each with its mathematical view.

use vstd::prelude::*;
use vstd::std_specs::hash::spec_hash_keys_iter;
use vstd::std_specs::iter::IteratorSpec;
use std::collections::HashSet;
use crate::ids::MessageId;
use crate::message::MessageBody;

verus! {

/* ------ Init ------ */

/// The message body type used to establish a node
#[allow(inconsistent_fields)]
#[derive(Debug, PartialEq, Eq)]
pub enum InitBody {
    /// The data from which a node is constructed.
    Init {
        /// The message id
        msg_id: Option<MessageId>,
        /// The node's id
        node_id: String,
        /// The ids of all nodes in the network
        node_ids: Vec<String>,
    },
    /// Communicates that the node was successfully established
    InitOk {
        /// The message id
        msg_id: MessageId,
        /// The id of the message that this is responding to
        in_reply_to: Option<MessageId>,
    },
}

/// The mathematical content of an [`InitBody`].
#[allow(inconsistent_fields)]
pub enum InitBodyView {
    Init { msg_id: Option<MessageId>, node_id: Seq<char>, node_ids: Seq<Seq<char>> },
    InitOk { msg_id: MessageId, in_reply_to: Option<MessageId> },
}

impl View for InitBody {
    type V = InitBodyView;

    open spec fn view(&self) -> InitBodyView {
        match self {
            InitBody::Init { msg_id, node_id, node_ids } => InitBodyView::Init {
                msg_id: *msg_id,
                node_id: node_id@,
                node_ids: node_ids.deep_view(),
            },
            InitBody::InitOk { msg_id, in_reply_to } => InitBodyView::InitOk {
                msg_id: *msg_id,
                in_reply_to: *in_reply_to,
            },
        }
    }
}

impl Clone for InitBody {
    fn clone(&self) -> (copy: Self)
        ensures
            copy@ == self@,
    {
        match self {
            InitBody::Init { msg_id, node_id, node_ids } => {
                let ids = node_ids.clone();
                assert(ids.deep_view() =~= node_ids.deep_view());
                InitBody::Init { msg_id: *msg_id, node_id: node_id.clone(), node_ids: ids }
            },
            InitBody::InitOk { msg_id, in_reply_to } => InitBody::InitOk {
                msg_id: *msg_id,
                in_reply_to: *in_reply_to,
            },
        }
    }
}

impl MessageBody for InitBody {
    open spec fn with_msg_id(body: InitBodyView, msg_id: MessageId) -> InitBodyView {
        match body {
            InitBodyView::Init { msg_id: _, node_id, node_ids } => InitBodyView::Init {
                msg_id: Some(msg_id),
                node_id,
                node_ids,
            },
            InitBodyView::InitOk { msg_id: _, in_reply_to } => InitBodyView::InitOk {
                msg_id,
                in_reply_to,
            },
        }
    }

    fn update_msg_id(&mut self, msg_id: MessageId) {
        match self {
            InitBody::Init { msg_id: id, .. } => {
                *id = Some(msg_id);
            },
            InitBody::InitOk { msg_id: id, .. } => {
                *id = msg_id;
            },
        }
    }

    proof fn lemma_clone_keeps_view(body: Self, copy: Self) {
    }
}

/* ------ Echo ------ */

/// The message body type used in the echo problem
#[derive(Debug, PartialEq, Eq)]
pub enum EchoBody {
    /// The data that communicates an echo action
    Echo {
        /// The message id
        msg_id: MessageId,
        /// The message that needs to be echoed back
        echo: String,
    },
    /// The data returned by the node as part of the echo response
    EchoOk {
        /// The message that is being echoed back
        echo: String,
        /// The message id
        msg_id: MessageId,
        /// The id of the message that this is responding to
        in_reply_to: MessageId,
    },
}

/// The mathematical content of an [`EchoBody`].
pub enum EchoBodyView {
    Echo { msg_id: MessageId, echo: Seq<char> },
    EchoOk { echo: Seq<char>, msg_id: MessageId, in_reply_to: MessageId },
}

impl View for EchoBody {
    type V = EchoBodyView;

    open spec fn view(&self) -> EchoBodyView {
        match self {
            EchoBody::Echo { msg_id, echo } => EchoBodyView::Echo { msg_id: *msg_id, echo: echo@ },
            EchoBody::EchoOk { echo, msg_id, in_reply_to } => EchoBodyView::EchoOk {
                echo: echo@,
                msg_id: *msg_id,
                in_reply_to: *in_reply_to,
            },
        }
    }
}

impl Clone for EchoBody {
    fn clone(&self) -> (copy: Self)
        ensures
            copy@ == self@,
    {
        match self {
            EchoBody::Echo { msg_id, echo } => EchoBody::Echo {
                msg_id: *msg_id,
                echo: echo.clone(),
            },
            EchoBody::EchoOk { echo, msg_id, in_reply_to } => EchoBody::EchoOk {
                echo: echo.clone(),
                msg_id: *msg_id,
                in_reply_to: *in_reply_to,
            },
        }
    }
}

impl MessageBody for EchoBody {
    open spec fn with_msg_id(body: EchoBodyView, msg_id: MessageId) -> EchoBodyView {
        match body {
            EchoBodyView::Echo { msg_id: _, echo } => EchoBodyView::Echo { msg_id, echo },
            EchoBodyView::EchoOk { echo, msg_id: _, in_reply_to } => EchoBodyView::EchoOk {
                echo,
                msg_id,
                in_reply_to,
            },
        }
    }

    fn update_msg_id(&mut self, msg_id: MessageId) {
        match self {
            EchoBody::Echo { msg_id: id, .. } => {
                *id = msg_id;
            },
            EchoBody::EchoOk { msg_id: id, .. } => {
                *id = msg_id;
            },
        }
    }

    proof fn lemma_clone_keeps_view(body: Self, copy: Self) {
    }
}

/* ------ Ids ------ */

/// The message body type used in the unique id generation problem
#[derive(Debug, PartialEq, Eq)]
pub enum IdBody {
    /// The data that communicates a unique id generation action
    Generate,
    /// The data returned by the node as part of the unique id generation response
    GenerateOk {
        /// The id that was generated
        id: String,
    },
}

/// The mathematical content of an [`IdBody`].
pub enum IdBodyView {
    Generate,
    GenerateOk { id: Seq<char> },
}

impl View for IdBody {
    type V = IdBodyView;

    open spec fn view(&self) -> IdBodyView {
        match self {
            IdBody::Generate => IdBodyView::Generate,
            IdBody::GenerateOk { id } => IdBodyView::GenerateOk { id: id@ },
        }
    }
}

impl Clone for IdBody {
    fn clone(&self) -> (copy: Self)
        ensures
            copy@ == self@,
    {
        match self {
            IdBody::Generate => IdBody::Generate,
            IdBody::GenerateOk { id } => IdBody::GenerateOk { id: id.clone() },
        }
    }
}

impl MessageBody for IdBody {
    /// Neither variant carries a message id.
    open spec fn with_msg_id(body: IdBodyView, msg_id: MessageId) -> IdBodyView {
        body
    }

    fn update_msg_id(&mut self, msg_id: MessageId) {
    }

    proof fn lemma_clone_keeps_view(body: Self, copy: Self) {
    }
}

/* ------ Broadcast ------ */

/// The message body type used in the broadcast problem
#[derive(Debug, PartialEq, Eq)]
pub enum BroadcastBody {
    /// Communicates that a value needs to be gossipped across the cluster
    Broadcast {
        /// The message id
        msg_id: MessageId,
        /// The value that needs to be broadcast throughout the cluster
        message: usize,
    },
    /// Communicates that the broadcast request is being processed
    BroadcastOk {
        /// The message id
        msg_id: MessageId,
        /// The id of the message that this is responding to
        in_reply_to: MessageId,
    },
    /// Communicates that the node needs to return its held values
    Read {
        /// The message id
        msg_id: MessageId,
    },
    /// Communicates all values that have been communicated with the node
    ReadOk {
        /// The message id
        msg_id: MessageId,
        /// The id of the message that this is responding to
        in_reply_to: MessageId,
        /// The broadcast values read from the node
        messages: HashSet<usize>,
    },
    /// Communicates the topology of the cluster
    Topology {
        /// The message id
        msg_id: MessageId,
        /// The topology of the cluster: each node with its neighbours
        topology: Vec<(String, Vec<String>)>,
    },
    /// Communicates that the topology of the cluster has been received by the node
    TopologyOk {
        /// The message id
        msg_id: MessageId,
        /// The id of the message that this is responding to
        in_reply_to: MessageId,
    },
}

/// The mathematical content of a [`BroadcastBody`].
pub enum BroadcastBodyView {
    Broadcast { msg_id: MessageId, message: usize },
    BroadcastOk { msg_id: MessageId, in_reply_to: MessageId },
    Read { msg_id: MessageId },
    ReadOk { msg_id: MessageId, in_reply_to: MessageId, messages: Set<usize> },
    Topology { msg_id: MessageId, topology: Seq<(Seq<char>, Seq<Seq<char>>)> },
    TopologyOk { msg_id: MessageId, in_reply_to: MessageId },
}

impl BroadcastBodyView {
    /// The message id that the body carries.
    pub open spec fn msg_id(self) -> MessageId {
        match self {
            BroadcastBodyView::Broadcast { msg_id, .. } => msg_id,
            BroadcastBodyView::BroadcastOk { msg_id, .. } => msg_id,
            BroadcastBodyView::Read { msg_id } => msg_id,
            BroadcastBodyView::ReadOk { msg_id, .. } => msg_id,
            BroadcastBodyView::Topology { msg_id, .. } => msg_id,
            BroadcastBodyView::TopologyOk { msg_id, .. } => msg_id,
        }
    }
}

impl BroadcastBodyView {
    /// The value that the body propagates, if it is a broadcast.
    pub open spec fn value(self) -> Option<usize> {
        match self {
            BroadcastBodyView::Broadcast { message, .. } => Some(message),
            _ => None,
        }
    }

    /// The id of the propagation that the body acknowledges, if it is an
    /// acknowledgment.
    pub open spec fn acknowledged(self) -> Option<MessageId> {
        match self {
            BroadcastBodyView::BroadcastOk { in_reply_to, .. } => Some(in_reply_to),
            _ => None,
        }
    }
}

impl View for BroadcastBody {
    type V = BroadcastBodyView;

    open spec fn view(&self) -> BroadcastBodyView {
        match self {
            BroadcastBody::Broadcast { msg_id, message } => BroadcastBodyView::Broadcast {
                msg_id: *msg_id,
                message: *message,
            },
            BroadcastBody::BroadcastOk { msg_id, in_reply_to } => BroadcastBodyView::BroadcastOk {
                msg_id: *msg_id,
                in_reply_to: *in_reply_to,
            },
            BroadcastBody::Read { msg_id } => BroadcastBodyView::Read { msg_id: *msg_id },
            BroadcastBody::ReadOk { msg_id, in_reply_to, messages } => BroadcastBodyView::ReadOk {
                msg_id: *msg_id,
                in_reply_to: *in_reply_to,
                messages: messages@,
            },
            BroadcastBody::Topology { msg_id, topology } => BroadcastBodyView::Topology {
                msg_id: *msg_id,
                topology: topology.deep_view(),
            },
            BroadcastBody::TopologyOk { msg_id, in_reply_to } => BroadcastBodyView::TopologyOk {
                msg_id: *msg_id,
                in_reply_to: *in_reply_to,
            },
        }
    }
}

impl BroadcastBody {
    /// The message id that the body carries.
    pub fn msg_id(&self) -> (id: MessageId)
        ensures
            id == self@.msg_id(),
    {
        match self {
            BroadcastBody::Broadcast { msg_id, .. } => *msg_id,
            BroadcastBody::BroadcastOk { msg_id, .. } => *msg_id,
            BroadcastBody::Read { msg_id } => *msg_id,
            BroadcastBody::ReadOk { msg_id, .. } => *msg_id,
            BroadcastBody::Topology { msg_id, .. } => *msg_id,
            BroadcastBody::TopologyOk { msg_id, .. } => *msg_id,
        }
    }
}

/// A set with the same values as `values`.
pub fn copy_values(values: &HashSet<usize>) -> (copy: HashSet<usize>)
    ensures
        copy@ == values@,
{
    let mut copy: HashSet<usize> = HashSet::new();
    let ghost all = spec_hash_keys_iter(values).remaining();
    for value in it: values.iter()
        invariant
            it.seq() == all,
            all.unref().to_set() == values@,
            forall|v: usize|
                copy@.contains(v) <==> exists|j: int| 0 <= j < it.index() && *all[j] == v,
    {
        copy.insert(*value);
    }
    proof {
        assert forall|v: usize| copy@.contains(v) <==> values@.contains(v) by {
            if copy@.contains(v) {
                let j = choose|j: int| 0 <= j < all.len() && *all[j] == v;
                assert(all.unref()[j] == v);
            }
            if values@.contains(v) {
                assert(all.unref().to_set().contains(v));
                let j = choose|j: int| 0 <= j < all.unref().len() && all.unref()[j] == v;
                assert(*all[j] == v);
            }
        }
        assert(copy@ =~= values@);
    }
    copy
}

/// A topology with the same nodes and neighbours as `topology`, in the same
/// order.
pub fn copy_topology(topology: &Vec<(String, Vec<String>)>) -> (copy: Vec<(String, Vec<String>)>)
    ensures
        copy.deep_view() == topology.deep_view(),
{
    let mut copy: Vec<(String, Vec<String>)> = Vec::new();
    for i in 0..topology.len()
        invariant
            copy.len() == i,
            forall|j: int| 0 <= j < i ==> copy[j].deep_view() == #[trigger] topology[j].deep_view(),
    {
        let entry = &topology[i];
        let neighbours = entry.1.clone();
        assert(neighbours.deep_view() =~= entry.1.deep_view());
        copy.push((entry.0.clone(), neighbours));
    }
    assert(copy.deep_view() =~= topology.deep_view());
    copy
}

impl Clone for BroadcastBody {
    fn clone(&self) -> (copy: Self)
        ensures
            copy@ == self@,
    {
        match self {
            BroadcastBody::Broadcast { msg_id, message } => BroadcastBody::Broadcast {
                msg_id: *msg_id,
                message: *message,
            },
            BroadcastBody::BroadcastOk { msg_id, in_reply_to } => BroadcastBody::BroadcastOk {
                msg_id: *msg_id,
                in_reply_to: *in_reply_to,
            },
            BroadcastBody::Read { msg_id } => BroadcastBody::Read { msg_id: *msg_id },
            BroadcastBody::ReadOk { msg_id, in_reply_to, messages } => BroadcastBody::ReadOk {
                msg_id: *msg_id,
                in_reply_to: *in_reply_to,
                messages: copy_values(messages),
            },
            BroadcastBody::Topology { msg_id, topology } => BroadcastBody::Topology {
                msg_id: *msg_id,
                topology: copy_topology(topology),
            },
            BroadcastBody::TopologyOk { msg_id, in_reply_to } => BroadcastBody::TopologyOk {
                msg_id: *msg_id,
                in_reply_to: *in_reply_to,
            },
        }
    }
}

impl MessageBody for BroadcastBody {
    open spec fn with_msg_id(body: BroadcastBodyView, msg_id: MessageId) -> BroadcastBodyView {
        match body {
            BroadcastBodyView::Broadcast { msg_id: _, message } => BroadcastBodyView::Broadcast {
                msg_id,
                message,
            },
            BroadcastBodyView::BroadcastOk { msg_id: _, in_reply_to } => {
                BroadcastBodyView::BroadcastOk { msg_id, in_reply_to }
            },
            BroadcastBodyView::Read { msg_id: _ } => BroadcastBodyView::Read { msg_id },
            BroadcastBodyView::ReadOk { msg_id: _, in_reply_to, messages } => {
                BroadcastBodyView::ReadOk { msg_id, in_reply_to, messages }
            },
            BroadcastBodyView::Topology { msg_id: _, topology } => BroadcastBodyView::Topology {
                msg_id,
                topology,
            },
            BroadcastBodyView::TopologyOk { msg_id: _, in_reply_to } => {
                BroadcastBodyView::TopologyOk { msg_id, in_reply_to }
            },
        }
    }

    fn update_msg_id(&mut self, msg_id: MessageId) {
        match self {
            BroadcastBody::Broadcast { msg_id: id, .. } => {
                *id = msg_id;
            },
            BroadcastBody::BroadcastOk { msg_id: id, .. } => {
                *id = msg_id;
            },
            BroadcastBody::Read { msg_id: id } => {
                *id = msg_id;
            },
            BroadcastBody::ReadOk { msg_id: id, .. } => {
                *id = msg_id;
            },
            BroadcastBody::Topology { msg_id: id, .. } => {
                *id = msg_id;
            },
            BroadcastBody::TopologyOk { msg_id: id, .. } => {
                *id = msg_id;
            },
        }
    }

    proof fn lemma_clone_keeps_view(body: Self, copy: Self) {
    }
}

} // verus!
