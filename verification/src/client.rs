//! The two decisions that a node's read loop makes on what it has parsed: how
//! to answer the init request, and whether a later envelope is for the node.

use vstd::prelude::*;
use vstd::pervasive::unreached;
use crate::body::{InitBody, InitBodyView};
use crate::ids::MessageId;
use crate::message::{Message, MessageBody, MessageView};

verus! {

/// A node can receive `Init` and `InitOk` messages in addition to messages
/// with the body that it expects. This type abstracts over those
/// possibilities, so that a malformed message is not taken for either.
#[derive(Debug, PartialEq)]
pub enum OrInit<B: MessageBody> {
    /// The main type that the node is expecting
    Main(Message<B>),
    /// An `Init` or `InitOk` message
    Init(Message<InitBody>),
}

impl<B: MessageBody> OrInit<B> {
    /// Whether this is an init request. A node gets one at its start and
    /// must never see a second one.
    pub open spec fn is_init_request(self) -> bool {
        self matches OrInit::Init(msg) && msg.body is Init
    }

    /// Whether this is an init request.
    pub fn is_second_init(&self) -> (second: bool)
        ensures
            second == self.is_init_request(),
    {
        match self {
            OrInit::Init(msg) => match &msg.body {
                InitBody::Init { .. } => true,
                InitBody::InitOk { .. } => false,
            },
            OrInit::Main(_) => false,
        }
    }

    /// The message that the node is to handle, if there is one: a message of
    /// the expected type is handed on, an `InitOk` is passed over.
    pub fn into_main(self) -> (msg: Option<Message<B>>)
        requires
            !self.is_init_request(),
        ensures
            msg == (match self {
                OrInit::Main(main) => Some(main),
                OrInit::Init(_) => None,
            }),
    {
        match self {
            OrInit::Main(main) => Some(main),
            OrInit::Init(_) => None,
        }
    }
}

/// What the init request establishes: the node's id, the ids of all nodes,
/// and the response that is owed to the client.
#[derive(Debug)]
pub struct Handshake {
    /// The node's id
    pub node_id: String,
    /// The ids of all nodes in the network
    pub node_ids: Vec<String>,
    /// The `InitOk` response
    pub response: Message<InitBody>,
}

/// Takes the init request apart and answers it: the response goes back to
/// the sender under the id `msg_id` and refers to the request's id.
pub fn handshake(init: Message<InitBody>, msg_id: MessageId) -> (established: Handshake)
    requires
        init.body is Init,
    ensures
        init@.body matches InitBodyView::Init { msg_id: request_id, node_id, node_ids }
            && established.node_id@ == node_id && established.node_ids.deep_view() == node_ids
            && established.response@ == (MessageView {
            src: init@.dest,
            dest: init@.src,
            body: InitBodyView::InitOk { msg_id, in_reply_to: request_id },
        }),
{
    let Message { src, dest, body } = init;
    match body {
        InitBody::Init { msg_id: request_id, node_id, node_ids } => Handshake {
            node_id,
            node_ids,
            response: Message {
                src: dest,
                dest: src,
                body: InitBody::InitOk { msg_id, in_reply_to: request_id },
            },
        },
        InitBody::InitOk { .. } => unreached(),
    }
}

} // verus!
