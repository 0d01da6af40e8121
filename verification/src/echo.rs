//! The node of the echo problem: it answers every echo request with its
//! payload.

use vstd::prelude::*;
use crate::body::{EchoBody, EchoBodyView};
use crate::ids::{MessageId, MessageIdCounter};
use crate::message::{Message, MessageView};

verus! {

/// A node that echoes.
#[derive(Debug)]
pub struct EchoNode {
    counter: MessageIdCounter,
}

impl View for EchoNode {
    type V = nat;

    /// The number of responses sent so far, which is the id of the next one.
    closed spec fn view(&self) -> nat {
        self.counter@
    }
}

/// The response to the echo request `msg` under the id `msg_id`, `None` for
/// an envelope that is no request.
pub open spec fn echo_response(msg: MessageView<EchoBodyView>, msg_id: MessageId) -> Option<
    MessageView<EchoBodyView>,
> {
    match msg.body {
        EchoBodyView::Echo { msg_id: request_id, echo } => Some(
            MessageView {
                src: msg.dest,
                dest: msg.src,
                body: EchoBodyView::EchoOk { echo, msg_id, in_reply_to: request_id },
            },
        ),
        EchoBodyView::EchoOk { .. } => None,
    }
}

impl EchoNode {
    /// A node that has answered nothing yet.
    pub fn init() -> (node: EchoNode)
        ensures
            node@ == 0,
    {
        EchoNode { counter: MessageIdCounter::new() }
    }

    /// How many more ids the node can hand out.
    pub fn remaining_ids(&self) -> (left: usize)
        ensures
            left == usize::MAX - self@,
    {
        self.counter.remaining()
    }

    /// The id for the node's next message.
    pub fn next_id(&mut self) -> (id: MessageId)
        requires
            old(self)@ < usize::MAX,
        ensures
            id.0 == old(self)@,
            final(self)@ == old(self)@ + 1,
    {
        self.counter.next_id()
    }

    /// Answers an echo request with its payload, under a fresh id. An
    /// `EchoOk` is ignored and takes no id.
    pub fn handle_msg(&mut self, msg: Message<EchoBody>) -> (response: Option<Message<EchoBody>>)
        requires
            old(self)@ < usize::MAX,
        ensures
            response.deep_view() == echo_response(msg@, MessageId(old(self)@ as usize)),
            final(self)@ == old(self)@ + (if msg.body is Echo { 1nat } else { 0nat }),
    {
        let mut msg = msg;
        match &msg.body {
            EchoBody::EchoOk { .. } => None,
            EchoBody::Echo { msg_id: id, echo } => {
                let echo = echo.clone();
                let in_reply_to = *id;
                let msg_id = self.next_id();
                let response = EchoBody::EchoOk { echo, msg_id, in_reply_to };
                msg.into_response(
                    |body: &mut EchoBody|
                        ensures (*final(body) == response)
                        { *body = response; },
                );
                Some(msg)
            },
        }
    }
}

} // verus!
