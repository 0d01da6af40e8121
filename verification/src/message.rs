//! The envelope that nodes and clients exchange, generic over its body.

use vstd::prelude::*;
use crate::ids::MessageId;

verus! {

/// What every message body offers: a mathematical view, and a way to replace
/// the message id that the body carries.
pub trait MessageBody: View + core::fmt::Debug + Clone + PartialEq + Eq {
    /// The view of a body after its message id has been replaced by `msg_id`.
    /// A body that carries no message id is left as it is.
    spec fn with_msg_id(body: Self::V, msg_id: MessageId) -> Self::V;

    /// Replaces the message id that the body carries.
    fn update_msg_id(&mut self, msg_id: MessageId)
        ensures
            final(self)@ == Self::with_msg_id(old(self)@, msg_id),
    ;

    /// A clone of a body has the same view as the body it was made from.
    proof fn lemma_clone_keeps_view(body: Self, copy: Self)
        requires
            cloned(body, copy),
        ensures
            copy@ == body@,
    ;
}

/// The message type that is sent and received by a node.
#[derive(Debug, PartialEq, Eq)]
pub struct Message<B: MessageBody> {
    /// The identifier of the message's source
    pub src: String,
    /// The identifier of the message's destination
    pub dest: String,
    /// The body of the message
    pub body: B,
}

/// The mathematical content of a [`Message`]: both identifiers as sequences
/// of characters, and the view of the body.
pub struct MessageView<V> {
    pub src: Seq<char>,
    pub dest: Seq<char>,
    pub body: V,
}

impl<B: MessageBody> View for Message<B> {
    type V = MessageView<B::V>;

    open spec fn view(&self) -> MessageView<B::V> {
        MessageView { src: self.src@, dest: self.dest@, body: self.body@ }
    }
}

impl<B: MessageBody> DeepView for Message<B> {
    type V = MessageView<B::V>;

    open spec fn deep_view(&self) -> MessageView<B::V> {
        self@
    }
}

impl<B: MessageBody> Clone for Message<B> {
    fn clone(&self) -> (copy: Self)
        ensures
            copy@ == self@,
    {
        let body = self.body.clone();
        proof {
            B::lemma_clone_keeps_view(self.body, body);
        }
        Message { src: self.src.clone(), dest: self.dest.clone(), body }
    }
}

impl<B: MessageBody> Message<B> {
    /// Turns a request message into a response message by mutating the data
    /// in place: the source and the destination change places, and `f` is
    /// applied to the body.
    pub fn into_response<F>(&mut self, f: F) where F: FnOnce(&mut B)
        requires
            forall|body: &mut B| *body == old(self).body ==> call_requires(f, (body,)),
        ensures
            final(self).src == old(self).dest,
            final(self).dest == old(self).src,
            exists|body: &mut B|
                *body == old(self).body && *final(body) == final(self).body && call_ensures(
                    f,
                    (body,),
                    (),
                ),
    {
        std::mem::swap(&mut self.src, &mut self.dest);
        f(&mut self.body)
    }

    /// Creates a copy of the message but uses a new message id in the body.
    pub fn clone_with_msg_id(&self, msg_id: MessageId) -> (copy: Self)
        ensures
            copy@ == (MessageView {
                src: self@.src,
                dest: self@.dest,
                body: B::with_msg_id(self@.body, msg_id),
            }),
    {
        let mut digest = self.clone();
        digest.body.update_msg_id(msg_id);
        digest
    }
}

} // verus!
