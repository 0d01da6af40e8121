//! What a node records about one adjacent peer: the values the peer is known
//! to have, and the propagations to it that are still unacknowledged.

use vstd::prelude::*;
use std::collections::HashMap;
use std::collections::HashSet;
use crate::body::BroadcastBody;
use crate::ids::{MessageId, MessageIdCounter};

verus! {

/// The record about one peer as a mathematical value.
pub struct AdjecentView {
    /// The values that the peer has acknowledged.
    pub known: Set<usize>,
    /// The unacknowledged propagations to the peer: message id to value.
    pub pending: Map<usize, usize>,
}

impl AdjecentView {
    /// The record about a peer of which nothing is known yet.
    pub open spec fn empty() -> AdjecentView {
        AdjecentView { known: Set::empty(), pending: Map::empty() }
    }

    /// Whether a propagation of `value` to the peer is unacknowledged.
    pub open spec fn in_flight(self, value: usize) -> bool {
        exists|id: usize| self.pending.contains_key(id) && #[trigger] self.pending[id] == value
    }

    /// Whether `value` still has to be sent to the peer: the peer is not
    /// known to have it, and no propagation of it is in flight.
    pub open spec fn needs(self, value: usize) -> bool {
        !self.known.contains(value) && !self.in_flight(value)
    }

    /// Whether the peer has the value or is about to get it.
    pub open spec fn covers(self, value: usize) -> bool {
        self.known.contains(value) || self.in_flight(value)
    }

    /// No value is in flight twice, and no value that the peer is known to
    /// have is in flight.
    pub open spec fn wf(self) -> bool {
        &&& forall|a: usize, b: usize|
            self.pending.contains_key(a) && self.pending.contains_key(b) && #[trigger] self.pending[a]
                == #[trigger] self.pending[b] ==> a == b
        &&& forall|id: usize|
            self.pending.contains_key(id) ==> !self.known.contains(#[trigger] self.pending[id])
    }

    /// The record after `value` was offered for propagation under the id
    /// `msg_id`: it is put in flight if the peer needs it.
    pub open spec fn add_message(self, msg_id: MessageId, value: usize) -> AdjecentView {
        if self.needs(value) {
            AdjecentView { pending: self.pending.insert(msg_id.0, value), ..self }
        } else {
            self
        }
    }

    /// The record after the propagation `msg_id` was acknowledged: its value
    /// moves from the pending propagations to the known values. An id that is
    /// not pending changes nothing.
    pub open spec fn update_pending(self, msg_id: MessageId) -> AdjecentView {
        if self.pending.contains_key(msg_id.0) {
            AdjecentView {
                known: self.known.insert(self.pending[msg_id.0]),
                pending: self.pending.remove(msg_id.0),
            }
        } else {
            self
        }
    }

    /// The record after the propagation `previous` was sent again under the
    /// id `current`: its value is now pending under `current`. An id that is
    /// not pending changes nothing.
    pub open spec fn replace_pending(self, previous: MessageId, current: MessageId) -> AdjecentView {
        if self.pending.contains_key(previous.0) {
            AdjecentView {
                pending: self.pending.remove(previous.0).insert(
                    current.0,
                    self.pending[previous.0],
                ),
                ..self
            }
        } else {
            self
        }
    }

    /// Offering a value keeps the record well formed.
    pub proof fn lemma_add_message_wf(self, msg_id: MessageId, value: usize)
        requires
            self.wf(),
        ensures
            self.add_message(msg_id, value).wf(),
    {
        let after = self.add_message(msg_id, value);
        if self.needs(value) {
            assert forall|a: usize, b: usize|
                after.pending.contains_key(a) && after.pending.contains_key(b)
                    && #[trigger] after.pending[a] == #[trigger] after.pending[b] implies a == b by {
                if a != msg_id.0 {
                    assert(self.pending[a] == after.pending[a]);
                }
                if b != msg_id.0 {
                    assert(self.pending[b] == after.pending[b]);
                }
            }
            assert forall|id: usize| after.pending.contains_key(id) implies !after.known.contains(
                #[trigger] after.pending[id],
            ) by {
                if id != msg_id.0 {
                    assert(self.pending[id] == after.pending[id]);
                }
            }
        }
    }

    /// After a value was offered, the peer has it or is about to get it. What
    /// the peer is known to have is as before, and a record that did not
    /// need the value is unchanged.
    pub proof fn lemma_add_message_covers(self, msg_id: MessageId, value: usize)
        ensures
            self.add_message(msg_id, value).covers(value),
            self.add_message(msg_id, value).known == self.known,
            !self.needs(value) ==> self.add_message(msg_id, value) == self,
    {
        let after = self.add_message(msg_id, value);
        if self.needs(value) {
            assert(after.pending.contains_key(msg_id.0) && after.pending[msg_id.0] == value);
        }
    }

    /// An acknowledgment keeps the record well formed.
    pub proof fn lemma_update_pending_wf(self, msg_id: MessageId)
        requires
            self.wf(),
        ensures
            self.update_pending(msg_id).wf(),
    {
        let after = self.update_pending(msg_id);
        if self.pending.contains_key(msg_id.0) {
            let value = self.pending[msg_id.0];
            assert forall|a: usize, b: usize|
                after.pending.contains_key(a) && after.pending.contains_key(b)
                    && #[trigger] after.pending[a] == #[trigger] after.pending[b] implies a == b by {
                assert(self.pending[a] == after.pending[a]);
                assert(self.pending[b] == after.pending[b]);
            }
            assert forall|id: usize| after.pending.contains_key(id) implies !after.known.contains(
                #[trigger] after.pending[id],
            ) by {
                assert(self.pending[id] == after.pending[id]);
                assert(self.pending[id] != value);
            }
        }
    }

    /// A resend keeps the record well formed.
    pub proof fn lemma_replace_pending_wf(self, previous: MessageId, current: MessageId)
        requires
            self.wf(),
        ensures
            self.replace_pending(previous, current).wf(),
    {
        let after = self.replace_pending(previous, current);
        if self.pending.contains_key(previous.0) {
            let value = self.pending[previous.0];
            assert forall|id: usize|
                after.pending.contains_key(id) && id != current.0 implies self.pending.contains_key(
                    id,
                ) && id != previous.0 && self.pending[id] == #[trigger] after.pending[id]
                    && self.pending[id] != value by {
            }
            assert forall|a: usize, b: usize|
                after.pending.contains_key(a) && after.pending.contains_key(b)
                    && #[trigger] after.pending[a] == #[trigger] after.pending[b] implies a == b by {
            }
            assert forall|id: usize| after.pending.contains_key(id) implies !after.known.contains(
                #[trigger] after.pending[id],
            ) by {
            }
        }
    }
}

/// The record about one adjacent peer.
#[derive(Debug, Default, PartialEq)]
pub struct Adjecent {
    // The set of values that we know that this node contains
    known: HashSet<usize>,
    // The outbound propagations that wait for their acknowledgment, by message id. A value
    // moves to the known values when the matching acknowledgment is received.
    pending: HashMap<usize, usize>,
    // The message id under which each pending value is in flight.
    in_flight: HashMap<usize, usize>,
}

impl View for Adjecent {
    type V = AdjecentView;

    closed spec fn view(&self) -> AdjecentView {
        AdjecentView { known: self.known@, pending: self.pending@ }
    }
}

impl Adjecent {
    /// The index by value agrees with the pending propagations.
    pub closed spec fn indexed(&self) -> bool {
        &&& forall|id: usize|
            self.pending@.contains_key(id) ==> self.in_flight@.contains_key(
                #[trigger] self.pending@[id],
            ) && self.in_flight@[self.pending@[id]] == id
        &&& forall|value: usize|
            self.in_flight@.contains_key(value) ==> self.pending@.contains_key(
                #[trigger] self.in_flight@[value],
            ) && self.pending@[self.in_flight@[value]] == value
    }

    /// The invariant of the record: that of its model, and the agreement of
    /// its index.
    pub open spec fn wf(&self) -> bool {
        self@.wf() && self.indexed()
    }

    /// The record about a peer of which nothing is known yet.
    pub fn new() -> (adjecent: Adjecent)
        ensures
            adjecent.wf(),
            adjecent@ == AdjecentView::empty(),
    {
        Adjecent { known: HashSet::new(), pending: HashMap::new(), in_flight: HashMap::new() }
    }

    /// Whether the peer is known to have `value`.
    pub fn knows(&self, value: usize) -> (known: bool)
        ensures
            known == self@.known.contains(value),
    {
        self.known.contains(&value)
    }

    /// The value of the pending propagation `msg_id`, if there is one.
    pub fn pending_value(&self, msg_id: MessageId) -> (value: Option<usize>)
        ensures
            value == (if self@.pending.contains_key(msg_id.0) {
                Some(self@.pending[msg_id.0])
            } else {
                None
            }),
    {
        match self.pending.get(&msg_id.0) {
            Some(value) => Some(*value),
            None => None,
        }
    }

    /// The number of propagations that wait for their acknowledgment.
    pub fn pending_len(&self) -> (n: usize)
        ensures
            n == self@.pending.len(),
    {
        self.pending.len()
    }

    /// Attempts to put `message` in flight to the peer. Succeeds only if the
    /// peer is not known to have the value and no propagation of it is
    /// pending. On success the propagation is recorded under a fresh id from
    /// `counter`, and the body to send is returned. Otherwise nothing
    /// changes, and `None` is returned.
    pub fn add_message(&mut self, counter: &mut MessageIdCounter, message: usize) -> (body: Option<
        BroadcastBody,
    >)
        requires
            old(self).wf(),
            old(counter)@ < usize::MAX,
        ensures
            final(self).wf(),
            final(self)@ == old(self)@.add_message(MessageId(old(counter)@ as usize), message),
            old(self)@.needs(message) ==> body == Some(
                BroadcastBody::Broadcast { msg_id: MessageId(old(counter)@ as usize), message },
            ) && final(counter)@ == old(counter)@ + 1,
            !old(self)@.needs(message) ==> body is None && final(counter)@ == old(counter)@,
    {
        if self.known.contains(&message) || self.in_flight.contains_key(&message) {
            proof {
                if self.in_flight@.contains_key(message) {
                    assert(self.pending@[self.in_flight@[message]] == message);
                }
            }
            None
        } else {
            let msg_id = counter.next_id();
            match self.pending.insert(msg_id.0, message) {
                Some(lost) => {
                    self.in_flight.remove(&lost);
                },
                None => {},
            }
            self.in_flight.insert(message, msg_id.0);
            proof {
                old(self)@.lemma_add_message_wf(msg_id, message);
            }
            Some(BroadcastBody::Broadcast { msg_id, message })
        }
    }

    /// Records the acknowledgment of the propagation `msg_id`: its value
    /// becomes known to the peer. An id that is not pending is ignored.
    pub fn update_pending(&mut self, msg_id: MessageId)
        requires
            old(self).wf(),
        ensures
            final(self).wf(),
            final(self)@ == old(self)@.update_pending(msg_id),
    {
        match self.pending.remove(&msg_id.0) {
            Some(val) => {
                self.in_flight.remove(&val);
                self.known.insert(val);
                proof {
                    old(self)@.lemma_update_pending_wf(msg_id);
                }
            },
            None => {
                assert(self.pending@ =~= old(self).pending@);
            },
        }
    }

    /// Records that the propagation `previous` was sent again under the id
    /// `current`: an acknowledgment of `current` now counts for its value. An
    /// id that is not pending is ignored.
    pub fn replace_pending(&mut self, previous: MessageId, current: MessageId)
        requires
            old(self).wf(),
        ensures
            final(self).wf(),
            final(self)@ == old(self)@.replace_pending(previous, current),
    {
        match self.pending.remove(&previous.0) {
            Some(val) => {
                self.in_flight.remove(&val);
                match self.pending.insert(current.0, val) {
                    Some(lost) => {
                        self.in_flight.remove(&lost);
                    },
                    None => {},
                }
                self.in_flight.insert(val, current.0);
                proof {
                    old(self)@.lemma_replace_pending_wf(previous, current);
                }
            },
            None => {
                assert(self.pending@ =~= old(self).pending@);
            },
        }
    }
}

} // verus!
