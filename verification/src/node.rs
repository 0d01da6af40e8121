//! The mathematical model of a broadcast node: what it knows, what it
//! records about each adjacent peer, and how each request changes that.

use vstd::prelude::*;
use crate::adjacent::AdjecentView;
use crate::body::BroadcastBodyView;
use crate::ids::MessageId;
use crate::message::MessageView;

verus! {

/// An adjacent peer: its id, and what the node records about it.
pub struct PeerView {
    pub id: Seq<char>,
    pub state: AdjecentView,
}

/// A topology as it arrives: each node with the list of its neighbours.
pub type TopologyView = Seq<(Seq<char>, Seq<Seq<char>>)>;

/// An envelope with a broadcast body.
pub type EnvelopeView = MessageView<BroadcastBodyView>;

/// Whether `topology` has an entry for the node `id`.
pub open spec fn lists(topology: TopologyView, id: Seq<char>) -> bool {
    exists|i: int| 0 <= i < topology.len() && (#[trigger] topology[i]).0 == id
}

/// Whether the entry at `i` is the first one for the node `id`.
pub open spec fn is_entry_of(topology: TopologyView, id: Seq<char>, i: int) -> bool {
    &&& 0 <= i < topology.len()
    &&& topology[i].0 == id
    &&& forall|j: int| 0 <= j < i ==> (#[trigger] topology[j]).0 != id
}

/// The neighbours that the first entry for the node `id` gives.
pub open spec fn neighbours_of(topology: TopologyView, id: Seq<char>) -> Seq<Seq<char>> {
    topology[choose|i: int| is_entry_of(topology, id, i)].1
}

/// The names of `names` in the order of their first occurrence, each once.
pub open spec fn distinct(names: Seq<Seq<char>>) -> Seq<Seq<char>>
    decreases names.len(),
{
    if names.len() == 0 {
        Seq::empty()
    } else {
        let before = distinct(names.drop_last());
        if before.contains(names.last()) {
            before
        } else {
            before.push(names.last())
        }
    }
}

/// No name occurs twice in `distinct(names)`, and it holds the names of
/// `names` and no others.
pub proof fn lemma_distinct(names: Seq<Seq<char>>)
    ensures
        distinct(names).no_duplicates(),
        forall|name: Seq<char>| distinct(names).contains(name) <==> names.contains(name),
        distinct(names).len() <= names.len(),
    decreases names.len(),
{
    if names.len() > 0 {
        let front = names.drop_last();
        lemma_distinct(front);
        let before = distinct(front);
        let after = distinct(names);
        assert forall|name: Seq<char>| after.contains(name) <==> names.contains(name) by {
            if names.contains(name) {
                let i = choose|i: int| 0 <= i < names.len() && names[i] == name;
                if i < names.len() - 1 {
                    assert(front[i] == name);
                    assert(front.contains(name));
                }
                if before.contains(name) {
                    let k = choose|k: int| 0 <= k < before.len() && before[k] == name;
                    assert(after[k] == name);
                } else {
                    assert(after[before.len() as int] == name);
                }
            }
            if after.contains(name) {
                let k = choose|k: int| 0 <= k < after.len() && after[k] == name;
                if k < before.len() {
                    assert(before[k] == name);
                    assert(before.contains(name));
                    assert(front.contains(name));
                    let i = choose|i: int| 0 <= i < front.len() && front[i] == name;
                    assert(names[i] == name);
                } else {
                    assert(names[names.len() - 1] == name);
                }
            }
        }
    }
}

/// A table of peers with these ids, nothing known about any of them.
pub open spec fn fresh_peers(ids: Seq<Seq<char>>) -> Seq<PeerView> {
    Seq::new(ids.len(), |i: int| PeerView { id: ids[i], state: AdjecentView::empty() })
}

/// The propagation envelope that carries `value` from `src` to `dest` under
/// the id `msg_id`.
pub open spec fn propagation(
    src: Seq<char>,
    dest: Seq<char>,
    msg_id: MessageId,
    value: usize,
) -> EnvelopeView {
    MessageView { src, dest, body: BroadcastBodyView::Broadcast { msg_id, message: value } }
}

/// The outcome of offering a value to a table of peers.
pub struct Propagation {
    /// The table afterwards.
    pub peers: Seq<PeerView>,
    /// The envelopes to send, in the order of the table.
    pub outbound: Seq<EnvelopeView>,
    /// The id that the allocator hands out next.
    pub next_id: int,
}

/// Offers `value` to each peer of the table in turn. A peer that needs it
/// gets a propagation under the next free id, starting at `next_id`; a peer
/// that does not is passed over.
pub open spec fn propagate(
    src: Seq<char>,
    peers: Seq<PeerView>,
    value: usize,
    next_id: int,
) -> Propagation
    decreases peers.len(),
{
    if peers.len() == 0 {
        Propagation { peers: Seq::empty(), outbound: Seq::empty(), next_id }
    } else {
        let before = propagate(src, peers.drop_last(), value, next_id);
        let peer = peers.last();
        if peer.state.needs(value) {
            let msg_id = MessageId(before.next_id as usize);
            Propagation {
                peers: before.peers.push(
                    PeerView { state: peer.state.add_message(msg_id, value), ..peer },
                ),
                outbound: before.outbound.push(propagation(src, peer.id, msg_id, value)),
                next_id: before.next_id + 1,
            }
        } else {
            Propagation { peers: before.peers.push(peer), ..before }
        }
    }
}

/// Offering a value changes no peer's id and keeps every well-formed record
/// well formed. It takes at most one id for each peer, and sends one
/// envelope for each id it takes.
pub proof fn lemma_propagate(src: Seq<char>, peers: Seq<PeerView>, value: usize, next_id: int)
    ensures
        propagate(src, peers, value, next_id).peers.len() == peers.len(),
        forall|i: int|
            0 <= i < peers.len() ==> (#[trigger] propagate(src, peers, value, next_id).peers[i]).id
                == peers[i].id,
        forall|i: int|
            0 <= i < peers.len() && peers[i].state.wf() ==> (#[trigger] propagate(
                src,
                peers,
                value,
                next_id,
            ).peers[i]).state.wf(),
        next_id <= propagate(src, peers, value, next_id).next_id <= next_id + peers.len(),
        propagate(src, peers, value, next_id).outbound.len() == propagate(
            src,
            peers,
            value,
            next_id,
        ).next_id - next_id,
    decreases peers.len(),
{
    if peers.len() > 0 {
        let front = peers.drop_last();
        lemma_propagate(src, front, value, next_id);
        let before = propagate(src, front, value, next_id);
        let after = propagate(src, peers, value, next_id);
        let peer = peers.last();
        if peer.state.wf() {
            peer.state.lemma_add_message_wf(MessageId(before.next_id as usize), value);
        }
        assert forall|i: int| 0 <= i < peers.len() implies (#[trigger] after.peers[i]).id
            == peers[i].id by {
            if i < front.len() {
                assert(after.peers[i] == before.peers[i]);
                assert(front[i] == peers[i]);
            }
        }
        assert forall|i: int| 0 <= i < peers.len() && peers[i].state.wf() implies (
        #[trigger] after.peers[i]).state.wf() by {
            if i < front.len() {
                assert(after.peers[i] == before.peers[i]);
                assert(front[i] == peers[i]);
            }
        }
    }
}

/// Whether one of the envelopes is addressed to `dest`.
pub open spec fn addressed(outbound: Seq<EnvelopeView>, dest: Seq<char>) -> bool {
    exists|k: int| 0 <= k < outbound.len() && (#[trigger] outbound[k]).dest == dest
}

/// Whether one of the peers that need `value` has the id `id`.
pub open spec fn needed_by(peers: Seq<PeerView>, value: usize, id: Seq<char>) -> bool {
    exists|i: int|
        0 <= i < peers.len() && (#[trigger] peers[i]).id == id && peers[i].state.needs(value)
}

/// What goes out when a value is offered: one envelope for each peer that
/// needs the value and none for any other, each from `src` with the value,
/// under consecutive ids that start at `next_id`.
pub proof fn lemma_propagate_outbound(
    src: Seq<char>,
    peers: Seq<PeerView>,
    value: usize,
    next_id: int,
)
    ensures
        forall|k: int|
            0 <= k < propagate(src, peers, value, next_id).outbound.len() ==> {
                let m = #[trigger] propagate(src, peers, value, next_id).outbound[k];
                &&& m.src == src
                &&& m.body == (BroadcastBodyView::Broadcast {
                    msg_id: MessageId((next_id + k) as usize),
                    message: value,
                })
                &&& needed_by(peers, value, m.dest)
            },
        forall|i: int|
            0 <= i < peers.len() && (#[trigger] peers[i]).state.needs(value) ==> addressed(
                propagate(src, peers, value, next_id).outbound,
                peers[i].id,
            ),
    decreases peers.len(),
{
    if peers.len() > 0 {
        let front = peers.drop_last();
        lemma_propagate_outbound(src, front, value, next_id);
        lemma_propagate(src, front, value, next_id);
        let before = propagate(src, front, value, next_id);
        let after = propagate(src, peers, value, next_id);
        let peer = peers.last();
        assert forall|k: int| 0 <= k < after.outbound.len() implies {
            let m = #[trigger] after.outbound[k];
            &&& m.src == src
            &&& m.body == (BroadcastBodyView::Broadcast {
                msg_id: MessageId((next_id + k) as usize),
                message: value,
            })
            &&& needed_by(peers, value, m.dest)
        } by {
            let m = after.outbound[k];
            if k < before.outbound.len() {
                assert(m == before.outbound[k]);
                assert(needed_by(front, value, m.dest));
                let i = choose|i: int|
                    0 <= i < front.len() && (#[trigger] front[i]).id == m.dest
                        && front[i].state.needs(value);
                assert(peers[i] == front[i]);
            } else {
                assert(peers[peers.len() - 1].id == m.dest);
            }
        }
        assert forall|i: int|
            0 <= i < peers.len() && (#[trigger] peers[i]).state.needs(value) implies addressed(
            after.outbound,
            peers[i].id,
        ) by {
            if i < front.len() {
                assert(front[i] == peers[i]);
                assert(addressed(before.outbound, peers[i].id));
                let k = choose|k: int|
                    0 <= k < before.outbound.len() && (#[trigger] before.outbound[k]).dest
                        == peers[i].id;
                assert(after.outbound[k] == before.outbound[k]);
            } else {
                assert(after.outbound[after.outbound.len() - 1].dest == peer.id);
            }
        }
    }
}

/// Whether the envelope number `k` of a propagation is the one for the peer
/// at `i`: the peer needs the value, and `k` ids were taken before its turn.
pub open spec fn goes_to(
    src: Seq<char>,
    peers: Seq<PeerView>,
    value: usize,
    next_id: int,
    k: int,
    i: int,
) -> bool {
    &&& 0 <= i < peers.len()
    &&& peers[i].state.needs(value)
    &&& propagate(src, peers.take(i), value, next_id).next_id == next_id + k
}

/// Whether the envelope number `k` of a propagation is the one for some
/// peer, and carries the id under which the value was put in flight to that
/// peer.
pub open spec fn has_slot(
    src: Seq<char>,
    peers: Seq<PeerView>,
    value: usize,
    next_id: int,
    k: int,
) -> bool {
    exists|i: int|
        #[trigger] goes_to(src, peers, value, next_id, k, i) && propagate(
            src,
            peers,
            value,
            next_id,
        ).outbound[k] == propagation(src, peers[i].id, MessageId((next_id + k) as usize), value)
}

/// Every envelope that goes out is the one for some peer, and carries the
/// id under which the value was put in flight to that peer.
pub proof fn lemma_propagate_slots(src: Seq<char>, peers: Seq<PeerView>, value: usize, next_id: int)
    ensures
        forall|k: int|
            0 <= k < propagate(src, peers, value, next_id).outbound.len() ==> #[trigger] has_slot(
                src,
                peers,
                value,
                next_id,
                k,
            ),
    decreases peers.len(),
{
    if peers.len() > 0 {
        let front = peers.drop_last();
        lemma_propagate_slots(src, front, value, next_id);
        lemma_propagate(src, front, value, next_id);
        let before = propagate(src, front, value, next_id);
        let after = propagate(src, peers, value, next_id);
        assert forall|k: int| 0 <= k < after.outbound.len() implies #[trigger] has_slot(
            src,
            peers,
            value,
            next_id,
            k,
        ) by {
            if k < before.outbound.len() {
                assert(has_slot(src, front, value, next_id, k));
                let i = choose|i: int|
                    #[trigger] goes_to(src, front, value, next_id, k, i) && before.outbound[k]
                        == propagation(src, front[i].id, MessageId((next_id + k) as usize), value);
                assert(front.take(i) =~= peers.take(i));
                assert(front[i] == peers[i]);
                assert(after.outbound[k] == before.outbound[k]);
                assert(goes_to(src, peers, value, next_id, k, i));
            } else {
                let i = peers.len() - 1;
                assert(peers.take(i) =~= front);
                assert(goes_to(src, peers, value, next_id, k, i));
            }
        }
    }
}

/// Every peer that needs the value is sent it, under the id that was next
/// when its turn came.
pub proof fn lemma_propagate_sends(src: Seq<char>, peers: Seq<PeerView>, value: usize, next_id: int)
    ensures
        forall|i: int|
            0 <= i < peers.len() && (#[trigger] peers[i]).state.needs(value) ==> propagate(
                src,
                peers,
                value,
                next_id,
            ).outbound.contains(
                propagation(
                    src,
                    peers[i].id,
                    MessageId(propagate(src, peers.take(i), value, next_id).next_id as usize),
                    value,
                ),
            ),
    decreases peers.len(),
{
    if peers.len() > 0 {
        let front = peers.drop_last();
        lemma_propagate_sends(src, front, value, next_id);
        let before = propagate(src, front, value, next_id);
        let after = propagate(src, peers, value, next_id);
        assert forall|i: int|
            0 <= i < peers.len() && (#[trigger] peers[i]).state.needs(
                value,
            ) implies after.outbound.contains(
            propagation(
                src,
                peers[i].id,
                MessageId(propagate(src, peers.take(i), value, next_id).next_id as usize),
                value,
            ),
        ) by {
            let m = propagation(
                src,
                peers[i].id,
                MessageId(propagate(src, peers.take(i), value, next_id).next_id as usize),
                value,
            );
            if i < front.len() {
                assert(front[i] == peers[i]);
                assert(front.take(i) =~= peers.take(i));
                assert(before.outbound.contains(m));
                let k = choose|k: int| 0 <= k < before.outbound.len() && before.outbound[k] == m;
                assert(after.outbound[k] == m);
            } else {
                assert(peers.take(i) =~= front);
                assert(after.outbound[after.outbound.len() - 1] == m);
            }
        }
    }
}

/// What a peer's record is after a value was offered: the value was offered
/// to it under the id that was next when its turn came.
pub proof fn lemma_propagate_peers(src: Seq<char>, peers: Seq<PeerView>, value: usize, next_id: int)
    ensures
        propagate(src, peers, value, next_id).peers.len() == peers.len(),
        forall|i: int|
            0 <= i < peers.len() ==> #[trigger] propagate(src, peers, value, next_id).peers[i]
                == (PeerView {
                id: peers[i].id,
                state: peers[i].state.add_message(
                    MessageId(propagate(src, peers.take(i), value, next_id).next_id as usize),
                    value,
                ),
            }),
    decreases peers.len(),
{
    if peers.len() > 0 {
        let front = peers.drop_last();
        lemma_propagate_peers(src, front, value, next_id);
        let before = propagate(src, front, value, next_id);
        let after = propagate(src, peers, value, next_id);
        assert forall|i: int| 0 <= i < peers.len() implies #[trigger] after.peers[i] == (PeerView {
            id: peers[i].id,
            state: peers[i].state.add_message(
                MessageId(propagate(src, peers.take(i), value, next_id).next_id as usize),
                value,
            ),
        }) by {
            if i < front.len() {
                assert(front[i] == peers[i]);
                assert(after.peers[i] == before.peers[i]);
                assert(front.take(i) =~= peers.take(i));
            } else {
                assert(peers.take(i) =~= front);
            }
        }
    }
}

/// The state of a broadcast node as a mathematical value.
pub struct NodeView {
    /// The node's own id.
    pub id: Seq<char>,
    /// The values that the node has observed.
    pub messages: Set<usize>,
    /// The adjacent peers, in the order in which propagations go out.
    pub peers: Seq<PeerView>,
    /// Whether the topology has been applied.
    pub configured: bool,
}

/// What a node does about one inbound envelope.
pub struct HandledView {
    /// The node afterwards.
    pub node: NodeView,
    /// The response to the sender, if one is due.
    pub reply: Option<EnvelopeView>,
    /// The propagations to send and to hand to the retry tracker.
    pub outbound: Seq<EnvelopeView>,
    /// The id whose tracking the retry tracker is to stop.
    pub cancel: Option<MessageId>,
    /// The id that the allocator hands out next.
    pub next_id: int,
}

impl NodeView {
    /// The node `id` before any request: it knows nothing and has no peers.
    pub open spec fn init(id: Seq<char>) -> NodeView {
        NodeView { id, messages: Set::empty(), peers: Seq::empty(), configured: false }
    }

    /// The records about the peers are well formed, no peer is in the table
    /// twice, and there are no peers before the topology is applied.
    pub open spec fn wf(self) -> bool {
        &&& forall|i: int| 0 <= i < self.peers.len() ==> (#[trigger] self.peers[i]).state.wf()
        &&& forall|i: int, j: int|
            0 <= i < j < self.peers.len() ==> (#[trigger] self.peers[i]).id != (
            #[trigger] self.peers[j]).id
        &&& !self.configured ==> self.peers.len() == 0
    }

    /// Whether `id` is an adjacent peer.
    pub open spec fn is_adjacent(self, id: Seq<char>) -> bool {
        exists|i: int| 0 <= i < self.peers.len() && (#[trigger] self.peers[i]).id == id
    }

    /// The record about the adjacent peer `id`.
    pub open spec fn adjacent(self, id: Seq<char>) -> AdjecentView {
        self.peers[choose|i: int| 0 <= i < self.peers.len() && (#[trigger] self.peers[i]).id == id].state
    }

    /// Whether `peer` is adjacent and known to have `value`.
    pub open spec fn knows(self, peer: Seq<char>, value: usize) -> bool {
        exists|i: int|
            0 <= i < self.peers.len() && (#[trigger] self.peers[i]).id == peer
                && self.peers[i].state.known.contains(value)
    }

    /// Whether every value that the node has observed is, for every peer,
    /// acknowledged or in flight.
    pub open spec fn covered(self) -> bool {
        forall|i: int, value: usize|
            0 <= i < self.peers.len() && self.messages.contains(value)
                ==> #[trigger] self.peers[i].state.covers(value)
    }

    /// Whether no propagation is pending.
    pub open spec fn quiescent(self) -> bool {
        forall|i: int, id: usize|
            0 <= i < self.peers.len() ==> !#[trigger] self.peers[i].state.pending.contains_key(id)
    }

    /// Whether the id is pending for none of the peers.
    pub open spec fn unused(self, id: usize) -> bool {
        forall|i: int|
            0 <= i < self.peers.len() ==> !(#[trigger] self.peers[i]).state.pending.contains_key(
                id,
            )
    }

    /// Whether the propagation of `value` to `peer` is pending under `id`.
    pub open spec fn pends(self, peer: Seq<char>, id: usize, value: usize) -> bool {
        exists|j: int|
            0 <= j < self.peers.len() && (#[trigger] self.peers[j]).id == peer
                && self.peers[j].state.pending.contains_key(id) && self.peers[j].state.pending[id]
                == value
    }

    /// Whether every pending id is below `bound`.
    pub open spec fn ids_below(self, bound: int) -> bool {
        forall|j: int, id: usize|
            0 <= j < self.peers.len() && #[trigger] self.peers[j].state.pending.contains_key(id)
                ==> id < bound
    }

    /// Whether the node may apply `topology`: it has not applied one yet, and
    /// the topology has an entry for it.
    pub open spec fn accepts_topology(self, topology: TopologyView) -> bool {
        !self.configured && lists(topology, self.id)
    }

    /// The node after `topology` was applied: its peers are the neighbours
    /// that the topology gives it, each once, with nothing known about them.
    pub open spec fn apply_topology(self, topology: TopologyView) -> NodeView {
        NodeView {
            peers: fresh_peers(distinct(neighbours_of(topology, self.id))),
            configured: true,
            ..self
        }
    }

    /// The node after `value` arrived, with the propagations that go out.
    /// The value is observed, and every peer that needs it gets a
    /// propagation under an id of its own.
    pub open spec fn broadcast(self, value: usize, next_id: int) -> (NodeView, Propagation) {
        let sent = propagate(self.id, self.peers, value, next_id);
        (NodeView { messages: self.messages.insert(value), peers: sent.peers, ..self }, sent)
    }

    /// The node after `peer` acknowledged the propagation `msg_id`. A peer
    /// that is not adjacent, or an id that is not pending for it, changes
    /// nothing.
    pub open spec fn acknowledge(self, peer: Seq<char>, msg_id: MessageId) -> NodeView {
        NodeView {
            peers: Seq::new(
                self.peers.len(),
                |i: int|
                    if self.peers[i].id == peer {
                        PeerView { state: self.peers[i].state.update_pending(msg_id), ..self.peers[i] }
                    } else {
                        self.peers[i]
                    },
            ),
            ..self
        }
    }

    /// The node after the propagation `previous` to `peer` was sent again
    /// under the id `current`. A peer that is not adjacent, or an id that is
    /// not pending for it, changes nothing.
    pub open spec fn resent(self, peer: Seq<char>, previous: MessageId, current: MessageId) -> NodeView {
        NodeView {
            peers: Seq::new(
                self.peers.len(),
                |i: int|
                    if self.peers[i].id == peer {
                        PeerView {
                            state: self.peers[i].state.replace_pending(previous, current),
                            ..self.peers[i]
                        }
                    } else {
                        self.peers[i]
                    },
            ),
            ..self
        }
    }

    /// Whether the node may handle `msg`: a topology must be one that the
    /// node accepts.
    pub open spec fn accepts(self, msg: EnvelopeView) -> bool {
        msg.body matches BroadcastBodyView::Topology { topology, .. } ==> self.accepts_topology(
            topology,
        )
    }

    /// What the node does about the inbound envelope `msg`, where `next_id`
    /// is the id that the allocator hands out next.
    ///
    /// A response goes back to the sender, under a fresh id that is taken
    /// after those of the propagations.
    pub open spec fn handle(self, msg: EnvelopeView, next_id: int) -> HandledView {
        match msg.body {
            BroadcastBodyView::Broadcast { msg_id, message } => {
                let (node, sent) = self.broadcast(message, next_id);
                HandledView {
                    node,
                    reply: Some(
                        MessageView {
                            src: msg.dest,
                            dest: msg.src,
                            body: BroadcastBodyView::BroadcastOk {
                                msg_id: MessageId(sent.next_id as usize),
                                in_reply_to: msg_id,
                            },
                        },
                    ),
                    outbound: sent.outbound,
                    cancel: None,
                    next_id: sent.next_id + 1,
                }
            },
            BroadcastBodyView::BroadcastOk { msg_id, in_reply_to } => HandledView {
                node: self.acknowledge(msg.src, in_reply_to),
                reply: None,
                outbound: Seq::empty(),
                cancel: Some(in_reply_to),
                next_id,
            },
            BroadcastBodyView::Read { msg_id } => HandledView {
                node: self,
                reply: Some(
                    MessageView {
                        src: msg.dest,
                        dest: msg.src,
                        body: BroadcastBodyView::ReadOk {
                            msg_id: MessageId(next_id as usize),
                            in_reply_to: msg_id,
                            messages: self.messages,
                        },
                    },
                ),
                outbound: Seq::empty(),
                cancel: None,
                next_id: next_id + 1,
            },
            BroadcastBodyView::Topology { msg_id, topology } => HandledView {
                node: self.apply_topology(topology),
                reply: Some(
                    MessageView {
                        src: msg.dest,
                        dest: msg.src,
                        body: BroadcastBodyView::TopologyOk {
                            msg_id: MessageId(next_id as usize),
                            in_reply_to: msg_id,
                        },
                    },
                ),
                outbound: Seq::empty(),
                cancel: None,
                next_id: next_id + 1,
            },
            BroadcastBodyView::ReadOk { .. } | BroadcastBodyView::TopologyOk { .. } => HandledView {
                node: self,
                reply: None,
                outbound: Seq::empty(),
                cancel: None,
                next_id,
            },
        }
    }
}

} // verus!
