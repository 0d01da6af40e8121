//! A cluster of broadcast nodes over a transport that may lose, repeat and
//! reorder what it carries, and the proof that such a cluster converges:
//! whenever no propagation is pending anywhere, every node has observed
//! every value that a node from which it can be reached has observed.
//!
//! The cluster is a model. Each of its nodes is the model of a node, and
//! changes only as the engine's contracts say. Requests come from clients
//! that are no nodes, nodes send only to each other and back to the
//! clients, and a resend reaches the wire and the sender's records in one
//! step.
//!
//! When the cluster comes to rest is not said here: that lies with the
//! transport and the clock. What is said is that nothing keeps it from
//! coming to rest: every pending propagation is on the wire, and is
//! resolved once it and its acknowledgment are delivered.

use vstd::prelude::*;
use crate::body::{BroadcastBody, BroadcastBodyView};
use crate::dissemination::{lemma_records_stay_wf, lemma_step_covered, lemma_step_wf, NodeEvent};
use crate::ids::MessageId;
use crate::message::{MessageBody, MessageView};
use crate::node::{
    goes_to, has_slot, lemma_propagate, lemma_propagate_peers, lemma_propagate_sends,
    lemma_propagate_slots, propagate, propagation, EnvelopeView, NodeView, PeerView,
};

verus! {

/// What the handling of an envelope does to a node's records, seen from
/// outside: ids and observed values are kept, a pending propagation is an
/// old one or one that has just gone out, and what a peer is known to have
/// was known before or has just been acknowledged.
pub proof fn lemma_handle_records(node: NodeView, msg: EnvelopeView, next_id: int)
    requires
        node.wf(),
        node.accepts(msg),
        0 <= next_id,
        next_id + node.peers.len() < usize::MAX,
        node.ids_below(next_id),
    ensures
        ({
            let handled = node.handle(msg, next_id);
            &&& handled.node.id == node.id
            &&& handled.node.wf()
            &&& next_id <= handled.next_id <= next_id + node.peers.len() + 1
            &&& handled.node.ids_below(handled.next_id)
            &&& forall|v: usize| node.messages.contains(v) ==> handled.node.messages.contains(v)
            &&& forall|v: usize| msg.body.value() == Some(v) ==> handled.node.messages.contains(v)
            &&& forall|peer: Seq<char>, id: usize, v: usize| #[trigger]
                handled.node.pends(peer, id, v) ==> node.pends(peer, id, v) || (next_id <= id
                    < handled.next_id && msg.body.value() == Some(v))
            &&& forall|peer: Seq<char>, v: usize| #[trigger]
                handled.node.knows(peer, v) ==> node.knows(peer, v) || (peer == msg.src
                    && msg.body.acknowledged() is Some && node.pends(
                    peer,
                    msg.body.acknowledged().unwrap().0,
                    v,
                ))
        }),
{
    let handled = node.handle(msg, next_id);
    lemma_step_wf(node, NodeEvent::Inbound { msg, next_id });
    match msg.body {
        BroadcastBodyView::Broadcast { msg_id, message } => {
            lemma_propagate(node.id, node.peers, message, next_id);
            lemma_propagate_peers(node.id, node.peers, message, next_id);
            assert forall|j: int| 0 <= j < node.peers.len() implies next_id <= propagate(
                node.id,
                #[trigger] node.peers.take(j),
                message,
                next_id,
            ).next_id < next_id + node.peers.len() by {
                lemma_propagate(node.id, node.peers.take(j), message, next_id);
            }
            assert forall|peer: Seq<char>, id: usize, v: usize| #[trigger]
                handled.node.pends(peer, id, v) implies node.pends(peer, id, v) || (next_id <= id
                < handled.next_id && message == v) by {
                let j = choose|j: int|
                    0 <= j < handled.node.peers.len() && (#[trigger] handled.node.peers[j]).id
                        == peer && handled.node.peers[j].state.pending.contains_key(id)
                        && handled.node.peers[j].state.pending[id] == v;
                let taken = propagate(node.id, node.peers.take(j), message, next_id).next_id;
                assert(node.peers.take(j).len() == j);
                lemma_propagate_take(node.id, node.peers, message, next_id, j);
                if node.peers[j].state.pending.contains_key(id) {
                    assert(id < next_id);
                    assert(node.peers[j].id == peer);
                    assert(node.peers[j].state.pending[id] == v);
                } else {
                    assert(id == taken as usize);
                }
            }
            assert forall|peer: Seq<char>, v: usize| #[trigger]
                handled.node.knows(peer, v) implies node.knows(peer, v) by {
                let j = choose|j: int|
                    0 <= j < handled.node.peers.len() && (#[trigger] handled.node.peers[j]).id
                        == peer && handled.node.peers[j].state.known.contains(v);
                assert(node.peers[j].id == peer);
            }
            assert forall|j: int, id: usize|
                0 <= j < handled.node.peers.len()
                    && #[trigger] handled.node.peers[j].state.pending.contains_key(
                    id,
                ) implies id < handled.next_id by {
                lemma_propagate_take(node.id, node.peers, message, next_id, j);
                if node.peers[j].state.pending.contains_key(id) {
                }
            }
        },
        BroadcastBodyView::BroadcastOk { msg_id, in_reply_to } => {
            assert forall|peer: Seq<char>, id: usize, v: usize| #[trigger]
                handled.node.pends(peer, id, v) implies node.pends(peer, id, v) by {
                let j = choose|j: int|
                    0 <= j < handled.node.peers.len() && (#[trigger] handled.node.peers[j]).id
                        == peer && handled.node.peers[j].state.pending.contains_key(id)
                        && handled.node.peers[j].state.pending[id] == v;
                assert(node.peers[j].id == peer);
            }
            assert forall|peer: Seq<char>, v: usize| #[trigger]
                handled.node.knows(peer, v) implies node.knows(peer, v) || (peer == msg.src
                && node.pends(peer, in_reply_to.0, v)) by {
                let j = choose|j: int|
                    0 <= j < handled.node.peers.len() && (#[trigger] handled.node.peers[j]).id
                        == peer && handled.node.peers[j].state.known.contains(v);
                assert(node.peers[j].id == peer);
                if !node.peers[j].state.known.contains(v) {
                    assert(node.peers[j].state.pending.contains_key(in_reply_to.0));
                }
            }
            assert forall|j: int, id: usize|
                0 <= j < handled.node.peers.len()
                    && #[trigger] handled.node.peers[j].state.pending.contains_key(
                    id,
                ) implies id < handled.next_id by {
                assert(node.peers[j].state.pending.contains_key(id));
            }
        },
        BroadcastBodyView::Topology { .. } => {
            assert forall|peer: Seq<char>, id: usize, v: usize| #[trigger]
                handled.node.pends(peer, id, v) implies false by {
                let j = choose|j: int|
                    0 <= j < handled.node.peers.len() && (#[trigger] handled.node.peers[j]).id
                        == peer && handled.node.peers[j].state.pending.contains_key(id)
                        && handled.node.peers[j].state.pending[id] == v;
            }
            assert forall|peer: Seq<char>, v: usize| #[trigger]
                handled.node.knows(peer, v) implies false by {
                let j = choose|j: int|
                    0 <= j < handled.node.peers.len() && (#[trigger] handled.node.peers[j]).id
                        == peer && handled.node.peers[j].state.known.contains(v);
            }
        },
        _ => {},
    }
}

/// How many ids a propagation has taken when the turn of the peer at `j`
/// comes, and what it does to that peer's record.
pub proof fn lemma_propagate_take(
    src: Seq<char>,
    peers: Seq<PeerView>,
    value: usize,
    next_id: int,
    j: int,
)
    requires
        0 <= j < peers.len(),
    ensures
        next_id <= propagate(src, peers.take(j), value, next_id).next_id < propagate(
            src,
            peers,
            value,
            next_id,
        ).next_id + (if peers[j].state.needs(value) {
            0int
        } else {
            1int
        }),
        propagate(src, peers.take(j), value, next_id).next_id <= next_id + j,
        propagate(src, peers, value, next_id).peers[j].state == peers[j].state.add_message(
            MessageId(propagate(src, peers.take(j), value, next_id).next_id as usize),
            value,
        ),
    decreases peers.len(),
{
    lemma_propagate_peers(src, peers, value, next_id);
    lemma_propagate(src, peers.take(j), value, next_id);
    let front = peers.drop_last();
    if j == peers.len() - 1 {
        assert(peers.take(j) =~= front);
    } else {
        lemma_propagate_take(src, front, value, next_id, j);
        assert(front.take(j) =~= peers.take(j));
        assert(front[j] == peers[j]);
    }
}

/// What goes out when an envelope is handled: propagations of the value
/// that came in, each from this node under an id of its own that is pending
/// for its addressee afterwards, and a response to the sender, which
/// acknowledges a propagation and nothing else.
pub proof fn lemma_handle_outbound(node: NodeView, msg: EnvelopeView, next_id: int)
    requires
        node.wf(),
        node.accepts(msg),
        0 <= next_id,
        next_id + node.peers.len() < usize::MAX,
        node.ids_below(next_id),
    ensures
        ({
            let handled = node.handle(msg, next_id);
            &&& msg.body.value() is None ==> handled.outbound.len() == 0
            &&& forall|k: int|
                0 <= k < handled.outbound.len() ==> {
                    let m = #[trigger] handled.outbound[k];
                    &&& m.src == node.id
                    &&& m.body is Broadcast
                    &&& m.body.value() == msg.body.value()
                    &&& next_id <= m.body.msg_id().0 < handled.next_id
                    &&& handled.node.pends(m.dest, m.body.msg_id().0, m.body.value().unwrap())
                }
            &&& msg.body.acknowledged() is Some ==> handled.reply is None
            &&& handled.reply is Some ==> {
                let reply = handled.reply.unwrap();
                &&& reply.src == msg.dest
                &&& reply.dest == msg.src
                &&& !(reply.body is Broadcast)
                &&& msg.body is Broadcast ==> reply.body.acknowledged() == Some(msg.body.msg_id())
                &&& !(msg.body is Broadcast) ==> reply.body.acknowledged() is None
            }
        }),
{
    let handled = node.handle(msg, next_id);
    match msg.body {
        BroadcastBodyView::Broadcast { msg_id, message } => {
            lemma_propagate(node.id, node.peers, message, next_id);
            lemma_propagate_slots(node.id, node.peers, message, next_id);
            assert forall|k: int| 0 <= k < handled.outbound.len() implies {
                let m = #[trigger] handled.outbound[k];
                &&& m.src == node.id
                &&& m.body is Broadcast
                &&& m.body.value() == msg.body.value()
                &&& next_id <= m.body.msg_id().0 < handled.next_id
                &&& handled.node.pends(m.dest, m.body.msg_id().0, m.body.value().unwrap())
            } by {
                let m = handled.outbound[k];
                assert(has_slot(node.id, node.peers, message, next_id, k));
                let i = choose|i: int|
                    #[trigger] goes_to(node.id, node.peers, message, next_id, k, i) && propagate(
                        node.id,
                        node.peers,
                        message,
                        next_id,
                    ).outbound[k] == propagation(
                        node.id,
                        node.peers[i].id,
                        MessageId((next_id + k) as usize),
                        message,
                    );
                lemma_propagate_take(node.id, node.peers, message, next_id, i);
                let id = (next_id + k) as usize;
                assert(handled.node.peers[i].state.pending == node.peers[i].state.pending.insert(
                    id,
                    message,
                ));
                assert(handled.node.peers[i].id == m.dest);
                assert(handled.node.peers[i].state.pending.contains_key(id));
                assert(handled.node.peers[i].state.pending[id] == message);
            }
        },
        _ => {},
    }
}

/// What a resend does to a node's records, seen from outside: observed
/// values and what the peers are known to have stay, and a pending
/// propagation is an old one, or the one that was sent again under its new
/// id.
pub proof fn lemma_resent_records(
    node: NodeView,
    dest: Seq<char>,
    previous: MessageId,
    current: MessageId,
)
    requires
        node.wf(),
    ensures
        ({
            let after = node.resent(dest, previous, current);
            &&& after.id == node.id
            &&& after.wf()
            &&& after.messages == node.messages
            &&& forall|peer: Seq<char>, id: usize, v: usize| #[trigger]
                after.pends(peer, id, v) ==> node.pends(peer, id, v) || (peer == dest && id
                    == current.0 && node.pends(dest, previous.0, v))
            &&& forall|peer: Seq<char>, v: usize| #[trigger]
                after.knows(peer, v) ==> node.knows(peer, v)
        }),
{
    let after = node.resent(dest, previous, current);
    lemma_records_stay_wf(node, dest, previous, current);
    assert forall|peer: Seq<char>, id: usize, v: usize| #[trigger]
        after.pends(peer, id, v) implies node.pends(peer, id, v) || (peer == dest && id
        == current.0 && node.pends(dest, previous.0, v)) by {
        let j = choose|j: int|
            0 <= j < after.peers.len() && (#[trigger] after.peers[j]).id == peer
                && after.peers[j].state.pending.contains_key(id) && after.peers[j].state.pending[id]
                == v;
        assert(node.peers[j].id == peer);
        if peer == dest && node.peers[j].state.pending.contains_key(previous.0) {
            if id == current.0 {
                assert(node.peers[j].state.pending[previous.0] == v);
            } else {
                assert(node.peers[j].state.pending.contains_key(id));
            }
        }
    }
    assert forall|peer: Seq<char>, v: usize| #[trigger] after.knows(peer, v) implies node.knows(
        peer,
        v,
    ) by {
        let j = choose|j: int|
            0 <= j < after.peers.len() && (#[trigger] after.peers[j]).id == peer
                && after.peers[j].state.known.contains(v);
        assert(node.peers[j].id == peer);
        assert(node.peers[j].state.known.contains(v));
    }
}

/// A cluster as a mathematical value.
pub struct ClusterView {
    /// The nodes, by their ids.
    pub nodes: Map<Seq<char>, NodeView>,
    /// For each node, the id that its allocator hands out next.
    pub next_id: Map<Seq<char>, int>,
    /// Every envelope that a node has sent so far. The transport may
    /// deliver any of them, at any time and any number of times, or never.
    pub wire: Set<EnvelopeView>,
}

/// Something that happens in a cluster.
pub enum ClusterEvent {
    /// A client hands the request `msg` to the node that it names.
    Request { msg: EnvelopeView },
    /// The transport delivers `msg`, which a node has sent, to the node that
    /// it names.
    Deliver { msg: EnvelopeView },
    /// The retry tracker of the node that has sent the propagation `msg`
    /// sends it again under a fresh id, and the node records the new id.
    Resend { msg: EnvelopeView },
}

impl ClusterView {
    /// The cluster of the nodes `ids` at its start: no node has a peer or a
    /// value, and nothing was sent.
    pub open spec fn init(ids: Set<Seq<char>>) -> ClusterView {
        ClusterView {
            nodes: Map::new(|id: Seq<char>| ids.contains(id), |id: Seq<char>| NodeView::init(id)),
            next_id: Map::new(|id: Seq<char>| ids.contains(id), |id: Seq<char>| 0int),
            wire: Set::empty(),
        }
    }

    /// Whether the allocator of the node `id` has ids left for a response
    /// and a propagation to each of its peers.
    pub open spec fn room(self, id: Seq<char>) -> bool {
        self.next_id[id] + self.nodes[id].peers.len() < usize::MAX
    }

    /// Whether the event can happen. A request comes from outside the
    /// cluster, and a topology comes before the node has observed a value.
    /// Only what was sent is delivered or sent again.
    pub open spec fn admits(self, event: ClusterEvent) -> bool {
        match event {
            ClusterEvent::Request { msg } => {
                &&& self.nodes.contains_key(msg.dest)
                &&& !self.nodes.contains_key(msg.src)
                &&& msg.body is Broadcast || msg.body is Read || msg.body is Topology
                &&& self.nodes[msg.dest].accepts(msg)
                &&& msg.body is Topology ==> self.nodes[msg.dest].messages =~= Set::empty()
                &&& self.room(msg.dest)
            },
            ClusterEvent::Deliver { msg } => {
                &&& self.wire.contains(msg)
                &&& self.nodes.contains_key(msg.dest)
                &&& self.room(msg.dest)
            },
            ClusterEvent::Resend { msg } => {
                &&& self.wire.contains(msg)
                &&& msg.body is Broadcast
                &&& self.nodes.contains_key(msg.src)
                &&& self.room(msg.src)
            },
        }
    }

    /// The cluster after the node that `msg` names has handled it: what the
    /// node sends is on the wire.
    pub open spec fn hand(self, msg: EnvelopeView) -> ClusterView {
        let handled = self.nodes[msg.dest].handle(msg, self.next_id[msg.dest]);
        ClusterView {
            nodes: self.nodes.insert(msg.dest, handled.node),
            next_id: self.next_id.insert(msg.dest, handled.next_id),
            wire: Set::new(
                |m: EnvelopeView|
                    self.wire.contains(m) || handled.outbound.contains(m) || handled.reply == Some(
                        m,
                    ),
            ),
        }
    }

    /// The propagation `msg` under the id that its sender's allocator hands
    /// out next.
    pub open spec fn again(self, msg: EnvelopeView) -> EnvelopeView {
        MessageView {
            body: BroadcastBody::with_msg_id(
                msg.body,
                MessageId(self.next_id[msg.src] as usize),
            ),
            ..msg
        }
    }

    /// The cluster after the propagation `msg` was sent again: it is on the
    /// wire under a fresh id, and its sender has it pending under that id.
    pub open spec fn resend(self, msg: EnvelopeView) -> ClusterView {
        let current = MessageId(self.next_id[msg.src] as usize);
        ClusterView {
            nodes: self.nodes.insert(
                msg.src,
                self.nodes[msg.src].resent(msg.dest, msg.body.msg_id(), current),
            ),
            next_id: self.next_id.insert(msg.src, self.next_id[msg.src] + 1),
            wire: self.wire.insert(self.again(msg)),
        }
    }

    /// The cluster after the event.
    pub open spec fn step(self, event: ClusterEvent) -> ClusterView {
        match event {
            ClusterEvent::Request { msg } => self.hand(msg),
            ClusterEvent::Deliver { msg } => self.hand(msg),
            ClusterEvent::Resend { msg } => self.resend(msg),
        }
    }

    /// The cluster after the events, in their order.
    pub open spec fn run(self, events: Seq<ClusterEvent>) -> ClusterView
        decreases events.len(),
    {
        if events.len() == 0 {
            self
        } else {
            self.run(events.drop_last()).step(events.last())
        }
    }

    /// Whether the events can happen one after the other.
    pub open spec fn admits_all(self, events: Seq<ClusterEvent>) -> bool {
        forall|k: int| 0 <= k < events.len() ==> self.run(events.take(k)).admits(#[trigger] events[k])
    }

    /// Whether the node `k` is in order: it goes by its own id, its records
    /// are well formed, every value it has observed is acknowledged or in
    /// flight for each of its peers, and every pending id was handed out by
    /// its allocator.
    pub open spec fn node_sound(self, k: Seq<char>) -> bool {
        &&& self.next_id.contains_key(k)
        &&& self.nodes[k].id == k
        &&& self.nodes[k].wf()
        &&& self.nodes[k].covered()
        &&& 0 <= self.next_id[k] <= usize::MAX
        &&& self.nodes[k].ids_below(self.next_id[k])
    }

    /// Whether the envelope `m` tells the truth. It comes from a node. If it
    /// is a propagation, its id was handed out by its sender's allocator,
    /// and if the sender still has that id pending for the addressee, then
    /// with the value that the envelope carries. If it is an acknowledgment
    /// to a node, it refers to an id of that node's allocator, and what the
    /// node has pending under that id for the sender, the sender has
    /// observed.
    pub open spec fn envelope_sound(self, m: EnvelopeView) -> bool {
        &&& self.nodes.contains_key(m.src)
        &&& self.nodes.contains_key(m.dest) ==> m.body is Broadcast || m.body is BroadcastOk
        &&& m.body is Broadcast ==> {
            &&& m.body.msg_id().0 < self.next_id[m.src]
            &&& forall|v: usize| #[trigger]
                self.nodes[m.src].pends(m.dest, m.body.msg_id().0, v) ==> m.body.value() == Some(v)
        }
        &&& m.body is BroadcastOk && self.nodes.contains_key(m.dest) ==> {
            &&& m.body.acknowledged().unwrap().0 < self.next_id[m.dest]
            &&& forall|v: usize| #[trigger]
                self.nodes[m.dest].pends(m.src, m.body.acknowledged().unwrap().0, v)
                    ==> self.nodes[m.src].messages.contains(v)
        }
    }

    /// Whether what the node `k` believes of its peers is true: a peer that
    /// is known to have a value is a node that has observed it.
    pub open spec fn knowledge_sound(self, k: Seq<char>) -> bool {
        forall|peer: Seq<char>, v: usize| #[trigger]
            self.nodes[k].knows(peer, v) ==> self.nodes.contains_key(peer)
                && self.nodes[peer].messages.contains(v)
    }

    /// The invariant of a cluster: every node is in order and believes only
    /// what is true, and every envelope on the wire tells the truth.
    pub open spec fn inv(self) -> bool {
        &&& forall|k: Seq<char>| #[trigger]
            self.nodes.contains_key(k) ==> self.node_sound(k) && self.knowledge_sound(k)
        &&& forall|m: EnvelopeView| #[trigger] self.wire.contains(m) ==> self.envelope_sound(m)
    }

    /// Whether no propagation is pending at any node.
    pub open spec fn quiescent(self) -> bool {
        forall|k: Seq<char>| #[trigger] self.nodes.contains_key(k) ==> self.nodes[k].quiescent()
    }
}

/// At its start a cluster is in order.
pub proof fn lemma_init_inv(ids: Set<Seq<char>>)
    ensures
        ClusterView::init(ids).inv(),
{
    let c = ClusterView::init(ids);
    assert forall|k: Seq<char>| #[trigger] c.nodes.contains_key(k) implies c.node_sound(k)
        && c.knowledge_sound(k) by {
        assert(c.nodes[k] == NodeView::init(k));
    }
}

impl ClusterView {
    /// Whether `msg` can be handed to the node that it names: the node
    /// accepts it and has ids left, a topology comes before any value, and
    /// the envelope was sent by a node or is a request from outside.
    pub open spec fn can_hand(self, msg: EnvelopeView) -> bool {
        &&& self.nodes.contains_key(msg.dest)
        &&& self.room(msg.dest)
        &&& self.nodes[msg.dest].accepts(msg)
        &&& msg.body is Topology ==> self.nodes[msg.dest].messages =~= Set::empty()
        &&& self.wire.contains(msg) || (!self.nodes.contains_key(msg.src)
            && !(msg.body is BroadcastOk))
    }
}

/// The node that handles an envelope is in order afterwards, and no other
/// node changes.
pub proof fn lemma_hand_node(c: ClusterView, msg: EnvelopeView, k: Seq<char>)
    requires
        c.inv(),
        c.can_hand(msg),
        c.nodes.contains_key(k),
    ensures
        c.hand(msg).nodes.contains_key(k),
        c.hand(msg).node_sound(k),
        k != msg.dest ==> c.hand(msg).nodes[k] == c.nodes[k] && c.hand(msg).next_id[k]
            == c.next_id[k],
        c.next_id[k] <= c.hand(msg).next_id[k],
        forall|v: usize| c.nodes[k].messages.contains(v) ==> c.hand(msg).nodes[k].messages.contains(v),
{
    let at = msg.dest;
    let node = c.nodes[at];
    let next = c.next_id[at];
    assert(c.node_sound(at));
    assert(c.node_sound(k));
    if k == at {
        lemma_handle_records(node, msg, next);
        let event = NodeEvent::Inbound { msg, next_id: next };
        assert(node.timely(event)) by {
            if msg.body is Broadcast {
                assert forall|id: usize|
                    next <= id < next + node.peers.len() implies #[trigger] node.unused(id) by {
                    assert forall|i: int| 0 <= i < node.peers.len() implies !(
                    #[trigger] node.peers[i]).state.pending.contains_key(id) by {
                        if node.peers[i].state.pending.contains_key(id) {
                            assert(id < next);
                        }
                    }
                }
            }
        }
        lemma_step_covered(node, event);
    }
}

/// An envelope that was on the wire still tells the truth after an envelope
/// was handled.
pub proof fn lemma_hand_keeps_envelope(c: ClusterView, msg: EnvelopeView, m: EnvelopeView)
    requires
        c.inv(),
        c.can_hand(msg),
        c.wire.contains(m),
    ensures
        c.hand(msg).envelope_sound(m),
{
    let at = msg.dest;
    let node = c.nodes[at];
    let next = c.next_id[at];
    let handled = node.handle(msg, next);
    let after = c.hand(msg);
    assert(c.node_sound(at));
    assert(c.envelope_sound(m));
    lemma_handle_records(node, msg, next);
    lemma_hand_node(c, msg, m.src);
    if m.body is Broadcast {
        assert forall|v: usize| #[trigger]
            after.nodes[m.src].pends(m.dest, m.body.msg_id().0, v) implies m.body.value() == Some(
            v,
        ) by {
            if m.src == at {
                assert(handled.node.pends(m.dest, m.body.msg_id().0, v));
                assert(node.pends(m.dest, m.body.msg_id().0, v));
            }
        }
    }
    if m.body is BroadcastOk && c.nodes.contains_key(m.dest) {
        lemma_hand_node(c, msg, m.dest);
        let id = m.body.acknowledged().unwrap().0;
        assert forall|v: usize| #[trigger]
            after.nodes[m.dest].pends(m.src, id, v) implies after.nodes[m.src].messages.contains(
            v,
        ) by {
            if m.dest == at {
                assert(handled.node.pends(m.src, id, v));
                assert(node.pends(m.src, id, v));
            }
            assert(c.nodes[m.dest].pends(m.src, id, v));
            assert(c.nodes[m.src].messages.contains(v));
        }
    }
}

/// An envelope that a node sends when it handles an envelope tells the
/// truth.
pub proof fn lemma_hand_new_envelope(c: ClusterView, msg: EnvelopeView, m: EnvelopeView)
    requires
        c.inv(),
        c.can_hand(msg),
        c.nodes[msg.dest].handle(msg, c.next_id[msg.dest]).outbound.contains(m)
            || c.nodes[msg.dest].handle(msg, c.next_id[msg.dest]).reply == Some(m),
    ensures
        c.hand(msg).envelope_sound(m),
{
    let at = msg.dest;
    let node = c.nodes[at];
    let next = c.next_id[at];
    let handled = node.handle(msg, next);
    let after = c.hand(msg);
    assert(c.node_sound(at));
    lemma_handle_records(node, msg, next);
    lemma_handle_outbound(node, msg, next);
    lemma_hand_node(c, msg, at);
    if handled.outbound.contains(m) {
        let k = choose|k: int| 0 <= k < handled.outbound.len() && handled.outbound[k] == m;
        assert(handled.outbound[k] == m);
        let id = m.body.msg_id().0;
        assert forall|v: usize| #[trigger] after.nodes[m.src].pends(m.dest, id, v) implies m.body.value()
            == Some(v) by {
            assert(handled.node.pends(m.dest, id, v));
            if node.pends(m.dest, id, v) {
                let j = choose|j: int|
                    0 <= j < node.peers.len() && (#[trigger] node.peers[j]).id == m.dest
                        && node.peers[j].state.pending.contains_key(id)
                        && node.peers[j].state.pending[id] == v;
                assert(id < next);
            }
        }
    } else {
        let reply = handled.reply.unwrap();
        assert(m == reply);
        if c.nodes.contains_key(m.dest) {
            assert(c.wire.contains(msg));
            assert(c.envelope_sound(msg));
            assert(msg.body is Broadcast);
            lemma_hand_node(c, msg, m.dest);
            let id = m.body.acknowledged().unwrap().0;
            assert(id == msg.body.msg_id().0);
            assert forall|v: usize| #[trigger]
                after.nodes[m.dest].pends(m.src, id, v) implies after.nodes[m.src].messages.contains(
                v,
            ) by {
                if m.dest == at {
                    assert(handled.node.pends(m.src, id, v));
                    assert(node.pends(m.src, id, v));
                }
                assert(c.nodes[msg.src].pends(msg.dest, id, v));
                assert(msg.body.value() == Some(v));
            }
        }
    }
}

/// What a node believes of its peers is still true after an envelope was
/// handled.
pub proof fn lemma_hand_knowledge(c: ClusterView, msg: EnvelopeView, k: Seq<char>)
    requires
        c.inv(),
        c.can_hand(msg),
        c.nodes.contains_key(k),
    ensures
        c.hand(msg).knowledge_sound(k),
{
    let at = msg.dest;
    let node = c.nodes[at];
    let next = c.next_id[at];
    let handled = node.handle(msg, next);
    let after = c.hand(msg);
    assert(c.node_sound(at));
    assert(c.knowledge_sound(k));
    lemma_handle_records(node, msg, next);
    assert forall|peer: Seq<char>, v: usize| #[trigger]
        after.nodes[k].knows(peer, v) implies after.nodes.contains_key(peer)
        && after.nodes[peer].messages.contains(v) by {
        if k == at && !node.knows(peer, v) {
            assert(handled.node.knows(peer, v));
            assert(msg.body is BroadcastOk);
            assert(c.wire.contains(msg));
            assert(c.envelope_sound(msg));
            assert(node.pends(msg.src, msg.body.acknowledged().unwrap().0, v));
            assert(c.nodes[msg.src].messages.contains(v));
            lemma_hand_node(c, msg, msg.src);
        } else {
            assert(c.nodes[k].knows(peer, v));
            assert(c.nodes.contains_key(peer));
            lemma_hand_node(c, msg, peer);
        }
    }
}

/// A cluster that is in order is still in order after a node has handled an
/// envelope.
pub proof fn lemma_hand_inv(c: ClusterView, msg: EnvelopeView)
    requires
        c.inv(),
        c.can_hand(msg),
    ensures
        c.hand(msg).inv(),
{
    let after = c.hand(msg);
    assert forall|k: Seq<char>| #[trigger] after.nodes.contains_key(k) implies after.node_sound(k)
        && after.knowledge_sound(k) by {
        assert(c.nodes.contains_key(k));
        lemma_hand_node(c, msg, k);
        lemma_hand_knowledge(c, msg, k);
    }
    assert forall|m: EnvelopeView| #[trigger] after.wire.contains(m) implies after.envelope_sound(
        m,
    ) by {
        if c.wire.contains(m) {
            lemma_hand_keeps_envelope(c, msg, m);
        } else {
            lemma_hand_new_envelope(c, msg, m);
        }
    }
}

/// A cluster that is in order is still in order after a propagation was
/// sent again.
pub proof fn lemma_resend_inv(c: ClusterView, msg: EnvelopeView)
    requires
        c.inv(),
        c.admits(ClusterEvent::Resend { msg }),
    ensures
        c.resend(msg).inv(),
{
    let at = msg.src;
    let node = c.nodes[at];
    let next = c.next_id[at];
    let previous = msg.body.msg_id();
    let current = MessageId(next as usize);
    let again = c.again(msg);
    let after = c.resend(msg);
    assert(c.node_sound(at));
    assert(c.envelope_sound(msg));
    lemma_resent_records(node, msg.dest, previous, current);
    let resent = node.resent(msg.dest, previous, current);
    assert(node.unused(current.0)) by {
        assert forall|i: int| 0 <= i < node.peers.len() implies !(
        #[trigger] node.peers[i]).state.pending.contains_key(current.0) by {
            if node.peers[i].state.pending.contains_key(current.0) {
                assert(current.0 < next);
            }
        }
    }
    lemma_step_covered(node, NodeEvent::Resent { peer: msg.dest, previous, current });
    assert(resent.ids_below(next + 1)) by {
        assert forall|j: int, id: usize|
            0 <= j < resent.peers.len() && #[trigger] resent.peers[j].state.pending.contains_key(
                id,
            ) implies id < next + 1 by {
            if id != current.0 {
                assert(node.peers[j].state.pending.contains_key(id));
            }
        }
    }
    assert forall|k: Seq<char>| #[trigger] after.nodes.contains_key(k) implies after.node_sound(k)
        && after.knowledge_sound(k) by {
        assert(c.nodes.contains_key(k));
        assert(c.node_sound(k));
        assert(c.knowledge_sound(k));
        assert forall|peer: Seq<char>, v: usize| #[trigger]
            after.nodes[k].knows(peer, v) implies after.nodes.contains_key(peer)
            && after.nodes[peer].messages.contains(v) by {
            assert(c.nodes[k].knows(peer, v));
        }
    }
    assert forall|m: EnvelopeView| #[trigger] after.wire.contains(m) implies after.envelope_sound(
        m,
    ) by {
        if c.wire.contains(m) {
            assert(c.envelope_sound(m));
            if m.body is Broadcast {
                assert forall|v: usize| #[trigger]
                    after.nodes[m.src].pends(m.dest, m.body.msg_id().0, v) implies m.body.value()
                    == Some(v) by {
                    if m.src == at {
                        assert(node.pends(m.dest, m.body.msg_id().0, v));
                    }
                }
            }
            if m.body is BroadcastOk && c.nodes.contains_key(m.dest) {
                let id = m.body.acknowledged().unwrap().0;
                assert forall|v: usize| #[trigger]
                    after.nodes[m.dest].pends(m.src, id, v) implies after.nodes[m.src].messages.contains(
                    v,
                ) by {
                    if m.dest == at {
                        assert(node.pends(m.src, id, v));
                    }
                    assert(c.nodes[m.dest].pends(m.src, id, v));
                }
            }
        } else {
            assert(m == again);
            assert forall|v: usize| #[trigger]
                after.nodes[m.src].pends(m.dest, m.body.msg_id().0, v) implies m.body.value()
                == Some(v) by {
                if node.pends(m.dest, current.0, v) {
                    let j = choose|j: int|
                        0 <= j < node.peers.len() && (#[trigger] node.peers[j]).id == m.dest
                            && node.peers[j].state.pending.contains_key(current.0)
                            && node.peers[j].state.pending[current.0] == v;
                    assert(current.0 < next);
                } else {
                    assert(node.pends(msg.dest, previous.0, v));
                }
            }
        }
    }
}

/// A cluster that is in order is still in order after any event that can
/// happen.
pub proof fn lemma_step_inv(c: ClusterView, event: ClusterEvent)
    requires
        c.inv(),
        c.admits(event),
    ensures
        c.step(event).inv(),
{
    match event {
        ClusterEvent::Request { msg } => {
            lemma_hand_inv(c, msg);
        },
        ClusterEvent::Deliver { msg } => {
            assert(c.envelope_sound(msg));
            lemma_hand_inv(c, msg);
        },
        ClusterEvent::Resend { msg } => {
            lemma_resend_inv(c, msg);
        },
    }
}

/// A cluster is in order after every beginning of a course of events that
/// can happen from its start.
pub proof fn lemma_prefix_inv(ids: Set<Seq<char>>, events: Seq<ClusterEvent>, k: int)
    requires
        ClusterView::init(ids).admits_all(events),
        0 <= k <= events.len(),
    ensures
        ClusterView::init(ids).run(events.take(k)).inv(),
    decreases k,
{
    if k > 0 {
        lemma_prefix_inv(ids, events, k - 1);
        assert(events.take(k).drop_last() =~= events.take(k - 1));
        assert(events.take(k).last() == events[k - 1]);
        lemma_step_inv(ClusterView::init(ids).run(events.take(k - 1)), events[k - 1]);
    } else {
        lemma_init_inv(ids);
    }
}

/// Whether `path` leads from node to node along the topology: it starts at
/// a node, and each of its stations has the next one as a peer.
pub open spec fn route(c: ClusterView, path: Seq<Seq<char>>) -> bool {
    &&& path.len() > 0
    &&& c.nodes.contains_key(path[0])
    &&& forall|t: int|
        0 <= t < path.len() - 1 ==> #[trigger] c.nodes[path[t]].is_adjacent(path[t + 1])
}

/// Whether every node of the cluster can be reached from every other one.
pub open spec fn connected(c: ClusterView) -> bool {
    forall|a: Seq<char>, b: Seq<char>|
        c.nodes.contains_key(a) && c.nodes.contains_key(b) ==> exists|path: Seq<Seq<char>>|
            #[trigger] route(c, path) && path[0] == a && path.last() == b
}

/// In a cluster that is in order and at rest, a value that a node has
/// observed has been observed by each of its peers.
pub proof fn lemma_peers_have_observed(c: ClusterView, k: Seq<char>, peer: Seq<char>, v: usize)
    requires
        c.inv(),
        c.quiescent(),
        c.nodes.contains_key(k),
        c.nodes[k].is_adjacent(peer),
        c.nodes[k].messages.contains(v),
    ensures
        c.nodes.contains_key(peer),
        c.nodes[peer].messages.contains(v),
{
    let node = c.nodes[k];
    assert(c.node_sound(k));
    assert(c.knowledge_sound(k));
    assert(node.quiescent());
    let j = choose|j: int| 0 <= j < node.peers.len() && (#[trigger] node.peers[j]).id == peer;
    assert(node.peers[j].state.covers(v));
    if node.peers[j].state.in_flight(v) {
        let id = choose|id: usize|
            node.peers[j].state.pending.contains_key(id) && #[trigger] node.peers[j].state.pending[id]
                == v;
        assert(!node.peers[j].state.pending.contains_key(id));
    }
    assert(node.knows(peer, v));
}

/// In a cluster that is in order and at rest, a value that a node has
/// observed has been observed by every node to which a route leads from it.
pub proof fn lemma_route_has_observed(c: ClusterView, path: Seq<Seq<char>>, v: usize)
    requires
        c.inv(),
        c.quiescent(),
        route(c, path),
        c.nodes[path[0]].messages.contains(v),
    ensures
        c.nodes.contains_key(path.last()),
        c.nodes[path.last()].messages.contains(v),
    decreases path.len(),
{
    if path.len() > 1 {
        let front = path.drop_last();
        assert(route(c, front)) by {
            assert forall|t: int| 0 <= t < front.len() - 1 implies #[trigger] c.nodes[front[t]].is_adjacent(
                front[t + 1],
            ) by {
                assert(c.nodes[path[t]].is_adjacent(path[t + 1]));
            }
        }
        lemma_route_has_observed(c, front, v);
        let t = path.len() - 2;
        assert(front.last() == path[t]);
        assert(c.nodes[path[t]].is_adjacent(path[t + 1]));
        lemma_peers_have_observed(c, path[t], path[t + 1], v);
    }
}

/// Agreement at rest: in a connected cluster that is in order and at rest,
/// all nodes have observed the same values.
pub proof fn lemma_rest_is_agreement(c: ClusterView, a: Seq<char>, b: Seq<char>)
    requires
        c.inv(),
        c.quiescent(),
        connected(c),
        c.nodes.contains_key(a),
        c.nodes.contains_key(b),
    ensures
        c.nodes[a].messages == c.nodes[b].messages,
{
    assert forall|v: usize| c.nodes[a].messages.contains(v) <==> c.nodes[b].messages.contains(
        v,
    ) by {
        if c.nodes[a].messages.contains(v) {
            let path = choose|path: Seq<Seq<char>>|
                #[trigger] route(c, path) && path[0] == a && path.last() == b;
            lemma_route_has_observed(c, path, v);
        }
        if c.nodes[b].messages.contains(v) {
            let path = choose|path: Seq<Seq<char>>|
                #[trigger] route(c, path) && path[0] == b && path.last() == a;
            lemma_route_has_observed(c, path, v);
        }
    }
    assert(c.nodes[a].messages =~= c.nodes[b].messages);
}

/// Convergence: whatever has happened in a cluster since its start, with
/// envelopes lost, repeated or delivered out of order, as soon as no
/// propagation is pending anywhere, all nodes of a connected cluster have
/// observed the same values.
pub proof fn lemma_convergence(
    ids: Set<Seq<char>>,
    events: Seq<ClusterEvent>,
    a: Seq<char>,
    b: Seq<char>,
)
    requires
        ClusterView::init(ids).admits_all(events),
        ClusterView::init(ids).run(events).quiescent(),
        connected(ClusterView::init(ids).run(events)),
        ids.contains(a),
        ids.contains(b),
    ensures
        ClusterView::init(ids).run(events).nodes.contains_key(a),
        ClusterView::init(ids).run(events).nodes.contains_key(b),
        ClusterView::init(ids).run(events).nodes[a].messages == ClusterView::init(ids).run(
            events,
        ).nodes[b].messages,
{
    let c = ClusterView::init(ids).run(events);
    lemma_prefix_inv(ids, events, events.len() as int);
    assert(events.take(events.len() as int) =~= events);
    lemma_run_keeps_nodes(ClusterView::init(ids), events);
    assert(c.nodes.contains_key(a) && c.nodes.contains_key(b));
    lemma_rest_is_agreement(c, a, b);
}

/// No event adds a node to the cluster or takes one away.
pub proof fn lemma_run_keeps_nodes(c: ClusterView, events: Seq<ClusterEvent>)
    requires
        c.admits_all(events),
    ensures
        c.run(events).nodes.dom() == c.nodes.dom(),
    decreases events.len(),
{
    if events.len() > 0 {
        let front = events.drop_last();
        let last = events.len() - 1;
        assert forall|k: int| 0 <= k < front.len() implies c.run(front.take(k)).admits(
            #[trigger] front[k],
        ) by {
            assert(front.take(k) =~= events.take(k));
            assert(front[k] == events[k]);
        }
        lemma_run_keeps_nodes(c, front);
        assert(events.take(last) =~= front);
        assert(c.run(front).admits(events[last]));
        assert(c.run(events).nodes.dom() =~= c.run(front).nodes.dom());
    }
}

/// What the handling of an envelope does to the pending propagations, seen
/// from outside: none is lost but the one that is acknowledged, and each new
/// one has just gone out.
pub proof fn lemma_handle_pending(node: NodeView, msg: EnvelopeView, next_id: int)
    requires
        node.wf(),
        node.accepts(msg),
        0 <= next_id,
        next_id + node.peers.len() < usize::MAX,
        node.ids_below(next_id),
    ensures
        forall|peer: Seq<char>, id: usize, v: usize| #[trigger]
            node.handle(msg, next_id).node.pends(peer, id, v) ==> node.pends(peer, id, v)
                || node.handle(msg, next_id).outbound.contains(
                propagation(node.id, peer, MessageId(id), v),
            ),
        forall|peer: Seq<char>, id: usize, v: usize| #[trigger]
            node.pends(peer, id, v) && (msg.body is Broadcast || msg.body is Read)
                ==> node.handle(msg, next_id).node.pends(peer, id, v),
{
    let handled = node.handle(msg, next_id);
    lemma_handle_records(node, msg, next_id);
    match msg.body {
        BroadcastBodyView::Broadcast { msg_id, message } => {
            lemma_propagate_sends(node.id, node.peers, message, next_id);
            lemma_propagate_peers(node.id, node.peers, message, next_id);
            assert forall|peer: Seq<char>, id: usize, v: usize| #[trigger]
                handled.node.pends(peer, id, v) implies node.pends(peer, id, v)
                || handled.outbound.contains(propagation(node.id, peer, MessageId(id), v)) by {
                let j = choose|j: int|
                    0 <= j < handled.node.peers.len() && (#[trigger] handled.node.peers[j]).id
                        == peer && handled.node.peers[j].state.pending.contains_key(id)
                        && handled.node.peers[j].state.pending[id] == v;
                lemma_propagate_take(node.id, node.peers, message, next_id, j);
                if node.peers[j].state.pending.contains_key(id) {
                    assert(id < next_id);
                    assert(node.peers[j].id == peer);
                    assert(node.peers[j].state.pending[id] == v);
                } else {
                    assert(node.peers[j].state.needs(message));
                }
            }
            assert forall|peer: Seq<char>, id: usize, v: usize| #[trigger]
                node.pends(peer, id, v) implies handled.node.pends(peer, id, v) by {
                let j = choose|j: int|
                    0 <= j < node.peers.len() && (#[trigger] node.peers[j]).id == peer
                        && node.peers[j].state.pending.contains_key(id)
                        && node.peers[j].state.pending[id] == v;
                lemma_propagate_take(node.id, node.peers, message, next_id, j);
                assert(id < next_id);
                assert(handled.node.peers[j].id == peer);
                assert(handled.node.peers[j].state.pending.contains_key(id));
                assert(handled.node.peers[j].state.pending[id] == v);
            }
        },
        _ => {},
    }
}

impl ClusterView {
    /// Whether every propagation that the node `k` has pending is on the
    /// wire, so that the transport can deliver it.
    pub open spec fn traceable(self, k: Seq<char>) -> bool {
        forall|peer: Seq<char>, id: usize, v: usize| #[trigger]
            self.nodes[k].pends(peer, id, v) ==> self.wire.contains(
                propagation(k, peer, MessageId(id), v),
            )
    }

    /// Whether every pending propagation of every node is on the wire.
    pub open spec fn all_traceable(self) -> bool {
        forall|k: Seq<char>| #[trigger] self.nodes.contains_key(k) ==> self.traceable(k)
    }
}

/// Every pending propagation is still on the wire after any event that can
/// happen.
pub proof fn lemma_step_traceable(c: ClusterView, event: ClusterEvent)
    requires
        c.inv(),
        c.all_traceable(),
        c.admits(event),
    ensures
        c.step(event).all_traceable(),
{
    let after = c.step(event);
    match event {
        ClusterEvent::Resend { msg } => {
            let at = msg.src;
            let node = c.nodes[at];
            let previous = msg.body.msg_id();
            let current = MessageId(c.next_id[at] as usize);
            assert(c.node_sound(at));
            assert(c.envelope_sound(msg));
            lemma_resent_records(node, msg.dest, previous, current);
            assert forall|k: Seq<char>| #[trigger] after.nodes.contains_key(k) implies after.traceable(
                k,
            ) by {
                assert(c.nodes.contains_key(k));
                assert(c.traceable(k));
                assert forall|peer: Seq<char>, id: usize, v: usize| #[trigger]
                    after.nodes[k].pends(peer, id, v) implies after.wire.contains(
                    propagation(k, peer, MessageId(id), v),
                ) by {
                    if k == at && !node.pends(peer, id, v) {
                        assert(node.pends(msg.dest, previous.0, v));
                        assert(msg.body.value() == Some(v));
                        assert(c.again(msg) == propagation(k, peer, MessageId(id), v));
                    } else {
                        assert(c.nodes[k].pends(peer, id, v));
                    }
                }
            }
        },
        _ => {
            let msg = match event {
                ClusterEvent::Request { msg } => msg,
                ClusterEvent::Deliver { msg } => msg,
                ClusterEvent::Resend { msg } => msg,
            };
            if event is Deliver {
                assert(c.envelope_sound(msg));
            }
            assert(c.can_hand(msg));
            let at = msg.dest;
            let node = c.nodes[at];
            assert(c.node_sound(at));
            lemma_handle_pending(node, msg, c.next_id[at]);
            assert forall|k: Seq<char>| #[trigger] after.nodes.contains_key(k) implies after.traceable(
                k,
            ) by {
                assert(c.nodes.contains_key(k));
                assert(c.traceable(k));
                assert forall|peer: Seq<char>, id: usize, v: usize| #[trigger]
                    after.nodes[k].pends(peer, id, v) implies after.wire.contains(
                    propagation(k, peer, MessageId(id), v),
                ) by {
                    if k == at && !node.pends(peer, id, v) {
                    } else {
                        assert(c.nodes[k].pends(peer, id, v));
                    }
                }
            }
        },
    }
}

/// From the start of a cluster on, every pending propagation is on the
/// wire.
pub proof fn lemma_prefix_traceable(ids: Set<Seq<char>>, events: Seq<ClusterEvent>, k: int)
    requires
        ClusterView::init(ids).admits_all(events),
        0 <= k <= events.len(),
    ensures
        ClusterView::init(ids).run(events.take(k)).inv(),
        ClusterView::init(ids).run(events.take(k)).all_traceable(),
    decreases k,
{
    lemma_prefix_inv(ids, events, k);
    if k > 0 {
        lemma_prefix_traceable(ids, events, k - 1);
        assert(events.take(k).drop_last() =~= events.take(k - 1));
        assert(events.take(k).last() == events[k - 1]);
        lemma_step_traceable(ClusterView::init(ids).run(events.take(k - 1)), events[k - 1]);
    } else {
        let c = ClusterView::init(ids);
        assert forall|n: Seq<char>| #[trigger] c.nodes.contains_key(n) implies c.traceable(n) by {
            assert forall|peer: Seq<char>, id: usize, v: usize| #[trigger]
                c.nodes[n].pends(peer, id, v) implies c.wire.contains(
                propagation(n, peer, MessageId(id), v),
            ) by {
                let j = choose|j: int|
                    0 <= j < c.nodes[n].peers.len() && (#[trigger] c.nodes[n].peers[j]).id == peer;
            }
        }
    }
}

/// Progress: no pending propagation is stuck. As long as the peer is a node
/// and ids are left, the propagation is on the wire and can be delivered,
/// the peer's acknowledgment can be delivered in turn, and after that the
/// peer has observed the value, the sender knows that it has, and the
/// propagation is pending no more.
pub proof fn lemma_pending_can_be_resolved(
    c: ClusterView,
    k: Seq<char>,
    peer: Seq<char>,
    id: usize,
    v: usize,
)
    requires
        c.inv(),
        c.all_traceable(),
        c.nodes.contains_key(k),
        c.nodes.contains_key(peer),
        c.nodes[k].pends(peer, id, v),
        c.next_id[peer] + 2 * c.nodes[peer].peers.len() + 2 < usize::MAX,
        c.next_id[k] + 2 * c.nodes[k].peers.len() + 2 < usize::MAX,
    ensures
        ({
            let sent = propagation(k, peer, MessageId(id), v);
            let delivered = c.step(ClusterEvent::Deliver { msg: sent });
            let answer = c.nodes[peer].handle(sent, c.next_id[peer]).reply.unwrap();
            let answered = delivered.step(ClusterEvent::Deliver { msg: answer });
            &&& c.admits(ClusterEvent::Deliver { msg: sent })
            &&& delivered.admits(ClusterEvent::Deliver { msg: answer })
            &&& answered.inv()
            &&& answered.all_traceable()
            &&& answered.nodes[peer].messages.contains(v)
            &&& answered.nodes[k].knows(peer, v)
            &&& !answered.nodes[k].pends(peer, id, v)
        }),
{
    let sent = propagation(k, peer, MessageId(id), v);
    let first = ClusterEvent::Deliver { msg: sent };
    let delivered = c.step(first);
    let handled = c.nodes[peer].handle(sent, c.next_id[peer]);
    let answer = handled.reply.unwrap();
    let second = ClusterEvent::Deliver { msg: answer };
    let answered = delivered.step(second);

    assert(c.traceable(k));
    assert(c.wire.contains(sent));
    assert(c.node_sound(k));
    assert(c.node_sound(peer));
    assert(c.envelope_sound(sent));
    assert(c.admits(first));
    assert(c.can_hand(sent));
    lemma_step_inv(c, first);
    lemma_step_traceable(c, first);
    lemma_handle_records(c.nodes[peer], sent, c.next_id[peer]);
    lemma_handle_pending(c.nodes[peer], sent, c.next_id[peer]);
    lemma_hand_node(c, sent, k);
    lemma_hand_node(c, sent, peer);

    assert(delivered.wire.contains(answer));
    assert(delivered.nodes[peer].messages.contains(v));
    assert(delivered.nodes[k].pends(peer, id, v));
    assert(delivered.nodes[k].peers.len() == c.nodes[k].peers.len()) by {
        if k == peer {
            lemma_propagate(c.nodes[k].id, c.nodes[k].peers, v, c.next_id[k]);
        }
    }
    assert(delivered.admits(second));
    assert(delivered.envelope_sound(answer));
    assert(delivered.can_hand(answer));
    lemma_step_inv(delivered, second);
    lemma_step_traceable(delivered, second);
    lemma_hand_node(delivered, answer, peer);

    let before = delivered.nodes[k];
    let after = answered.nodes[k];
    assert(delivered.node_sound(k));
    assert(after == before.acknowledge(peer, MessageId(id)));
    let j = choose|j: int|
        0 <= j < before.peers.len() && (#[trigger] before.peers[j]).id == peer
            && before.peers[j].state.pending.contains_key(id) && before.peers[j].state.pending[id]
            == v;
    assert(after.peers[j].id == peer);
    assert(after.peers[j].state.known.contains(v));
    assert(after.knows(peer, v));
    if after.pends(peer, id, v) {
        let i = choose|i: int|
            0 <= i < after.peers.len() && (#[trigger] after.peers[i]).id == peer
                && after.peers[i].state.pending.contains_key(id) && after.peers[i].state.pending[id]
                == v;
        assert(before.peers[i].id == peer);
        if i < j {
            assert(before.peers[i].id != before.peers[j].id);
        }
        if j < i {
            assert(before.peers[j].id != before.peers[i].id);
        }
        assert(false);
    }
}

} // verus!
