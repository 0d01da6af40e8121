//! What holds of the dissemination engine over any course of events: the
//! node's records stay well formed, a value that is broadcast again changes
//! nothing, a value that a peer has acknowledged is never sent to that peer
//! again, and every observed value is, for every peer, acknowledged or in
//! flight.

use vstd::prelude::*;
use crate::adjacent::AdjecentView;
use crate::body::BroadcastBodyView;
use crate::ids::MessageId;
use crate::node::{
    lemma_distinct, lemma_propagate, lemma_propagate_outbound, lemma_propagate_peers, needed_by,
    neighbours_of, propagate, EnvelopeView, NodeView, PeerView, Propagation,
};

verus! {

/// Something that happens to a node.
pub enum NodeEvent {
    /// The envelope `msg` arrives while `next_id` is the id that the
    /// allocator hands out next.
    Inbound { msg: EnvelopeView, next_id: int },
    /// The retry tracker reports that it has sent the propagation
    /// `previous` to `peer` again under the id `current`.
    Resent { peer: Seq<char>, previous: MessageId, current: MessageId },
}

/// Whether the envelope is a propagation of `value` to `dest`.
pub open spec fn carries(m: EnvelopeView, dest: Seq<char>, value: usize) -> bool {
    &&& m.dest == dest
    &&& m.body matches BroadcastBodyView::Broadcast { message, .. } && message == value
}

impl NodeView {
    /// Whether the node may be handed the event.
    pub open spec fn admits(self, event: NodeEvent) -> bool {
        match event {
            NodeEvent::Inbound { msg, .. } => self.accepts(msg),
            NodeEvent::Resent { .. } => true,
        }
    }

    /// The node after the event.
    pub open spec fn step(self, event: NodeEvent) -> NodeView {
        match event {
            NodeEvent::Inbound { msg, next_id } => self.handle(msg, next_id).node,
            NodeEvent::Resent { peer, previous, current } => self.resent(peer, previous, current),
        }
    }

    /// The propagations that the node sends on the event.
    pub open spec fn emits(self, event: NodeEvent) -> Seq<EnvelopeView> {
        match event {
            NodeEvent::Inbound { msg, next_id } => self.handle(msg, next_id).outbound,
            NodeEvent::Resent { .. } => Seq::empty(),
        }
    }

    /// The node after the events, in their order.
    pub open spec fn run(self, events: Seq<NodeEvent>) -> NodeView
        decreases events.len(),
    {
        if events.len() == 0 {
            self
        } else {
            self.run(events.drop_last()).step(events.last())
        }
    }

    /// Whether the node may be handed the events one after the other.
    pub open spec fn admits_all(self, events: Seq<NodeEvent>) -> bool {
        forall|k: int| 0 <= k < events.len() ==> self.run(events.take(k)).admits(#[trigger] events[k])
    }

    /// Whether the event comes as the protocol has it: a topology before any
    /// value was observed, and ids that are not pending yet. This is what
    /// one allocator for all ids, and a topology at the start, give.
    pub open spec fn timely(self, event: NodeEvent) -> bool {
        match event {
            NodeEvent::Inbound { msg, next_id } => match msg.body {
                BroadcastBodyView::Broadcast { .. } => {
                    &&& 0 <= next_id
                    &&& next_id + self.peers.len() <= usize::MAX
                    &&& forall|id: usize|
                        next_id <= id < next_id + self.peers.len() ==> #[trigger] self.unused(id)
                },
                BroadcastBodyView::Topology { .. } => self.messages =~= Set::empty(),
                _ => true,
            },
            NodeEvent::Resent { current, .. } => self.unused(current.0),
        }
    }
}

/// An acknowledgment, and a resend, keep the table of peers well formed.
pub proof fn lemma_records_stay_wf(node: NodeView, peer: Seq<char>, a: MessageId, b: MessageId)
    requires
        node.wf(),
    ensures
        node.acknowledge(peer, a).wf(),
        node.resent(peer, a, b).wf(),
{
    let acked = node.acknowledge(peer, a);
    assert forall|i: int| 0 <= i < acked.peers.len() implies (#[trigger] acked.peers[i]).state.wf() by {
        assert(node.peers[i].state.wf());
        node.peers[i].state.lemma_update_pending_wf(a);
    }
    let again = node.resent(peer, a, b);
    assert forall|i: int| 0 <= i < again.peers.len() implies (#[trigger] again.peers[i]).state.wf() by {
        assert(node.peers[i].state.wf());
        node.peers[i].state.lemma_replace_pending_wf(a, b);
    }
    assert forall|i: int, j: int| 0 <= i < j < acked.peers.len() implies (
    #[trigger] acked.peers[i]).id != (#[trigger] acked.peers[j]).id by {
        assert(node.peers[i].id != node.peers[j].id);
    }
    assert forall|i: int, j: int| 0 <= i < j < again.peers.len() implies (
    #[trigger] again.peers[i]).id != (#[trigger] again.peers[j]).id by {
        assert(node.peers[i].id != node.peers[j].id);
    }
}

/// Every event that a well-formed node admits leaves it well formed.
pub proof fn lemma_step_wf(node: NodeView, event: NodeEvent)
    requires
        node.wf(),
        node.admits(event),
    ensures
        node.step(event).wf(),
{
    let after = node.step(event);
    match event {
        NodeEvent::Inbound { msg, next_id } => {
            match msg.body {
                BroadcastBodyView::Broadcast { msg_id, message } => {
                    lemma_propagate(node.id, node.peers, message, next_id);
                    assert forall|i: int, j: int| 0 <= i < j < after.peers.len() implies (
                    #[trigger] after.peers[i]).id != (#[trigger] after.peers[j]).id by {
                        assert(node.peers[i].id != node.peers[j].id);
                    }
                    assert forall|i: int| 0 <= i < after.peers.len() implies (
                    #[trigger] after.peers[i]).state.wf() by {
                        assert(node.peers[i].state.wf());
                    }
                },
                BroadcastBodyView::BroadcastOk { msg_id, in_reply_to } => {
                    lemma_records_stay_wf(node, msg.src, in_reply_to, in_reply_to);
                },
                BroadcastBodyView::Topology { msg_id, topology } => {
                    lemma_distinct(neighbours_of(topology, node.id));
                },
                _ => {},
            }
        },
        NodeEvent::Resent { peer, previous, current } => {
            lemma_records_stay_wf(node, peer, previous, current);
        },
    }
}

/// A well-formed node is well formed after every beginning of a course of
/// events that it admits.
pub proof fn lemma_prefix_wf(node: NodeView, events: Seq<NodeEvent>, k: int)
    requires
        node.wf(),
        node.admits_all(events),
        0 <= k <= events.len(),
    ensures
        node.run(events.take(k)).wf(),
    decreases k,
{
    if k > 0 {
        lemma_prefix_wf(node, events, k - 1);
        assert(events.take(k).drop_last() =~= events.take(k - 1));
        assert(events.take(k).last() == events[k - 1]);
        lemma_step_wf(node.run(events.take(k - 1)), events[k - 1]);
    }
}

/// A well-formed node stays well formed over every course of events that it
/// admits.
pub proof fn lemma_run_wf(node: NodeView, events: Seq<NodeEvent>)
    requires
        node.wf(),
        node.admits_all(events),
    ensures
        node.run(events).wf(),
{
    lemma_prefix_wf(node, events, events.len() as int);
    assert(events.take(events.len() as int) =~= events);
}

/// A table in which no peer needs the value is left as it is, and nothing
/// goes out.
pub proof fn lemma_propagate_nothing(src: Seq<char>, peers: Seq<PeerView>, value: usize, next_id: int)
    requires
        forall|i: int| 0 <= i < peers.len() ==> !(#[trigger] peers[i]).state.needs(value),
    ensures
        propagate(src, peers, value, next_id) == (Propagation {
            peers,
            outbound: Seq::empty(),
            next_id,
        }),
    decreases peers.len(),
{
    if peers.len() > 0 {
        let front = peers.drop_last();
        assert forall|i: int| 0 <= i < front.len() implies !(#[trigger] front[i]).state.needs(
            value,
        ) by {
            assert(front[i] == peers[i]);
        }
        lemma_propagate_nothing(src, front, value, next_id);
        assert(!peers[peers.len() - 1].state.needs(value));
        assert(front.push(peers.last()) =~= peers);
    } else {
        assert(peers =~= Seq::empty());
    }
}

/// Idempotence of a broadcast: when a value arrives a second time, the node
/// is left exactly as the first arrival left it, with the same observed
/// values, and no propagation goes out and no id is taken.
pub proof fn lemma_broadcast_twice(node: NodeView, value: usize, first_id: int, second_id: int)
    ensures
        ({
            let once = node.broadcast(value, first_id).0;
            let again = once.broadcast(value, second_id);
            &&& again.0 == once
            &&& again.0.messages == once.messages
            &&& again.1.outbound == Seq::<EnvelopeView>::empty()
            &&& again.1.next_id == second_id
        }),
{
    let once = node.broadcast(value, first_id).0;
    lemma_propagate_peers(node.id, node.peers, value, first_id);
    assert forall|i: int| 0 <= i < once.peers.len() implies !(#[trigger] once.peers[i]).state.needs(
        value,
    ) by {
        node.peers[i].state.lemma_add_message_covers(
            MessageId(propagate(node.id, node.peers.take(i), value, first_id).next_id as usize),
            value,
        );
    }
    lemma_propagate_nothing(once.id, once.peers, value, second_id);
    assert(once.messages.insert(value) =~= once.messages);
}

/// A broadcast sends nothing to a peer that is known to have the value.
pub proof fn lemma_broadcast_spares(node: NodeView, peer: Seq<char>, value: usize, next_id: int)
    requires
        node.wf(),
        node.knows(peer, value),
    ensures
        forall|k: int|
            0 <= k < node.broadcast(value, next_id).1.outbound.len() ==> !carries(
                #[trigger] node.broadcast(value, next_id).1.outbound[k],
                peer,
                value,
            ),
{
    let sent = node.broadcast(value, next_id).1;
    lemma_propagate_outbound(node.id, node.peers, value, next_id);
    let at = choose|i: int|
        0 <= i < node.peers.len() && (#[trigger] node.peers[i]).id == peer
            && node.peers[i].state.known.contains(value);
    assert forall|k: int| 0 <= k < sent.outbound.len() implies !carries(
        #[trigger] sent.outbound[k],
        peer,
        value,
    ) by {
        let m = sent.outbound[k];
        if m.dest == peer {
            assert(needed_by(node.peers, value, m.dest));
            let i = choose|i: int|
                0 <= i < node.peers.len() && (#[trigger] node.peers[i]).id == m.dest
                    && node.peers[i].state.needs(value);
            if i < at {
                assert(node.peers[i].id != node.peers[at].id);
            }
            if at < i {
                assert(node.peers[at].id != node.peers[i].id);
            }
        }
    }
}

/// What a node knows of a peer, it keeps: after any event that it admits,
/// the peer is still known to have the value, and the event itself sends no
/// propagation of the value to the peer.
pub proof fn lemma_step_spares(node: NodeView, peer: Seq<char>, value: usize, event: NodeEvent)
    requires
        node.wf(),
        node.knows(peer, value),
        node.admits(event),
    ensures
        node.step(event).knows(peer, value),
        forall|k: int|
            0 <= k < node.emits(event).len() ==> !carries(
                #[trigger] node.emits(event)[k],
                peer,
                value,
            ),
{
    let after = node.step(event);
    let at = choose|i: int|
        0 <= i < node.peers.len() && (#[trigger] node.peers[i]).id == peer
            && node.peers[i].state.known.contains(value);
    match event {
        NodeEvent::Inbound { msg, next_id } => {
            match msg.body {
                BroadcastBodyView::Broadcast { msg_id, message } => {
                    lemma_propagate_peers(node.id, node.peers, message, next_id);
                    node.peers[at].state.lemma_add_message_covers(
                        MessageId(
                            propagate(node.id, node.peers.take(at), message, next_id).next_id as usize,
                        ),
                        message,
                    );
                    assert(after.peers[at].id == peer);
                    assert(after.peers[at].state.known.contains(value));
                    lemma_propagate_outbound(node.id, node.peers, message, next_id);
                    if message == value {
                        lemma_broadcast_spares(node, peer, value, next_id);
                    }
                },
                BroadcastBodyView::BroadcastOk { msg_id, in_reply_to } => {
                    assert(after.peers[at].id == peer);
                    assert(after.peers[at].state.known.contains(value));
                },
                BroadcastBodyView::Topology { .. } => {
                    assert(!node.configured);
                },
                _ => {
                    assert(after.peers[at].id == peer);
                },
            }
        },
        NodeEvent::Resent { peer: to, previous, current } => {
            assert(after.peers[at].id == peer);
            assert(after.peers[at].state.known.contains(value));
        },
    }
}

/// What a node knows of a peer, it still knows after every beginning of a
/// course of events that it admits.
pub proof fn lemma_prefix_knows(
    node: NodeView,
    peer: Seq<char>,
    value: usize,
    events: Seq<NodeEvent>,
    k: int,
)
    requires
        node.wf(),
        node.knows(peer, value),
        node.admits_all(events),
        0 <= k <= events.len(),
    ensures
        node.run(events.take(k)).wf(),
        node.run(events.take(k)).knows(peer, value),
    decreases k,
{
    if k > 0 {
        lemma_prefix_knows(node, peer, value, events, k - 1);
        assert(events.take(k).drop_last() =~= events.take(k - 1));
        assert(events.take(k).last() == events[k - 1]);
        lemma_step_wf(node.run(events.take(k - 1)), events[k - 1]);
        lemma_step_spares(node.run(events.take(k - 1)), peer, value, events[k - 1]);
    }
}

/// No redundant propagation: once a peer has acknowledged a propagation, the
/// value that it carried is never sent to that peer again, whatever events
/// follow.
pub proof fn lemma_acknowledged_is_not_sent_again(
    node: NodeView,
    peer: Seq<char>,
    msg_id: MessageId,
    events: Seq<NodeEvent>,
)
    requires
        node.wf(),
        node.is_adjacent(peer),
        node.adjacent(peer).pending.contains_key(msg_id.0),
        node.acknowledge(peer, msg_id).admits_all(events),
    ensures
        ({
            let value = node.adjacent(peer).pending[msg_id.0];
            let acknowledged = node.acknowledge(peer, msg_id);
            &&& acknowledged.knows(peer, value)
            &&& forall|k: int, j: int|
                0 <= k < events.len() && 0 <= j < acknowledged.run(events.take(k)).emits(
                    events[k],
                ).len() ==> !carries(
                    #[trigger] acknowledged.run(events.take(k)).emits(events[k])[j],
                    peer,
                    value,
                )
        }),
{
    let value = node.adjacent(peer).pending[msg_id.0];
    let acknowledged = node.acknowledge(peer, msg_id);
    let at = choose|i: int| 0 <= i < node.peers.len() && (#[trigger] node.peers[i]).id == peer;
    assert(acknowledged.peers[at].id == peer);
    assert(acknowledged.peers[at].state.known.contains(value));
    lemma_records_stay_wf(node, peer, msg_id, msg_id);
    assert forall|k: int, j: int|
        0 <= k < events.len() && 0 <= j < acknowledged.run(events.take(k)).emits(
            events[k],
        ).len() implies !carries(
        #[trigger] acknowledged.run(events.take(k)).emits(events[k])[j],
        peer,
        value,
    ) by {
        lemma_prefix_knows(acknowledged, peer, value, events, k);
        lemma_step_spares(acknowledged.run(events.take(k)), peer, value, events[k]);
    }
}

/// A record that has a value or is about to get it still does so after
/// another value was offered under an id that was not pending, after an
/// acknowledgment, and after a resend under an id that was not pending.
pub proof fn lemma_record_still_covers(
    record: AdjecentView,
    value: usize,
    msg_id: MessageId,
    other: usize,
    fresh: MessageId,
)
    requires
        record.covers(value),
        !record.pending.contains_key(fresh.0),
    ensures
        record.add_message(fresh, other).covers(value),
        record.update_pending(msg_id).covers(value),
        record.replace_pending(msg_id, fresh).covers(value),
{
    if !record.known.contains(value) {
        let id = choose|id: usize|
            record.pending.contains_key(id) && #[trigger] record.pending[id] == value;
        let offered = record.add_message(fresh, other);
        assert(offered.pending.contains_key(id) && offered.pending[id] == value);
        let acknowledged = record.update_pending(msg_id);
        if id != msg_id.0 {
            assert(acknowledged.pending.contains_key(id) && acknowledged.pending[id] == value);
        }
        let again = record.replace_pending(msg_id, fresh);
        if id != msg_id.0 {
            assert(again.pending.contains_key(id) && again.pending[id] == value);
        } else {
            assert(again.pending.contains_key(fresh.0) && again.pending[fresh.0] == value);
        }
    }
}

/// At-least-once delivery, as far as it lies with the node: if every
/// observed value is acknowledged or in flight for every peer, this is still
/// so after any event that comes as the protocol has it.
pub proof fn lemma_step_covered(node: NodeView, event: NodeEvent)
    requires
        node.wf(),
        node.covered(),
        node.admits(event),
        node.timely(event),
    ensures
        node.step(event).covered(),
{
    let after = node.step(event);
    match event {
        NodeEvent::Inbound { msg, next_id } => {
            match msg.body {
                BroadcastBodyView::Broadcast { msg_id, message } => {
                    lemma_propagate_peers(node.id, node.peers, message, next_id);
                    assert forall|i: int, value: usize|
                        0 <= i < after.peers.len() && after.messages.contains(
                            value,
                        ) implies #[trigger] after.peers[i].state.covers(value) by {
                        let taken = propagate(node.id, node.peers.take(i), message, next_id).next_id;
                        lemma_propagate(node.id, node.peers.take(i), message, next_id);
                        let fresh = MessageId(taken as usize);
                        assert(node.unused(taken as usize));
                        assert(!node.peers[i].state.pending.contains_key(fresh.0));
                        node.peers[i].state.lemma_add_message_covers(fresh, message);
                        if value != message {
                            assert(node.peers[i].state.covers(value));
                            lemma_record_still_covers(
                                node.peers[i].state,
                                value,
                                fresh,
                                message,
                                fresh,
                            );
                        }
                    }
                },
                BroadcastBodyView::BroadcastOk { msg_id, in_reply_to } => {
                    assert forall|i: int, value: usize|
                        0 <= i < after.peers.len() && after.messages.contains(
                            value,
                        ) implies #[trigger] after.peers[i].state.covers(value) by {
                        assert(node.peers[i].state.covers(value));
                        if node.peers[i].id == msg.src {
                            let record = node.peers[i].state;
                            if record.known.contains(value) {
                            } else {
                                let id = choose|id: usize|
                                    record.pending.contains_key(id) && #[trigger] record.pending[id]
                                        == value;
                                let acknowledged = record.update_pending(in_reply_to);
                                if id != in_reply_to.0 {
                                    assert(acknowledged.pending.contains_key(id)
                                        && acknowledged.pending[id] == value);
                                }
                            }
                        }
                    }
                },
                BroadcastBodyView::Topology { .. } => {
                    assert(node.messages =~= Set::empty());
                },
                _ => {},
            }
        },
        NodeEvent::Resent { peer, previous, current } => {
            assert forall|i: int, value: usize|
                0 <= i < after.peers.len() && after.messages.contains(
                    value,
                ) implies #[trigger] after.peers[i].state.covers(value) by {
                assert(node.peers[i].state.covers(value));
                if node.peers[i].id == peer {
                    lemma_record_still_covers(
                        node.peers[i].state,
                        value,
                        previous,
                        value,
                        current,
                    );
                }
            }
        },
    }
}

/// Whether each of the events comes as the protocol has it, when they are
/// handed to the node one after the other.
pub open spec fn timely_all(node: NodeView, events: Seq<NodeEvent>) -> bool {
    forall|k: int| 0 <= k < events.len() ==> node.run(events.take(k)).timely(#[trigger] events[k])
}

/// From its start on, a node has every value that it observed acknowledged
/// or in flight for every peer, after every beginning of a course of events
/// that it admitted and that came as the protocol has it.
pub proof fn lemma_prefix_covered(id: Seq<char>, events: Seq<NodeEvent>, k: int)
    requires
        NodeView::init(id).admits_all(events),
        timely_all(NodeView::init(id), events),
        0 <= k <= events.len(),
    ensures
        NodeView::init(id).run(events.take(k)).wf(),
        NodeView::init(id).run(events.take(k)).covered(),
    decreases k,
{
    if k > 0 {
        lemma_prefix_covered(id, events, k - 1);
        assert(events.take(k).drop_last() =~= events.take(k - 1));
        assert(events.take(k).last() == events[k - 1]);
        let before = NodeView::init(id).run(events.take(k - 1));
        lemma_step_wf(before, events[k - 1]);
        lemma_step_covered(before, events[k - 1]);
    }
}

/// From its start on, a node has every value that it observed acknowledged
/// or in flight for every peer, whatever events it admitted, as long as they
/// came as the protocol has it. So whenever nothing is pending, every peer
/// is known to have every value that the node has observed.
pub proof fn lemma_every_value_reaches_every_peer(id: Seq<char>, events: Seq<NodeEvent>)
    requires
        NodeView::init(id).admits_all(events),
        timely_all(NodeView::init(id), events),
    ensures
        NodeView::init(id).run(events).wf(),
        NodeView::init(id).run(events).covered(),
        NodeView::init(id).run(events).quiescent() ==> forall|i: int, value: usize|
            0 <= i < NodeView::init(id).run(events).peers.len() && NodeView::init(id).run(
                events,
            ).messages.contains(value) ==> #[trigger] NodeView::init(id).run(
                events,
            ).peers[i].state.known.contains(value),
{
    let end = NodeView::init(id).run(events);
    lemma_prefix_covered(id, events, events.len() as int);
    assert(events.take(events.len() as int) =~= events);
    if end.quiescent() {
        assert forall|i: int, value: usize|
            0 <= i < end.peers.len() && end.messages.contains(
                value,
            ) implies #[trigger] end.peers[i].state.known.contains(value) by {
            assert(end.peers[i].state.covers(value));
            if end.peers[i].state.in_flight(value) {
                let id = choose|id: usize|
                    end.peers[i].state.pending.contains_key(id)
                        && #[trigger] end.peers[i].state.pending[id] == value;
                assert(!end.peers[i].state.pending.contains_key(id));
            }
        }
    }
}

} // verus!
