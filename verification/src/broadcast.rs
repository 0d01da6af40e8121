//! The dissemination engine of a broadcast node.
//!
//! The engine decides, for each inbound envelope, how the node's records
//! change and which envelopes go out. It sends nothing itself: its caller
//! emits the envelopes and passes the propagations on to the retry tracker.

use vstd::prelude::*;
use std::collections::HashSet;
use crate::adjacent::Adjecent;
use crate::body::{copy_values, BroadcastBody};
use crate::ids::{MessageId, MessageIdCounter};
use crate::message::Message;
use crate::node::{
    distinct, fresh_peers, is_entry_of, lemma_distinct, lemma_propagate, lists, neighbours_of,
    propagate, NodeView, PeerView,
};
use crate::tracker::{TrackerAction, TrackerActionView};

verus! {

/// An adjacent peer: its id, and what is recorded about it.
#[derive(Debug)]
struct Peer {
    id: String,
    state: Adjecent,
}

impl View for Peer {
    type V = PeerView;

    closed spec fn view(&self) -> PeerView {
        PeerView { id: self.id@, state: self.state@ }
    }
}

impl DeepView for Peer {
    type V = PeerView;

    closed spec fn deep_view(&self) -> PeerView {
        self@
    }
}

/// What the engine asks of its caller after it has handled an inbound
/// envelope.
#[derive(Debug)]
pub struct Handled {
    /// The response to send back, if one is due.
    pub reply: Option<Message<BroadcastBody>>,
    /// The propagations: each is to be sent and to be handed to the retry
    /// tracker.
    pub outbound: Vec<Message<BroadcastBody>>,
    /// The id whose tracking the retry tracker is to stop.
    pub cancel: Option<MessageId>,
}

/// A node of the broadcast cluster.
///
/// As soon as a value is received, propagations go out to the adjacent
/// peers that are not known to have it. Each one stays pending until the
/// peer acknowledges it.
#[derive(Debug)]
pub struct BroadcastNode {
    id: String,
    messages: HashSet<usize>,
    // The adjacent peers with the values we know they have
    adjecents: Vec<Peer>,
    configured: bool,
}

impl View for BroadcastNode {
    type V = NodeView;

    closed spec fn view(&self) -> NodeView {
        NodeView {
            id: self.id@,
            messages: self.messages@,
            peers: self.adjecents.deep_view(),
            configured: self.configured,
        }
    }
}

impl BroadcastNode {
    /// The record about each peer keeps its index.
    pub closed spec fn indexed(&self) -> bool {
        forall|i: int| 0 <= i < self.adjecents.len() ==> (#[trigger] self.adjecents[i]).state.indexed()
    }

    /// The invariant of the node: that of its model, and that of the record
    /// about each peer.
    pub open spec fn wf(&self) -> bool {
        self@.wf() && self.indexed()
    }

    /// Creates the node `node_id`. It has no peers until the topology is
    /// applied.
    pub fn init(node_id: String, nodes: Vec<String>) -> (node: BroadcastNode)
        ensures
            node.wf(),
            node@ == NodeView::init(node_id@),
    {
        let node = BroadcastNode {
            id: node_id,
            messages: HashSet::new(),
            adjecents: Vec::with_capacity(nodes.len()),
            configured: false,
        };
        assert(node@.peers =~= Seq::empty());
        node
    }

    /// The node's own id.
    pub fn id(&self) -> (id: &String)
        ensures
            id@ == self@.id,
    {
        &self.id
    }

    /// The position of `node` in the table of peers, if it is adjacent.
    fn position(&self, node: &String) -> (at: Option<usize>)
        ensures
            match at {
                Some(i) => i < self@.peers.len() && self@.peers[i as int].id == node@,
                None => !self@.is_adjacent(node@),
            },
    {
        let mut i: usize = 0;
        while i < self.adjecents.len()
            invariant
                i <= self.adjecents.len(),
                forall|j: int| 0 <= j < i ==> (#[trigger] self@.peers[j]).id != node@,
            decreases self.adjecents.len() - i,
        {
            if self.adjecents[i].id == *node {
                return Some(i);
            }
            i += 1;
        }
        None
    }

    /// The number of adjacent peers.
    pub fn peer_count(&self) -> (n: usize)
        ensures
            n == self@.peers.len(),
    {
        self.adjecents.len()
    }

    /// The ids of the adjacent peers, in the order in which propagations go
    /// out to them.
    pub fn peers(&self) -> (ids: Vec<String>)
        ensures
            ids.len() == self@.peers.len(),
            forall|i: int| 0 <= i < ids.len() ==> (#[trigger] ids[i])@ == self@.peers[i].id,
    {
        let mut ids: Vec<String> = Vec::new();
        let mut i: usize = 0;
        while i < self.adjecents.len()
            invariant
                i <= self.adjecents.len(),
                ids.len() == i,
                forall|j: int| 0 <= j < i ==> (#[trigger] ids[j])@ == self@.peers[j].id,
            decreases self.adjecents.len() - i,
        {
            ids.push(self.adjecents[i].id.clone());
            i += 1;
        }
        ids
    }

    /// Whether `peer` is adjacent and known to have `value`.
    pub fn knows(&self, peer: &String, value: usize) -> (known: bool)
        requires
            self.wf(),
        ensures
            known == self@.knows(peer@, value),
    {
        match self.position(peer) {
            Some(i) => {
                let known = self.adjecents[i].state.knows(value);
                proof {
                    if self@.knows(peer@, value) {
                        let at = choose|at: int|
                            0 <= at < self@.peers.len() && (#[trigger] self@.peers[at]).id == peer@
                                && self@.peers[at].state.known.contains(value);
                        if at < i {
                            assert(self@.peers[at].id != self@.peers[i as int].id);
                        }
                        if i < at {
                            assert(self@.peers[i as int].id != self@.peers[at].id);
                        }
                    }
                    if known {
                        assert(self@.peers[i as int].state.known.contains(value));
                    }
                }
                known
            },
            None => false,
        }
    }

    /// The value whose propagation to `peer` is pending under `msg_id`, if
    /// `peer` is adjacent and there is one.
    pub fn pending(&self, peer: &String, msg_id: MessageId) -> (value: Option<usize>)
        requires
            self.wf(),
        ensures
            value == (if self@.is_adjacent(peer@) && self@.adjacent(peer@).pending.contains_key(
                msg_id.0,
            ) {
                Some(self@.adjacent(peer@).pending[msg_id.0])
            } else {
                None
            }),
    {
        match self.position(peer) {
            Some(i) => {
                proof {
                    let at = choose|at: int|
                        0 <= at < self@.peers.len() && (#[trigger] self@.peers[at]).id == peer@;
                    if at < i {
                        assert(self@.peers[at].id != self@.peers[i as int].id);
                    }
                    if i < at {
                        assert(self@.peers[i as int].id != self@.peers[at].id);
                    }
                }
                self.adjecents[i].state.pending_value(msg_id)
            },
            None => None,
        }
    }

    /// Whether `node` is an adjacent peer.
    pub fn is_adjacent(&self, node: &String) -> (adjacent: bool)
        ensures
            adjacent == self@.is_adjacent(node@),
    {
        self.position(node).is_some()
    }

    /// Confirms that a propagation has arrived: the peer `src` has
    /// acknowledged `msg_id`. The value that was pending under this id
    /// becomes known to the peer. Returns the signal for the retry tracker,
    /// which is owed whether or not the id was pending.
    pub fn handle_broadcast_ok(&mut self, src: &String, msg_id: MessageId) -> (signal: TrackerAction)
        requires
            old(self).wf(),
        ensures
            final(self).wf(),
            final(self)@ == old(self)@.acknowledge(src@, msg_id),
            signal@ == TrackerActionView::Stop(msg_id),
    {
        match self.position(src) {
            Some(i) => {
                self.adjecents[i].state.update_pending(msg_id);
                assert(self@.peers =~= old(self)@.acknowledge(src@, msg_id).peers);
            },
            None => {
                assert(self@.peers =~= old(self)@.acknowledge(src@, msg_id).peers);
            },
        }
        TrackerAction::Stop(msg_id)
    }

    /// Records that the retry tracker has sent the propagation `previous` to
    /// the peer `dest` again under the id `current`, so that the
    /// acknowledgment of `current` resolves it. A peer that is not adjacent,
    /// or an id that is no longer pending, changes nothing.
    pub fn handle_resend(&mut self, dest: &String, previous: MessageId, current: MessageId)
        requires
            old(self).wf(),
        ensures
            final(self).wf(),
            final(self)@ == old(self)@.resent(dest@, previous, current),
    {
        match self.position(dest) {
            Some(i) => {
                self.adjecents[i].state.replace_pending(previous, current);
                assert(self@.peers =~= old(self)@.resent(dest@, previous, current).peers);
            },
            None => {
                assert(self@.peers =~= old(self)@.resent(dest@, previous, current).peers);
            },
        }
    }

    /// A copy of the values that the node has observed.
    pub fn handle_read(&self) -> (messages: HashSet<usize>)
        ensures
            messages@ == self@.messages,
    {
        copy_values(&self.messages)
    }

    /// Whether the node may apply `topology`: it has not applied one yet, and
    /// the topology has an entry for it.
    pub fn accepts_topology(&self, topology: &Vec<(String, Vec<String>)>) -> (accepted: bool)
        ensures
            accepted == self@.accepts_topology(topology.deep_view()),
    {
        if self.configured {
            return false;
        }
        let ghost entries = topology.deep_view();
        let mut i: usize = 0;
        while i < topology.len()
            invariant
                i <= topology.len(),
                !self.configured,
                entries == topology.deep_view(),
                forall|j: int| 0 <= j < i ==> (#[trigger] entries[j]).0 != self.id@,
            decreases topology.len() - i,
        {
            assert(entries[i as int].0 == topology[i as int].0@);
            if topology[i].0 == self.id {
                assert(lists(entries, self.id@));
                return true;
            }
            i += 1;
        }
        false
    }

    /// Applies the topology: the neighbours that it gives this node become
    /// the node's peers, each once and in the order of the list, with
    /// nothing known about any of them.
    pub fn handle_topology(&mut self, topology: &Vec<(String, Vec<String>)>)
        requires
            old(self).wf(),
            old(self)@.accepts_topology(topology.deep_view()),
        ensures
            final(self).wf(),
            final(self)@ == old(self)@.apply_topology(topology.deep_view()),
    {
        let ghost entries = topology.deep_view();
        let mut at: usize = 0;
        while at < topology.len() && topology[at].0 != self.id
            invariant
                at <= topology.len(),
                entries == topology.deep_view(),
                self.id == old(self).id,
                forall|j: int| 0 <= j < at ==> (#[trigger] entries[j]).0 != self.id@,
                forall|j: int|
                    0 <= j < topology.len() ==> (#[trigger] entries[j]).0 == topology[j].0@,
            decreases topology.len() - at,
        {
            at += 1;
        }
        assert(at < topology.len()) by {
            let i = choose|i: int| 0 <= i < entries.len() && (#[trigger] entries[i]).0 == self.id@;
        }
        assert(is_entry_of(entries, self.id@, at as int));
        assert(neighbours_of(entries, self.id@) == entries[at as int].1) by {
            let chosen = choose|i: int| is_entry_of(entries, self.id@, i);
            assert(is_entry_of(entries, self.id@, chosen));
            if chosen < at {
                assert(entries[chosen].0 != self.id@);
            }
            if at < chosen {
                assert(entries[at as int].0 != self.id@);
            }
        }
        let neighbours = &topology[at].1;
        let ghost names = neighbours.deep_view();
        assert(names == entries[at as int].1);
        assert(self@.peers.len() == 0);
        assert(self@.peers =~= fresh_peers(distinct(names.take(0))));
        let mut k: usize = 0;
        while k < neighbours.len()
            invariant
                k <= neighbours.len(),
                names == neighbours.deep_view(),
                self.id == old(self).id,
                self.messages == old(self).messages,
                !self.configured,
                self.indexed(),
                self@.peers == fresh_peers(distinct(names.take(k as int))),
            decreases neighbours.len() - k,
        {
            let ghost seen = distinct(names.take(k as int));
            assert(names.take(k + 1).drop_last() =~= names.take(k as int));
            assert(names.take(k + 1).last() == neighbours[k as int]@);
            match self.position(&neighbours[k]) {
                Some(i) => {
                    assert(seen[i as int] == neighbours[k as int]@);
                },
                None => {
                    assert(!seen.contains(neighbours[k as int]@)) by {
                        if seen.contains(neighbours[k as int]@) {
                            let i = choose|i: int|
                                0 <= i < seen.len() && seen[i] == neighbours[k as int]@;
                            assert(self@.peers[i].id == neighbours[k as int]@);
                        }
                    }
                    let ghost before = self.adjecents@;
                    let peer = Peer { id: neighbours[k].clone(), state: Adjecent::new() };
                    self.adjecents.push(peer);
                    assert forall|i: int| 0 <= i < self@.peers.len() implies self@.peers[i]
                        == fresh_peers(seen.push(neighbours[k as int]@))[i] by {
                        if i < before.len() {
                            assert(self.adjecents@[i] == before[i]);
                            assert(fresh_peers(seen)[i] == before[i]@);
                        }
                    }
                    assert(self@.peers =~= fresh_peers(seen.push(neighbours[k as int]@)));
                },
            }
            k += 1;
        }
        assert(names.take(k as int) =~= names);
        self.configured = true;
        proof {
            lemma_distinct(names);
        }
    }

    /// Starts propagating a value: the node observes `message`, and every
    /// peer that is not known to have it, and to which it is not in flight
    /// already, gets a propagation under a fresh id from `counter`.
    ///
    /// Returns whether the value is new to the node, and the propagations,
    /// in the order of the peers. Each of them is to be sent and to be
    /// handed to the retry tracker.
    pub fn handle_broadcast(&mut self, counter: &mut MessageIdCounter, message: usize) -> (result: (
        bool,
        Vec<Message<BroadcastBody>>,
    ))
        requires
            old(self).wf(),
            old(counter)@ + old(self)@.peers.len() <= usize::MAX,
        ensures
            final(self).wf(),
            final(self)@ == old(self)@.broadcast(message, old(counter)@ as int).0,
            result.0 == !old(self)@.messages.contains(message),
            result.1.deep_view() == old(self)@.broadcast(message, old(counter)@ as int).1.outbound,
            final(counter)@ == old(self)@.broadcast(message, old(counter)@ as int).1.next_id,
    {
        let ghost start = old(self)@.peers;
        let ghost first_id = old(counter)@ as int;
        let applied = self.messages.insert(message);
        let mut outbound: Vec<Message<BroadcastBody>> = Vec::new();
        let mut i: usize = 0;
        assert(start.take(0) =~= Seq::<PeerView>::empty());
        assert(self@.peers =~= Seq::<PeerView>::empty() + start.skip(0));
        assert(outbound.deep_view() =~= Seq::empty());
        while i < self.adjecents.len()
            invariant
                i <= self.adjecents.len() == start.len(),
                self.id == old(self).id,
                self.configured == old(self).configured,
                self.messages@ == old(self).messages@.insert(message),
                self.indexed(),
                forall|j: int| 0 <= j < start.len() ==> (#[trigger] start[j]).state.wf(),
                first_id + start.len() <= usize::MAX,
                first_id <= counter@ <= first_id + i,
                counter@ == propagate(self.id@, start.take(i as int), message, first_id).next_id,
                outbound.deep_view() == propagate(
                    self.id@,
                    start.take(i as int),
                    message,
                    first_id,
                ).outbound,
                self@.peers == propagate(self.id@, start.take(i as int), message, first_id).peers
                    + start.skip(i as int),
            decreases self.adjecents.len() - i,
        {
            let ghost before = propagate(self.id@, start.take(i as int), message, first_id);
            let ghost table = self.adjecents@;
            let ghost sent = outbound.deep_view();
            proof {
                lemma_propagate(self.id@, start.take(i as int), message, first_id);
                assert(start.take(i + 1).drop_last() =~= start.take(i as int));
                assert(start.take(i + 1).last() == start[i as int]);
                assert(self@.peers[i as int] == start.skip(i as int)[0]);
                assert(self.adjecents@[i as int]@ == start[i as int]);
            }
            let body = self.adjecents[i].state.add_message(counter, message);
            match body {
                Some(body) => {
                    let msg = Message {
                        src: self.id.clone(),
                        dest: self.adjecents[i].id.clone(),
                        body,
                    };
                    outbound.push(msg);
                    assert(outbound.deep_view() =~= sent.push(msg@));
                },
                None => {},
            }
            proof {
                let after = propagate(self.id@, start.take(i + 1), message, first_id);
                assert forall|j: int| 0 <= j < self@.peers.len() implies self@.peers[j] == (
                after.peers + start.skip(i + 1))[j] by {
                    if j != i {
                        assert(self.adjecents@[j] == table[j]);
                        assert(table[j]@ == (before.peers + start.skip(i as int))[j]);
                    }
                    if j < i {
                        assert(after.peers[j] == before.peers[j]);
                    }
                    if j > i {
                        assert(start.skip(i as int)[j - i] == start.skip(i + 1)[j - i - 1]);
                    }
                }
                assert(self@.peers =~= after.peers + start.skip(i + 1));
            }
            i += 1;
        }
        proof {
            assert(start.take(i as int) =~= start);
            lemma_propagate(self.id@, start, message, first_id);
            assert(self@.peers =~= propagate(self.id@, start, message, first_id).peers);
        }
        (applied, outbound)
    }

    /// Whether the node may handle `msg`: a topology must be one that the
    /// node accepts, anything else is handled always.
    pub fn accepts(&self, msg: &Message<BroadcastBody>) -> (accepted: bool)
        ensures
            accepted == self@.accepts(msg@),
    {
        match &msg.body {
            BroadcastBody::Topology { topology, .. } => self.accepts_topology(topology),
            _ => true,
        }
    }

    /// Handles one inbound envelope.
    ///
    /// A broadcast is observed and propagated, and answered with
    /// `BroadcastOk`. An acknowledgment is recorded for its sender, and the
    /// retry tracker is to stop tracking the id it refers to. A read is
    /// answered with the values observed so far, a topology is applied and
    /// answered, and the two remaining responses are ignored. Every response
    /// goes back to the sender under a fresh id.
    pub fn handle_msg(&mut self, counter: &mut MessageIdCounter, msg: Message<BroadcastBody>) -> (handled:
        Handled)
        requires
            old(self).wf(),
            old(self)@.accepts(msg@),
            old(counter)@ + old(self)@.peers.len() < usize::MAX,
        ensures
            final(self).wf(),
            final(self)@ == old(self)@.handle(msg@, old(counter)@ as int).node,
            handled.reply.deep_view() == old(self)@.handle(msg@, old(counter)@ as int).reply,
            handled.outbound.deep_view() == old(self)@.handle(msg@, old(counter)@ as int).outbound,
            handled.cancel == old(self)@.handle(msg@, old(counter)@ as int).cancel,
            final(counter)@ == old(self)@.handle(msg@, old(counter)@ as int).next_id,
    {
        let mut msg = msg;
        match &msg.body {
            BroadcastBody::Broadcast { msg_id, message } => {
                let msg_id = *msg_id;
                let message = *message;
                proof {
                    lemma_propagate(self@.id, self@.peers, message, counter@ as int);
                }
                let (_, outbound) = self.handle_broadcast(counter, message);
                let reply_id = counter.next_id();
                let response = BroadcastBody::BroadcastOk { msg_id: reply_id, in_reply_to: msg_id };
                msg.into_response(
                    |body: &mut BroadcastBody|
                        ensures (*final(body) == response)
                        { *body = response; },
                );
                Handled { reply: Some(msg), outbound, cancel: None }
            },
            BroadcastBody::BroadcastOk { in_reply_to, .. } => {
                let in_reply_to = *in_reply_to;
                self.handle_broadcast_ok(&msg.src, in_reply_to);
                let outbound: Vec<Message<BroadcastBody>> = Vec::new();
                assert(outbound.deep_view() =~= Seq::empty());
                Handled { reply: None, outbound, cancel: Some(in_reply_to) }
            },
            BroadcastBody::Read { msg_id } => {
                let msg_id = *msg_id;
                let reply_id = counter.next_id();
                let messages = self.handle_read();
                let response = BroadcastBody::ReadOk { msg_id: reply_id, in_reply_to: msg_id, messages };
                msg.into_response(
                    |body: &mut BroadcastBody|
                        ensures (*final(body) == response)
                        { *body = response; },
                );
                let outbound: Vec<Message<BroadcastBody>> = Vec::new();
                assert(outbound.deep_view() =~= Seq::empty());
                Handled { reply: Some(msg), outbound, cancel: None }
            },
            BroadcastBody::Topology { msg_id, topology } => {
                let msg_id = *msg_id;
                self.handle_topology(topology);
                let reply_id = counter.next_id();
                let response = BroadcastBody::TopologyOk { msg_id: reply_id, in_reply_to: msg_id };
                msg.into_response(
                    |body: &mut BroadcastBody|
                        ensures (*final(body) == response)
                        { *body = response; },
                );
                let outbound: Vec<Message<BroadcastBody>> = Vec::new();
                assert(outbound.deep_view() =~= Seq::empty());
                Handled { reply: Some(msg), outbound, cancel: None }
            },
            BroadcastBody::ReadOk { .. } | BroadcastBody::TopologyOk { .. } => {
                let outbound: Vec<Message<BroadcastBody>> = Vec::new();
                assert(outbound.deep_view() =~= Seq::empty());
                Handled { reply: None, outbound, cancel: None }
            },
        }
    }
}

} // verus!
