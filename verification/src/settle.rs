//! A cluster can always come to rest: from every state that it can reach,
//! deliveries alone lead to a state in which no propagation is pending.
//! Together with the convergence of a cluster at rest, this is what an
//! unreliable transport leaves of "every node eventually has every value":
//! the transport only has to deliver what is on the wire.

use vstd::prelude::*;
use vstd::set_lib::lemma_len_subset;
use crate::cluster::{
    connected, lemma_handle_outbound, lemma_handle_pending, lemma_handle_records,
    lemma_pending_can_be_resolved, lemma_rest_is_agreement, lemma_step_inv, route, ClusterEvent,
    ClusterView,
};
use crate::dissemination::{lemma_step_spares, NodeEvent};
use crate::ids::MessageId;
use crate::node::{lemma_propagate, propagation, EnvelopeView};

verus! {

/// What the cluster still owes: each node, peer of that node and value of
/// `values` such that the node does not know the peer to have the value.
pub open spec fn owed(c: ClusterView, values: Set<usize>) -> Set<(Seq<char>, Seq<char>, usize)> {
    Set::new(
        |t: (Seq<char>, Seq<char>, usize)|
            c.nodes.contains_key(t.0) && c.nodes[t.0].is_adjacent(t.1) && values.contains(t.2)
                && !c.nodes[t.0].knows(t.1, t.2),
    )
}

/// Whether every peer of every node is a node of the cluster.
pub open spec fn closed(c: ClusterView) -> bool {
    forall|n: Seq<char>, peer: Seq<char>|
        c.nodes.contains_key(n) && #[trigger] c.nodes[n].is_adjacent(peer) ==> c.nodes.contains_key(
            peer,
        )
}

/// Whether every value of a pending propagation is one of `values`.
pub open spec fn within(c: ClusterView, values: Set<usize>) -> bool {
    forall|n: Seq<char>, peer: Seq<char>, id: usize, v: usize|
        c.nodes.contains_key(n) && #[trigger] c.nodes[n].pends(peer, id, v) ==> values.contains(v)
}

/// Whether every allocator has ids left for `rounds` more propagations that
/// arrive and are answered.
pub open spec fn roomy(c: ClusterView, rounds: nat) -> bool {
    forall|n: Seq<char>| #[trigger]
        c.nodes.contains_key(n) ==> c.next_id[n] + (rounds + 1) * (c.nodes[n].peers.len() + 1)
            < usize::MAX
}

/// Whether all of the events are deliveries.
pub open spec fn deliveries(events: Seq<ClusterEvent>) -> bool {
    forall|k: int| 0 <= k < events.len() ==> (#[trigger] events[k]) is Deliver
}

/// What the delivery of an envelope leaves as it is, and what it can only
/// add to: no node gets or loses a peer, what a node knows of a peer it
/// still knows, a propagation that is pending afterwards was pending before
/// or carries the value that was delivered, and only the addressee takes
/// ids, one for each peer and one for its response at most.
pub proof fn lemma_delivery_keeps(c: ClusterView, msg: EnvelopeView, n: Seq<char>)
    requires
        c.inv(),
        c.admits(ClusterEvent::Deliver { msg }),
        c.nodes.contains_key(n),
    ensures
        c.hand(msg).nodes.contains_key(n),
        c.hand(msg).nodes.dom() == c.nodes.dom(),
        c.hand(msg).nodes[n].peers.len() == c.nodes[n].peers.len(),
        forall|peer: Seq<char>|
            c.nodes[n].is_adjacent(peer) <==> #[trigger] c.hand(msg).nodes[n].is_adjacent(peer),
        forall|peer: Seq<char>, v: usize| #[trigger]
            c.nodes[n].knows(peer, v) ==> c.hand(msg).nodes[n].knows(peer, v),
        forall|peer: Seq<char>, id: usize, v: usize| #[trigger]
            c.hand(msg).nodes[n].pends(peer, id, v) ==> c.nodes[n].pends(peer, id, v)
                || msg.body.value() == Some(v),
        c.next_id[n] <= c.hand(msg).next_id[n] <= c.next_id[n] + (if n == msg.dest {
            c.nodes[n].peers.len() + 1
        } else {
            0
        }),
{
    let at = msg.dest;
    let node = c.nodes[at];
    let next = c.next_id[at];
    let handled = node.handle(msg, next);
    let after = c.hand(msg);
    assert(c.envelope_sound(msg));
    assert(c.node_sound(at));
    assert(c.node_sound(n));
    assert(after.nodes.dom() =~= c.nodes.dom());
    if n == at {
        lemma_handle_records(node, msg, next);
        lemma_handle_outbound(node, msg, next);
        lemma_handle_pending(node, msg, next);
        if msg.body is Broadcast {
            lemma_propagate(node.id, node.peers, msg.body.value().unwrap(), next);
        }
        assert(handled.node.peers.len() == node.peers.len());
        assert forall|i: int| 0 <= i < node.peers.len() implies (#[trigger] handled.node.peers[i]).id
            == node.peers[i].id by {}
        assert forall|peer: Seq<char>| node.is_adjacent(peer) <==> #[trigger] handled.node.is_adjacent(
            peer,
        ) by {
            if node.is_adjacent(peer) {
                let i = choose|i: int| 0 <= i < node.peers.len() && (#[trigger] node.peers[i]).id == peer;
                assert(handled.node.peers[i].id == peer);
            }
            if handled.node.is_adjacent(peer) {
                let i = choose|i: int|
                    0 <= i < handled.node.peers.len() && (#[trigger] handled.node.peers[i]).id
                        == peer;
                assert(node.peers[i].id == peer);
            }
        }
        assert forall|peer: Seq<char>, v: usize| #[trigger] node.knows(peer, v) implies handled.node.knows(
            peer,
            v,
        ) by {
            lemma_step_spares(node, peer, v, NodeEvent::Inbound { msg, next_id: next });
        }
        assert forall|peer: Seq<char>, id: usize, v: usize| #[trigger]
            handled.node.pends(peer, id, v) implies node.pends(peer, id, v) || msg.body.value()
            == Some(v) by {
            if !node.pends(peer, id, v) {
                let m = propagation(node.id, peer, MessageId(id), v);
                assert(handled.outbound.contains(m));
                let k = choose|k: int| 0 <= k < handled.outbound.len() && handled.outbound[k] == m;
                assert(handled.outbound[k].body.value() == msg.body.value());
            }
        }
    }
}

/// One round: a pending propagation is delivered and answered. Afterwards
/// the cluster is in order as before, and it owes what it owed but for the
/// value that has arrived.
pub proof fn lemma_round(
    c: ClusterView,
    values: Set<usize>,
    k: Seq<char>,
    peer: Seq<char>,
    id: usize,
    v: usize,
)
    requires
        c.inv(),
        c.all_traceable(),
        closed(c),
        within(c, values),
        owed(c, values).finite(),
        roomy(c, owed(c, values).len()),
        c.nodes.contains_key(k),
        c.nodes[k].pends(peer, id, v),
    ensures
        ({
            let sent = propagation(k, peer, MessageId(id), v);
            let delivered = c.step(ClusterEvent::Deliver { msg: sent });
            let answer = c.nodes[peer].handle(sent, c.next_id[peer]).reply.unwrap();
            let answered = delivered.step(ClusterEvent::Deliver { msg: answer });
            &&& c.admits(ClusterEvent::Deliver { msg: sent })
            &&& delivered.admits(ClusterEvent::Deliver { msg: answer })
            &&& answered.inv()
            &&& answered.all_traceable()
            &&& closed(answered)
            &&& within(answered, values)
            &&& owed(answered, values).finite()
            &&& owed(answered, values).len() < owed(c, values).len()
            &&& roomy(answered, owed(answered, values).len())
        }),
{
    let sent = propagation(k, peer, MessageId(id), v);
    let first = ClusterEvent::Deliver { msg: sent };
    let delivered = c.step(first);
    let answer = c.nodes[peer].handle(sent, c.next_id[peer]).reply.unwrap();
    let second = ClusterEvent::Deliver { msg: answer };
    let answered = delivered.step(second);
    let before = owed(c, values);
    let after = owed(answered, values);
    let rounds = before.len();

    assert(c.node_sound(k));
    let j = choose|j: int|
        0 <= j < c.nodes[k].peers.len() && (#[trigger] c.nodes[k].peers[j]).id == peer
            && c.nodes[k].peers[j].state.pending.contains_key(id)
            && c.nodes[k].peers[j].state.pending[id] == v;
    assert(c.nodes[k].is_adjacent(peer));
    assert(c.nodes.contains_key(peer));
    assert(values.contains(v));
    assert(!c.nodes[k].knows(peer, v)) by {
        if c.nodes[k].knows(peer, v) {
            let i = choose|i: int|
                0 <= i < c.nodes[k].peers.len() && (#[trigger] c.nodes[k].peers[i]).id == peer
                    && c.nodes[k].peers[i].state.known.contains(v);
            if i < j {
                assert(c.nodes[k].peers[i].id != c.nodes[k].peers[j].id);
            }
            if j < i {
                assert(c.nodes[k].peers[j].id != c.nodes[k].peers[i].id);
            }
            assert(c.nodes[k].peers[j].state.wf());
        }
    }
    assert(before.contains((k, peer, v)));
    assert(rounds >= 1) by {
        vstd::set::axiom_set_remove_len(before, (k, peer, v));
    }
    assert(c.next_id[peer] + 2 * c.nodes[peer].peers.len() + 2 < usize::MAX
        && c.next_id[k] + 2 * c.nodes[k].peers.len() + 2 < usize::MAX) by {
        let p = c.nodes[peer].peers.len();
        let q = c.nodes[k].peers.len();
        assert((rounds + 1) * (p + 1) >= 2 * (p + 1)) by (nonlinear_arith)
            requires
                rounds >= 1,
                p >= 0,
        ;
        assert((rounds + 1) * (q + 1) >= 2 * (q + 1)) by (nonlinear_arith)
            requires
                rounds >= 1,
                q >= 0,
        ;
    }
    lemma_pending_can_be_resolved(c, k, peer, id, v);
    lemma_step_inv(c, first);

    assert forall|n: Seq<char>| #[trigger] answered.nodes.contains_key(n) implies c.nodes.contains_key(
        n,
    ) && delivered.nodes.contains_key(n) by {
        lemma_delivery_keeps(c, sent, k);
        lemma_delivery_keeps(delivered, answer, k);
    }
    assert(closed(answered)) by {
        assert forall|n: Seq<char>, p: Seq<char>|
            answered.nodes.contains_key(n) && #[trigger] answered.nodes[n].is_adjacent(
                p,
            ) implies answered.nodes.contains_key(p) by {
            lemma_delivery_keeps(c, sent, n);
            lemma_delivery_keeps(delivered, answer, n);
            assert(c.nodes[n].is_adjacent(p));
        }
    }
    assert(within(answered, values)) by {
        assert forall|n: Seq<char>, p: Seq<char>, i: usize, w: usize|
            answered.nodes.contains_key(n) && #[trigger] answered.nodes[n].pends(
                p,
                i,
                w,
            ) implies values.contains(w) by {
            lemma_delivery_keeps(c, sent, n);
            lemma_delivery_keeps(delivered, answer, n);
            lemma_handle_outbound(c.nodes[peer], sent, c.next_id[peer]);
            assert(c.node_sound(peer));
            assert(answer.body.value() is None);
            assert(delivered.nodes[n].pends(p, i, w));
        }
    }
    assert(after.subset_of(before.remove((k, peer, v)))) by {
        assert forall|t: (Seq<char>, Seq<char>, usize)| after.contains(t) implies before.remove(
            (k, peer, v),
        ).contains(t) by {
            lemma_delivery_keeps(c, sent, t.0);
            lemma_delivery_keeps(delivered, answer, t.0);
            assert(c.nodes[t.0].is_adjacent(t.1));
            if c.nodes[t.0].knows(t.1, t.2) {
                assert(delivered.nodes[t.0].knows(t.1, t.2));
                assert(answered.nodes[t.0].knows(t.1, t.2));
            }
        }
    }
    vstd::set::axiom_set_remove_len(before, (k, peer, v));
    vstd::set::axiom_set_remove_finite(before, (k, peer, v));
    lemma_len_subset(after, before.remove((k, peer, v)));
    assert(roomy(answered, after.len())) by {
        assert forall|n: Seq<char>| #[trigger]
            answered.nodes.contains_key(n) implies answered.next_id[n] + (after.len() + 1) * (
            answered.nodes[n].peers.len() + 1) < usize::MAX by {
            lemma_delivery_keeps(c, sent, n);
            lemma_delivery_keeps(delivered, answer, n);
            let p = c.nodes[n].peers.len();
            assert(c.node_sound(n));
            assert(c.next_id[n] + (rounds + 1) * (p + 1) < usize::MAX);
            assert(answered.next_id[n] <= c.next_id[n] + (p + 1)) by {
                lemma_handle_outbound(c.nodes[peer], sent, c.next_id[peer]);
                assert(c.node_sound(peer));
                if n == k {
                    assert(answer.dest == k);
                    lemma_step_inv(c, first);
                    assert(delivered.envelope_sound(answer));
                    assert(delivered.node_sound(k));
                    lemma_handle_records(delivered.nodes[k], answer, delivered.next_id[k]);
                    assert(delivered.nodes[k].handle(answer, delivered.next_id[k]).next_id
                        == delivered.next_id[k]);
                }
            }
            assert((after.len() + 1) * (p + 1) + (p + 1) <= (rounds + 1) * (p + 1))
                by (nonlinear_arith)
                requires
                    after.len() + 1 <= rounds,
                    p >= 0,
            ;
        }
    }
}

/// Events that happen one after the other happen to the cluster that the
/// earlier ones have left.
pub proof fn lemma_run_concat(c: ClusterView, first: Seq<ClusterEvent>, then: Seq<ClusterEvent>)
    requires
        c.admits_all(first),
        c.run(first).admits_all(then),
    ensures
        c.run(first + then) == c.run(first).run(then),
        c.admits_all(first + then),
    decreases then.len(),
{
    let all = first + then;
    if then.len() == 0 {
        assert(all =~= first);
    } else {
        let front = then.drop_last();
        assert forall|k: int| 0 <= k < front.len() implies c.run(first).run(front.take(k)).admits(
            #[trigger] front[k],
        ) by {
            assert(front.take(k) =~= then.take(k));
            assert(front[k] == then[k]);
        }
        lemma_run_concat(c, first, front);
        assert(all.drop_last() =~= first + front);
        assert(all.last() == then.last());
        assert forall|k: int| 0 <= k < all.len() implies c.run(all.take(k)).admits(
            #[trigger] all[k],
        ) by {
            if k < all.len() - 1 {
                assert(all.take(k) =~= (first + front).take(k));
                assert(all[k] == (first + front)[k]);
            } else {
                assert(all.take(k) =~= first + front);
                assert(then.take(then.len() - 1) =~= front);
                assert(c.run(first).run(then.take(then.len() - 1)).admits(then[then.len() - 1]));
            }
        }
    }
}

/// Whether the cluster is in order in every respect that coming to rest
/// takes: its invariant holds, every pending propagation is on the wire,
/// every peer is a node, every pending value is one of `values`, what is
/// owed is finite, and the allocators have ids left for all of it.
#[verifier::opaque]
pub open spec fn ready(c: ClusterView, values: Set<usize>) -> bool {
    &&& c.inv()
    &&& c.all_traceable()
    &&& closed(c)
    &&& within(c, values)
    &&& owed(c, values).finite()
    &&& roomy(c, owed(c, values).len())
}

/// A cluster that is not at rest has a pending propagation.
pub proof fn lemma_unrest(c: ClusterView) -> (pending: (Seq<char>, Seq<char>, usize, usize))
    requires
        !c.quiescent(),
    ensures
        c.nodes.contains_key(pending.0),
        c.nodes[pending.0].pends(pending.1, pending.2, pending.3),
{
    let k = choose|k: Seq<char>| c.nodes.contains_key(k) && !c.nodes[k].quiescent();
    let node = c.nodes[k];
    let (j, id) = choose|j: int, id: usize|
        0 <= j < node.peers.len() && #[trigger] node.peers[j].state.pending.contains_key(id);
    (k, node.peers[j].id, id, node.peers[j].state.pending[id])
}

/// The two deliveries of a round, one after the other.
pub open spec fn round_of(c: ClusterView, k: Seq<char>, peer: Seq<char>, id: usize, v: usize) -> Seq<
    ClusterEvent,
> {
    let sent = propagation(k, peer, MessageId(id), v);
    let answer = c.nodes[peer].handle(sent, c.next_id[peer]).reply.unwrap();
    seq![ClusterEvent::Deliver { msg: sent }, ClusterEvent::Deliver { msg: answer }]
}

/// One round leaves a cluster ready that was ready, and owing less.
pub proof fn lemma_round_ready(
    c: ClusterView,
    values: Set<usize>,
    k: Seq<char>,
    peer: Seq<char>,
    id: usize,
    v: usize,
)
    requires
        ready(c, values),
        c.nodes.contains_key(k),
        c.nodes[k].pends(peer, id, v),
    ensures
        deliveries(round_of(c, k, peer, id, v)),
        c.admits_all(round_of(c, k, peer, id, v)),
        ready(c.run(round_of(c, k, peer, id, v)), values),
        owed(c.run(round_of(c, k, peer, id, v)), values).len() < owed(c, values).len(),
{
    reveal(ready);
    lemma_round(c, values, k, peer, id, v);
    let round = round_of(c, k, peer, id, v);
    let delivered = c.step(round[0]);
    let one = round.drop_last();
    assert(one.len() == 1 && one.last() == round[0]);
    assert(one.drop_last() =~= Seq::<ClusterEvent>::empty());
    assert(c.run(one.drop_last()) == c);
    assert(c.run(one) == delivered);
    assert(round.last() == round[1]);
    assert forall|i: int| 0 <= i < round.len() implies c.run(round.take(i)).admits(
        #[trigger] round[i],
    ) by {
        if i == 0 {
            assert(round.take(0) =~= Seq::<ClusterEvent>::empty());
        } else {
            assert(round.take(1) =~= one);
        }
    }
}

/// A cluster that is ready comes to rest by deliveries alone.
pub proof fn lemma_ready_comes_to_rest(c: ClusterView, values: Set<usize>) -> (events: Seq<
    ClusterEvent,
>)
    requires
        ready(c, values),
    ensures
        deliveries(events),
        c.admits_all(events),
        c.run(events).inv(),
        c.run(events).quiescent(),
    decreases owed(c, values).len(),
{
    if c.quiescent() {
        assert(c.inv()) by {
            reveal(ready);
        }
        Seq::empty()
    } else {
        let (k, peer, id, v) = lemma_unrest(c);
        lemma_round_ready(c, values, k, peer, id, v);
        let round = round_of(c, k, peer, id, v);
        let rest = lemma_ready_comes_to_rest(c.run(round), values);
        lemma_run_concat(c, round, rest);
        let events = round + rest;
        assert forall|i: int| 0 <= i < events.len() implies (#[trigger] events[i]) is Deliver by {
            if i >= round.len() {
                assert(events[i] == rest[i - round.len()]);
            } else {
                assert(events[i] == round[i]);
            }
        }
        events
    }
}

/// Rest is within reach: a cluster that is in order, whose peers are all
/// nodes, and which owes only finitely much, comes to rest by deliveries
/// alone, as long as its allocators do not run out of ids on the way.
/// Returns the deliveries that bring it to rest.
pub proof fn lemma_can_come_to_rest(c: ClusterView, values: Set<usize>) -> (events: Seq<
    ClusterEvent,
>)
    requires
        c.inv(),
        c.all_traceable(),
        closed(c),
        within(c, values),
        owed(c, values).finite(),
        roomy(c, owed(c, values).len()),
    ensures
        deliveries(events),
        c.admits_all(events),
        c.run(events).inv(),
        c.run(events).quiescent(),
{
    assert(ready(c, values)) by {
        reveal(ready);
    }
    lemma_ready_comes_to_rest(c, values)
}

/// Deliveries leave the topology as it is: after every beginning of a
/// course of deliveries, the cluster is in order, it has the nodes it had,
/// and each of them has the peers it had.
pub proof fn lemma_deliveries_keep_topology(c: ClusterView, events: Seq<ClusterEvent>, k: int)
    requires
        c.inv(),
        deliveries(events),
        c.admits_all(events),
        0 <= k <= events.len(),
    ensures
        c.run(events.take(k)).inv(),
        c.run(events.take(k)).nodes.dom() == c.nodes.dom(),
        forall|n: Seq<char>, peer: Seq<char>|
            c.nodes.contains_key(n) ==> (c.nodes[n].is_adjacent(peer) <==> #[trigger] c.run(
                events.take(k),
            ).nodes[n].is_adjacent(peer)),
    decreases k,
{
    if k > 0 {
        lemma_deliveries_keep_topology(c, events, k - 1);
        assert(events.take(k).drop_last() =~= events.take(k - 1));
        assert(events.take(k).last() == events[k - 1]);
        let before = c.run(events.take(k - 1));
        let after = c.run(events.take(k));
        let msg = events[k - 1]->Deliver_msg;
        assert(events[k - 1] == ClusterEvent::Deliver { msg });
        lemma_step_inv(before, events[k - 1]);
        assert forall|n: Seq<char>, peer: Seq<char>| c.nodes.contains_key(n) implies (c.nodes[n].is_adjacent(
            peer,
        ) <==> #[trigger] after.nodes[n].is_adjacent(peer)) by {
            assert(before.nodes.contains_key(n));
            lemma_delivery_keeps(before, msg, n);
        }
        assert(after.nodes.dom() == c.nodes.dom()) by {
            lemma_delivery_keeps(before, msg, msg.dest);
        }
    } else {
        assert(events.take(0) =~= Seq::<ClusterEvent>::empty());
    }
}

/// Convergence is within reach: from a connected cluster that is in order,
/// whose peers are all nodes, and which owes only finitely much, deliveries
/// alone lead to a state in which nothing is pending and all nodes have
/// observed the same values, as long as the allocators do not run out of
/// ids on the way. Returns the deliveries.
pub proof fn lemma_convergence_is_within_reach(c: ClusterView, values: Set<usize>) -> (events: Seq<
    ClusterEvent,
>)
    requires
        c.inv(),
        c.all_traceable(),
        closed(c),
        connected(c),
        within(c, values),
        owed(c, values).finite(),
        roomy(c, owed(c, values).len()),
    ensures
        deliveries(events),
        c.admits_all(events),
        c.run(events).quiescent(),
        forall|a: Seq<char>, b: Seq<char>|
            c.nodes.contains_key(a) && c.nodes.contains_key(b) ==> #[trigger] c.run(
                events,
            ).nodes[a].messages == #[trigger] c.run(events).nodes[b].messages,
{
    let events = lemma_can_come_to_rest(c, values);
    let end = c.run(events);
    lemma_deliveries_keep_topology(c, events, events.len() as int);
    assert(events.take(events.len() as int) =~= events);
    assert(connected(end)) by {
        assert forall|a: Seq<char>, b: Seq<char>|
            end.nodes.contains_key(a) && end.nodes.contains_key(b) implies exists|
            path: Seq<Seq<char>>,
        | #[trigger] route(end, path) && path[0] == a && path.last() == b by {
            assert(c.nodes.contains_key(a) && c.nodes.contains_key(b));
            let path = choose|path: Seq<Seq<char>>|
                #[trigger] route(c, path) && path[0] == a && path.last() == b;
            lemma_route_stays(c, end, path, path.len() as int);
            assert(path.take(path.len() as int) =~= path);
        }
    }
    assert forall|a: Seq<char>, b: Seq<char>|
        c.nodes.contains_key(a) && c.nodes.contains_key(b) implies #[trigger] end.nodes[a].messages
        == #[trigger] end.nodes[b].messages by {
        lemma_rest_is_agreement(end, a, b);
    }
    events
}

/// A route in a cluster is a route in every cluster with the same nodes and
/// the same peers.
pub proof fn lemma_route_stays(c: ClusterView, d: ClusterView, path: Seq<Seq<char>>, k: int)
    requires
        route(c, path),
        1 <= k <= path.len(),
        d.nodes.dom() == c.nodes.dom(),
        closed(c),
        forall|n: Seq<char>, peer: Seq<char>|
            c.nodes.contains_key(n) ==> (c.nodes[n].is_adjacent(peer) <==> #[trigger] d.nodes[n].is_adjacent(
                peer,
            )),
    ensures
        route(d, path.take(k)),
        c.nodes.contains_key(path[k - 1]),
    decreases k,
{
    let front = path.take(k);
    if k > 1 {
        lemma_route_stays(c, d, path, k - 1);
        assert(c.nodes[path[k - 2]].is_adjacent(path[k - 2 + 1]));
        assert forall|t: int| 0 <= t < front.len() - 1 implies #[trigger] d.nodes[front[t]].is_adjacent(
            front[t + 1],
        ) by {
            if t < k - 2 {
                assert(path.take(k - 1)[t] == front[t]);
                assert(path.take(k - 1)[t + 1] == front[t + 1]);
                assert(d.nodes[path.take(k - 1)[t]].is_adjacent(path.take(k - 1)[t + 1]));
            } else {
                assert(c.nodes[path[t]].is_adjacent(path[t + 1]));
                assert(d.nodes[path[t]].is_adjacent(path[t + 1]));
            }
        }
    } else {
        assert(front[0] == path[0]);
    }
}

} // verus!
