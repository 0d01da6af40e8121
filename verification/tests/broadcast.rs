use std::collections::HashSet;

use aurora::{
    BroadcastBody, BroadcastNode, Message, MessageId, MessageIdCounter, TrackerAction,
};

fn name(s: &str) -> String {
    String::from(s)
}

fn topology() -> Vec<(String, Vec<String>)> {
    vec![
        (name("n1"), vec![name("n2"), name("n3")]),
        (name("n2"), vec![name("n1")]),
        (name("n3"), vec![name("n1")]),
    ]
}

fn request(src: &str, dest: &str, body: BroadcastBody) -> Message<BroadcastBody> {
    Message { src: name(src), dest: name(dest), body }
}

fn propagation(dest: &str, msg_id: usize, message: usize) -> Message<BroadcastBody> {
    request("n1", dest, BroadcastBody::Broadcast { msg_id: MessageId(msg_id), message })
}

fn values(of: &[usize]) -> HashSet<usize> {
    of.iter().copied().collect()
}

/// The node n1 of the three-node cluster, with its topology applied.
fn n1() -> BroadcastNode {
    let mut node = BroadcastNode::init(name("n1"), vec![name("n1"), name("n2"), name("n3")]);
    assert!(node.accepts_topology(&topology()));
    node.handle_topology(&topology());
    node
}

#[test]
fn init_has_no_peers_and_no_values() {
    let node = BroadcastNode::init(name("n1"), vec![name("n1"), name("n2")]);
    assert_eq!(node.id(), "n1");
    assert!(node.peers().is_empty());
    assert!(node.handle_read().is_empty());
    assert!(!node.is_adjacent(&name("n2")));
}

#[test]
fn topology_gives_the_node_its_neighbours() {
    let node = n1();
    assert_eq!(node.peers(), vec![name("n2"), name("n3")]);
    assert!(node.is_adjacent(&name("n2")));
    assert!(node.is_adjacent(&name("n3")));
    assert!(!node.is_adjacent(&name("n1")));
    assert!(!node.knows(&name("n2"), 1000));
}

#[test]
fn topology_lists_each_neighbour_once() {
    let mut node = BroadcastNode::init(name("n1"), vec![]);
    let doubled =
        vec![(name("n0"), vec![name("n9")]), (name("n1"), vec![name("n3"), name("n2"), name("n3")])];
    assert!(node.accepts_topology(&doubled));
    node.handle_topology(&doubled);
    assert_eq!(node.peers(), vec![name("n3"), name("n2")]);
}

#[test]
fn topology_without_the_node_is_not_accepted() {
    let node = BroadcastNode::init(name("n4"), vec![]);
    assert!(!node.accepts_topology(&topology()));
    assert!(!node.accepts_topology(&vec![]));
    let msg = request("c1", "n4", BroadcastBody::Topology { msg_id: MessageId(1), topology: topology() });
    assert!(!node.accepts(&msg));
}

#[test]
fn topology_is_accepted_once_only() {
    let node = n1();
    assert!(!node.accepts_topology(&topology()));
    let msg = request("c1", "n1", BroadcastBody::Topology { msg_id: MessageId(1), topology: topology() });
    assert!(!node.accepts(&msg));
    assert!(node.accepts(&request("c1", "n1", BroadcastBody::Read { msg_id: MessageId(1) })));
}

#[test]
fn broadcast_goes_to_both_neighbours_under_fresh_ids() {
    let mut node = n1();
    let mut counter = MessageIdCounter::new();
    let (applied, outbound) = node.handle_broadcast(&mut counter, 1000);
    assert!(applied);
    assert_eq!(outbound, vec![propagation("n2", 0, 1000), propagation("n3", 1, 1000)]);
    assert_eq!(counter.peek(), 2);
    assert_eq!(node.handle_read(), values(&[1000]));
    assert_eq!(node.pending(&name("n2"), MessageId(0)), Some(1000));
    assert_eq!(node.pending(&name("n3"), MessageId(1)), Some(1000));
    assert_eq!(node.pending(&name("n2"), MessageId(1)), None);
}

#[test]
fn broadcast_request_is_answered_after_the_propagations() {
    let mut node = n1();
    let mut counter = MessageIdCounter::new();
    counter.next_id();
    let msg = request("c1", "n1", BroadcastBody::Broadcast { msg_id: MessageId(1), message: 1000 });
    assert!(node.accepts(&msg));
    let handled = node.handle_msg(&mut counter, msg);
    assert_eq!(handled.outbound, vec![propagation("n2", 1, 1000), propagation("n3", 2, 1000)]);
    assert_eq!(
        handled.reply,
        Some(request(
            "n1",
            "c1",
            BroadcastBody::BroadcastOk { msg_id: MessageId(3), in_reply_to: MessageId(1) }
        ))
    );
    assert_eq!(handled.cancel, None);
    assert_eq!(counter.peek(), 4);
    assert_eq!(node.handle_read(), values(&[1000]));
}

#[test]
fn acknowledgment_marks_the_peer_as_knowing() {
    let mut node = n1();
    let mut counter = MessageIdCounter::new();
    node.handle_broadcast(&mut counter, 1000);
    let ack = request(
        "n2",
        "n1",
        BroadcastBody::BroadcastOk { msg_id: MessageId(5), in_reply_to: MessageId(0) },
    );
    let handled = node.handle_msg(&mut counter, ack);
    assert_eq!(handled.reply, None);
    assert!(handled.outbound.is_empty());
    assert_eq!(handled.cancel, Some(MessageId(0)));
    assert_eq!(counter.peek(), 2);
    assert!(node.knows(&name("n2"), 1000));
    assert!(!node.knows(&name("n3"), 1000));
    assert_eq!(node.pending(&name("n2"), MessageId(0)), None);
    assert_eq!(node.pending(&name("n3"), MessageId(1)), Some(1000));
}

#[test]
fn acknowledgment_signals_the_tracker_even_when_stale() {
    let mut node = n1();
    let signal = node.handle_broadcast_ok(&name("n2"), MessageId(41));
    assert_eq!(signal, TrackerAction::Stop(MessageId(41)));
    let signal = node.handle_broadcast_ok(&name("n7"), MessageId(42));
    assert_eq!(signal, TrackerAction::Stop(MessageId(42)));
    assert!(!node.knows(&name("n2"), 1000));
    assert!(node.handle_read().is_empty());
}

#[test]
fn acknowledgment_from_the_wrong_peer_changes_nothing() {
    let mut node = n1();
    let mut counter = MessageIdCounter::new();
    node.handle_broadcast(&mut counter, 1000);
    node.handle_broadcast_ok(&name("n3"), MessageId(0));
    assert!(!node.knows(&name("n3"), 1000));
    assert!(!node.knows(&name("n2"), 1000));
    assert_eq!(node.pending(&name("n2"), MessageId(0)), Some(1000));
    assert_eq!(node.pending(&name("n3"), MessageId(1)), Some(1000));
}

#[test]
fn duplicate_acknowledgment_is_ignored() {
    let mut node = n1();
    let mut counter = MessageIdCounter::new();
    node.handle_broadcast(&mut counter, 1000);
    node.handle_broadcast_ok(&name("n2"), MessageId(0));
    node.handle_broadcast_ok(&name("n2"), MessageId(0));
    assert!(node.knows(&name("n2"), 1000));
    assert_eq!(node.pending(&name("n2"), MessageId(0)), None);
}

#[test]
fn second_broadcast_of_a_value_sends_nothing() {
    let mut node = n1();
    let mut counter = MessageIdCounter::new();
    node.handle_broadcast(&mut counter, 1000);
    let (applied, again) = node.handle_broadcast(&mut counter, 1000);
    assert!(!applied);
    assert!(again.is_empty());
    assert_eq!(counter.peek(), 2);
    assert_eq!(node.handle_read(), values(&[1000]));
    assert_eq!(node.pending(&name("n2"), MessageId(0)), Some(1000));
    assert_eq!(node.pending(&name("n3"), MessageId(1)), Some(1000));
}

#[test]
fn acknowledged_value_is_not_sent_to_that_peer_again() {
    let mut node = n1();
    let mut counter = MessageIdCounter::new();
    node.handle_broadcast(&mut counter, 1000);
    node.handle_broadcast_ok(&name("n2"), MessageId(0));
    node.handle_broadcast_ok(&name("n3"), MessageId(1));
    assert!(node.handle_broadcast(&mut counter, 1000).1.is_empty());
    let (_, other) = node.handle_broadcast(&mut counter, 7);
    assert_eq!(other, vec![propagation("n2", 2, 7), propagation("n3", 3, 7)]);
    node.handle_broadcast_ok(&name("n2"), MessageId(2));
    assert_eq!(node.handle_broadcast(&mut counter, 7), (false, vec![]));
    assert!(node.knows(&name("n2"), 7));
    assert!(!node.knows(&name("n3"), 7));
    assert_eq!(node.handle_read(), values(&[7, 1000]));
}

#[test]
fn broadcast_before_the_topology_is_only_observed() {
    let mut node = BroadcastNode::init(name("n1"), vec![]);
    let mut counter = MessageIdCounter::new();
    assert_eq!(node.handle_broadcast(&mut counter, 5), (true, vec![]));
    assert_eq!(counter.peek(), 0);
    assert_eq!(node.handle_read(), values(&[5]));
}

#[test]
fn read_returns_the_observed_values() {
    let mut node = n1();
    let mut counter = MessageIdCounter::new();
    node.handle_broadcast(&mut counter, 1000);
    let handled =
        node.handle_msg(&mut counter, request("c1", "n1", BroadcastBody::Read { msg_id: MessageId(8) }));
    assert_eq!(
        handled.reply,
        Some(request(
            "n1",
            "c1",
            BroadcastBody::ReadOk {
                msg_id: MessageId(2),
                in_reply_to: MessageId(8),
                messages: values(&[1000]),
            }
        ))
    );
    assert!(handled.outbound.is_empty());
    assert_eq!(handled.cancel, None);
    assert_eq!(counter.peek(), 3);
}

#[test]
fn read_is_a_copy() {
    let mut node = n1();
    let mut counter = MessageIdCounter::new();
    node.handle_broadcast(&mut counter, 1);
    let mut snapshot = node.handle_read();
    snapshot.insert(2);
    assert_eq!(node.handle_read(), values(&[1]));
}

#[test]
fn topology_request_is_applied_and_answered() {
    let mut node = BroadcastNode::init(name("n1"), vec![]);
    let mut counter = MessageIdCounter::new();
    let msg = request("c1", "n1", BroadcastBody::Topology { msg_id: MessageId(1), topology: topology() });
    assert!(node.accepts(&msg));
    let handled = node.handle_msg(&mut counter, msg);
    assert_eq!(
        handled.reply,
        Some(request(
            "n1",
            "c1",
            BroadcastBody::TopologyOk { msg_id: MessageId(0), in_reply_to: MessageId(1) }
        ))
    );
    assert!(handled.outbound.is_empty());
    assert_eq!(handled.cancel, None);
    assert_eq!(node.peers(), vec![name("n2"), name("n3")]);
}

#[test]
fn responses_are_ignored() {
    let mut node = n1();
    let mut counter = MessageIdCounter::new();
    let read_ok = request(
        "n2",
        "n1",
        BroadcastBody::ReadOk { msg_id: MessageId(2), in_reply_to: MessageId(1), messages: values(&[3]) },
    );
    let handled = node.handle_msg(&mut counter, read_ok);
    assert_eq!(handled.reply, None);
    assert!(handled.outbound.is_empty());
    assert_eq!(handled.cancel, None);
    let topology_ok = request(
        "n2",
        "n1",
        BroadcastBody::TopologyOk { msg_id: MessageId(2), in_reply_to: MessageId(1) },
    );
    let handled = node.handle_msg(&mut counter, topology_ok);
    assert_eq!(handled.reply, None);
    assert!(handled.outbound.is_empty());
    assert_eq!(handled.cancel, None);
    assert_eq!(counter.peek(), 0);
    assert!(node.handle_read().is_empty());
}

#[test]
fn resend_moves_the_pending_value_to_the_new_id() {
    let mut node = n1();
    let mut counter = MessageIdCounter::new();
    node.handle_broadcast(&mut counter, 1000);
    node.handle_resend(&name("n3"), MessageId(1), MessageId(2));
    assert_eq!(node.pending(&name("n3"), MessageId(1)), None);
    assert_eq!(node.pending(&name("n3"), MessageId(2)), Some(1000));
    // The acknowledgment of the old id no longer resolves anything.
    node.handle_broadcast_ok(&name("n3"), MessageId(1));
    assert!(!node.knows(&name("n3"), 1000));
    node.handle_broadcast_ok(&name("n3"), MessageId(2));
    assert!(node.knows(&name("n3"), 1000));
}

#[test]
fn resend_of_what_is_not_pending_changes_nothing() {
    let mut node = n1();
    let mut counter = MessageIdCounter::new();
    node.handle_broadcast(&mut counter, 1000);
    node.handle_broadcast_ok(&name("n2"), MessageId(0));
    node.handle_resend(&name("n2"), MessageId(0), MessageId(2));
    node.handle_resend(&name("n9"), MessageId(1), MessageId(3));
    assert_eq!(node.pending(&name("n2"), MessageId(2)), None);
    assert_eq!(node.pending(&name("n3"), MessageId(1)), Some(1000));
    assert!(node.knows(&name("n2"), 1000));
}

#[test]
fn value_in_flight_is_not_sent_twice() {
    let mut node = n1();
    let mut counter = MessageIdCounter::new();
    node.handle_broadcast(&mut counter, 1000);
    node.handle_broadcast_ok(&name("n2"), MessageId(0));
    // n3 has not answered: the value is still in flight to it.
    assert!(node.handle_broadcast(&mut counter, 1000).1.is_empty());
    assert_eq!(counter.peek(), 2);
}

#[test]
fn peer_count_is_the_number_of_neighbours() {
    assert_eq!(BroadcastNode::init(name("n1"), vec![]).peer_count(), 0);
    assert_eq!(n1().peer_count(), 2);
}
