use std::collections::HashSet;

use aurora::{
    BroadcastBody, BroadcastNode, Message, MessageId, MessageIdCounter, Tracker, TrackerAction,
    TrackerStep,
};

fn name(s: &str) -> String {
    String::from(s)
}

fn envelope(src: &str, dest: &str, body: BroadcastBody) -> Message<BroadcastBody> {
    Message { src: name(src), dest: name(dest), body }
}

fn propagation(dest: &str, msg_id: usize, message: usize) -> Message<BroadcastBody> {
    envelope("n1", dest, BroadcastBody::Broadcast { msg_id: MessageId(msg_id), message })
}

/// The node n1 and its tracker after the topology `{n1: [n2, n3], n2: [n1],
/// n3: [n1]}` was applied and `broadcast(message = 1000)` arrived from a
/// client at time 0.
fn after_the_broadcast() -> (BroadcastNode, Tracker, MessageIdCounter, Vec<Message<BroadcastBody>>) {
    let mut counter = MessageIdCounter::new();
    let mut tracker = Tracker::new();
    let mut node = BroadcastNode::init(name("n1"), vec![name("n1"), name("n2"), name("n3")]);
    let topology = envelope(
        "c1",
        "n1",
        BroadcastBody::Topology {
            msg_id: MessageId(1),
            topology: vec![
                (name("n1"), vec![name("n2"), name("n3")]),
                (name("n2"), vec![name("n1")]),
                (name("n3"), vec![name("n1")]),
            ],
        },
    );
    assert!(node.accepts(&topology));
    node.handle_msg(&mut counter, topology);
    let broadcast =
        envelope("c1", "n1", BroadcastBody::Broadcast { msg_id: MessageId(2), message: 1000 });
    let handled = node.handle_msg(&mut counter, broadcast);
    for msg in handled.outbound.iter() {
        tracker.handle_msg(TrackerAction::Track(msg.clone()), 0);
    }
    (node, tracker, counter, handled.outbound)
}

#[test]
fn broadcast_is_propagated_to_both_neighbours() {
    let (node, tracker, counter, outbound) = after_the_broadcast();
    // The topology response took id 0.
    assert_eq!(outbound, vec![propagation("n2", 1, 1000), propagation("n3", 2, 1000)]);
    let ids: HashSet<MessageId> = outbound
        .iter()
        .map(|msg| match &msg.body {
            BroadcastBody::Broadcast { msg_id, .. } => *msg_id,
            other => panic!("not a propagation: {other:?}"),
        })
        .collect();
    assert_eq!(ids.len(), 2);
    assert_eq!(node.handle_read(), [1000].into_iter().collect::<HashSet<usize>>());
    assert_eq!(tracker.len(), 2);
    assert_eq!(counter.peek(), 4);
}

#[test]
fn acknowledged_peer_gets_no_resend() {
    let (mut node, mut tracker, mut counter, _) = after_the_broadcast();
    let ack = envelope(
        "n2",
        "n1",
        BroadcastBody::BroadcastOk { msg_id: MessageId(0), in_reply_to: MessageId(1) },
    );
    let handled = node.handle_msg(&mut counter, ack);
    assert!(node.knows(&name("n2"), 1000));
    assert_eq!(handled.cancel, Some(MessageId(1)));
    tracker.handle_msg(TrackerAction::Stop(MessageId(1)), 20);

    // Well after the retry interval, the only resend is the one to n3.
    let mut resent = Vec::new();
    let mut now = 150;
    while now <= 900 {
        loop {
            match tracker.poll(&mut counter, now) {
                TrackerStep::Resend { msg, .. } => resent.push(msg),
                TrackerStep::Cancelled(id) => assert_eq!(id, MessageId(1)),
                TrackerStep::Wait(_) | TrackerStep::Idle => break,
            }
        }
        now += 150;
    }
    assert!(!resent.is_empty());
    assert!(resent.iter().all(|msg| msg.dest == "n3"));
    assert!(node.handle_broadcast(&mut counter, 1000).1.is_empty());
}

#[test]
fn withheld_acknowledgment_causes_a_resend_under_a_new_id() {
    let (mut node, mut tracker, mut counter, _) = after_the_broadcast();
    node.handle_broadcast_ok(&name("n2"), MessageId(1));
    tracker.handle_msg(TrackerAction::Stop(MessageId(1)), 20);

    // n3 stays silent for 300 ms.
    assert_eq!(tracker.poll(&mut counter, 149), TrackerStep::Cancelled(MessageId(1)));
    assert_eq!(tracker.poll(&mut counter, 149), TrackerStep::Wait(1));
    let first = tracker.poll(&mut counter, 150);
    assert_eq!(
        first,
        TrackerStep::Resend { previous: MessageId(2), msg: propagation("n3", 4, 1000) }
    );
    node.handle_resend(&name("n3"), MessageId(2), MessageId(4));
    assert_eq!(tracker.poll(&mut counter, 150), TrackerStep::Wait(150));
    let second = tracker.poll(&mut counter, 300);
    assert_eq!(
        second,
        TrackerStep::Resend { previous: MessageId(4), msg: propagation("n3", 5, 1000) }
    );
    node.handle_resend(&name("n3"), MessageId(4), MessageId(5));

    // n3 finally acknowledges the propagation that is current.
    let ack = envelope(
        "n3",
        "n1",
        BroadcastBody::BroadcastOk { msg_id: MessageId(0), in_reply_to: MessageId(5) },
    );
    let handled = node.handle_msg(&mut counter, ack);
    assert_eq!(handled.cancel, Some(MessageId(5)));
    tracker.handle_msg(TrackerAction::Stop(MessageId(5)), 310);
    assert!(node.knows(&name("n3"), 1000));
    assert_eq!(tracker.poll(&mut counter, 310), TrackerStep::Cancelled(MessageId(5)));
    assert_eq!(tracker.poll(&mut counter, 10_000), TrackerStep::Idle);
}

#[test]
fn read_after_the_broadcast_returns_the_value() {
    let (mut node, _, mut counter, _) = after_the_broadcast();
    node.handle_broadcast_ok(&name("n2"), MessageId(1));
    node.handle_broadcast_ok(&name("n3"), MessageId(2));
    let handled =
        node.handle_msg(&mut counter, envelope("c1", "n1", BroadcastBody::Read { msg_id: MessageId(3) }));
    assert_eq!(
        handled.reply,
        Some(envelope(
            "n1",
            "c1",
            BroadcastBody::ReadOk {
                msg_id: MessageId(4),
                in_reply_to: MessageId(3),
                messages: [1000].into_iter().collect(),
            }
        ))
    );
}

#[test]
fn two_nodes_converge_over_a_lossy_link() {
    // n1 and n2 are each other's only neighbour. The first propagation from
    // n1 is lost; the resend arrives.
    let link = |node: &str, peer: &str| vec![(name(node), vec![name(peer)])];
    let mut c1 = MessageIdCounter::new();
    let mut c2 = MessageIdCounter::new();
    let mut n1 = BroadcastNode::init(name("n1"), vec![name("n1"), name("n2")]);
    let mut n2 = BroadcastNode::init(name("n2"), vec![name("n1"), name("n2")]);
    n1.handle_topology(&link("n1", "n2"));
    n2.handle_topology(&link("n2", "n1"));
    let mut t1 = Tracker::new();

    let (_, lost) = n1.handle_broadcast(&mut c1, 7);
    assert_eq!(lost.len(), 1);
    for msg in lost.iter() {
        t1.handle_msg(TrackerAction::Track(msg.clone()), 0);
    }
    assert!(n2.handle_read().is_empty());

    let resent = match t1.poll(&mut c1, 150) {
        TrackerStep::Resend { previous, msg } => {
            n1.handle_resend(&msg.dest, previous, MessageId(1));
            msg
        },
        other => panic!("expected a resend, got {other:?}"),
    };
    let at_n2 = n2.handle_msg(&mut c2, resent);
    // n2 learns the value and gossips it back to n1, which is its neighbour.
    assert_eq!(n2.handle_read(), n1.handle_read());
    let ack = at_n2.reply.expect("a broadcast is answered");
    let back = n1.handle_msg(&mut c1, ack);
    assert!(n1.knows(&name("n2"), 7));
    assert_eq!(back.cancel, Some(MessageId(1)));
    t1.handle_msg(TrackerAction::Stop(MessageId(1)), 160);
    assert_eq!(t1.poll(&mut c1, 160), TrackerStep::Cancelled(MessageId(1)));
    assert_eq!(t1.poll(&mut c1, 1000), TrackerStep::Idle);

    // The echo of the value from n2 to n1 is answered and changes nothing.
    for msg in at_n2.outbound {
        let handled = n1.handle_msg(&mut c1, msg);
        assert!(handled.outbound.is_empty());
        let ack = handled.reply.expect("a broadcast is answered");
        n2.handle_msg(&mut c2, ack);
    }
    assert!(n2.knows(&name("n1"), 7));
    assert_eq!(n1.handle_read(), n2.handle_read());
}
