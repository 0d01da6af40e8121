use aurora::{BroadcastBody, Message, MessageId, MessageIdCounter, Tracker, TrackerAction, TrackerStep};

fn propagation(dest: &str, msg_id: usize, message: usize) -> Message<BroadcastBody> {
    Message {
        src: String::from("n1"),
        dest: String::from(dest),
        body: BroadcastBody::Broadcast { msg_id: MessageId(msg_id), message },
    }
}

#[test]
fn empty_tracker_is_idle() {
    let mut tracker = Tracker::new();
    let mut counter = MessageIdCounter::new();
    assert_eq!(tracker.len(), 0);
    assert_eq!(tracker.latest(), 0);
    assert_eq!(tracker.poll(&mut counter, 10), TrackerStep::Idle);
    assert_eq!(counter.peek(), 0);
}

#[test]
fn young_entry_makes_the_tracker_wait_for_the_rest_of_the_interval() {
    let mut tracker = Tracker::new();
    let mut counter = MessageIdCounter::new();
    tracker.handle_msg(TrackerAction::Track(propagation("n2", 0, 1000)), 100);
    assert_eq!(tracker.len(), 1);
    assert_eq!(tracker.latest(), 100);
    assert_eq!(tracker.poll(&mut counter, 100), TrackerStep::Wait(150));
    assert_eq!(tracker.poll(&mut counter, 160), TrackerStep::Wait(90));
    assert_eq!(tracker.poll(&mut counter, 249), TrackerStep::Wait(1));
    assert_eq!(tracker.len(), 1);
    assert_eq!(counter.peek(), 0);
}

#[test]
fn overdue_entry_is_resent_under_a_fresh_id() {
    let mut tracker = Tracker::new();
    let mut counter = MessageIdCounter::new();
    counter.next_id();
    tracker.handle_msg(TrackerAction::Track(propagation("n2", 0, 1000)), 100);
    assert_eq!(
        tracker.poll(&mut counter, 250),
        TrackerStep::Resend { previous: MessageId(0), msg: propagation("n2", 1, 1000) }
    );
    assert_eq!(counter.peek(), 2);
    assert_eq!(tracker.len(), 1);
    assert_eq!(tracker.latest(), 250);
    // The resent entry starts a new interval.
    assert_eq!(tracker.poll(&mut counter, 250), TrackerStep::Wait(150));
    assert_eq!(
        tracker.poll(&mut counter, 400),
        TrackerStep::Resend { previous: MessageId(1), msg: propagation("n2", 2, 1000) }
    );
}

#[test]
fn cancelled_entry_is_dropped_and_never_resent() {
    let mut tracker = Tracker::new();
    let mut counter = MessageIdCounter::new();
    tracker.handle_msg(TrackerAction::Track(propagation("n2", 0, 1000)), 0);
    tracker.handle_msg(TrackerAction::Stop(MessageId(0)), 10);
    assert_eq!(tracker.poll(&mut counter, 500), TrackerStep::Cancelled(MessageId(0)));
    assert_eq!(tracker.len(), 0);
    assert_eq!(tracker.poll(&mut counter, 1000), TrackerStep::Idle);
    assert_eq!(counter.peek(), 0);
}

#[test]
fn cancellation_may_come_before_the_entry() {
    let mut tracker = Tracker::new();
    let mut counter = MessageIdCounter::new();
    tracker.handle_msg(TrackerAction::Stop(MessageId(3)), 0);
    assert_eq!(tracker.poll(&mut counter, 0), TrackerStep::Idle);
    tracker.handle_msg(TrackerAction::Track(propagation("n2", 3, 1000)), 5);
    assert_eq!(tracker.poll(&mut counter, 5), TrackerStep::Cancelled(MessageId(3)));
    // The cancellation is used up: the same id would be tracked again.
    tracker.handle_msg(TrackerAction::Track(propagation("n2", 3, 1000)), 6);
    assert_eq!(tracker.poll(&mut counter, 6), TrackerStep::Wait(150));
}

#[test]
fn cancellation_of_an_unknown_id_is_inert() {
    let mut tracker = Tracker::new();
    let mut counter = MessageIdCounter::new();
    tracker.handle_msg(TrackerAction::Track(propagation("n2", 0, 1000)), 0);
    tracker.handle_msg(TrackerAction::Stop(MessageId(77)), 1);
    assert_eq!(tracker.poll(&mut counter, 100), TrackerStep::Wait(50));
    assert_eq!(
        tracker.poll(&mut counter, 150),
        TrackerStep::Resend { previous: MessageId(0), msg: propagation("n2", 0, 1000) }
    );
}

#[test]
fn stale_cancellation_after_a_resend_is_inert() {
    let mut tracker = Tracker::new();
    let mut counter = MessageIdCounter::new();
    counter.next_id();
    tracker.handle_msg(TrackerAction::Track(propagation("n3", 0, 1000)), 0);
    assert_eq!(
        tracker.poll(&mut counter, 150),
        TrackerStep::Resend { previous: MessageId(0), msg: propagation("n3", 1, 1000) }
    );
    tracker.handle_msg(TrackerAction::Stop(MessageId(0)), 160);
    assert_eq!(tracker.poll(&mut counter, 160), TrackerStep::Wait(140));
    // The acknowledgment of the current id does stop it.
    tracker.handle_msg(TrackerAction::Stop(MessageId(1)), 170);
    assert_eq!(tracker.poll(&mut counter, 170), TrackerStep::Cancelled(MessageId(1)));
    assert_eq!(tracker.poll(&mut counter, 1000), TrackerStep::Idle);
}

#[test]
fn only_propagations_are_tracked() {
    let mut tracker = Tracker::new();
    let mut counter = MessageIdCounter::new();
    let read = Message {
        src: String::from("n1"),
        dest: String::from("n2"),
        body: BroadcastBody::Read { msg_id: MessageId(0) },
    };
    tracker.handle_msg(TrackerAction::Track(read), 0);
    let ok = Message {
        src: String::from("n1"),
        dest: String::from("n2"),
        body: BroadcastBody::BroadcastOk { msg_id: MessageId(1), in_reply_to: MessageId(0) },
    };
    tracker.handle_msg(TrackerAction::Track(ok), 0);
    assert_eq!(tracker.len(), 0);
    assert_eq!(tracker.poll(&mut counter, 500), TrackerStep::Idle);
}

#[test]
fn resent_entry_goes_to_the_back_of_the_queue() {
    let mut tracker = Tracker::new();
    let mut counter = MessageIdCounter::new();
    counter.next_id();
    counter.next_id();
    tracker.handle_msg(TrackerAction::Track(propagation("n2", 0, 1000)), 0);
    tracker.handle_msg(TrackerAction::Track(propagation("n3", 1, 1000)), 10);
    assert_eq!(
        tracker.poll(&mut counter, 200),
        TrackerStep::Resend { previous: MessageId(0), msg: propagation("n2", 2, 1000) }
    );
    assert_eq!(
        tracker.poll(&mut counter, 200),
        TrackerStep::Resend { previous: MessageId(1), msg: propagation("n3", 3, 1000) }
    );
    assert_eq!(tracker.poll(&mut counter, 200), TrackerStep::Wait(150));
    assert_eq!(tracker.len(), 2);
    // n2's entry is the oldest again.
    tracker.handle_msg(TrackerAction::Stop(MessageId(2)), 210);
    assert_eq!(tracker.poll(&mut counter, 210), TrackerStep::Cancelled(MessageId(2)));
    assert_eq!(tracker.poll(&mut counter, 210), TrackerStep::Wait(140));
}

#[test]
fn cancelled_entry_behind_the_oldest_waits_its_turn() {
    let mut tracker = Tracker::new();
    let mut counter = MessageIdCounter::new();
    counter.next_id();
    counter.next_id();
    tracker.handle_msg(TrackerAction::Track(propagation("n2", 0, 1000)), 0);
    tracker.handle_msg(TrackerAction::Track(propagation("n3", 1, 1000)), 0);
    tracker.handle_msg(TrackerAction::Stop(MessageId(1)), 20);
    assert_eq!(tracker.poll(&mut counter, 20), TrackerStep::Wait(130));
    assert_eq!(tracker.len(), 2);
    assert_eq!(
        tracker.poll(&mut counter, 150),
        TrackerStep::Resend { previous: MessageId(0), msg: propagation("n2", 2, 1000) }
    );
    assert_eq!(tracker.poll(&mut counter, 150), TrackerStep::Cancelled(MessageId(1)));
    assert_eq!(tracker.poll(&mut counter, 150), TrackerStep::Wait(150));
    assert_eq!(tracker.len(), 1);
}
