use aurora::{Adjecent, BroadcastBody, MessageId, MessageIdCounter};

#[test]
fn add_message_puts_an_unknown_value_in_flight() {
    let mut adjecent = Adjecent::new();
    let mut counter = MessageIdCounter::new();
    let body = adjecent.add_message(&mut counter, 42);
    assert_eq!(body, Some(BroadcastBody::Broadcast { msg_id: MessageId(0), message: 42 }));
    assert_eq!(adjecent.pending_value(MessageId(0)), Some(42));
    assert_eq!(adjecent.pending_len(), 1);
    assert!(!adjecent.knows(42));
    assert_eq!(counter.peek(), 1);
}

#[test]
fn add_message_passes_over_a_value_in_flight() {
    let mut adjecent = Adjecent::new();
    let mut counter = MessageIdCounter::new();
    adjecent.add_message(&mut counter, 42);
    assert_eq!(adjecent.add_message(&mut counter, 42), None);
    assert_eq!(adjecent.pending_len(), 1);
    assert_eq!(counter.peek(), 1);
}

#[test]
fn add_message_passes_over_a_known_value() {
    let mut adjecent = Adjecent::new();
    let mut counter = MessageIdCounter::new();
    adjecent.add_message(&mut counter, 42);
    adjecent.update_pending(MessageId(0));
    assert!(adjecent.knows(42));
    assert_eq!(adjecent.add_message(&mut counter, 42), None);
    assert_eq!(adjecent.pending_len(), 0);
    assert_eq!(counter.peek(), 1);
}

#[test]
fn update_pending_moves_the_value_to_the_known_ones() {
    let mut adjecent = Adjecent::new();
    let mut counter = MessageIdCounter::new();
    adjecent.add_message(&mut counter, 42);
    adjecent.add_message(&mut counter, 43);
    adjecent.update_pending(MessageId(1));
    assert!(adjecent.knows(43));
    assert!(!adjecent.knows(42));
    assert_eq!(adjecent.pending_value(MessageId(1)), None);
    assert_eq!(adjecent.pending_value(MessageId(0)), Some(42));
}

#[test]
fn update_pending_ignores_an_unknown_id() {
    let mut adjecent = Adjecent::new();
    let mut counter = MessageIdCounter::new();
    adjecent.add_message(&mut counter, 42);
    adjecent.update_pending(MessageId(9));
    assert!(!adjecent.knows(42));
    assert_eq!(adjecent.pending_value(MessageId(0)), Some(42));
    assert_eq!(adjecent.pending_len(), 1);
}

#[test]
fn replace_pending_keeps_the_value_under_the_new_id() {
    let mut adjecent = Adjecent::new();
    let mut counter = MessageIdCounter::new();
    adjecent.add_message(&mut counter, 42);
    adjecent.replace_pending(MessageId(0), MessageId(5));
    assert_eq!(adjecent.pending_value(MessageId(0)), None);
    assert_eq!(adjecent.pending_value(MessageId(5)), Some(42));
    assert_eq!(adjecent.pending_len(), 1);
    // Still in flight: not offered again.
    assert_eq!(adjecent.add_message(&mut counter, 42), None);
    adjecent.update_pending(MessageId(5));
    assert!(adjecent.knows(42));
}

#[test]
fn replace_pending_ignores_an_unknown_id() {
    let mut adjecent = Adjecent::new();
    let mut counter = MessageIdCounter::new();
    adjecent.add_message(&mut counter, 42);
    adjecent.replace_pending(MessageId(3), MessageId(5));
    assert_eq!(adjecent.pending_value(MessageId(0)), Some(42));
    assert_eq!(adjecent.pending_value(MessageId(5)), None);
}

#[test]
fn replace_pending_with_the_same_id_changes_nothing() {
    let mut adjecent = Adjecent::new();
    let mut counter = MessageIdCounter::new();
    adjecent.add_message(&mut counter, 42);
    adjecent.replace_pending(MessageId(0), MessageId(0));
    assert_eq!(adjecent.pending_value(MessageId(0)), Some(42));
    assert_eq!(adjecent.add_message(&mut counter, 42), None);
}
