use aurora::{MessageId, MessageIdCounter};

#[test]
fn counter_hands_out_consecutive_ids() {
    let mut counter = MessageIdCounter::new();
    assert_eq!(counter.peek(), 0);
    assert_eq!(counter.next_id(), MessageId(0));
    assert_eq!(counter.next_id(), MessageId(1));
    assert_eq!(counter.next_id(), MessageId(2));
    assert_eq!(counter.peek(), 3);
    assert_eq!(counter.remaining(), usize::MAX - 3);
}

#[test]
fn message_id_from_usize() {
    assert_eq!(MessageId::from(7), MessageId(7));
    assert_eq!(MessageId::default(), MessageId(0));
    assert!(MessageId(1) < MessageId(2));
}
