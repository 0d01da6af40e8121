use aurora::unique_ids::to_decimal;
use aurora::{IdBody, IdsNode, Message, MessageId};

fn request(body: IdBody) -> Message<IdBody> {
    Message { src: String::from("c1"), dest: String::from("n1"), body }
}

#[test]
fn decimal_digits() {
    assert_eq!(to_decimal(0), "0");
    assert_eq!(to_decimal(7), "7");
    assert_eq!(to_decimal(10), "10");
    assert_eq!(to_decimal(123), "123");
    assert_eq!(to_decimal(9_876_543_210), "9876543210");
    assert_eq!(to_decimal(usize::MAX), usize::MAX.to_string());
}

#[test]
fn generate_is_answered_with_the_node_and_a_number() {
    let mut node = IdsNode::init(String::from("n1"));
    assert_eq!(
        node.handle_msg(request(IdBody::Generate)),
        Some(Message {
            src: String::from("n1"),
            dest: String::from("c1"),
            body: IdBody::GenerateOk { id: String::from("n1-0") },
        })
    );
    assert_eq!(
        node.handle_msg(request(IdBody::Generate)),
        Some(Message {
            src: String::from("n1"),
            dest: String::from("c1"),
            body: IdBody::GenerateOk { id: String::from("n1-1") },
        })
    );
}

#[test]
fn generated_ids_differ() {
    let mut node = IdsNode::init(String::from("n12"));
    let mut seen = std::collections::HashSet::new();
    for _ in 0..25 {
        match node.handle_msg(request(IdBody::Generate)) {
            Some(Message { body: IdBody::GenerateOk { id }, .. }) => assert!(seen.insert(id)),
            other => panic!("expected an id, got {other:?}"),
        }
    }
    assert!(seen.contains("n12-24"));
    assert_eq!(node.remaining_ids(), usize::MAX - 25);
}

#[test]
fn generate_ok_is_ignored() {
    let mut node = IdsNode::init(String::from("n1"));
    assert_eq!(node.handle_msg(request(IdBody::GenerateOk { id: String::from("123") })), None);
    assert_eq!(node.next_id(), MessageId(0));
}
