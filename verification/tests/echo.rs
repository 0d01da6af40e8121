use aurora::{EchoBody, EchoNode, Message, MessageId};

fn request(body: EchoBody) -> Message<EchoBody> {
    Message { src: String::from("c1"), dest: String::from("n1"), body }
}

#[test]
fn echo_is_answered_with_its_payload() {
    let mut node = EchoNode::init();
    let msg = request(EchoBody::Echo { msg_id: MessageId(1), echo: String::from("Please echo 35") });
    assert_eq!(
        node.handle_msg(msg),
        Some(Message {
            src: String::from("n1"),
            dest: String::from("c1"),
            body: EchoBody::EchoOk {
                echo: String::from("Please echo 35"),
                msg_id: MessageId(0),
                in_reply_to: MessageId(1),
            },
        })
    );
}

#[test]
fn echo_responses_get_fresh_ids() {
    let mut node = EchoNode::init();
    for expected in 0..5 {
        let msg = request(EchoBody::Echo { msg_id: MessageId(10 + expected), echo: String::new() });
        match node.handle_msg(msg) {
            Some(Message { body: EchoBody::EchoOk { msg_id, in_reply_to, .. }, .. }) => {
                assert_eq!(msg_id, MessageId(expected));
                assert_eq!(in_reply_to, MessageId(10 + expected));
            },
            other => panic!("expected a response, got {other:?}"),
        }
    }
    assert_eq!(node.remaining_ids(), usize::MAX - 5);
}

#[test]
fn echo_ok_is_ignored() {
    let mut node = EchoNode::init();
    let msg = request(EchoBody::EchoOk {
        echo: String::from("x"),
        msg_id: MessageId(1),
        in_reply_to: MessageId(1),
    });
    assert_eq!(node.handle_msg(msg), None);
    assert_eq!(node.next_id(), MessageId(0));
}
