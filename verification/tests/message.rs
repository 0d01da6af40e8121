use std::collections::HashSet;

use aurora::{BroadcastBody, EchoBody, IdBody, InitBody, Message, MessageBody, MessageId};

const CLIENT_ID: &str = "c1";
const NODE_ID: &str = "n1";

fn known_request<B: MessageBody>(body: B) -> Message<B> {
    Message { src: String::from(CLIENT_ID), dest: String::from(NODE_ID), body }
}

fn known_response<B: MessageBody>(body: B) -> Message<B> {
    let mut msg = known_request(body);
    msg.into_response(|_| ());
    msg
}

fn known_topology() -> Vec<(String, Vec<String>)> {
    vec![
        (String::from("n1"), vec![String::from("n2"), String::from("n3")]),
        (String::from("n2"), vec![String::from("n1")]),
        (String::from("n3"), vec![String::from("n1")]),
    ]
}

#[test]
fn into_response_swaps_source_and_destination() {
    let msg = known_response(IdBody::Generate);
    assert_eq!(msg.src, NODE_ID);
    assert_eq!(msg.dest, CLIENT_ID);
    assert_eq!(msg.body, IdBody::Generate);
}

#[test]
fn into_response_applies_the_function_to_the_body() {
    let mut msg = known_request(EchoBody::Echo {
        msg_id: MessageId(1),
        echo: String::from("Please echo 35"),
    });
    msg.into_response(|body| {
        *body = EchoBody::EchoOk {
            echo: String::from("Please echo 35"),
            msg_id: MessageId(1),
            in_reply_to: MessageId(1),
        }
    });
    assert_eq!(
        msg,
        Message {
            src: String::from(NODE_ID),
            dest: String::from(CLIENT_ID),
            body: EchoBody::EchoOk {
                echo: String::from("Please echo 35"),
                msg_id: MessageId(1),
                in_reply_to: MessageId(1),
            },
        }
    );
}

#[test]
fn into_response_twice_restores_the_addresses() {
    let mut msg = known_request(IdBody::Generate);
    msg.into_response(|_| ());
    msg.into_response(|_| ());
    assert_eq!(msg, known_request(IdBody::Generate));
}

#[test]
fn clone_keeps_every_field() {
    let msg = known_request(BroadcastBody::Topology {
        msg_id: MessageId(1),
        topology: known_topology(),
    });
    assert_eq!(msg.clone(), msg);
    let messages: HashSet<usize> = [1, 8, 72, 25].into_iter().collect();
    let msg = known_request(BroadcastBody::ReadOk {
        msg_id: MessageId(2),
        in_reply_to: MessageId(1),
        messages,
    });
    assert_eq!(msg.clone(), msg);
    let msg = known_request(InitBody::Init {
        msg_id: Some(MessageId(1)),
        node_id: String::from("n3"),
        node_ids: vec![String::from("n1"), String::from("n2"), String::from("n3")],
    });
    assert_eq!(msg.clone(), msg);
}

#[test]
fn clone_with_msg_id_replaces_only_the_id() {
    let msg = known_request(BroadcastBody::Broadcast { msg_id: MessageId(1), message: 1000 });
    let copy = msg.clone_with_msg_id(MessageId(7));
    assert_eq!(
        copy,
        known_request(BroadcastBody::Broadcast { msg_id: MessageId(7), message: 1000 })
    );
    assert_eq!(
        msg,
        known_request(BroadcastBody::Broadcast { msg_id: MessageId(1), message: 1000 })
    );
}

#[test]
fn update_msg_id_on_broadcast_bodies() {
    let mut body = BroadcastBody::BroadcastOk { msg_id: MessageId(2), in_reply_to: MessageId(1) };
    body.update_msg_id(MessageId(9));
    assert_eq!(body, BroadcastBody::BroadcastOk { msg_id: MessageId(9), in_reply_to: MessageId(1) });

    let mut body = BroadcastBody::Read { msg_id: MessageId(1) };
    body.update_msg_id(MessageId(9));
    assert_eq!(body, BroadcastBody::Read { msg_id: MessageId(9) });

    let messages: HashSet<usize> = [25, 72].into_iter().collect();
    let mut body = BroadcastBody::ReadOk {
        msg_id: MessageId(2),
        in_reply_to: MessageId(1),
        messages: messages.clone(),
    };
    body.update_msg_id(MessageId(9));
    assert_eq!(
        body,
        BroadcastBody::ReadOk { msg_id: MessageId(9), in_reply_to: MessageId(1), messages }
    );

    let mut body = BroadcastBody::Topology { msg_id: MessageId(1), topology: known_topology() };
    body.update_msg_id(MessageId(9));
    assert_eq!(body, BroadcastBody::Topology { msg_id: MessageId(9), topology: known_topology() });

    let mut body = BroadcastBody::TopologyOk { msg_id: MessageId(2), in_reply_to: MessageId(1) };
    body.update_msg_id(MessageId(9));
    assert_eq!(body, BroadcastBody::TopologyOk { msg_id: MessageId(9), in_reply_to: MessageId(1) });
}

#[test]
fn update_msg_id_on_the_other_bodies() {
    let mut body = InitBody::Init {
        msg_id: None,
        node_id: String::from("n3"),
        node_ids: vec![String::from("n1")],
    };
    body.update_msg_id(MessageId(4));
    assert_eq!(
        body,
        InitBody::Init {
            msg_id: Some(MessageId(4)),
            node_id: String::from("n3"),
            node_ids: vec![String::from("n1")],
        }
    );

    let mut body = InitBody::InitOk { msg_id: MessageId(0), in_reply_to: Some(MessageId(1)) };
    body.update_msg_id(MessageId(4));
    assert_eq!(body, InitBody::InitOk { msg_id: MessageId(4), in_reply_to: Some(MessageId(1)) });

    let mut body = EchoBody::Echo { msg_id: MessageId(1), echo: String::from("hi") };
    body.update_msg_id(MessageId(4));
    assert_eq!(body, EchoBody::Echo { msg_id: MessageId(4), echo: String::from("hi") });

    let mut body = IdBody::GenerateOk { id: String::from("123") };
    body.update_msg_id(MessageId(4));
    assert_eq!(body, IdBody::GenerateOk { id: String::from("123") });
}

#[test]
fn msg_id_of_each_broadcast_body() {
    assert_eq!(BroadcastBody::Broadcast { msg_id: MessageId(3), message: 1 }.msg_id(), MessageId(3));
    assert_eq!(
        BroadcastBody::BroadcastOk { msg_id: MessageId(4), in_reply_to: MessageId(3) }.msg_id(),
        MessageId(4)
    );
    assert_eq!(BroadcastBody::Read { msg_id: MessageId(5) }.msg_id(), MessageId(5));
    assert_eq!(
        BroadcastBody::ReadOk {
            msg_id: MessageId(6),
            in_reply_to: MessageId(5),
            messages: HashSet::new(),
        }
        .msg_id(),
        MessageId(6)
    );
    assert_eq!(
        BroadcastBody::Topology { msg_id: MessageId(7), topology: vec![] }.msg_id(),
        MessageId(7)
    );
    assert_eq!(
        BroadcastBody::TopologyOk { msg_id: MessageId(8), in_reply_to: MessageId(7) }.msg_id(),
        MessageId(8)
    );
}

#[test]
fn copies_hold_what_was_copied() {
    let values: HashSet<usize> = [1, 8, 72, 25].into_iter().collect();
    assert_eq!(aurora::body::copy_values(&values), values);
    assert_eq!(aurora::body::copy_values(&HashSet::new()), HashSet::new());
    assert_eq!(aurora::body::copy_topology(&known_topology()), known_topology());
    assert_eq!(aurora::body::copy_topology(&vec![]), vec![]);
}
