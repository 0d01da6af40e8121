use aurora::{handshake, EchoBody, InitBody, Message, MessageId, OrInit};

fn init_request() -> Message<InitBody> {
    Message {
        src: String::from("c1"),
        dest: String::from("n3"),
        body: InitBody::Init {
            msg_id: Some(MessageId(1)),
            node_id: String::from("n3"),
            node_ids: vec![String::from("n1"), String::from("n2"), String::from("n3")],
        },
    }
}

fn init_ok() -> Message<InitBody> {
    Message {
        src: String::from("n3"),
        dest: String::from("c1"),
        body: InitBody::InitOk { msg_id: MessageId(0), in_reply_to: Some(MessageId(1)) },
    }
}

#[test]
fn handshake_answers_the_init_request() {
    let established = handshake(init_request(), MessageId(0));
    assert_eq!(established.node_id, "n3");
    assert_eq!(established.node_ids, vec!["n1", "n2", "n3"]);
    assert_eq!(established.response, init_ok());
}

#[test]
fn handshake_without_a_request_id() {
    let mut request = init_request();
    request.body = InitBody::Init {
        msg_id: None,
        node_id: String::from("n1"),
        node_ids: vec![String::from("n1")],
    };
    let established = handshake(request, MessageId(9));
    assert_eq!(established.node_id, "n1");
    assert_eq!(
        established.response.body,
        InitBody::InitOk { msg_id: MessageId(9), in_reply_to: None }
    );
}

#[test]
fn main_message_is_handed_on() {
    let echo = Message {
        src: String::from("c1"),
        dest: String::from("n1"),
        body: EchoBody::Echo { msg_id: MessageId(1), echo: String::from("hi") },
    };
    let parsed: OrInit<EchoBody> = OrInit::Main(echo.clone());
    assert!(!parsed.is_second_init());
    assert_eq!(parsed.into_main(), Some(echo));
}

#[test]
fn init_ok_is_passed_over() {
    let parsed: OrInit<EchoBody> = OrInit::Init(init_ok());
    assert!(!parsed.is_second_init());
    assert_eq!(parsed.into_main(), None);
}

#[test]
fn second_init_is_recognised() {
    let parsed: OrInit<EchoBody> = OrInit::Init(init_request());
    assert!(parsed.is_second_init());
}
