use rusty_maelstrom::{Body, EchoNode, EchoPayload, Events, HandlerError, Message, NodeType};

fn envelope(payload: EchoPayload, msg_id: Option<u64>) -> Events<EchoPayload> {
    Events::Message(Message {
        src: String::from("c1"),
        dest: String::from("n1"),
        body: Body { msg_id, in_reply_to: None, payload },
    })
}

#[test]
fn echo_is_mirrored_back() {
    let mut node = EchoNode::new();
    let sent = node
        .step(envelope(EchoPayload::Echo { echo: String::from("Please echo 35") }, Some(1)))
        .unwrap();
    assert_eq!(
        sent,
        vec![Message {
            src: String::from("n1"),
            dest: String::from("c1"),
            body: Body {
                msg_id: Some(2),
                in_reply_to: Some(1),
                payload: EchoPayload::EchoOk { echo: String::from("Please echo 35") },
            },
        }]
    );
}

#[test]
fn echo_of_an_empty_text() {
    let mut node = EchoNode::new();
    let sent = node.step(envelope(EchoPayload::Echo { echo: String::new() }, None)).unwrap();
    assert_eq!(sent.len(), 1);
    assert_eq!(sent[0].body.payload, EchoPayload::EchoOk { echo: String::new() });
    assert_eq!(sent[0].body.msg_id, None);
}

#[test]
fn echo_ok_is_ignored() {
    let mut node = EchoNode::new();
    let sent =
        node.step(envelope(EchoPayload::EchoOk { echo: String::from("x") }, Some(1))).unwrap();
    assert!(sent.is_empty());
}

#[test]
fn echo_ok_with_the_largest_id_is_ignored_too() {
    let mut node = EchoNode::new();
    let sent = node
        .step(envelope(EchoPayload::EchoOk { echo: String::from("x") }, Some(u64::MAX)))
        .unwrap();
    assert!(sent.is_empty());
}

#[test]
fn echo_node_ignores_heartbeat_and_end_of_input() {
    let mut node = EchoNode::new();
    assert!(node.step(Events::Heartbeat).unwrap().is_empty());
    assert!(node.step(Events::EOF).unwrap().is_empty());
}

#[test]
fn echo_that_cannot_be_answered_is_refused() {
    let mut node = EchoNode::new();
    let out = node.step(envelope(EchoPayload::Echo { echo: String::from("x") }, Some(u64::MAX)));
    assert_eq!(out, Err(HandlerError::MessageIdExhausted));
}
