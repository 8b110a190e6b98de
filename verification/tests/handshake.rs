use rusty_maelstrom::{
    Body, EchoNode, EchoPayload, Events, HandlerError, Init, InitPayload, Message, Node, NodeError,
    Phase,
};

fn init_message(msg_id: Option<u64>) -> Message<Init> {
    Message {
        src: String::from("c0"),
        dest: String::from("n1"),
        body: Body {
            msg_id,
            in_reply_to: None,
            payload: Init::Init(InitPayload {
                node_id: String::from("n1"),
                node_ids: vec![String::from("n1"), String::from("n2")],
            }),
        },
    }
}

fn echo(text: &str, msg_id: Option<u64>) -> Events<EchoPayload> {
    Events::Message(Message {
        src: String::from("c1"),
        dest: String::from("n1"),
        body: Body { msg_id, in_reply_to: None, payload: EchoPayload::Echo { echo: String::from(text) } },
    })
}

#[test]
fn new_node_awaits_its_handshake() {
    let node = Node::new(EchoNode::new());
    assert_eq!(node.phase(), Phase::AwaitingInit);
}

#[test]
fn handshake_is_answered_with_init_ok() {
    let mut node = Node::new(EchoNode::new());
    let reply = node.handshake(init_message(Some(1))).unwrap();
    assert_eq!(reply.src, "n1");
    assert_eq!(reply.dest, "c0");
    assert_eq!(reply.body.in_reply_to, Some(1));
    assert_eq!(reply.body.msg_id, Some(2));
    assert_eq!(reply.body.payload, Init::InitOk);
    assert_eq!(node.phase(), Phase::Initialized);
}

#[test]
fn handshake_without_message_id_is_answered_without_ids() {
    let mut node = Node::new(EchoNode::new());
    let reply = node.handshake(init_message(None)).unwrap();
    assert_eq!(reply.body.in_reply_to, None);
    assert_eq!(reply.body.msg_id, None);
    assert_eq!(reply.body.payload, Init::InitOk);
}

#[test]
fn init_ok_as_first_message_is_a_protocol_violation() {
    let mut node = Node::new(EchoNode::new());
    let first = Message {
        src: String::from("c0"),
        dest: String::from("n1"),
        body: Body { msg_id: Some(1), in_reply_to: None, payload: Init::InitOk },
    };
    assert_eq!(node.handshake(first), Err(NodeError::ProtocolViolation));
    assert_eq!(node.phase(), Phase::AwaitingInit);
}

#[test]
fn handshake_that_cannot_be_answered_is_a_protocol_violation() {
    let mut node = Node::new(EchoNode::new());
    assert_eq!(node.handshake(init_message(Some(u64::MAX))), Err(NodeError::ProtocolViolation));
    assert_eq!(node.phase(), Phase::AwaitingInit);
}

#[test]
fn second_handshake_is_refused() {
    let mut node = Node::new(EchoNode::new());
    assert!(node.handshake(init_message(Some(1))).is_ok());
    assert_eq!(node.handshake(init_message(Some(3))), Err(NodeError::ProtocolViolation));
    assert_eq!(node.phase(), Phase::Initialized);
}

#[test]
fn nothing_is_processed_before_the_handshake() {
    let mut node = Node::new(EchoNode::new());
    assert_eq!(node.dispatch(echo("hello", Some(1))), Err(NodeError::ProtocolViolation));
    assert_eq!(node.dispatch(Events::Heartbeat), Err(NodeError::ProtocolViolation));
    assert_eq!(node.dispatch(Events::EOF), Err(NodeError::ProtocolViolation));
    assert_eq!(node.phase(), Phase::AwaitingInit);
}

#[test]
fn run_before_the_handshake_sends_nothing() {
    let mut node = Node::new(EchoNode::new());
    let (sent, outcome) = node.run(vec![echo("a", Some(1)), echo("b", Some(2))]);
    assert!(sent.is_empty());
    assert_eq!(outcome, Err(NodeError::ProtocolViolation));
}

#[test]
fn empty_run_succeeds_even_before_the_handshake() {
    let mut node = Node::new(EchoNode::new());
    let (sent, outcome) = node.run(Vec::new());
    assert!(sent.is_empty());
    assert_eq!(outcome, Ok(()));
}

#[test]
fn events_are_dispatched_after_the_handshake() {
    let mut node = Node::new(EchoNode::new());
    node.handshake(init_message(Some(1))).unwrap();
    let sent = node.dispatch(echo("hello", Some(7))).unwrap();
    assert_eq!(sent.len(), 1);
    assert_eq!(sent[0].body.payload, EchoPayload::EchoOk { echo: String::from("hello") });
}

#[test]
fn run_dispatches_in_order_and_stops_at_end_of_input() {
    let mut node = Node::new(EchoNode::new());
    node.handshake(init_message(Some(1))).unwrap();
    let (sent, outcome) = node.run(vec![
        echo("a", Some(1)),
        Events::Heartbeat,
        echo("b", Some(2)),
        Events::EOF,
        echo("never", Some(3)),
    ]);
    assert_eq!(outcome, Ok(()));
    assert_eq!(sent.len(), 2);
    assert_eq!(sent[0].body.payload, EchoPayload::EchoOk { echo: String::from("a") });
    assert_eq!(sent[0].body.in_reply_to, Some(1));
    assert_eq!(sent[1].body.payload, EchoPayload::EchoOk { echo: String::from("b") });
    assert_eq!(sent[1].body.in_reply_to, Some(2));
}

#[test]
fn run_stops_at_the_first_refusal() {
    let mut node = Node::new(EchoNode::new());
    node.handshake(init_message(Some(1))).unwrap();
    let (sent, outcome) = node.run(vec![
        echo("a", Some(1)),
        echo("too far", Some(u64::MAX)),
        echo("never", Some(3)),
    ]);
    assert_eq!(outcome, Err(NodeError::Handler(HandlerError::MessageIdExhausted)));
    assert_eq!(sent.len(), 1);
    assert_eq!(sent[0].body.payload, EchoPayload::EchoOk { echo: String::from("a") });
}

#[test]
fn handler_refusal_is_passed_on_by_dispatch() {
    let mut node = Node::new(EchoNode::new());
    node.handshake(init_message(Some(1))).unwrap();
    assert_eq!(
        node.dispatch(echo("x", Some(u64::MAX))),
        Err(NodeError::Handler(HandlerError::MessageIdExhausted))
    );
}
