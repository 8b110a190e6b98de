use rusty_maelstrom::{
    Body, Events, GeneratePayload, HandlerError, Init, InitPayload, Message, Node, NodeType,
    UniqueIdsNode,
};

fn node(id: &str) -> UniqueIdsNode {
    let mut node = UniqueIdsNode::new();
    node.init(InitPayload {
        node_id: String::from(id),
        node_ids: vec![String::from(id), String::from("other")],
    });
    node
}

fn generate(dest: &str, msg_id: Option<u64>) -> Events<GeneratePayload> {
    Events::Message(Message {
        src: String::from("c1"),
        dest: String::from(dest),
        body: Body { msg_id, in_reply_to: None, payload: GeneratePayload::Generate },
    })
}

fn id_of(envelope: &Message<GeneratePayload>) -> String {
    match &envelope.body.payload {
        GeneratePayload::GenerateOk { id } => id.clone(),
        GeneratePayload::Generate => panic!("a request came back"),
    }
}

fn token(node: &mut UniqueIdsNode, dest: &str) -> String {
    let sent = node.step(generate(dest, Some(1))).unwrap();
    assert_eq!(sent.len(), 1);
    id_of(&sent[0])
}

#[test]
fn fresh_unique_ids_node_has_no_identity() {
    let node = UniqueIdsNode::new();
    assert_eq!(node.id(), "");
    assert_eq!(node.issued(), 0);
}

#[test]
fn init_gives_the_identity() {
    let node = node("n7");
    assert_eq!(node.id(), "n7");
    assert_eq!(node.issued(), 0);
}

#[test]
fn first_token_is_one_and_the_identity() {
    let mut node = node("n1");
    let sent = node.step(generate("n1", Some(5))).unwrap();
    assert_eq!(
        sent,
        vec![Message {
            src: String::from("n1"),
            dest: String::from("c1"),
            body: Body {
                msg_id: Some(6),
                in_reply_to: Some(5),
                payload: GeneratePayload::GenerateOk { id: String::from("1n1") },
            },
        }]
    );
    assert_eq!(node.issued(), 1);
}

#[test]
fn tokens_count_upwards() {
    let mut node = node("n1");
    assert_eq!(token(&mut node, "n1"), "1n1");
    assert_eq!(token(&mut node, "n1"), "2n1");
    assert_eq!(token(&mut node, "n1"), "3n1");
    for _ in 0..7 {
        token(&mut node, "n1");
    }
    assert_eq!(token(&mut node, "n1"), "11n1");
    assert_eq!(node.issued(), 11);
}

#[test]
fn token_carries_the_identity_whomever_the_request_is_for() {
    let mut node = node("n1");
    let sent = node.step(generate("somebody else", Some(5))).unwrap();
    assert_eq!(id_of(&sent[0]), "1n1");
    assert_eq!(sent[0].src, "somebody else");
    assert_eq!(sent[0].dest, "c1");
    assert_eq!(token(&mut node, ""), "2n1");
}

#[test]
fn tokens_do_not_repeat_across_destinations() {
    let mut node = node("x");
    let first = token(&mut node, "0x");
    assert_eq!(first, "1x");
    let mut last = String::new();
    for _ in 0..9 {
        last = token(&mut node, "x");
    }
    assert_eq!(last, "10x");
    assert_ne!(first, last);
}

#[test]
fn tokens_of_one_node_never_repeat() {
    let mut node = node("n3");
    let mut seen: Vec<String> = Vec::new();
    for i in 0..500 {
        let dest = if i % 3 == 0 { "n3" } else if i % 3 == 1 { "3n3" } else { "" };
        let id = token(&mut node, dest);
        assert!(!seen.contains(&id));
        seen.push(id);
        if i % 7 == 0 {
            assert!(node.step(Events::Heartbeat).unwrap().is_empty());
        }
    }
    assert_eq!(node.issued(), 500);
}

#[test]
fn tokens_of_two_nodes_never_collide() {
    let mut a = node("n1");
    let mut b = node("n11");
    let mut from_a: Vec<String> = Vec::new();
    let mut from_b: Vec<String> = Vec::new();
    for _ in 0..120 {
        from_a.push(token(&mut a, "n1"));
        from_b.push(token(&mut b, "n11"));
    }
    for id in &from_a {
        assert!(!from_b.contains(id));
    }
}

#[test]
fn identities_with_digits_in_front_can_collide() {
    let mut a = node("n1");
    let mut b = node("1n1");
    let mut last = String::new();
    for _ in 0..11 {
        last = token(&mut a, "n1");
    }
    assert_eq!(last, "11n1");
    assert_eq!(token(&mut b, "1n1"), "11n1");
}

#[test]
fn handshake_gives_the_identity_that_tokens_carry() {
    let mut node = Node::new(UniqueIdsNode::new());
    node.handshake(Message {
        src: String::from("c0"),
        dest: String::from("n4"),
        body: Body {
            msg_id: Some(1),
            in_reply_to: None,
            payload: Init::Init(InitPayload {
                node_id: String::from("n4"),
                node_ids: vec![String::from("n4"), String::from("n5")],
            }),
        },
    })
    .unwrap();
    let (sent, outcome) = node.run(vec![
        generate("n4", Some(1)),
        Events::Heartbeat,
        generate("n5", Some(2)),
        generate("n4", None),
        Events::EOF,
    ]);
    assert_eq!(outcome, Ok(()));
    let ids: Vec<String> = sent.iter().map(id_of).collect();
    assert_eq!(ids, vec![String::from("1n4"), String::from("2n4"), String::from("3n4")]);
    assert_eq!(node.handler().id(), "n4");
    assert_eq!(node.handler().issued(), 3);
}

#[test]
fn generate_ok_is_ignored() {
    let mut node = node("n1");
    let sent = node
        .step(Events::Message(Message {
            src: String::from("n2"),
            dest: String::from("n1"),
            body: Body {
                msg_id: Some(1),
                in_reply_to: None,
                payload: GeneratePayload::GenerateOk { id: String::from("1n2") },
            },
        }))
        .unwrap();
    assert!(sent.is_empty());
    assert_eq!(node.issued(), 0);
}

#[test]
fn unique_ids_node_ignores_heartbeat_and_end_of_input() {
    let mut node = node("n1");
    assert!(node.step(Events::Heartbeat).unwrap().is_empty());
    assert!(node.step(Events::EOF).unwrap().is_empty());
    assert_eq!(node.issued(), 0);
    assert_eq!(node.id(), "n1");
}

#[test]
fn generate_that_cannot_be_answered_is_refused_and_not_counted() {
    let mut node = node("n1");
    assert_eq!(node.step(generate("n1", Some(u64::MAX))), Err(HandlerError::MessageIdExhausted));
    assert_eq!(node.issued(), 0);
    assert_eq!(token(&mut node, "n1"), "1n1");
}
