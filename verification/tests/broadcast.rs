use rusty_maelstrom::{
    Body, BroadcastConfig, BroadcastNode, BroadcastPayload, Events, HandlerError, InitPayload,
    Message, NodeType, SyncFormat, Topology, TopologyStrategy,
};

fn names(ids: &[&str]) -> Vec<String> {
    ids.iter().map(|id| String::from(*id)).collect()
}

fn assigned(sync: SyncFormat) -> BroadcastConfig {
    BroadcastConfig { topology: TopologyStrategy::Assigned, sync }
}

fn full_mesh(sync: SyncFormat) -> BroadcastConfig {
    BroadcastConfig { topology: TopologyStrategy::FullMesh, sync }
}

fn from(src: &str, msg_id: Option<u64>, payload: BroadcastPayload) -> Events<BroadcastPayload> {
    Events::Message(Message {
        src: String::from(src),
        dest: String::from("n1"),
        body: Body { msg_id, in_reply_to: None, payload },
    })
}

fn topology(entries: &[(&str, &[&str])]) -> BroadcastPayload {
    BroadcastPayload::Topology {
        topology: Topology::from_entries(
            entries.iter().map(|(id, to)| (String::from(*id), names(to))).collect(),
        ),
    }
}

fn sync_one(to: &str, message: u64) -> Message<BroadcastPayload> {
    Message {
        src: String::from("n1"),
        dest: String::from(to),
        body: Body { msg_id: Some(0), in_reply_to: None, payload: BroadcastPayload::Sync { message } },
    }
}

fn sync_many(to: &str, messages: &[u64]) -> Message<BroadcastPayload> {
    Message {
        src: String::from("n1"),
        dest: String::from(to),
        body: Body {
            msg_id: None,
            in_reply_to: None,
            payload: BroadcastPayload::SyncMany { messages: messages.to_vec() },
        },
    }
}

fn reply(to: &str, in_reply_to: u64, payload: BroadcastPayload) -> Message<BroadcastPayload> {
    Message {
        src: String::from("n1"),
        dest: String::from(to),
        body: Body { msg_id: Some(in_reply_to + 1), in_reply_to: Some(in_reply_to), payload },
    }
}

/// The node `n1` with the neighbours `n2` and `n3`.
fn n1(sync: SyncFormat) -> BroadcastNode {
    let mut node = BroadcastNode::new(assigned(sync));
    node.init(InitPayload { node_id: String::from("n1"), node_ids: names(&["n1", "n2", "n3"]) });
    let sent = node.step(from("c0", Some(1), topology(&[("n1", &["n2", "n3"])]))).unwrap();
    assert_eq!(sent, vec![reply("c0", 1, BroadcastPayload::TopologyOk)]);
    node
}

#[test]
fn fresh_node_knows_nothing() {
    let node = BroadcastNode::new(assigned(SyncFormat::PerValue));
    assert_eq!(node.id(), "");
    assert!(node.neighbours().is_empty());
    assert!(node.seen().is_empty());
    assert_eq!(node.config(), assigned(SyncFormat::PerValue));
}

#[test]
fn init_sets_the_identity_only_when_neighbours_are_assigned() {
    let mut node = BroadcastNode::new(assigned(SyncFormat::PerValue));
    node.init(InitPayload { node_id: String::from("n1"), node_ids: names(&["n1", "n2", "n3"]) });
    assert_eq!(node.id(), "n1");
    assert!(node.neighbours().is_empty());
}

#[test]
fn init_makes_all_others_neighbours_in_a_full_mesh() {
    let mut node = BroadcastNode::new(full_mesh(SyncFormat::PerValue));
    node.init(InitPayload {
        node_id: String::from("n2"),
        node_ids: names(&["n1", "n2", "n3", "n4"]),
    });
    assert_eq!(node.id(), "n2");
    assert_eq!(node.neighbours(), &names(&["n1", "n3", "n4"]));
}

#[test]
fn full_mesh_acknowledges_topology_without_effect() {
    let mut node = BroadcastNode::new(full_mesh(SyncFormat::PerValue));
    node.init(InitPayload { node_id: String::from("n1"), node_ids: names(&["n1", "n2", "n3"]) });
    let sent = node.step(from("c0", Some(1), topology(&[("n1", &["n9"])]))).unwrap();
    assert_eq!(sent, vec![reply("c0", 1, BroadcastPayload::TopologyOk)]);
    assert_eq!(node.neighbours(), &names(&["n2", "n3"]));
}

#[test]
fn topology_assigns_the_neighbours_of_the_own_entry() {
    let mut node = BroadcastNode::new(assigned(SyncFormat::PerValue));
    node.init(InitPayload { node_id: String::from("n1"), node_ids: names(&["n1", "n2", "n3"]) });
    let sent = node
        .step(from(
            "c0",
            Some(3),
            topology(&[("n2", &["n1"]), ("n1", &["n2", "n3"]), ("n3", &["n1"])]),
        ))
        .unwrap();
    assert_eq!(sent, vec![reply("c0", 3, BroadcastPayload::TopologyOk)]);
    assert_eq!(node.neighbours(), &names(&["n2", "n3"]));
}

#[test]
fn topology_without_the_own_entry_changes_nothing() {
    let mut node = n1(SyncFormat::PerValue);
    let sent = node.step(from("c0", Some(3), topology(&[("n2", &["n1"])]))).unwrap();
    assert_eq!(sent, vec![reply("c0", 3, BroadcastPayload::TopologyOk)]);
    assert_eq!(node.neighbours(), &names(&["n2", "n3"]));
}

#[test]
fn empty_topology_is_acknowledged() {
    let mut node = BroadcastNode::new(assigned(SyncFormat::PerValue));
    node.init(InitPayload { node_id: String::from("n1"), node_ids: names(&["n1"]) });
    let sent = node.step(from("c0", Some(3), topology(&[]))).unwrap();
    assert_eq!(sent, vec![reply("c0", 3, BroadcastPayload::TopologyOk)]);
    assert!(node.neighbours().is_empty());
}

#[test]
fn repeated_topology_adds_neighbours_behind_those_there() {
    let mut node = n1(SyncFormat::PerValue);
    node.step(from("c0", Some(3), topology(&[("n1", &["n3", "n4"])]))).unwrap();
    assert_eq!(node.neighbours(), &names(&["n2", "n3", "n3", "n4"]));
}

#[test]
fn first_entry_for_the_own_identity_counts() {
    let mut node = BroadcastNode::new(assigned(SyncFormat::PerValue));
    node.init(InitPayload { node_id: String::from("n1"), node_ids: names(&["n1", "n2", "n3"]) });
    node.step(from("c0", Some(3), topology(&[("n1", &["n2"]), ("n1", &["n3"])]))).unwrap();
    assert_eq!(node.neighbours(), &names(&["n2"]));
}

#[test]
fn broadcast_is_recorded_passed_on_and_acknowledged() {
    let mut node = n1(SyncFormat::PerValue);
    let sent =
        node.step(from("c1", Some(10), BroadcastPayload::Broadcast { message: 5 })).unwrap();
    assert_eq!(
        sent,
        vec![sync_one("n2", 5), sync_one("n3", 5), reply("c1", 10, BroadcastPayload::BroadcastOk)]
    );
    assert_eq!(node.seen(), &vec![5]);
}

#[test]
fn repeated_broadcast_is_acknowledged_and_not_passed_on() {
    let mut node = n1(SyncFormat::PerValue);
    node.step(from("c1", Some(10), BroadcastPayload::Broadcast { message: 5 })).unwrap();
    let sent =
        node.step(from("c1", Some(12), BroadcastPayload::Broadcast { message: 5 })).unwrap();
    assert_eq!(sent, vec![reply("c1", 12, BroadcastPayload::BroadcastOk)]);
    assert_eq!(node.seen(), &vec![5]);
}

#[test]
fn broadcast_is_passed_on_as_a_digest_of_one() {
    let mut node = n1(SyncFormat::Digest);
    let sent =
        node.step(from("c1", Some(10), BroadcastPayload::Broadcast { message: 5 })).unwrap();
    assert_eq!(
        sent,
        vec![
            sync_many("n2", &[5]),
            sync_many("n3", &[5]),
            reply("c1", 10, BroadcastPayload::BroadcastOk)
        ]
    );
    let again =
        node.step(from("c1", Some(12), BroadcastPayload::Broadcast { message: 5 })).unwrap();
    assert_eq!(again, vec![reply("c1", 12, BroadcastPayload::BroadcastOk)]);
}

#[test]
fn broadcast_to_a_node_without_neighbours_is_only_acknowledged() {
    let mut node = BroadcastNode::new(assigned(SyncFormat::PerValue));
    node.init(InitPayload { node_id: String::from("n1"), node_ids: names(&["n1"]) });
    let sent = node.step(from("c1", None, BroadcastPayload::Broadcast { message: 0 })).unwrap();
    assert_eq!(sent.len(), 1);
    assert_eq!(sent[0].body.payload, BroadcastPayload::BroadcastOk);
    assert_eq!(sent[0].body.msg_id, None);
    assert_eq!(sent[0].body.in_reply_to, None);
    assert_eq!(node.seen(), &vec![0]);
}

#[test]
fn read_lists_each_value_once_in_order_of_arrival() {
    let mut node = n1(SyncFormat::PerValue);
    for (i, value) in [7u64, 3, 7, 9, 3, 3, 1].iter().enumerate() {
        node.step(from("c1", Some(i as u64), BroadcastPayload::Broadcast { message: *value }))
            .unwrap();
    }
    let sent = node.step(from("c2", Some(40), BroadcastPayload::Read)).unwrap();
    assert_eq!(sent, vec![reply("c2", 40, BroadcastPayload::ReadOk { messages: vec![7, 3, 9, 1] })]);
}

#[test]
fn read_of_a_fresh_node_lists_nothing() {
    let mut node = n1(SyncFormat::PerValue);
    let sent = node.step(from("c2", Some(40), BroadcastPayload::Read)).unwrap();
    assert_eq!(sent, vec![reply("c2", 40, BroadcastPayload::ReadOk { messages: vec![] })]);
}

#[test]
fn read_changes_nothing() {
    let mut node = n1(SyncFormat::PerValue);
    node.step(from("c1", Some(1), BroadcastPayload::Broadcast { message: 8 })).unwrap();
    node.step(from("c2", Some(40), BroadcastPayload::Read)).unwrap();
    let sent = node.step(from("c2", Some(42), BroadcastPayload::Read)).unwrap();
    assert_eq!(sent, vec![reply("c2", 42, BroadcastPayload::ReadOk { messages: vec![8] })]);
}

#[test]
fn new_sync_is_recorded_and_passed_on_without_reply() {
    let mut node = n1(SyncFormat::PerValue);
    let sent = node.step(from("n2", Some(0), BroadcastPayload::Sync { message: 4 })).unwrap();
    assert_eq!(sent, vec![sync_one("n2", 4), sync_one("n3", 4)]);
    assert_eq!(node.seen(), &vec![4]);
}

#[test]
fn known_sync_is_dropped() {
    let mut node = n1(SyncFormat::PerValue);
    node.step(from("n2", Some(0), BroadcastPayload::Sync { message: 4 })).unwrap();
    let sent = node.step(from("n3", Some(0), BroadcastPayload::Sync { message: 4 })).unwrap();
    assert!(sent.is_empty());
    assert_eq!(node.seen(), &vec![4]);
}

#[test]
fn sync_with_the_largest_id_is_accepted() {
    let mut node = n1(SyncFormat::PerValue);
    let sent =
        node.step(from("n2", Some(u64::MAX), BroadcastPayload::Sync { message: 4 })).unwrap();
    assert_eq!(sent.len(), 2);
    assert_eq!(node.seen(), &vec![4]);
}

#[test]
fn digest_is_taken_in_and_only_the_news_is_passed_on() {
    let mut node = n1(SyncFormat::Digest);
    node.step(from("c1", Some(1), BroadcastPayload::Broadcast { message: 2 })).unwrap();
    let sent = node
        .step(from("n2", None, BroadcastPayload::SyncMany { messages: vec![1, 2, 3, 1, 3] }))
        .unwrap();
    assert_eq!(sent, vec![sync_many("n2", &[1, 3]), sync_many("n3", &[1, 3])]);
    assert_eq!(node.seen(), &vec![2, 1, 3]);
}

#[test]
fn digest_without_news_is_dropped() {
    let mut node = n1(SyncFormat::Digest);
    node.step(from("n2", None, BroadcastPayload::SyncMany { messages: vec![1, 2] })).unwrap();
    let sent =
        node.step(from("n3", None, BroadcastPayload::SyncMany { messages: vec![2, 1] })).unwrap();
    assert!(sent.is_empty());
    let empty = node.step(from("n3", None, BroadcastPayload::SyncMany { messages: vec![] })).unwrap();
    assert!(empty.is_empty());
    assert_eq!(node.seen(), &vec![1, 2]);
}

#[test]
fn digest_is_passed_on_value_by_value_by_a_per_value_node() {
    let mut node = n1(SyncFormat::PerValue);
    let sent =
        node.step(from("n2", None, BroadcastPayload::SyncMany { messages: vec![6, 5] })).unwrap();
    assert_eq!(
        sent,
        vec![sync_one("n2", 6), sync_one("n3", 6), sync_one("n2", 5), sync_one("n3", 5)]
    );
}

#[test]
fn heartbeat_replays_every_value_to_every_neighbour() {
    let mut node = n1(SyncFormat::PerValue);
    node.step(from("c1", Some(1), BroadcastPayload::Broadcast { message: 5 })).unwrap();
    node.step(from("n2", Some(0), BroadcastPayload::Sync { message: 2 })).unwrap();
    let sent = node.step(Events::Heartbeat).unwrap();
    assert_eq!(
        sent,
        vec![sync_one("n2", 5), sync_one("n3", 5), sync_one("n2", 2), sync_one("n3", 2)]
    );
    assert_eq!(node.seen(), &vec![5, 2]);
    assert_eq!(node.step(Events::Heartbeat).unwrap(), sent);
}

#[test]
fn heartbeat_sends_one_digest_to_every_neighbour() {
    let mut node = n1(SyncFormat::Digest);
    node.step(from("c1", Some(1), BroadcastPayload::Broadcast { message: 5 })).unwrap();
    node.step(from("c1", Some(3), BroadcastPayload::Broadcast { message: 2 })).unwrap();
    let sent = node.step(Events::Heartbeat).unwrap();
    assert_eq!(sent, vec![sync_many("n2", &[5, 2]), sync_many("n3", &[5, 2])]);
}

#[test]
fn heartbeat_of_a_node_that_knows_nothing_is_silent() {
    let mut per_value = n1(SyncFormat::PerValue);
    assert!(per_value.step(Events::Heartbeat).unwrap().is_empty());
    let mut digest = n1(SyncFormat::Digest);
    assert!(digest.step(Events::Heartbeat).unwrap().is_empty());
}

#[test]
fn heartbeat_of_a_node_without_neighbours_is_silent() {
    let mut node = BroadcastNode::new(assigned(SyncFormat::PerValue));
    node.step(from("c1", Some(1), BroadcastPayload::Broadcast { message: 5 })).unwrap();
    assert!(node.step(Events::Heartbeat).unwrap().is_empty());
}

#[test]
fn end_of_input_changes_nothing() {
    let mut node = n1(SyncFormat::PerValue);
    node.step(from("c1", Some(1), BroadcastPayload::Broadcast { message: 5 })).unwrap();
    assert!(node.step(Events::EOF).unwrap().is_empty());
    assert_eq!(node.seen(), &vec![5]);
    assert_eq!(node.neighbours(), &names(&["n2", "n3"]));
}

#[test]
fn replies_that_arrive_are_ignored() {
    let mut node = n1(SyncFormat::PerValue);
    assert!(node.step(from("n2", Some(1), BroadcastPayload::BroadcastOk)).unwrap().is_empty());
    assert!(node.step(from("n2", Some(1), BroadcastPayload::TopologyOk)).unwrap().is_empty());
    assert!(node
        .step(from("n2", Some(1), BroadcastPayload::ReadOk { messages: vec![1, 2] }))
        .unwrap()
        .is_empty());
    assert!(node.seen().is_empty());
}

#[test]
fn request_that_cannot_be_answered_is_refused_and_changes_nothing() {
    let mut node = n1(SyncFormat::PerValue);
    assert_eq!(
        node.step(from("c1", Some(u64::MAX), BroadcastPayload::Broadcast { message: 5 })),
        Err(HandlerError::MessageIdExhausted)
    );
    assert_eq!(
        node.step(from("c1", Some(u64::MAX), BroadcastPayload::Read)),
        Err(HandlerError::MessageIdExhausted)
    );
    assert_eq!(
        node.step(from("c1", Some(u64::MAX), topology(&[("n1", &["n7"])]))),
        Err(HandlerError::MessageIdExhausted)
    );
    assert!(node.seen().is_empty());
    assert_eq!(node.neighbours(), &names(&["n2", "n3"]));
}

#[test]
fn reply_comes_from_the_address_the_request_was_sent_to() {
    let mut node = n1(SyncFormat::PerValue);
    let sent = node
        .step(Events::Message(Message {
            src: String::from("c9"),
            dest: String::from("alias"),
            body: Body { msg_id: Some(1), in_reply_to: None, payload: BroadcastPayload::Read },
        }))
        .unwrap();
    assert_eq!(sent[0].src, "alias");
    assert_eq!(sent[0].dest, "c9");
}

#[test]
fn topology_lookup() {
    let topology = Topology::from_entries(vec![
        (String::from("n1"), names(&["n2"])),
        (String::from("n2"), names(&["n1", "n3"])),
    ]);
    assert_eq!(topology.neighbours_of(&String::from("n2")), Some(&names(&["n1", "n3"])));
    assert_eq!(topology.neighbours_of(&String::from("n1")), Some(&names(&["n2"])));
    assert_eq!(topology.neighbours_of(&String::from("n3")), None);
    assert_eq!(topology.len(), 2);
}

#[test]
fn topology_keeps_one_entry_for_each_identity() {
    let topology = Topology::from_entries(vec![
        (String::from("n1"), names(&["n2"])),
        (String::from("n2"), names(&["n1"])),
        (String::from("n1"), names(&["n3"])),
        (String::from("n3"), names(&[])),
        (String::from("n2"), names(&["n3"])),
    ]);
    assert_eq!(
        topology.entries(),
        &vec![
            (String::from("n1"), names(&["n2"])),
            (String::from("n2"), names(&["n1"])),
            (String::from("n3"), names(&[])),
        ]
    );
    assert_eq!(topology.neighbours_of(&String::from("n1")), Some(&names(&["n2"])));
}

#[test]
fn empty_topology_assigns_nothing() {
    let topology = Topology::from_entries(Vec::new());
    assert_eq!(topology.len(), 0);
    assert!(topology.entries().is_empty());
    assert_eq!(topology.neighbours_of(&String::from("n1")), None);
}

#[test]
fn copy_of_a_topology_equals_it() {
    let topology = Topology::from_entries(vec![
        (String::from("n1"), names(&["n2", "n3"])),
        (String::from("n2"), names(&[])),
    ]);
    let copy = topology.clone();
    assert_eq!(copy, topology);
    assert_eq!(copy.entries(), topology.entries());
}
