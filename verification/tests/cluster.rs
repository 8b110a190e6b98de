use rusty_maelstrom::{
    Body, BroadcastConfig, BroadcastNode, BroadcastPayload, Events, InitPayload, Message, NodeType,
    SyncFormat, Topology, TopologyStrategy,
};

type Wire = Vec<Message<BroadcastPayload>>;

fn name(i: usize) -> String {
    format!("n{}", i)
}

/// A cluster of `links.len()` nodes in which node `i` passes values on to
/// the nodes `links[i]`.
fn cluster(links: &[&[usize]], sync: SyncFormat) -> Vec<BroadcastNode> {
    let ids: Vec<String> = (0..links.len()).map(name).collect();
    let topology = Topology::from_entries(
        links
            .iter()
            .enumerate()
            .map(|(i, to)| (name(i), to.iter().map(|j| name(*j)).collect()))
            .collect(),
    );
    let mut nodes = Vec::new();
    for i in 0..links.len() {
        let mut node =
            BroadcastNode::new(BroadcastConfig { topology: TopologyStrategy::Assigned, sync });
        node.init(InitPayload { node_id: name(i), node_ids: ids.clone() });
        node.step(Events::Message(Message {
            src: String::from("c0"),
            dest: name(i),
            body: Body {
                msg_id: Some(1),
                in_reply_to: None,
                payload: BroadcastPayload::Topology { topology: topology.clone() },
            },
        }))
        .unwrap();
        nodes.push(node);
    }
    nodes
}

/// Delivers `wire` in order and returns what is sent in answer.
fn deliver_all(nodes: &mut Vec<BroadcastNode>, wire: Wire) -> Wire {
    let mut sent = Vec::new();
    for envelope in wire {
        let home = nodes.iter().position(|node| *node.id() == envelope.dest);
        if let Some(j) = home {
            sent.extend(nodes[j].step(Events::Message(envelope)).unwrap());
        }
    }
    sent
}

fn broadcast(to: usize, message: u64) -> Message<BroadcastPayload> {
    Message {
        src: String::from("c1"),
        dest: name(to),
        body: Body {
            msg_id: Some(1),
            in_reply_to: None,
            payload: BroadcastPayload::Broadcast { message },
        },
    }
}

fn syncs(wire: &Wire) -> usize {
    wire.iter()
        .filter(|envelope| {
            matches!(
                envelope.body.payload,
                BroadcastPayload::Sync { .. } | BroadcastPayload::SyncMany { .. }
            )
        })
        .count()
}

fn sorted(values: &Vec<u64>) -> Vec<u64> {
    let mut values = values.clone();
    values.sort();
    values
}

const LINE: &[&[usize]] = &[&[1], &[0, 2], &[1, 3], &[2]];

const RING: &[&[usize]] = &[&[1], &[2], &[3], &[4], &[0]];

#[test]
fn gossip_advances_one_hop_per_round() {
    let mut nodes = cluster(LINE, SyncFormat::PerValue);
    let mut wire = deliver_all(&mut nodes, vec![broadcast(0, 42)]);
    assert_eq!(nodes[0].seen(), &vec![42]);
    for round in 1..4 {
        assert!(nodes[round].seen().is_empty());
        wire = deliver_all(&mut nodes, wire);
        assert_eq!(nodes[round].seen(), &vec![42]);
    }
}

#[test]
fn gossip_reaches_every_node_within_the_diameter() {
    for sync in [SyncFormat::PerValue, SyncFormat::Digest] {
        let mut nodes = cluster(RING, sync);
        let mut wire = deliver_all(&mut nodes, vec![broadcast(2, 7)]);
        for _ in 0..4 {
            wire = deliver_all(&mut nodes, wire);
        }
        for node in &nodes {
            assert_eq!(node.seen(), &vec![7]);
        }
    }
}

#[test]
fn gossip_dies_out_after_one_sync_per_link() {
    let mut nodes = cluster(LINE, SyncFormat::PerValue);
    let mut wire = deliver_all(&mut nodes, vec![broadcast(0, 42)]);
    let mut total = 0;
    let mut rounds = 0;
    while !wire.is_empty() {
        total += syncs(&wire);
        wire = deliver_all(&mut nodes, wire);
        rounds += 1;
        assert!(rounds <= 10);
    }
    assert_eq!(total, 6);
    for node in &nodes {
        assert_eq!(node.seen(), &vec![42]);
    }
}

#[test]
fn node_passes_a_value_on_only_once() {
    let mut nodes = cluster(LINE, SyncFormat::PerValue);
    let first = deliver_all(&mut nodes, vec![broadcast(1, 5)]);
    assert_eq!(syncs(&first), 2);
    let second = deliver_all(&mut nodes, vec![broadcast(1, 5)]);
    assert_eq!(syncs(&second), 0);
    let third = deliver_all(
        &mut nodes,
        vec![Message {
            src: name(0),
            dest: name(1),
            body: Body {
                msg_id: Some(0),
                in_reply_to: None,
                payload: BroadcastPayload::Sync { message: 5 },
            },
        }],
    );
    assert!(third.is_empty());
}

#[test]
fn client_gets_broadcast_ok_from_the_cluster() {
    let mut nodes = cluster(LINE, SyncFormat::PerValue);
    let wire = deliver_all(&mut nodes, vec![broadcast(3, 1)]);
    let last = wire.last().unwrap();
    assert_eq!(last.dest, "c1");
    assert_eq!(last.src, "n3");
    assert_eq!(last.body.payload, BroadcastPayload::BroadcastOk);
    assert_eq!(last.body.in_reply_to, Some(1));
}

#[test]
fn heartbeats_repair_what_was_lost() {
    for sync in [SyncFormat::PerValue, SyncFormat::Digest] {
        let mut nodes = cluster(LINE, sync);
        // Every sync of the flooding is lost.
        deliver_all(&mut nodes, vec![broadcast(0, 1)]);
        deliver_all(&mut nodes, vec![broadcast(3, 2)]);
        deliver_all(&mut nodes, vec![broadcast(1, 3)]);
        assert_eq!(nodes[0].seen(), &vec![1]);
        assert_eq!(nodes[2].seen(), &Vec::<u64>::new());
        // A round in which every second envelope is lost, then three without loss.
        let mut wire: Wire = Vec::new();
        for round in 0..4 {
            let mut offered = wire;
            for node in nodes.iter_mut() {
                offered.extend(node.step(Events::Heartbeat).unwrap());
            }
            if round == 0 {
                let mut position = 0;
                offered.retain(|_| {
                    position += 1;
                    position % 2 == 0
                });
            }
            wire = deliver_all(&mut nodes, offered);
        }
        for node in &nodes {
            assert_eq!(sorted(node.seen()), vec![1, 2, 3]);
        }
    }
}

#[test]
fn rounds_in_which_everything_is_lost_change_nothing() {
    let mut nodes = cluster(LINE, SyncFormat::PerValue);
    deliver_all(&mut nodes, vec![broadcast(0, 1)]);
    for _ in 0..5 {
        for node in nodes.iter_mut() {
            node.step(Events::Heartbeat).unwrap();
        }
    }
    assert_eq!(nodes[0].seen(), &vec![1]);
    for node in &nodes[1..] {
        assert!(node.seen().is_empty());
    }
}

#[test]
fn nodes_that_are_not_reached_learn_nothing() {
    // Node 2 passes values on to node 0, but nobody passes anything on to it.
    let links: &[&[usize]] = &[&[1], &[0], &[0]];
    let mut nodes = cluster(links, SyncFormat::PerValue);
    let mut wire = deliver_all(&mut nodes, vec![broadcast(0, 9)]);
    for _ in 0..5 {
        for node in nodes.iter_mut() {
            wire.extend(node.step(Events::Heartbeat).unwrap());
        }
        wire = deliver_all(&mut nodes, wire);
    }
    assert_eq!(nodes[0].seen(), &vec![9]);
    assert_eq!(nodes[1].seen(), &vec![9]);
    assert!(nodes[2].seen().is_empty());
}
