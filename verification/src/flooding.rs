//! Flooding: how far a broadcast value gets, round by round, when nothing is
//! lost.

use crate::broadcast::{BroadcastPayloadView, Envelope};
use crate::broadcast_laws::{lemma_receive, passed_on};
use crate::cluster::{
    all_emitted, lemma_deliver_all, lemma_within_same_links, spread, Cluster,
};
use crate::message::EventsView;
use vstd::prelude::*;

verus! {

impl Cluster {
    /// The cluster and the wire after `rounds` rounds of flooding. In each
    /// round everything on the wire is delivered, and what is sent in answer
    /// is the wire of the next round.
    pub open spec fn flood(self, wire: Seq<Envelope>, rounds: nat) -> (Cluster, Seq<Envelope>)
        decreases rounds,
    {
        if rounds == 0 {
            (self, wire)
        } else {
            let (cluster, wire) = self.flood(wire, (rounds - 1) as nat);
            cluster.deliver_all(wire)
        }
    }

    /// Whether `value` is on its way wherever it is due: every neighbour in
    /// the cluster of a node that knows the value knows it too, or is passed
    /// it on the wire.
    pub open spec fn covered(self, wire: Seq<Envelope>, value: u64) -> bool {
        forall|m: int, j: int|
            self.knows(m, value) && self.has(j) && #[trigger] self.linked(m, self.nodes[j].id)
                ==> self.knows(j, value) || passed_on(wire, self.nodes[j].id, value)
    }
}

/// A round of flooding keeps a value on its way wherever it is due.
pub proof fn lemma_round_keeps_covered(cluster: Cluster, wire: Seq<Envelope>, value: u64)
    requires
        cluster.wf(),
        all_emitted(wire),
        cluster.covered(wire, value),
    ensures
        ({
            let (after, sent) = cluster.deliver_all(wire);
            &&& spread(cluster, wire, after, sent)
            &&& after.covered(sent, value)
        }),
{
    let (after, sent) = cluster.deliver_all(wire);
    lemma_deliver_all(cluster, wire);
    assert forall|m: int, j: int|
        after.knows(m, value) && after.has(j) && #[trigger] after.linked(
            m,
            after.nodes[j].id,
        ) implies after.knows(j, value) || passed_on(sent, after.nodes[j].id, value) by {
        let to = cluster.nodes[j].id;
        assert(cluster.linked(m, to));
        if cluster.knows(m, value) {
            if !cluster.knows(j, value) {
                assert(passed_on(wire, to, value));
            }
            assert(after.knows(j, value));
        } else {
            assert(passed_on(sent, to, value));
        }
    }
}

/// Flooding keeps a cluster well formed and linked as it was, loses nothing
/// that a node knew, and keeps a value on its way wherever it is due.
pub proof fn lemma_flood_keeps_covered(
    cluster: Cluster,
    wire: Seq<Envelope>,
    value: u64,
    rounds: nat,
)
    requires
        cluster.wf(),
        all_emitted(wire),
        cluster.covered(wire, value),
    ensures
        ({
            let (after, sent) = cluster.flood(wire, rounds);
            &&& after.wf()
            &&& after.same_links(cluster)
            &&& all_emitted(sent)
            &&& after.covered(sent, value)
            &&& forall|j: int, x: u64| cluster.knows(j, x) ==> #[trigger] after.knows(j, x)
        }),
    decreases rounds,
{
    if rounds > 0 {
        let (before, on_wire) = cluster.flood(wire, (rounds - 1) as nat);
        lemma_flood_keeps_covered(cluster, wire, value, (rounds - 1) as nat);
        lemma_round_keeps_covered(before, on_wire, value);
        let (after, sent) = before.deliver_all(on_wire);
        assert forall|j: int, x: u64| cluster.knows(j, x) implies #[trigger] after.knows(j, x) by {
            assert(before.knows(j, x));
        }
    }
}

/// After as many rounds of flooding as `target` is hops away from a node
/// that knows a value, `target` knows it too, if the value is on its way
/// wherever it is due.
pub proof fn lemma_flood_carries(
    cluster: Cluster,
    wire: Seq<Envelope>,
    value: u64,
    origin: int,
    target: int,
    rounds: nat,
)
    requires
        cluster.wf(),
        all_emitted(wire),
        cluster.covered(wire, value),
        cluster.knows(origin, value),
        cluster.has(target),
        cluster.within(origin, target, rounds),
    ensures
        cluster.flood(wire, rounds).0.knows(target, value),
    decreases rounds,
{
    if rounds > 0 {
        let earlier = (rounds - 1) as nat;
        let (before, on_wire) = cluster.flood(wire, earlier);
        let (after, sent) = before.deliver_all(on_wire);
        lemma_flood_keeps_covered(cluster, wire, value, earlier);
        lemma_round_keeps_covered(before, on_wire, value);
        if cluster.within(origin, target, earlier) {
            lemma_flood_carries(cluster, wire, value, origin, target, earlier);
            assert(after.knows(target, value));
        } else {
            let via = choose|via: int|
                #[trigger] cluster.has(via) && cluster.within(origin, via, earlier)
                    && cluster.linked(via, cluster.nodes[target].id);
            lemma_flood_carries(cluster, wire, value, origin, via, earlier);
            assert(before.knows(via, value));
            assert(before.linked(via, before.nodes[target].id));
            if !before.knows(target, value) {
                assert(passed_on(on_wire, before.nodes[target].id, value));
            }
            assert(after.knows(target, value));
        }
    }
}

/// What a `broadcast` of a value that no node knows does to the cluster
/// when it is delivered to one of its nodes: that node knows the value, the
/// value is on its way to each of its neighbours, and the client's
/// `broadcast_ok` is the last envelope sent.
pub proof fn lemma_broadcast_lands(cluster: Cluster, origin: int, request: Envelope, value: u64)
    requires
        cluster.wf(),
        cluster.has(origin),
        request.dest == cluster.nodes[origin].id,
        request.body.payload == (BroadcastPayloadView::Broadcast { message: value }),
        request.answerable(),
        forall|j: int| !cluster.knows(j, value),
    ensures
        ({
            let (after, sent) = cluster.deliver(request);
            &&& after.wf()
            &&& after.same_links(cluster)
            &&& all_emitted(sent)
            &&& after.covered(sent, value)
            &&& after.knows(origin, value)
            &&& sent.len() > 0
            &&& sent.last() == request.reply(BroadcastPayloadView::BroadcastOk)
        }),
{
    let (after, sent) = cluster.deliver(request);
    let node = cluster.nodes[origin];
    assert(cluster.named(origin, request.dest));
    assert(cluster.home(request.dest) == origin);
    lemma_receive(node, request);
    assert(after.nodes[origin] == node.receive(request).0);
    assert(sent == node.emits(EventsView::Message(request)));
    assert(seq![value][0] == value);
    assert(after.knows(origin, value));
    assert forall|m: int, j: int|
        after.knows(m, value) && after.has(j) && #[trigger] after.linked(
            m,
            after.nodes[j].id,
        ) implies after.knows(j, value) || passed_on(sent, after.nodes[j].id, value) by {
        if m != origin {
            assert(after.nodes[m] == cluster.nodes[m]);
            assert(cluster.knows(m, value));
        }
        let to = after.nodes[j].id;
        assert(!cluster.knows(origin, value));
        assert(node.neighbours.contains(to));
        let p = choose|p: int| 0 <= p < node.neighbours.len() && node.neighbours[p] == to;
        assert(passed_on(sent, node.neighbours[p], value));
    }
}

/// Gossip reaches a node within as many rounds as it is hops away.
///
/// Take a cluster in which no node knows `value`, and a `broadcast` of it,
/// with a reply that can be numbered, to the node `origin`. After the
/// request was delivered and `rounds` rounds of flooding went by without
/// loss, every node that `origin` reaches over at most `rounds` links knows
/// the value.
pub proof fn lemma_gossip_reaches(
    cluster: Cluster,
    origin: int,
    request: Envelope,
    value: u64,
    target: int,
    rounds: nat,
)
    requires
        cluster.wf(),
        cluster.has(origin),
        cluster.has(target),
        request.dest == cluster.nodes[origin].id,
        request.body.payload == (BroadcastPayloadView::Broadcast { message: value }),
        request.answerable(),
        forall|j: int| !cluster.knows(j, value),
        cluster.within(origin, target, rounds),
    ensures
        ({
            let (landed, wire) = cluster.deliver(request);
            landed.flood(wire, rounds).0.knows(target, value)
        }),
{
    let (landed, wire) = cluster.deliver(request);
    lemma_broadcast_lands(cluster, origin, request, value);
    lemma_within_same_links(cluster, landed, origin, target, rounds);
    lemma_flood_carries(landed, wire, value, origin, target, rounds);
}

/// Gossip reaches every node within as many rounds as the cluster is wide:
/// if `origin` reaches every node over at most `diameter` links, then after
/// `diameter` rounds of flooding every node knows the value.
pub proof fn lemma_gossip_reaches_everyone(
    cluster: Cluster,
    origin: int,
    request: Envelope,
    value: u64,
    diameter: nat,
)
    requires
        cluster.wf(),
        cluster.has(origin),
        request.dest == cluster.nodes[origin].id,
        request.body.payload == (BroadcastPayloadView::Broadcast { message: value }),
        request.answerable(),
        forall|j: int| !cluster.knows(j, value),
        forall|j: int| cluster.has(j) ==> cluster.within(origin, j, diameter),
    ensures
        ({
            let (landed, wire) = cluster.deliver(request);
            let after = landed.flood(wire, diameter).0;
            forall|j: int| cluster.has(j) ==> #[trigger] after.knows(j, value)
        }),
{
    let (landed, wire) = cluster.deliver(request);
    let after = landed.flood(wire, diameter).0;
    assert forall|j: int| cluster.has(j) implies #[trigger] after.knows(j, value) by {
        lemma_gossip_reaches(cluster, origin, request, value, j, diameter);
    }
}

} // verus!
