//! A cluster of broadcast nodes and the envelopes that travel between them.
//!
//! This is a model only: it says what becomes of a whole cluster when
//! envelopes are delivered to the nodes they are addressed to, each node
//! reacting as [`BroadcastModel::step`] says.

use crate::broadcast::{carried, BroadcastModel, Envelope};
use crate::broadcast_laws::{
    is_emitted, is_sync, lemma_passed_on_add, lemma_receive, passed_on, passes,
};
use crate::message::EventsView;
use vstd::prelude::*;

verus! {

/// The nodes of a cluster.
pub struct Cluster {
    pub nodes: Seq<BroadcastModel>,
}

impl Cluster {
    /// Every node is well formed and no two nodes share an identity.
    pub open spec fn wf(self) -> bool {
        &&& forall|i: int| 0 <= i < self.nodes.len() ==> (#[trigger] self.nodes[i]).wf()
        &&& forall|i: int, j: int|
            0 <= i < self.nodes.len() && 0 <= j < self.nodes.len() && i != j ==> (
            #[trigger] self.nodes[i]).id != (#[trigger] self.nodes[j]).id
    }

    /// Whether `j` is a node.
    pub open spec fn has(self, j: int) -> bool {
        0 <= j < self.nodes.len()
    }

    /// Whether node `j` has seen `value`.
    pub open spec fn knows(self, j: int, value: u64) -> bool {
        self.has(j) && self.nodes[j].seen.contains(value)
    }

    /// Whether node `j` passes values on to the identity `to`.
    pub open spec fn linked(self, j: int, to: Seq<char>) -> bool {
        self.has(j) && self.nodes[j].neighbours.contains(to)
    }

    /// Whether node `j` has the identity `id`.
    pub open spec fn named(self, j: int, id: Seq<char>) -> bool {
        self.has(j) && self.nodes[j].id == id
    }

    /// The node with the identity `id`, where there is one.
    pub open spec fn home(self, id: Seq<char>) -> int {
        choose|j: int| self.named(j, id)
    }

    /// Whether `origin` reaches `target` over at most `hops` links.
    pub open spec fn within(self, origin: int, target: int, hops: nat) -> bool
        decreases hops,
    {
        if hops == 0 {
            origin == target
        } else {
            self.within(origin, target, (hops - 1) as nat) || exists|via: int|
                #[trigger] self.has(via) && self.within(origin, via, (hops - 1) as nat)
                    && self.linked(via, self.nodes[target].id)
        }
    }

    /// The nodes of `self` are those of `other` with the same identities,
    /// choices and neighbours.
    pub open spec fn same_links(self, other: Cluster) -> bool {
        &&& self.nodes.len() == other.nodes.len()
        &&& forall|j: int|
            0 <= j < self.nodes.len() ==> {
                &&& (#[trigger] self.nodes[j]).id == other.nodes[j].id
                &&& self.nodes[j].neighbours == other.nodes[j].neighbours
                &&& self.nodes[j].config == other.nodes[j].config
            }
    }

    /// The cluster after `envelope` was delivered, and what is sent in
    /// answer. An envelope for nobody in the cluster changes nothing.
    pub open spec fn deliver(self, envelope: Envelope) -> (Cluster, Seq<Envelope>) {
        let j = self.home(envelope.dest);
        if self.named(j, envelope.dest) {
            (
                Cluster {
                    nodes: self.nodes.update(
                        j,
                        self.nodes[j].step(EventsView::Message(envelope)).0,
                    ),
                },
                self.nodes[j].emits(EventsView::Message(envelope)),
            )
        } else {
            (self, Seq::empty())
        }
    }

    /// The cluster after all of `wire` was delivered in order, and all that
    /// is sent in answer.
    pub open spec fn deliver_all(self, wire: Seq<Envelope>) -> (Cluster, Seq<Envelope>)
        decreases wire.len(),
    {
        if wire.len() == 0 {
            (self, Seq::empty())
        } else {
            let (before, sent) = self.deliver_all(wire.drop_last());
            let (after, more) = before.deliver(wire.last());
            (after, sent + more)
        }
    }
}

/// Whether every envelope of `wire` is one that nodes send.
pub open spec fn all_emitted(wire: Seq<Envelope>) -> bool {
    forall|k: int| 0 <= k < wire.len() ==> is_emitted((#[trigger] wire[k]).body.payload)
}

/// What delivering `wire` to `before` may have led to, if it led to `after`
/// and to `sent`:
///
/// - the nodes are well formed and linked as they were;
/// - every node knows what it knew, and beyond that exactly the values that
///   `wire` passed on to it;
/// - `sent` holds only envelopes that nodes send, and every value that some
///   node came to know is passed on in it to each of that node's neighbours;
/// - every value that `sent` passes on came to be known by a node.
pub open spec fn spread(
    before: Cluster,
    wire: Seq<Envelope>,
    after: Cluster,
    sent: Seq<Envelope>,
) -> bool {
    &&& after.wf()
    &&& after.same_links(before)
    &&& all_emitted(sent)
    &&& forall|j: int, x: u64| before.knows(j, x) ==> #[trigger] after.knows(j, x)
    &&& forall|j: int, x: u64| #[trigger]
        after.knows(j, x) ==> before.knows(j, x) || passed_on(wire, before.nodes[j].id, x)
    &&& forall|j: int, x: u64|
        before.has(j) && #[trigger] passed_on(wire, before.nodes[j].id, x) ==> after.knows(j, x)
    &&& forall|j: int, to: Seq<char>, x: u64|
        #![trigger after.knows(j, x), before.linked(j, to)]
        after.knows(j, x) && !before.knows(j, x) && before.linked(j, to) ==> passed_on(sent, to, x)
    &&& forall|k: int, x: u64|
        0 <= k < sent.len() && is_sync(sent[k].body.payload) && #[trigger] carried(
            sent[k].body.payload,
        ).contains(x) ==> exists|j: int| after.knows(j, x) && !before.knows(j, x)
}

/// Delivering nothing leads to nothing.
pub proof fn lemma_spread_nothing(cluster: Cluster)
    requires
        cluster.wf(),
    ensures
        spread(cluster, Seq::empty(), cluster, Seq::empty()),
{
}

/// Two deliveries in a row are one delivery of both wires.
pub proof fn lemma_spread_twice(
    a: Cluster,
    first: Seq<Envelope>,
    b: Cluster,
    sent: Seq<Envelope>,
    second: Seq<Envelope>,
    c: Cluster,
    more: Seq<Envelope>,
)
    requires
        spread(a, first, b, sent),
        spread(b, second, c, more),
    ensures
        spread(a, first + second, c, sent + more),
{
    let wire = first + second;
    let all = sent + more;
    assert forall|j: int, x: u64| a.knows(j, x) implies #[trigger] c.knows(j, x) by {
        assert(b.knows(j, x));
    }
    assert forall|j: int, x: u64| #[trigger] c.knows(j, x) implies a.knows(j, x) || passed_on(
        wire,
        a.nodes[j].id,
        x,
    ) by {
        lemma_passed_on_add(first, second, a.nodes[j].id, x);
        if !b.knows(j, x) {
            assert(passed_on(second, b.nodes[j].id, x));
        }
    }
    assert forall|j: int, x: u64|
        a.has(j) && #[trigger] passed_on(wire, a.nodes[j].id, x) implies c.knows(j, x) by {
        lemma_passed_on_add(first, second, a.nodes[j].id, x);
        if passed_on(first, a.nodes[j].id, x) {
            assert(b.knows(j, x));
        } else {
            assert(passed_on(second, b.nodes[j].id, x));
        }
    }
    assert forall|j: int, to: Seq<char>, x: u64|
        #![trigger c.knows(j, x), a.linked(j, to)]
        c.knows(j, x) && !a.knows(j, x) && a.linked(j, to) implies passed_on(all, to, x) by {
        lemma_passed_on_add(sent, more, to, x);
        assert(b.linked(j, to));
        if b.knows(j, x) {
            assert(passed_on(sent, to, x));
        } else {
            assert(passed_on(more, to, x));
        }
    }
    assert forall|k: int, x: u64|
        0 <= k < all.len() && is_sync(all[k].body.payload) && #[trigger] carried(
            all[k].body.payload,
        ).contains(x) implies exists|j: int| c.knows(j, x) && !a.knows(j, x) by {
        if k < sent.len() {
            assert(all[k] == sent[k]);
            let j = choose|j: int| b.knows(j, x) && !a.knows(j, x);
            assert(c.knows(j, x));
        } else {
            assert(all[k] == more[k - sent.len()]);
            let j = choose|j: int| c.knows(j, x) && !b.knows(j, x);
            if a.knows(j, x) {
                assert(b.knows(j, x));
            }
        }
    }
    assert(all_emitted(all)) by {
        assert forall|k: int| 0 <= k < all.len() implies is_emitted(
            (#[trigger] all[k]).body.payload,
        ) by {
            if k < sent.len() {
                assert(all[k] == sent[k]);
            } else {
                assert(all[k] == more[k - sent.len()]);
            }
        }
    }
}

/// What delivering one envelope that a node sent leads to.
pub proof fn lemma_deliver(cluster: Cluster, envelope: Envelope)
    requires
        cluster.wf(),
        is_emitted(envelope.body.payload),
    ensures
        spread(cluster, seq![envelope], cluster.deliver(envelope).0, cluster.deliver(envelope).1),
{
    let wire = seq![envelope];
    let (after, sent) = cluster.deliver(envelope);
    let home = cluster.home(envelope.dest);
    assert forall|j: int, x: u64| #[trigger]
        passed_on(wire, cluster.nodes[j].id, x) && cluster.has(j) implies cluster.named(
        home,
        envelope.dest,
    ) && j == home && carried(envelope.body.payload).contains(x) by {
        let k = choose|k: int|
            0 <= k < wire.len() && passes(#[trigger] wire[k], cluster.nodes[j].id, x);
        assert(wire[k] == envelope);
        assert(cluster.named(j, envelope.dest));
    }
    if cluster.named(home, envelope.dest) {
        let node = cluster.nodes[home];
        lemma_receive(node, envelope);
        assert(after.nodes[home] == node.receive(envelope).0);
        assert forall|j: int, x: u64| #[trigger] after.knows(j, x) implies cluster.knows(j, x)
            || passed_on(wire, cluster.nodes[j].id, x) by {
            if j == home && !cluster.knows(j, x) {
                assert(carried(envelope.body.payload).contains(x));
                assert(passes(wire[0], cluster.nodes[j].id, x));
            }
        }
        assert forall|j: int, to: Seq<char>, x: u64|
            #![trigger after.knows(j, x), cluster.linked(j, to)]
            after.knows(j, x) && !cluster.knows(j, x) && cluster.linked(j, to) implies passed_on(
            sent,
            to,
            x,
        ) by {
            assert(j == home);
            let p = choose|p: int| 0 <= p < node.neighbours.len() && node.neighbours[p] == to;
            assert(passed_on(sent, node.neighbours[p], x));
        }
        assert forall|k: int, x: u64|
            0 <= k < sent.len() && is_sync(sent[k].body.payload) && #[trigger] carried(
                sent[k].body.payload,
            ).contains(x) implies exists|j: int| after.knows(j, x) && !cluster.knows(j, x) by {
            assert(after.knows(home, x) && !cluster.knows(home, x));
        }
        assert(after.wf());
        assert(after.same_links(cluster));
    }
}

/// What delivering a wire of envelopes that nodes sent leads to.
pub proof fn lemma_deliver_all(cluster: Cluster, wire: Seq<Envelope>)
    requires
        cluster.wf(),
        all_emitted(wire),
    ensures
        spread(cluster, wire, cluster.deliver_all(wire).0, cluster.deliver_all(wire).1),
    decreases wire.len(),
{
    if wire.len() == 0 {
        assert(wire =~= Seq::empty());
        lemma_spread_nothing(cluster);
    } else {
        let (before, sent) = cluster.deliver_all(wire.drop_last());
        let (after, more) = before.deliver(wire.last());
        lemma_deliver_all(cluster, wire.drop_last());
        lemma_deliver(before, wire.last());
        lemma_spread_twice(cluster, wire.drop_last(), before, sent, seq![wire.last()], after, more);
        assert(wire =~= wire.drop_last() + seq![wire.last()]);
    }
}

/// Reach is a matter of links alone.
pub proof fn lemma_within_same_links(
    a: Cluster,
    b: Cluster,
    origin: int,
    target: int,
    hops: nat,
)
    requires
        a.same_links(b),
        a.has(target),
        a.within(origin, target, hops),
    ensures
        b.within(origin, target, hops),
    decreases hops,
{
    if hops > 0 {
        if a.within(origin, target, (hops - 1) as nat) {
            lemma_within_same_links(a, b, origin, target, (hops - 1) as nat);
        } else {
            let via = choose|via: int|
                #[trigger] a.has(via) && a.within(origin, via, (hops - 1) as nat) && a.linked(
                    via,
                    a.nodes[target].id,
                );
            lemma_within_same_links(a, b, origin, via, (hops - 1) as nat);
            assert(b.linked(via, b.nodes[target].id));
        }
    }
}

} // verus!
