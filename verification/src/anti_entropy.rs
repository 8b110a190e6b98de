//! Anti-entropy: how heartbeats repair what was lost on the way.

use crate::broadcast::{carried, Envelope};
use crate::broadcast_laws::{
    is_emitted, is_sync, lemma_heartbeat, lemma_passed_on_add, passed_on, passes,
};
use crate::cluster::{all_emitted, lemma_deliver_all, spread, Cluster};
use crate::message::EventsView;
use vstd::prelude::*;

verus! {

/// What is left of `offered` when the envelopes at the positions in `lost`
/// are lost.
pub open spec fn surviving(offered: Seq<Envelope>, lost: Set<int>) -> Seq<Envelope>
    decreases offered.len(),
{
    if offered.len() == 0 {
        Seq::empty()
    } else if lost.contains(offered.len() - 1) {
        surviving(offered.drop_last(), lost)
    } else {
        surviving(offered.drop_last(), lost).push(offered.last())
    }
}

/// How many rounds of `schedule` lose nothing.
pub open spec fn lossless_rounds(schedule: Seq<Set<int>>) -> nat
    decreases schedule.len(),
{
    if schedule.len() == 0 {
        0
    } else if schedule.last() == Set::<int>::empty() {
        lossless_rounds(schedule.drop_last()) + 1
    } else {
        lossless_rounds(schedule.drop_last())
    }
}

impl Cluster {
    /// What the first `count` nodes send on a heartbeat, node after node.
    pub open spec fn heartbeats_of(self, count: nat) -> Seq<Envelope>
        decreases count,
    {
        if count == 0 {
            Seq::empty()
        } else {
            self.heartbeats_of((count - 1) as nat) + self.nodes[count - 1].emits(
                EventsView::Heartbeat,
            )
        }
    }

    /// What all nodes send on a heartbeat.
    pub open spec fn heartbeats(self) -> Seq<Envelope> {
        self.heartbeats_of(self.nodes.len())
    }

    /// One heartbeat round: every node's heartbeat goes on the wire, the
    /// envelopes at the positions in `lost` are lost, and the others are
    /// delivered in order. What is sent in answer is the new wire.
    pub open spec fn round(self, wire: Seq<Envelope>, lost: Set<int>) -> (Cluster, Seq<Envelope>) {
        self.deliver_all(surviving(wire + self.heartbeats(), lost))
    }

    /// The cluster and the wire after the rounds of `schedule`, which names
    /// for each round the positions of the envelopes that are lost in it.
    pub open spec fn anti_entropy(self, wire: Seq<Envelope>, schedule: Seq<Set<int>>) -> (
        Cluster,
        Seq<Envelope>,
    )
        decreases schedule.len(),
    {
        if schedule.len() == 0 {
            (self, wire)
        } else {
            let (cluster, wire) = self.anti_entropy(wire, schedule.drop_last());
            cluster.round(wire, schedule.last())
        }
    }

    /// Whether some node knows `value`.
    pub open spec fn known(self, value: u64) -> bool {
        exists|j: int| self.knows(j, value)
    }

    /// Whether every value that `wire` passes on is known to some node.
    pub open spec fn passes_only_known(self, wire: Seq<Envelope>) -> bool {
        forall|k: int, x: u64|
            0 <= k < wire.len() && is_sync(wire[k].body.payload) && #[trigger] carried(
                wire[k].body.payload,
            ).contains(x) ==> self.known(x)
    }
}

/// What survives was offered; and where nothing is lost, all of it survives.
pub proof fn lemma_surviving(offered: Seq<Envelope>, lost: Set<int>)
    ensures
        forall|k: int|
            0 <= k < surviving(offered, lost).len() ==> offered.contains(
                #[trigger] surviving(offered, lost)[k],
            ),
        lost == Set::<int>::empty() ==> surviving(offered, lost) == offered,
    decreases offered.len(),
{
    if offered.len() > 0 {
        let earlier = surviving(offered.drop_last(), lost);
        lemma_surviving(offered.drop_last(), lost);
        assert forall|k: int| 0 <= k < surviving(offered, lost).len() implies offered.contains(
            #[trigger] surviving(offered, lost)[k],
        ) by {
            if k < earlier.len() {
                let p = choose|p: int|
                    0 <= p < offered.drop_last().len() && offered.drop_last()[p] == earlier[k];
                assert(offered[p] == earlier[k]);
            } else {
                assert(offered[offered.len() - 1] == offered.last());
            }
        }
        if lost == Set::<int>::empty() {
            assert(surviving(offered, lost) =~= offered);
        }
    }
}

/// What the heartbeats of a cluster are made of: `sync`s that carry only
/// what their senders know, and that pass every value a node knows on to
/// each of its neighbours.
pub proof fn lemma_heartbeats(cluster: Cluster, count: nat)
    requires
        count <= cluster.nodes.len(),
    ensures
        all_emitted(cluster.heartbeats_of(count)),
        cluster.passes_only_known(cluster.heartbeats_of(count)),
        forall|m: int, to: Seq<char>, x: u64|
            #![trigger cluster.knows(m, x), cluster.linked(m, to)]
            m < count && cluster.knows(m, x) && cluster.linked(m, to) ==> passed_on(
                cluster.heartbeats_of(count),
                to,
                x,
            ),
    decreases count,
{
    if count > 0 {
        let earlier = cluster.heartbeats_of((count - 1) as nat);
        let node = cluster.nodes[count - 1];
        let beat = node.emits(EventsView::Heartbeat);
        let all = cluster.heartbeats_of(count);
        lemma_heartbeats(cluster, (count - 1) as nat);
        lemma_heartbeat(node);
        assert(all == earlier + beat);
        assert forall|k: int| 0 <= k < all.len() implies is_emitted(
            (#[trigger] all[k]).body.payload,
        ) by {
            if k < earlier.len() {
                assert(all[k] == earlier[k]);
            } else {
                assert(all[k] == beat[k - earlier.len()]);
            }
        }
        assert forall|k: int, x: u64|
            0 <= k < all.len() && is_sync(all[k].body.payload) && #[trigger] carried(
                all[k].body.payload,
            ).contains(x) implies cluster.known(x) by {
            if k < earlier.len() {
                assert(all[k] == earlier[k]);
            } else {
                assert(all[k] == beat[k - earlier.len()]);
                assert(cluster.knows(count - 1, x));
            }
        }
        assert forall|m: int, to: Seq<char>, x: u64|
            #![trigger cluster.knows(m, x), cluster.linked(m, to)]
            m < count && cluster.knows(m, x) && cluster.linked(m, to) implies passed_on(
            all,
            to,
            x,
        ) by {
            lemma_passed_on_add(earlier, beat, to, x);
            if m == count - 1 {
                let p = choose|p: int| 0 <= p < node.neighbours.len() && node.neighbours[p] == to;
                assert(passed_on(beat, node.neighbours[p], x));
            }
        }
    }
}

/// What a heartbeat round leads to, whatever is lost in it: the nodes are
/// well formed and linked as they were and know what they knew; no value
/// appears that was neither known to a node nor passed on by the wire; and
/// where nothing is lost, every node knows what the nodes that are linked to
/// it knew.
pub proof fn lemma_round(cluster: Cluster, wire: Seq<Envelope>, lost: Set<int>)
    requires
        cluster.wf(),
        all_emitted(wire),
    ensures
        ({
            let (after, sent) = cluster.round(wire, lost);
            &&& after.wf()
            &&& after.same_links(cluster)
            &&& all_emitted(sent)
            &&& forall|j: int, x: u64| cluster.knows(j, x) ==> #[trigger] after.knows(j, x)
            &&& cluster.passes_only_known(wire) ==> after.passes_only_known(sent)
            &&& cluster.passes_only_known(wire) ==> forall|x: u64| #[trigger]
                after.known(x) ==> cluster.known(x)
            &&& lost == Set::<int>::empty() ==> forall|m: int, j: int, x: u64|
                #![trigger cluster.knows(m, x), cluster.linked(m, cluster.nodes[j].id)]
                cluster.knows(m, x) && cluster.has(j) && cluster.linked(m, cluster.nodes[j].id)
                    ==> after.knows(j, x)
        }),
{
    let beats = cluster.heartbeats();
    let offered = wire + beats;
    let delivered = surviving(offered, lost);
    let (after, sent) = cluster.deliver_all(delivered);
    lemma_heartbeats(cluster, cluster.nodes.len());
    lemma_surviving(offered, lost);
    assert(all_emitted(offered)) by {
        assert forall|k: int| 0 <= k < offered.len() implies is_emitted(
            (#[trigger] offered[k]).body.payload,
        ) by {
            if k < wire.len() {
                assert(offered[k] == wire[k]);
            } else {
                assert(offered[k] == beats[k - wire.len()]);
            }
        }
    }
    assert(all_emitted(delivered)) by {
        assert forall|k: int| 0 <= k < delivered.len() implies is_emitted(
            (#[trigger] delivered[k]).body.payload,
        ) by {
            let p = choose|p: int| 0 <= p < offered.len() && offered[p] == delivered[k];
        }
    }
    lemma_deliver_all(cluster, delivered);
    assert(spread(cluster, delivered, after, sent));
    if cluster.passes_only_known(wire) {
        assert forall|x: u64, to: Seq<char>| #[trigger]
            passed_on(delivered, to, x) implies cluster.known(x) by {
            let k = choose|k: int|
                0 <= k < delivered.len() && passes(#[trigger] delivered[k], to, x);
            let p = choose|p: int| 0 <= p < offered.len() && offered[p] == delivered[k];
            if p < wire.len() {
                assert(offered[p] == wire[p]);
            } else {
                assert(offered[p] == beats[p - wire.len()]);
            }
        }
        assert forall|x: u64| #[trigger] after.known(x) implies cluster.known(x) by {
            let j = choose|j: int| after.knows(j, x);
            if !cluster.knows(j, x) {
                assert(passed_on(delivered, cluster.nodes[j].id, x));
            }
        }
        assert forall|k: int, x: u64|
            0 <= k < sent.len() && is_sync(sent[k].body.payload) && #[trigger] carried(
                sent[k].body.payload,
            ).contains(x) implies after.known(x) by {
            let j = choose|j: int| after.knows(j, x) && !cluster.knows(j, x);
        }
    }
    if lost == Set::<int>::empty() {
        assert forall|m: int, j: int, x: u64|
            #![trigger cluster.knows(m, x), cluster.linked(m, cluster.nodes[j].id)]
            cluster.knows(m, x) && cluster.has(j) && cluster.linked(
                m,
                cluster.nodes[j].id,
            ) implies after.knows(j, x) by {
            let to = cluster.nodes[j].id;
            assert(passed_on(beats, to, x));
            lemma_passed_on_add(wire, beats, to, x);
            assert(passed_on(delivered, to, x));
        }
    }
}

/// What any schedule of heartbeat rounds leads to, from a well-formed
/// cluster with nothing on the wire: the nodes are well formed and linked as
/// they were and know what they knew, and what any of them knows was known
/// to some node at the start.
pub proof fn lemma_anti_entropy_invents_nothing(cluster: Cluster, schedule: Seq<Set<int>>)
    requires
        cluster.wf(),
    ensures
        ({
            let (after, wire) = cluster.anti_entropy(Seq::empty(), schedule);
            &&& after.wf()
            &&& after.same_links(cluster)
            &&& all_emitted(wire)
            &&& forall|j: int, x: u64| cluster.knows(j, x) ==> #[trigger] after.knows(j, x)
            &&& forall|x: u64| #[trigger] after.known(x) ==> cluster.known(x)
            &&& after.passes_only_known(wire)
        }),
    decreases schedule.len(),
{
    if schedule.len() > 0 {
        let (before, on_wire) = cluster.anti_entropy(Seq::empty(), schedule.drop_last());
        let (after, wire) = before.round(on_wire, schedule.last());
        lemma_anti_entropy_invents_nothing(cluster, schedule.drop_last());
        lemma_round(before, on_wire, schedule.last());
        assert forall|j: int, x: u64| cluster.knows(j, x) implies #[trigger] after.knows(j, x) by {
            assert(before.knows(j, x));
        }
        assert forall|x: u64| #[trigger] after.known(x) implies cluster.known(x) by {
            assert(before.known(x));
        }
    }
}

/// Anti-entropy repairs loss.
///
/// Take a well-formed cluster with nothing on the wire, a node `source`
/// that knows `value`, and a node `target` that `source` reaches over at
/// most `hops` links. Whatever else is lost, once `hops` rounds of heartbeats
/// went by without loss, `target` knows the value.
pub proof fn lemma_anti_entropy_reaches(
    cluster: Cluster,
    schedule: Seq<Set<int>>,
    source: int,
    target: int,
    value: u64,
    hops: nat,
)
    requires
        cluster.wf(),
        cluster.knows(source, value),
        cluster.has(target),
        cluster.within(source, target, hops),
        lossless_rounds(schedule) >= hops,
    ensures
        cluster.anti_entropy(Seq::empty(), schedule).0.knows(target, value),
    decreases schedule.len(), hops,
{
    lemma_anti_entropy_invents_nothing(cluster, schedule);
    if hops == 0 {
    } else {
        let earlier = schedule.drop_last();
        let (before, on_wire) = cluster.anti_entropy(Seq::empty(), earlier);
        let (after, wire) = before.round(on_wire, schedule.last());
        lemma_anti_entropy_invents_nothing(cluster, earlier);
        lemma_round(before, on_wire, schedule.last());
        if schedule.last() != Set::<int>::empty() {
            lemma_anti_entropy_reaches(cluster, earlier, source, target, value, hops);
            assert(after.knows(target, value));
        } else if cluster.within(source, target, (hops - 1) as nat) {
            lemma_anti_entropy_reaches(
                cluster,
                earlier,
                source,
                target,
                value,
                (hops - 1) as nat,
            );
            assert(after.knows(target, value));
        } else {
            let via = choose|via: int|
                #[trigger] cluster.has(via) && cluster.within(source, via, (hops - 1) as nat)
                    && cluster.linked(via, cluster.nodes[target].id);
            lemma_anti_entropy_reaches(cluster, earlier, source, via, value, (hops - 1) as nat);
            assert(before.knows(via, value));
            assert(before.linked(via, before.nodes[target].id));
            assert(after.knows(target, value));
        }
    }
}

/// Anti-entropy makes the nodes agree.
///
/// Take a well-formed cluster with nothing on the wire in which every node
/// reaches every node over at most `diameter` links. Whatever else is lost,
/// once `diameter` rounds of heartbeats went by without loss, every node
/// knows exactly the values that some node knew at the start; so all nodes
/// know the same.
pub proof fn lemma_anti_entropy_converges(
    cluster: Cluster,
    schedule: Seq<Set<int>>,
    diameter: nat,
)
    requires
        cluster.wf(),
        forall|a: int, b: int|
            cluster.has(a) && cluster.has(b) ==> #[trigger] cluster.within(a, b, diameter),
        lossless_rounds(schedule) >= diameter,
    ensures
        ({
            let after = cluster.anti_entropy(Seq::empty(), schedule).0;
            &&& forall|j: int, x: u64|
                cluster.has(j) ==> (#[trigger] after.knows(j, x) <==> cluster.known(x))
            &&& forall|a: int, b: int, x: u64|
                #![trigger after.knows(a, x), after.knows(b, x)]
                cluster.has(a) && cluster.has(b) ==> (after.knows(a, x) <==> after.knows(b, x))
        }),
{
    let after = cluster.anti_entropy(Seq::empty(), schedule).0;
    lemma_anti_entropy_invents_nothing(cluster, schedule);
    assert forall|j: int, x: u64| cluster.has(j) implies (#[trigger] after.knows(j, x)
        <==> cluster.known(x)) by {
        if after.knows(j, x) {
            assert(after.known(x));
        }
        if cluster.known(x) {
            let m = choose|m: int| cluster.knows(m, x);
            assert(cluster.within(m, j, diameter));
            lemma_anti_entropy_reaches(cluster, schedule, m, j, x, diameter);
        }
    }
}

} // verus!
