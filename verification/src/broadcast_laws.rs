//! What holds of a single broadcast node, whatever it is sent.

use crate::broadcast::{
    announce, carried, gossip, gossip_each, novel, BroadcastModel, BroadcastPayloadView, Envelope,
    SyncFormat,
};
use crate::broadcast_node::BroadcastNode;
use crate::message::EventsView;
use crate::node::{run_model, NodeError, NodeModel, Phase};
use vstd::prelude::*;

verus! {

/// Whether a payload passes values on between nodes.
pub open spec fn is_sync(payload: BroadcastPayloadView) -> bool {
    payload is Sync || payload is SyncMany
}

/// Whether a payload is one that nodes send: a `sync` or a reply.
pub open spec fn is_emitted(payload: BroadcastPayloadView) -> bool {
    is_sync(payload) || payload is BroadcastOk || payload is ReadOk || payload is TopologyOk
}

/// Whether `envelope` passes `value` on to `to`.
pub open spec fn passes(envelope: Envelope, to: Seq<char>, value: u64) -> bool {
    &&& envelope.dest == to
    &&& is_sync(envelope.body.payload)
    &&& carried(envelope.body.payload).contains(value)
}

/// Whether some envelope of `wire` passes `value` on to `to`.
pub open spec fn passed_on(wire: Seq<Envelope>, to: Seq<char>, value: u64) -> bool {
    exists|k: int| 0 <= k < wire.len() && passes(#[trigger] wire[k], to, value)
}

/// A sequence that was extended holds what either part holds.
pub proof fn lemma_contains_add<A>(a: Seq<A>, b: Seq<A>, x: A)
    ensures
        (a + b).contains(x) <==> a.contains(x) || b.contains(x),
{
    if a.contains(x) {
        let k = choose|k: int| 0 <= k < a.len() && a[k] == x;
        assert((a + b)[k] == x);
    }
    if b.contains(x) {
        let k = choose|k: int| 0 <= k < b.len() && b[k] == x;
        assert((a + b)[a.len() + k] == x);
    }
    if (a + b).contains(x) {
        let k = choose|k: int| 0 <= k < (a + b).len() && (a + b)[k] == x;
        if k < a.len() {
            assert(a[k] == x);
        } else {
            assert(b[k - a.len()] == x);
        }
    }
}

/// What is passed on over a wire that was extended is what is passed on over
/// either part.
pub proof fn lemma_passed_on_add(a: Seq<Envelope>, b: Seq<Envelope>, to: Seq<char>, value: u64)
    ensures
        passed_on(a + b, to, value) <==> passed_on(a, to, value) || passed_on(b, to, value),
{
    if passed_on(a, to, value) {
        let k = choose|k: int| 0 <= k < a.len() && passes(#[trigger] a[k], to, value);
        assert((a + b)[k] == a[k]);
    }
    if passed_on(b, to, value) {
        let k = choose|k: int| 0 <= k < b.len() && passes(#[trigger] b[k], to, value);
        assert((a + b)[a.len() + k] == b[k]);
    }
    if passed_on(a + b, to, value) {
        let k = choose|k: int| 0 <= k < (a + b).len() && passes(#[trigger] (a + b)[k], to, value);
        if k < a.len() {
            assert(a[k] == (a + b)[k]);
        } else {
            assert(b[k - a.len()] == (a + b)[k]);
        }
    }
}

/// The values a node observes for the first time are values it was handed,
/// are each named once, and are none of those it had seen; and every value
/// it was handed is either seen already or new.
pub proof fn lemma_novel(seen: Seq<u64>, values: Seq<u64>)
    ensures
        novel(seen, values).no_duplicates(),
        forall|x: u64| #[trigger]
            novel(seen, values).contains(x) <==> values.contains(x) && !seen.contains(x),
    decreases values.len(),
{
    if values.len() > 0 {
        let earlier = novel(seen, values.drop_last());
        let last = values.last();
        lemma_novel(seen, values.drop_last());
        assert(values =~= values.drop_last().push(last));
        assert forall|x: u64| #[trigger]
            novel(seen, values).contains(x) <==> values.contains(x) && !seen.contains(x) by {
            lemma_contains_add(values.drop_last(), seq![last], x);
            assert(values.drop_last().push(last) =~= values.drop_last() + seq![last]);
            assert(seq![last].contains(x) <==> x == last) by {
                if x == last {
                    assert(seq![last][0] == x);
                }
            }
            if !(seen.contains(last) || earlier.contains(last)) {
                lemma_contains_add(earlier, seq![last], x);
                assert(earlier.push(last) =~= earlier + seq![last]);
            }
        }
        if !(seen.contains(last) || earlier.contains(last)) {
            assert forall|i: int, j: int|
                0 <= i < earlier.len() + 1 && 0 <= j < earlier.len() + 1 && i != j implies earlier.push(
                last,
            )[i] != earlier.push(last)[j] by {
                if i < earlier.len() {
                    assert(earlier.contains(earlier[i]));
                }
                if j < earlier.len() {
                    assert(earlier.contains(earlier[j]));
                }
            }
        }
    }
}

/// Taking values in keeps the record free of repetitions, and makes it hold
/// exactly what it held and what was handed in.
pub proof fn lemma_absorb(model: BroadcastModel, values: Seq<u64>)
    requires
        model.wf(),
    ensures
        model.absorb(values).wf(),
        forall|x: u64| #[trigger]
            model.absorb(values).seen.contains(x) <==> model.seen.contains(x) || values.contains(x),
{
    let fresh = novel(model.seen, values);
    lemma_novel(model.seen, values);
    assert forall|x: u64| #[trigger]
        model.absorb(values).seen.contains(x) <==> model.seen.contains(x) || values.contains(
            x,
        ) by {
        lemma_contains_add(model.seen, fresh, x);
    }
    let all = model.seen + fresh;
    assert forall|i: int, j: int| 0 <= i < all.len() && 0 <= j < all.len() && i != j implies all[i]
        != all[j] by {
        if i < model.seen.len() && j >= model.seen.len() {
            assert(model.seen.contains(all[i]));
            assert(fresh.contains(fresh[j - model.seen.len()]));
        }
        if j < model.seen.len() && i >= model.seen.len() {
            assert(model.seen.contains(all[j]));
            assert(fresh.contains(fresh[i - model.seen.len()]));
        }
    }
}

/// Every envelope of a gossip is a `sync` from the sender to one of the
/// neighbours with the value, and every neighbour gets one.
pub proof fn lemma_gossip(from: Seq<char>, to: Seq<Seq<char>>, message: u64)
    ensures
        forall|k: int|
            0 <= k < gossip(from, to, message).len() ==> {
                let envelope = #[trigger] gossip(from, to, message)[k];
                &&& envelope.src == from
                &&& to.contains(envelope.dest)
                &&& envelope.body.payload == (BroadcastPayloadView::Sync { message })
            },
        forall|i: int|
            0 <= i < to.len() ==> passed_on(gossip(from, to, message), #[trigger] to[i], message),
{
    let sent = gossip(from, to, message);
    assert forall|k: int| 0 <= k < sent.len() implies to.contains((#[trigger] sent[k]).dest) by {
        assert(to[k] == sent[k].dest);
    }
    assert forall|i: int| 0 <= i < to.len() implies passed_on(sent, #[trigger] to[i], message) by {
        assert(carried(sent[i].body.payload)[0] == message);
        assert(passes(sent[i], to[i], message));
    }
}

/// What an announcement is made of: every envelope is a `sync` from the
/// sender to one of the neighbours and carries only announced values; and
/// every announced value is passed on to every neighbour.
pub proof fn lemma_announce(
    format: SyncFormat,
    from: Seq<char>,
    to: Seq<Seq<char>>,
    messages: Seq<u64>,
)
    ensures
        forall|k: int|
            0 <= k < announce(format, from, to, messages).len() ==> {
                let envelope = #[trigger] announce(format, from, to, messages)[k];
                &&& envelope.src == from
                &&& to.contains(envelope.dest)
                &&& is_sync(envelope.body.payload)
                &&& forall|x: u64|
                    carried(envelope.body.payload).contains(x) ==> messages.contains(x)
            },
        forall|i: int, x: u64|
            0 <= i < to.len() && messages.contains(x) ==> #[trigger] passed_on(
                announce(format, from, to, messages),
                to[i],
                x,
            ),
    decreases messages.len(),
{
    let sent = announce(format, from, to, messages);
    match format {
        SyncFormat::Digest => {
            if messages.len() > 0 {
                assert forall|k: int| 0 <= k < sent.len() implies to.contains(
                    (#[trigger] sent[k]).dest,
                ) by {
                    assert(to[k] == sent[k].dest);
                }
                assert forall|i: int, x: u64|
                    0 <= i < to.len() && messages.contains(x) implies #[trigger] passed_on(
                    sent,
                    to[i],
                    x,
                ) by {
                    assert(passes(sent[i], to[i], x));
                }
            } else {
                assert forall|i: int, x: u64|
                    0 <= i < to.len() && messages.contains(x) implies #[trigger] passed_on(
                    sent,
                    to[i],
                    x,
                ) by {
                    let k = choose|k: int| 0 <= k < messages.len() && messages[k] == x;
                }
            }
        },
        SyncFormat::PerValue => {
            if messages.len() > 0 {
                let earlier = gossip_each(from, to, messages.drop_last());
                let last = gossip(from, to, messages.last());
                lemma_announce(format, from, to, messages.drop_last());
                lemma_gossip(from, to, messages.last());
                assert(sent == earlier + last);
                assert(earlier == announce(format, from, to, messages.drop_last()));
                assert forall|k: int| 0 <= k < sent.len() implies {
                    let envelope = #[trigger] sent[k];
                    &&& envelope.src == from
                    &&& to.contains(envelope.dest)
                    &&& is_sync(envelope.body.payload)
                    &&& forall|x: u64|
                        carried(envelope.body.payload).contains(x) ==> messages.contains(x)
                } by {
                    let envelope = sent[k];
                    if k < earlier.len() {
                        assert(envelope == earlier[k]);
                        assert forall|x: u64|
                            carried(envelope.body.payload).contains(x) implies messages.contains(
                            x,
                        ) by {
                            assert(messages.drop_last().contains(x));
                            let p = choose|p: int|
                                0 <= p < messages.drop_last().len() && messages.drop_last()[p] == x;
                            assert(messages[p] == x);
                        }
                    } else {
                        assert(envelope == last[k - earlier.len()]);
                        assert forall|x: u64|
                            carried(envelope.body.payload).contains(x) implies messages.contains(
                            x,
                        ) by {
                            let p = choose|p: int|
                                0 <= p < carried(envelope.body.payload).len() && carried(
                                    envelope.body.payload,
                                )[p] == x;
                            assert(messages[messages.len() - 1] == x);
                        }
                    }
                }
                assert forall|i: int, x: u64|
                    0 <= i < to.len() && messages.contains(x) implies #[trigger] passed_on(
                    sent,
                    to[i],
                    x,
                ) by {
                    lemma_passed_on_add(earlier, last, to[i], x);
                    let p = choose|p: int| 0 <= p < messages.len() && messages[p] == x;
                    if p < messages.len() - 1 {
                        assert(messages.drop_last()[p] == x);
                        assert(messages.drop_last().contains(x));
                    }
                }
            } else {
                assert forall|i: int, x: u64|
                    0 <= i < to.len() && messages.contains(x) implies #[trigger] passed_on(
                    sent,
                    to[i],
                    x,
                ) by {
                    let k = choose|k: int| 0 <= k < messages.len() && messages[k] == x;
                }
            }
        },
    }
}

/// What an envelope does to a node.
///
/// The node stays well formed and keeps its identity and its choices; its
/// neighbours change only on `topology`; it keeps every value it had seen
/// and gains only values the envelope carries, all of them if the envelope
/// is a `sync` or a `broadcast` that it answers. It sends only replies and `sync`s; each `sync` goes to a
/// neighbour and carries only values that are new to the node, and every new
/// value is passed on to every neighbour.
pub proof fn lemma_receive(model: BroadcastModel, request: Envelope)
    requires
        model.wf(),
    ensures
        ({
            let after = model.receive(request).0;
            let sent = model.emits(EventsView::Message(request));
            &&& after.wf()
            &&& after.config == model.config
            &&& after.id == model.id
            &&& !(request.body.payload is Topology) ==> after.neighbours == model.neighbours
            &&& forall|x: u64| model.seen.contains(x) ==> #[trigger] after.seen.contains(x)
            &&& forall|x: u64| #[trigger]
                after.seen.contains(x) ==> model.seen.contains(x) || carried(
                    request.body.payload,
                ).contains(x)
            &&& is_sync(request.body.payload) || (request.body.payload is Broadcast
                && request.answerable()) ==> forall|x: u64|
                carried(request.body.payload).contains(x) ==> #[trigger] after.seen.contains(x)
            &&& forall|k: int| 0 <= k < sent.len() ==> is_emitted((#[trigger] sent[k]).body.payload)
            &&& forall|k: int, x: u64|
                0 <= k < sent.len() && is_sync(sent[k].body.payload) && #[trigger] carried(
                    sent[k].body.payload,
                ).contains(x) ==> {
                    &&& after.seen.contains(x)
                    &&& !model.seen.contains(x)
                    &&& model.neighbours.contains(sent[k].dest)
                }
            &&& forall|i: int, x: u64|
                0 <= i < model.neighbours.len() && after.seen.contains(x) && !model.seen.contains(x)
                    ==> #[trigger] passed_on(sent, model.neighbours[i], x)
        }),
{
    let after = model.receive(request).0;
    let sent = model.emits(EventsView::Message(request));
    let values = carried(request.body.payload);
    let fresh = novel(model.seen, values);
    let told = announce(model.config.sync, model.id, model.neighbours, fresh);
    lemma_absorb(model, values);
    lemma_novel(model.seen, values);
    lemma_announce(model.config.sync, model.id, model.neighbours, fresh);
    if BroadcastModel::answers(request) && !request.answerable() {
    } else {
        match request.body.payload {
            BroadcastPayloadView::Broadcast { message } => {
                assert(sent == told.push(request.reply(BroadcastPayloadView::BroadcastOk)));
                assert(sent =~= told + seq![request.reply(BroadcastPayloadView::BroadcastOk)]);
                assert forall|i: int, x: u64|
                    0 <= i < model.neighbours.len() && after.seen.contains(x)
                        && !model.seen.contains(x) implies #[trigger] passed_on(
                    sent,
                    model.neighbours[i],
                    x,
                ) by {
                    assert(passed_on(told, model.neighbours[i], x));
                    lemma_passed_on_add(
                        told,
                        seq![request.reply(BroadcastPayloadView::BroadcastOk)],
                        model.neighbours[i],
                        x,
                    );
                }
                assert forall|k: int, x: u64|
                    0 <= k < sent.len() && is_sync(sent[k].body.payload) && #[trigger] carried(
                        sent[k].body.payload,
                    ).contains(x) implies {
                    &&& after.seen.contains(x)
                    &&& !model.seen.contains(x)
                    &&& model.neighbours.contains(sent[k].dest)
                } by {
                    if k < told.len() {
                        assert(sent[k] == told[k]);
                        assert(fresh.contains(x));
                    }
                }
                assert forall|k: int| 0 <= k < sent.len() implies is_emitted(
                    (#[trigger] sent[k]).body.payload,
                ) by {
                    if k < told.len() {
                        assert(sent[k] == told[k]);
                    }
                }
            },
            BroadcastPayloadView::Sync { .. } | BroadcastPayloadView::SyncMany { .. } => {
                assert(sent == told);
                assert forall|k: int, x: u64|
                    0 <= k < sent.len() && is_sync(sent[k].body.payload) && #[trigger] carried(
                        sent[k].body.payload,
                    ).contains(x) implies {
                    &&& after.seen.contains(x)
                    &&& !model.seen.contains(x)
                    &&& model.neighbours.contains(sent[k].dest)
                } by {
                    assert(sent[k] == told[k]);
                    assert(fresh.contains(x));
                }
            },
            _ => {},
        }
    }
}

/// What a heartbeat does to a node: nothing; and what it makes the node
/// send: `sync`s to its neighbours that carry only values it has seen, and
/// that pass every value it has seen on to every neighbour.
pub proof fn lemma_heartbeat(model: BroadcastModel)
    ensures
        model.step(EventsView::Heartbeat).0 == model,
        ({
            let sent = model.emits(EventsView::Heartbeat);
            &&& forall|k: int|
                0 <= k < sent.len() ==> {
                    let envelope = #[trigger] sent[k];
                    &&& is_sync(envelope.body.payload)
                    &&& model.neighbours.contains(envelope.dest)
                    &&& forall|x: u64|
                        carried(envelope.body.payload).contains(x) ==> model.seen.contains(x)
                }
            &&& forall|i: int, x: u64|
                0 <= i < model.neighbours.len() && model.seen.contains(x) ==> #[trigger] passed_on(
                    sent,
                    model.neighbours[i],
                    x,
                )
        }),
{
    lemma_announce(model.config.sync, model.id, model.neighbours, model.seen);
}

/// Whether `request` makes the node pass `value` on.
pub open spec fn passes_on(model: BroadcastModel, request: Envelope, value: u64) -> bool {
    let sent = model.emits(EventsView::Message(request));
    exists|k: int|
        0 <= k < sent.len() && is_sync(sent[k].body.payload) && #[trigger] carried(
            sent[k].body.payload,
        ).contains(value)
}

/// How many of `requests`, received in order, make the node pass `value` on.
pub open spec fn times_passed_on(model: BroadcastModel, requests: Seq<Envelope>, value: u64) -> nat
    decreases requests.len(),
{
    if requests.len() == 0 {
        0
    } else {
        let rest = times_passed_on(model.receive(requests[0]).0, requests.skip(1), value);
        if passes_on(model, requests[0], value) {
            rest + 1
        } else {
            rest
        }
    }
}

/// The fan-out bound: whatever envelopes a node receives, it passes a value
/// on in answer to at most one of them, and to none once it has seen the
/// value.
pub proof fn lemma_passed_on_at_most_once(
    model: BroadcastModel,
    requests: Seq<Envelope>,
    value: u64,
)
    requires
        model.wf(),
    ensures
        times_passed_on(model, requests, value) <= 1,
        model.seen.contains(value) ==> times_passed_on(model, requests, value) == 0,
    decreases requests.len(),
{
    if requests.len() > 0 {
        let after = model.receive(requests[0]).0;
        lemma_receive(model, requests[0]);
        lemma_passed_on_at_most_once(after, requests.skip(1), value);
        if passes_on(model, requests[0], value) {
            assert(after.seen.contains(value));
            assert(!model.seen.contains(value));
        }
        if model.seen.contains(value) {
            assert(after.seen.contains(value));
        }
    }
}

/// The events of a sequence of arriving envelopes.
pub open spec fn arrivals(envelopes: Seq<Envelope>) -> Seq<EventsView<BroadcastPayloadView>> {
    Seq::new(envelopes.len(), |i: int| EventsView::Message(envelopes[i]))
}

/// A read after broadcasts returns what was broadcast.
///
/// Take an initialized node and any sequence of `broadcast` requests whose
/// replies can be numbered, followed by such a `read`. The run succeeds, and
/// the last envelope it sends is the `read_ok`, which lists what the node has
/// seen: every value once, and exactly the values it had seen before and
/// those that were broadcast to it.
pub proof fn lemma_read_returns_what_was_broadcast(
    start: BroadcastModel,
    broadcasts: Seq<Envelope>,
    read: Envelope,
)
    requires
        start.wf(),
        forall|i: int|
            0 <= i < broadcasts.len() ==> (#[trigger] broadcasts[i]).body.payload is Broadcast
                && broadcasts[i].answerable(),
        read.body.payload is Read,
        read.answerable(),
    ensures
        ({
            let run = run_model::<BroadcastNode>(
                NodeModel { phase: Phase::Initialized, handler: start },
                arrivals(broadcasts).push(EventsView::Message(read)),
            );
            let listed = run.0.handler.seen;
            &&& run.2 is Ok
            &&& run.1.len() > 0
            &&& run.1.last() == read.reply(BroadcastPayloadView::ReadOk { messages: listed })
            &&& listed.no_duplicates()
            &&& forall|x: u64| #[trigger]
                listed.contains(x) <==> start.seen.contains(x) || exists|i: int|
                    0 <= i < broadcasts.len() && #[trigger] broadcasts[i].body.payload
                        == (BroadcastPayloadView::Broadcast { message: x })
        }),
    decreases broadcasts.len(),
{
    let node = NodeModel { phase: Phase::Initialized, handler: start };
    let inputs = arrivals(broadcasts).push(EventsView::Message(read));
    let run = run_model::<BroadcastNode>(node, inputs);
    if broadcasts.len() == 0 {
        assert(inputs.skip(1) =~= Seq::empty());
        assert(inputs[0] == EventsView::Message(read));
        let reply = read.reply(BroadcastPayloadView::ReadOk { messages: start.seen });
        let tail = run_model::<BroadcastNode>(node, inputs.skip(1));
        assert(tail == (node, Seq::<Envelope>::empty(), Ok::<(), NodeError>(())));
        assert(run.1 =~= seq![reply]);
    } else {
        let first = broadcasts[0];
        let next = start.receive(first).0;
        let rest = broadcasts.skip(1);
        lemma_receive(start, first);
        assert(inputs[0] == EventsView::Message(first));
        assert(inputs.skip(1) =~= arrivals(rest).push(EventsView::Message(read)));
        lemma_read_returns_what_was_broadcast(next, rest, read);
        let tail = run_model::<BroadcastNode>(
            NodeModel { phase: Phase::Initialized, handler: next },
            inputs.skip(1),
        );
        assert(run.1 == start.emits(inputs[0]) + tail.1);
        assert(run.1.last() == tail.1.last());
        let listed = run.0.handler.seen;
        let message = first.body.payload->Broadcast_message;
        lemma_absorb(start, seq![message]);
        assert(seq![message].contains(message)) by {
            assert(seq![message][0] == message);
        }
        assert forall|x: u64| #[trigger]
            listed.contains(x) <==> start.seen.contains(x) || exists|i: int|
                0 <= i < broadcasts.len() && #[trigger] broadcasts[i].body.payload
                    == (BroadcastPayloadView::Broadcast { message: x }) by {
            if listed.contains(x) && !start.seen.contains(x) {
                if next.seen.contains(x) {
                    assert(seq![message].contains(x));
                    assert(broadcasts[0].body.payload == (BroadcastPayloadView::Broadcast {
                        message: x,
                    }));
                } else {
                    let i = choose|i: int|
                        0 <= i < rest.len() && #[trigger] rest[i].body.payload
                            == (BroadcastPayloadView::Broadcast { message: x });
                    assert(broadcasts[i + 1].body.payload == (BroadcastPayloadView::Broadcast {
                        message: x,
                    }));
                }
            }
            if exists|i: int|
                0 <= i < broadcasts.len() && #[trigger] broadcasts[i].body.payload
                    == (BroadcastPayloadView::Broadcast { message: x }) {
                let i = choose|i: int|
                    0 <= i < broadcasts.len() && #[trigger] broadcasts[i].body.payload
                        == (BroadcastPayloadView::Broadcast { message: x });
                if i == 0 {
                    assert(next.seen.contains(x));
                } else {
                    assert(rest[i - 1].body.payload == (BroadcastPayloadView::Broadcast {
                        message: x,
                    }));
                }
            }
        }
    }
}

} // verus!
