//! The broadcast handler: an executable node that follows the model of
//! [`crate::broadcast`] step by step.

use crate::broadcast::{
    digests, gossip, gossip_each, novel, others, sync_many, BroadcastConfig, BroadcastModel,
    BroadcastPayload, BroadcastPayloadView, Envelope, SyncFormat, TopologyStrategy,
};
use crate::message::{lemma_deep_view_push, Body, Events, EventsView, Message};
use crate::node::{sent_view, HandlerError, InitPayload, InitPayloadView, NodeType};
use crate::seen_set::SeenSet;
use crate::topology::Topology;
use vstd::prelude::*;

verus! {

/// A node of the broadcast protocol.
pub struct BroadcastNode {
    config: BroadcastConfig,
    id: String,
    neighbours: Vec<String>,
    seen: SeenSet,
}

impl View for BroadcastNode {
    type V = BroadcastModel;

    closed spec fn view(&self) -> BroadcastModel {
        BroadcastModel {
            config: self.config,
            id: self.id@,
            neighbours: self.neighbours.deep_view(),
            seen: self.seen@,
        }
    }
}

impl BroadcastNode {
    /// A node that has not been told anything yet.
    pub fn new(config: BroadcastConfig) -> (node: Self)
        ensures
            node.inv(),
            node@ == BroadcastModel::fresh(config),
    {
        let node = BroadcastNode {
            config,
            id: String::new(),
            neighbours: Vec::new(),
            seen: SeenSet::new(),
        };
        assert(node.neighbours.deep_view() =~= Seq::empty());
        node
    }

    /// The model of a node whose invariant holds is well formed.
    pub proof fn lemma_model_wf(&self)
        requires
            self.inv(),
        ensures
            self@.wf(),
    {
        self.seen.lemma_distinct();
    }

    /// Adds to `sent` one `sync` with `message` for every neighbour.
    fn gossip(&self, message: u64, sent: &mut Vec<Message<BroadcastPayload>>)
        ensures
            final(sent).deep_view() == old(sent).deep_view() + gossip(
                self@.id,
                self@.neighbours,
                message,
            ),
    {
        let ghost before = sent.deep_view();
        let ghost all = gossip(self@.id, self@.neighbours, message);
        let mut i: usize = 0;
        assert(sent.deep_view() =~= before + all.take(0));
        while i < self.neighbours.len()
            invariant
                i <= self.neighbours.len(),
                all == gossip(self@.id, self@.neighbours, message),
                sent.deep_view() == before + all.take(i as int),
            decreases self.neighbours.len() - i,
        {
            let ghost earlier = *sent;
            let sync = Message {
                src: self.id.clone(),
                dest: self.neighbours[i].clone(),
                body: Body {
                    msg_id: Some(0),
                    in_reply_to: None,
                    payload: BroadcastPayload::Sync { message },
                },
            };
            assert(sync.deep_view() == all[i as int]);
            let ghost last = sync;
            sent.push(sync);
            i += 1;
            proof {
                lemma_deep_view_push(earlier, *sent, last);
                assert(all.take(i as int) =~= all.take(i as int - 1).push(all[i as int - 1]));
                assert(sent.deep_view() =~= before + all.take(i as int));
            }
        }
        assert(all.take(i as int) =~= all);
    }

    /// The `sync` that hands all of `messages` to `dest`.
    fn send_sync(&self, dest: &String, messages: &Vec<u64>) -> (sync: Message<BroadcastPayload>)
        ensures
            sync.deep_view() == sync_many(self@.id, dest@, messages@),
    {
        Message {
            src: self.id.clone(),
            dest: dest.clone(),
            body: Body {
                msg_id: None,
                in_reply_to: None,
                payload: BroadcastPayload::SyncMany { messages: copy_of(messages) },
            },
        }
    }

    /// Adds to `sent` what passes `messages` on to every neighbour.
    fn announce(&self, messages: &Vec<u64>, sent: &mut Vec<Message<BroadcastPayload>>)
        ensures
            final(sent).deep_view() == old(sent).deep_view() + self@.announce(messages@),
    {
        let ghost before = sent.deep_view();
        match self.config.sync {
            SyncFormat::PerValue => {
                let mut i: usize = 0;
                assert(messages@.take(0) =~= Seq::<u64>::empty());
                assert(sent.deep_view() =~= before + gossip_each(
                    self@.id,
                    self@.neighbours,
                    messages@.take(0),
                ));
                while i < messages.len()
                    invariant
                        i <= messages.len(),
                        sent.deep_view() == before + gossip_each(
                            self@.id,
                            self@.neighbours,
                            messages@.take(i as int),
                        ),
                    decreases messages.len() - i,
                {
                    let ghost so_far = gossip_each(
                        self@.id,
                        self@.neighbours,
                        messages@.take(i as int),
                    );
                    self.gossip(messages[i], sent);
                    i += 1;
                    assert(messages@.take(i as int).drop_last() =~= messages@.take(i as int - 1));
                    assert(sent.deep_view() =~= before + (so_far + gossip(
                        self@.id,
                        self@.neighbours,
                        messages@[i as int - 1],
                    )));
                }
                assert(messages@.take(i as int) =~= messages@);
            },
            SyncFormat::Digest => {
                if messages.len() == 0 {
                    assert(sent.deep_view() =~= before + Seq::empty());
                    return ;
                }
                let ghost all = digests(self@.id, self@.neighbours, messages@);
                let mut i: usize = 0;
                assert(sent.deep_view() =~= before + all.take(0));
                while i < self.neighbours.len()
                    invariant
                        i <= self.neighbours.len(),
                        all == digests(self@.id, self@.neighbours, messages@),
                        sent.deep_view() == before + all.take(i as int),
                    decreases self.neighbours.len() - i,
                {
                    let ghost earlier = *sent;
                    let sync = self.send_sync(&self.neighbours[i], messages);
                    assert(sync.deep_view() == all[i as int]);
                    let ghost last = sync;
                    sent.push(sync);
                    i += 1;
                    proof {
                        lemma_deep_view_push(earlier, *sent, last);
                        assert(all.take(i as int) =~= all.take(i as int - 1).push(
                            all[i as int - 1],
                        ));
                        assert(sent.deep_view() =~= before + all.take(i as int));
                    }
                }
                assert(all.take(i as int) =~= all);
            },
        }
    }

    /// Records `values` and returns those that are new.
    fn absorb(&mut self, values: &Vec<u64>) -> (fresh: Vec<u64>)
        requires
            old(self).inv(),
        ensures
            final(self).inv(),
            final(self)@ == old(self)@.absorb(values@),
            fresh@ == novel(old(self)@.seen, values@),
    {
        let ghost seen = self.seen@;
        let mut fresh: Vec<u64> = Vec::new();
        let mut i: usize = 0;
        assert(values@.take(0) =~= Seq::<u64>::empty());
        assert(self.seen@ =~= seen + novel(seen, values@.take(0)));
        while i < values.len()
            invariant
                i <= values.len(),
                self.inv(),
                seen == old(self)@.seen,
                self.config == old(self).config,
                self.id == old(self).id,
                self.neighbours == old(self).neighbours,
                fresh@ == novel(seen, values@.take(i as int)),
                self.seen@ == seen + fresh@,
            decreases values.len() - i,
        {
            let ghost earlier = fresh@;
            let value = values[i];
            assert(values@.take(i as int + 1).drop_last() =~= values@.take(i as int));
            assert((seen + earlier).contains(value) <==> seen.contains(value) || earlier.contains(
                value,
            )) by {
                if seen.contains(value) {
                    let k = choose|k: int| 0 <= k < seen.len() && seen[k] == value;
                    assert((seen + earlier)[k] == value);
                }
                if earlier.contains(value) {
                    let k = choose|k: int| 0 <= k < earlier.len() && earlier[k] == value;
                    assert((seen + earlier)[seen.len() + k] == value);
                }
            }
            if self.seen.insert(value) {
                fresh.push(value);
                assert(self.seen@ =~= seen + fresh@);
            }
            i += 1;
        }
        assert(values@.take(i as int) =~= values@);
        fresh
    }

    /// Takes the neighbours that `topology` assigns to this node.
    fn assign(&mut self, topology: &Topology)
        requires
            old(self).inv(),
        ensures
            final(self).inv(),
            final(self)@ == old(self)@.assign(topology.deep_view()),
    {
        match self.config.topology {
            TopologyStrategy::FullMesh => {},
            TopologyStrategy::Assigned => {
                if let Some(more) = topology.neighbours_of(&self.id) {
                    let ghost before = self.neighbours.deep_view();
                    let mut i: usize = 0;
                    assert(self.neighbours.deep_view() =~= before + more.deep_view().take(0));
                    while i < more.len()
                        invariant
                            i <= more.len(),
                            self.inv(),
                            self.config == old(self).config,
                            self.id == old(self).id,
                            self.seen == old(self).seen,
                            self.neighbours.deep_view() == before + more.deep_view().take(i as int),
                        decreases more.len() - i,
                    {
                        let ghost earlier = self.neighbours;
                        self.neighbours.push(more[i].clone());
                        i += 1;
                        proof {
                            lemma_deep_view_push(earlier, self.neighbours, more[i as int - 1]);
                            assert(more.deep_view().take(i as int) =~= more.deep_view().take(
                                i as int - 1,
                            ).push(more.deep_view()[i as int - 1]));
                            assert(self.neighbours.deep_view() =~= before + more.deep_view().take(
                                i as int,
                            ));
                        }
                    }
                    assert(more.deep_view().take(i as int) =~= more.deep_view());
                }
            },
        }
    }

    /// Reacts to an envelope.
    fn receive(&mut self, request: Message<BroadcastPayload>) -> (out: Result<
        Vec<Message<BroadcastPayload>>,
        HandlerError,
    >)
        requires
            old(self).inv(),
        ensures
            final(self).inv(),
            final(self)@ == old(self)@.receive(request.deep_view()).0,
            sent_view(out) == old(self)@.receive(request.deep_view()).1,
    {
        let ghost asked = request.deep_view();
        let mut sent: Vec<Message<BroadcastPayload>> = Vec::new();
        assert(sent.deep_view() =~= Seq::empty());
        let answers = match &request.body.payload {
            BroadcastPayload::Broadcast { .. } => true,
            BroadcastPayload::Read => true,
            BroadcastPayload::Topology { .. } => true,
            _ => false,
        };
        if answers && !request.can_reply() {
            return Err(HandlerError::MessageIdExhausted);
        }
        match &request.body.payload {
            BroadcastPayload::Broadcast { message } => {
                let mut values: Vec<u64> = Vec::new();
                values.push(*message);
                assert(values@ =~= seq![*message]);
                let fresh = self.absorb(&values);
                self.announce(&fresh, &mut sent);
                assert(sent.deep_view() =~= old(self)@.announce(fresh@));
                let ghost earlier = sent;
                let mut reply = request.to_reply();
                reply.body.payload = BroadcastPayload::BroadcastOk;
                let ghost last = reply;
                sent.push(reply);
                proof {
                    lemma_deep_view_push(earlier, sent, last);
                }
            },
            BroadcastPayload::Read => {
                let messages = copy_of(self.seen.values());
                let mut reply = request.to_reply();
                reply.body.payload = BroadcastPayload::ReadOk { messages };
                sent.push(reply);
                assert(sent.deep_view() =~= seq![
                    asked.reply(BroadcastPayloadView::ReadOk { messages: self@.seen }),
                ]);
            },
            BroadcastPayload::Topology { topology } => {
                self.assign(topology);
                let mut reply = request.to_reply();
                reply.body.payload = BroadcastPayload::TopologyOk;
                sent.push(reply);
                assert(sent.deep_view() =~= seq![asked.reply(BroadcastPayloadView::TopologyOk)]);
            },
            BroadcastPayload::Sync { message } => {
                let mut values: Vec<u64> = Vec::new();
                values.push(*message);
                assert(values@ =~= seq![*message]);
                let fresh = self.absorb(&values);
                self.announce(&fresh, &mut sent);
                assert(sent.deep_view() =~= old(self)@.announce(fresh@));
            },
            BroadcastPayload::SyncMany { messages } => {
                let fresh = self.absorb(messages);
                self.announce(&fresh, &mut sent);
                assert(sent.deep_view() =~= old(self)@.announce(fresh@));
            },
            _ => {},
        }
        Ok(sent)
    }

    /// The node's identity.
    pub fn id(&self) -> (id: &String)
        ensures
            id@ == self@.id,
    {
        &self.id
    }

    /// The nodes this node passes values on to.
    pub fn neighbours(&self) -> (neighbours: &Vec<String>)
        ensures
            neighbours.deep_view() == self@.neighbours,
    {
        &self.neighbours
    }

    /// The values this node has seen, in the order of their first
    /// observation.
    pub fn seen(&self) -> (seen: &Vec<u64>)
        ensures
            seen@ == self@.seen,
    {
        self.seen.values()
    }

    /// The choices this node was made with.
    pub fn config(&self) -> (config: BroadcastConfig)
        ensures
            config == self@.config,
    {
        self.config
    }
}

/// A copy of `values`.
fn copy_of(values: &Vec<u64>) -> (copy: Vec<u64>)
    ensures
        copy@ == values@,
{
    let mut copy: Vec<u64> = Vec::new();
    let mut i: usize = 0;
    while i < values.len()
        invariant
            i <= values.len(),
            copy@ == values@.take(i as int),
        decreases values.len() - i,
    {
        copy.push(values[i]);
        i += 1;
        assert(copy@ =~= values@.take(i as int));
    }
    assert(values@.take(i as int) =~= values@);
    copy
}

/// The members of `ids` other than `me`.
fn others_of(ids: &Vec<String>, me: &String) -> (rest: Vec<String>)
    ensures
        rest.deep_view() == others(ids.deep_view(), me@),
{
    let mut rest: Vec<String> = Vec::new();
    let mut i: usize = 0;
    assert(ids.deep_view().take(0) =~= Seq::empty());
    assert(rest.deep_view() =~= Seq::empty());
    while i < ids.len()
        invariant
            i <= ids.len(),
            rest.deep_view() == others(ids.deep_view().take(i as int), me@),
        decreases ids.len() - i,
    {
        let ghost so_far = rest.deep_view();
        assert(ids.deep_view().take(i as int + 1).drop_last() =~= ids.deep_view().take(i as int));
        if ids[i] != *me {
            rest.push(ids[i].clone());
            assert(rest.deep_view() =~= so_far.push(ids[i as int]@));
        }
        i += 1;
    }
    assert(ids.deep_view().take(i as int) =~= ids.deep_view());
    rest
}

impl NodeType for BroadcastNode {
    type Payload = BroadcastPayload;

    type Model = BroadcastModel;

    closed spec fn inv(&self) -> bool {
        self.seen.wf()
    }

    open spec fn model(&self) -> BroadcastModel {
        self@
    }

    open spec fn init_model(model: BroadcastModel, init: InitPayloadView) -> BroadcastModel {
        model.init(init)
    }

    open spec fn transition(model: BroadcastModel, input: EventsView<BroadcastPayloadView>) -> (
        BroadcastModel,
        Result<Seq<Envelope>, HandlerError>,
    ) {
        model.step(input)
    }

    fn step(&mut self, input: Events<BroadcastPayload>) -> (out: Result<
        Vec<Message<BroadcastPayload>>,
        HandlerError,
    >) {
        match input {
            Events::Message(request) => self.receive(request),
            Events::Heartbeat => {
                let mut sent: Vec<Message<BroadcastPayload>> = Vec::new();
                assert(sent.deep_view() =~= Seq::empty());
                self.announce(self.seen.values(), &mut sent);
                assert(sent.deep_view() =~= self@.announce(self@.seen));
                Ok(sent)
            },
            Events::EOF => {
                let sent: Vec<Message<BroadcastPayload>> = Vec::new();
                assert(sent.deep_view() =~= Seq::empty());
                Ok(sent)
            },
        }
    }

    fn init(&mut self, init: InitPayload) {
        match self.config.topology {
            TopologyStrategy::Assigned => {},
            TopologyStrategy::FullMesh => {
                self.neighbours = others_of(&init.node_ids, &init.node_id);
            },
        }
        self.id = init.node_id;
    }
}

} // verus!
