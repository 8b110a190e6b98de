//! The unique-id handler: every `generate` request is answered with a token
//! that no other request gets.

use crate::decimal::{
    decimal, decimal_string, is_digit, lemma_decimal_digits, lemma_decimal_injective,
};
use crate::message::{Events, EventsView, Message, MessageView};
use crate::node::{
    handshake_model, run_model, HandlerError, InitPayload, InitPayloadView, InitView, NodeModel,
    NodeType, Phase,
};
use vstd::prelude::*;
use vstd::string::*;

verus! {

/// The payloads of the unique-id protocol.
#[derive(Debug, Clone, PartialEq, Eq)]
pub enum GeneratePayload {
    Generate,
    GenerateOk { id: String },
}

/// Mathematical model of a [`GeneratePayload`].
pub enum GeneratePayloadView {
    Generate,
    GenerateOk { id: Seq<char> },
}

impl DeepView for GeneratePayload {
    type V = GeneratePayloadView;

    open spec fn deep_view(&self) -> GeneratePayloadView {
        match self {
            GeneratePayload::Generate => GeneratePayloadView::Generate,
            GeneratePayload::GenerateOk { id } => GeneratePayloadView::GenerateOk { id: id@ },
        }
    }
}

/// The token a node of the given identity hands out when its counter
/// stands at `counter`: the counter in decimal, then the identity.
pub open spec fn token(counter: nat, identity: Seq<char>) -> Seq<char> {
    decimal(counter) + identity
}

/// Mathematical model of the unique-id handler: who it is, and how many
/// tokens it has handed out.
pub struct UniqueIdsModel {
    /// The identity the handshake gave the node.
    pub id: Seq<char>,
    pub issued: u64,
}

impl UniqueIdsModel {
    /// The handler after `input`, and what it sends.
    ///
    /// A `generate` request advances the counter and is answered with the
    /// token of the new count and of the node's identity, whomever the
    /// request was addressed to. It is refused, and changes nothing, if its
    /// reply cannot be numbered or the counter cannot advance. Everything else
    /// is ignored.
    pub open spec fn step(self, input: EventsView<GeneratePayloadView>) -> (
        UniqueIdsModel,
        Result<Seq<MessageView<GeneratePayloadView>>, HandlerError>,
    ) {
        match input {
            EventsView::Message(request) if request.body.payload is Generate => {
                if !request.answerable() {
                    (self, Err(HandlerError::MessageIdExhausted))
                } else if self.issued == u64::MAX {
                    (self, Err(HandlerError::CounterExhausted))
                } else {
                    (
                        UniqueIdsModel { issued: (self.issued + 1) as u64, ..self },
                        Ok(
                            seq![
                                request.reply(
                                    GeneratePayloadView::GenerateOk {
                                        id: token((self.issued + 1) as nat, self.id),
                                    },
                                ),
                            ],
                        ),
                    )
                }
            },
            _ => (self, Ok(Seq::empty())),
        }
    }
}

/// A handler that hands out unique tokens.
pub struct UniqueIdsNode {
    id: String,
    id_gen: u64,
}

impl View for UniqueIdsNode {
    type V = UniqueIdsModel;

    closed spec fn view(&self) -> UniqueIdsModel {
        UniqueIdsModel { id: self.id@, issued: self.id_gen }
    }
}

impl UniqueIdsNode {
    /// A handler that has no identity yet and has handed out nothing.
    pub fn new() -> (node: Self)
        ensures
            node.inv(),
            node@ == (UniqueIdsModel { id: Seq::empty(), issued: 0 }),
    {
        UniqueIdsNode { id: String::new(), id_gen: 0 }
    }

    /// The node's identity.
    pub fn id(&self) -> (id: &String)
        ensures
            id@ == self@.id,
    {
        &self.id
    }

    /// How many tokens this handler has handed out.
    pub fn issued(&self) -> (issued: u64)
        ensures
            issued == self@.issued,
    {
        self.id_gen
    }
}

impl NodeType for UniqueIdsNode {
    type Payload = GeneratePayload;

    type Model = UniqueIdsModel;

    open spec fn inv(&self) -> bool {
        true
    }

    open spec fn model(&self) -> UniqueIdsModel {
        self@
    }

    /// The handshake gives the handler its identity.
    open spec fn init_model(model: UniqueIdsModel, init: InitPayloadView) -> UniqueIdsModel {
        UniqueIdsModel { id: init.node_id, ..model }
    }

    open spec fn transition(model: UniqueIdsModel, input: EventsView<GeneratePayloadView>) -> (
        UniqueIdsModel,
        Result<Seq<MessageView<GeneratePayloadView>>, HandlerError>,
    ) {
        model.step(input)
    }

    fn step(&mut self, input: Events<GeneratePayload>) -> (out: Result<
        Vec<Message<GeneratePayload>>,
        HandlerError,
    >) {
        let mut sent: Vec<Message<GeneratePayload>> = Vec::new();
        assert(sent.deep_view() =~= Seq::empty());
        if let Events::Message(request) = input {
            let ghost asked = request.deep_view();
            let generate = match &request.body.payload {
                GeneratePayload::Generate => true,
                GeneratePayload::GenerateOk { .. } => false,
            };
            if generate {
                if !request.can_reply() {
                    return Err(HandlerError::MessageIdExhausted);
                }
                if self.id_gen == u64::MAX {
                    return Err(HandlerError::CounterExhausted);
                }
                let mut resp = request.to_reply();
                self.id_gen += 1;
                let mut id = decimal_string(self.id_gen);
                id.append(self.id.as_str());
                resp.body.payload = GeneratePayload::GenerateOk { id };
                sent.push(resp);
                assert(sent.deep_view() =~= seq![
                    asked.reply(
                        GeneratePayloadView::GenerateOk {
                            id: token(self.id_gen as nat, self@.id),
                        },
                    ),
                ]);
            }
        }
        Ok(sent)
    }

    fn init(&mut self, init: InitPayload) {
        self.id = init.node_id;
    }
}

/// Tokens of one identity differ wherever their counters differ.
pub proof fn lemma_tokens_of_one_identity_differ(m: nat, n: nat, identity: Seq<char>)
    requires
        m != n,
    ensures
        token(m, identity) != token(n, identity),
{
    if token(m, identity) == token(n, identity) {
        let t = token(m, identity);
        assert(t.len() == decimal(m).len() + identity.len());
        assert((decimal(n) + identity).len() == decimal(n).len() + identity.len());
        assert(decimal(m) =~= t.take(decimal(m).len() as int));
        assert(decimal(n) =~= t.take(decimal(n).len() as int));
        lemma_decimal_injective(m, n);
    }
}

/// Whether `long` is `short` with one or more decimal digits in front.
pub open spec fn digits_then(long: Seq<char>, short: Seq<char>) -> bool {
    &&& long.len() > short.len()
    &&& long.skip(long.len() - short.len()) == short
    &&& forall|i: int| 0 <= i < long.len() - short.len() ==> is_digit(#[trigger] long[i])
}

/// Tokens of two identities differ, whatever the counters, unless one
/// identity is the other with decimal digits in front. In particular the
/// tokens of identities that begin with a letter never collide.
pub proof fn lemma_tokens_of_two_identities_differ(m: nat, a: Seq<char>, n: nat, b: Seq<char>)
    requires
        a != b,
        !digits_then(a, b),
        !digits_then(b, a),
    ensures
        token(m, a) != token(n, b),
{
    if token(m, a) == token(n, b) {
        let t = token(m, a);
        let dm = decimal(m);
        let dn = decimal(n);
        lemma_decimal_digits(m);
        lemma_decimal_digits(n);
        assert(t.len() == dm.len() + a.len());
        assert((dn + b).len() == dn.len() + b.len());
        if dm.len() == dn.len() {
            assert(a =~= t.skip(dm.len() as int));
            assert(b =~= t.skip(dn.len() as int));
        } else if dm.len() > dn.len() {
            lemma_longer_numeral_leaves_digits(dm, a, dn, b);
        } else {
            lemma_longer_numeral_leaves_digits(dn, b, dm, a);
        }
    }
}

/// If two texts agree, each a run of digits followed by a rest, then the
/// rest behind the shorter run is the other rest with digits in front.
proof fn lemma_longer_numeral_leaves_digits(
    longer: Seq<char>,
    rest: Seq<char>,
    shorter: Seq<char>,
    tail: Seq<char>,
)
    requires
        longer + rest == shorter + tail,
        longer.len() > shorter.len(),
        forall|i: int| 0 <= i < longer.len() ==> is_digit(#[trigger] longer[i]),
    ensures
        digits_then(tail, rest),
{
    let t = longer + rest;
    let extra = longer.len() - shorter.len();
    assert(t.len() == longer.len() + rest.len());
    assert((shorter + tail).len() == shorter.len() + tail.len());
    assert forall|i: int| 0 <= i < tail.len() implies tail[i] == t[shorter.len() + i] by {
        assert((shorter + tail)[shorter.len() + i] == tail[i]);
    }
    assert forall|i: int| 0 <= i < extra implies is_digit(#[trigger] tail[i]) by {
        assert(t[shorter.len() + i] == longer[shorter.len() + i]);
    }
    assert(tail.skip(tail.len() - rest.len()) =~= rest) by {
        assert forall|k: int| 0 <= k < rest.len() implies tail[extra + k] == rest[k] by {
            assert(t[longer.len() + k] == rest[k]);
        }
    }
}

/// What a run on an initialized unique-id node sends: the envelope at
/// position `i` carries the token of the count `i + 1` above where the run
/// began, and of the node's identity. The node keeps its identity, and its
/// counter ends as many counts higher as envelopes were sent.
pub proof fn lemma_run_issues_consecutive_tokens(
    start: UniqueIdsModel,
    inputs: Seq<EventsView<GeneratePayloadView>>,
)
    ensures
        ({
            let run = run_model::<UniqueIdsNode>(
                NodeModel { phase: Phase::Initialized, handler: start },
                inputs,
            );
            &&& run.0.phase == Phase::Initialized
            &&& run.0.handler.id == start.id
            &&& run.0.handler.issued == start.issued + run.1.len()
            &&& forall|i: int|
                0 <= i < run.1.len() ==> (#[trigger] run.1[i]).body.payload
                    == (GeneratePayloadView::GenerateOk {
                    id: token((start.issued + i + 1) as nat, start.id),
                })
        }),
    decreases inputs.len(),
{
    if inputs.len() > 0 {
        let next = start.step(inputs[0]).0;
        lemma_run_issues_consecutive_tokens(next, inputs.skip(1));
    }
}

/// No token is handed out twice in a run: any two envelopes that a run on
/// an initialized unique-id node sends carry different tokens, whomever the
/// requests were addressed to and whatever else the node was given.
pub proof fn lemma_ids_never_repeat(
    start: UniqueIdsModel,
    inputs: Seq<EventsView<GeneratePayloadView>>,
    i: int,
    j: int,
)
    requires
        ({
            let sent = run_model::<UniqueIdsNode>(
                NodeModel { phase: Phase::Initialized, handler: start },
                inputs,
            ).1;
            0 <= i < j < sent.len()
        }),
    ensures
        ({
            let sent = run_model::<UniqueIdsNode>(
                NodeModel { phase: Phase::Initialized, handler: start },
                inputs,
            ).1;
            sent[i].body.payload != sent[j].body.payload
        }),
{
    lemma_run_issues_consecutive_tokens(start, inputs);
    lemma_tokens_of_one_identity_differ(
        (start.issued + i + 1) as nat,
        (start.issued + j + 1) as nat,
        start.id,
    );
}

/// Tokens carry the identity of the handshake: after a node took the
/// handshake `first`, the envelope at position `i` of any run carries the
/// token of the count `i + 1` above where the node stood, and of the identity
/// that `first` gave it.
pub proof fn lemma_tokens_carry_the_identity_of_the_handshake(
    start: UniqueIdsModel,
    first: MessageView<InitView>,
    init: InitPayloadView,
    inputs: Seq<EventsView<GeneratePayloadView>>,
)
    requires
        first.body.payload == InitView::Init(init),
        first.answerable(),
    ensures
        ({
            let ready = handshake_model::<UniqueIdsNode>(
                NodeModel { phase: Phase::AwaitingInit, handler: start },
                first,
            ).0;
            let sent = run_model::<UniqueIdsNode>(ready, inputs).1;
            forall|i: int|
                0 <= i < sent.len() ==> (#[trigger] sent[i]).body.payload
                    == (GeneratePayloadView::GenerateOk {
                    id: token((start.issued + i + 1) as nat, init.node_id),
                })
        }),
{
    lemma_run_issues_consecutive_tokens(
        UniqueIdsModel { id: init.node_id, issued: start.issued },
        inputs,
    );
}

} // verus!
