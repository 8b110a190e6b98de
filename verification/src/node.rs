//! The handler contract and the runtime core that guards it with the
//! handshake.

use crate::message::{Events, EventsView, Message, MessageView};
use vstd::prelude::*;

verus! {

/// What the coordinator tells a node in the handshake: its own identity and
/// the identities of all nodes of the cluster.
#[derive(Debug, Clone, PartialEq, Eq)]
pub struct InitPayload {
    pub node_id: String,
    pub node_ids: Vec<String>,
}

/// Mathematical model of an [`InitPayload`].
pub struct InitPayloadView {
    pub node_id: Seq<char>,
    pub node_ids: Seq<Seq<char>>,
}

impl DeepView for InitPayload {
    type V = InitPayloadView;

    open spec fn deep_view(&self) -> InitPayloadView {
        InitPayloadView { node_id: self.node_id@, node_ids: self.node_ids.deep_view() }
    }
}

/// The two payloads of the handshake.
#[derive(Debug, Clone, PartialEq, Eq)]
pub enum Init {
    Init(InitPayload),
    InitOk,
}

/// Mathematical model of [`Init`].
pub enum InitView {
    Init(InitPayloadView),
    InitOk,
}

impl DeepView for Init {
    type V = InitView;

    open spec fn deep_view(&self) -> InitView {
        match self {
            Init::Init(payload) => InitView::Init(payload.deep_view()),
            Init::InitOk => InitView::InitOk,
        }
    }
}

/// Why a handler refused an event. Every refusal is fatal for the node.
#[derive(Clone, Copy, Debug, PartialEq, Eq, Structural)]
pub enum HandlerError {
    /// The request carries the largest message id, so its reply cannot be
    /// numbered.
    MessageIdExhausted,
    /// A counter owned by the handler cannot be advanced any further.
    CounterExhausted,
    /// The handler gave up for a reason of its own.
    Aborted,
}

/// Why the runtime core refused something. Every refusal is fatal.
#[derive(Clone, Copy, Debug, PartialEq, Eq, Structural)]
pub enum NodeError {
    /// The handshake was not a valid `init`, was repeated, or an event
    /// arrived before it.
    ProtocolViolation,
    /// The handler failed on an event.
    Handler(HandlerError),
}

/// The two states of the handshake protocol.
#[derive(Clone, Copy, Debug, PartialEq, Eq, Structural)]
pub enum Phase {
    AwaitingInit,
    Initialized,
}

/// What a handler owes the runtime. A handler is a deterministic state
/// machine over a mathematical `Model`: `transition` says, for each model
/// and event, the next model and the envelopes to send (or the refusal), and
/// `step` must compute exactly that. Handlers never perform I/O; whoever
/// drives them sends what they return.
pub trait NodeType: Sized {
    type Payload: DeepView;

    type Model;

    /// The handler's representation invariant.
    spec fn inv(&self) -> bool;

    /// The mathematical state this handler stands for.
    spec fn model(&self) -> Self::Model;

    /// The model after the handshake told the handler who it is.
    spec fn init_model(model: Self::Model, init: InitPayloadView) -> Self::Model;

    /// The model after an event, and what the event makes the handler send.
    spec fn transition(
        model: Self::Model,
        input: EventsView<<Self::Payload as DeepView>::V>,
    ) -> (Self::Model, Result<Seq<MessageView<<Self::Payload as DeepView>::V>>, HandlerError>);

    /// Reacts to one event.
    fn step(&mut self, input: Events<Self::Payload>) -> (out: Result<
        Vec<Message<Self::Payload>>,
        HandlerError,
    >)
        requires
            old(self).inv(),
        ensures
            final(self).inv(),
            final(self).model() == Self::transition(old(self).model(), input.deep_view()).0,
            sent_view(out) == Self::transition(old(self).model(), input.deep_view()).1,
    ;

    /// Learns the node's identity and the cluster's members.
    fn init(&mut self, init: InitPayload)
        requires
            old(self).inv(),
        ensures
            final(self).inv(),
            final(self).model() == Self::init_model(old(self).model(), init.deep_view()),
    ;
}

/// The model of what a step returned.
pub open spec fn sent_view<Payload: DeepView>(
    out: Result<Vec<Message<Payload>>, HandlerError>,
) -> Result<Seq<MessageView<Payload::V>>, HandlerError> {
    match out {
        Ok(sent) => Ok(sent.deep_view()),
        Err(e) => Err(e),
    }
}

/// Mathematical model of a [`Node`]: where the handshake stands, and the
/// model of the handler it guards.
pub struct NodeModel<M> {
    pub phase: Phase,
    pub handler: M,
}

/// The handshake on a node in state `node`, given its first envelope.
///
/// It succeeds only on a node that still awaits it, for an `init` whose reply
/// can be numbered: the handler learns who it is and `init_ok` goes back to
/// the sender. Everything else is a protocol violation that leaves the node
/// as it was; in particular a second handshake is refused, not repeated.
pub open spec fn handshake_model<N: NodeType>(
    node: NodeModel<N::Model>,
    first: MessageView<InitView>,
) -> (NodeModel<N::Model>, Result<MessageView<InitView>, NodeError>) {
    match first.body.payload {
        InitView::Init(init) if node.phase == Phase::AwaitingInit && first.answerable() => (
            NodeModel { phase: Phase::Initialized, handler: N::init_model(node.handler, init) },
            Ok(first.reply(InitView::InitOk)),
        ),
        _ => (node, Err(NodeError::ProtocolViolation)),
    }
}

/// One event on a node in state `node`.
///
/// Before the handshake no event reaches the handler. After it the handler
/// decides; its refusal is passed on as [`NodeError::Handler`].
pub open spec fn dispatch_model<N: NodeType>(
    node: NodeModel<N::Model>,
    input: EventsView<<N::Payload as DeepView>::V>,
) -> (NodeModel<N::Model>, Result<Seq<MessageView<<N::Payload as DeepView>::V>>, NodeError>) {
    match node.phase {
        Phase::AwaitingInit => (node, Err(NodeError::ProtocolViolation)),
        Phase::Initialized => {
            let (handler, sent) = N::transition(node.handler, input);
            (
                NodeModel { phase: Phase::Initialized, handler },
                match sent {
                    Ok(sent) => Ok(sent),
                    Err(e) => Err(NodeError::Handler(e)),
                },
            )
        },
    }
}

/// A whole run on a node in state `node`: the events are dispatched in
/// order, one at a time. The run ends with the first refusal, which is its
/// result, or else after the first end-of-input event or the last event.
/// The envelopes are those of all dispatched events, in order.
pub open spec fn run_model<N: NodeType>(
    node: NodeModel<N::Model>,
    inputs: Seq<EventsView<<N::Payload as DeepView>::V>>,
) -> (NodeModel<N::Model>, Seq<MessageView<<N::Payload as DeepView>::V>>, Result<(), NodeError>)
    decreases inputs.len(),
{
    if inputs.len() == 0 {
        (node, Seq::empty(), Ok(()))
    } else {
        let (after, outcome) = dispatch_model::<N>(node, inputs[0]);
        match outcome {
            Err(e) => (after, Seq::empty(), Err(e)),
            Ok(sent) => if inputs[0] is EOF {
                (after, sent, Ok(()))
            } else {
                let rest = run_model::<N>(after, inputs.skip(1));
                (rest.0, sent + rest.1, rest.2)
            },
        }
    }
}

/// Nothing reaches the handler before the handshake: on a node that awaits
/// it, every event is a protocol violation, sends nothing and leaves the node
/// as it was, and so does every run of one event or more.
pub proof fn lemma_nothing_before_handshake<N: NodeType>(
    node: NodeModel<N::Model>,
    inputs: Seq<EventsView<<N::Payload as DeepView>::V>>,
)
    requires
        node.phase == Phase::AwaitingInit,
        inputs.len() > 0,
    ensures
        dispatch_model::<N>(node, inputs[0]) == (node, Err::<
            Seq<MessageView<<N::Payload as DeepView>::V>>,
            NodeError,
        >(NodeError::ProtocolViolation)),
        run_model::<N>(node, inputs) == (
            node,
            Seq::<MessageView<<N::Payload as DeepView>::V>>::empty(),
            Err::<(), NodeError>(NodeError::ProtocolViolation),
        ),
{
}

/// The handshake is taken once: on an initialized node every further
/// handshake is a protocol violation and leaves the node as it was.
pub proof fn lemma_handshake_only_once<N: NodeType>(
    node: NodeModel<N::Model>,
    again: MessageView<InitView>,
)
    requires
        node.phase == Phase::Initialized,
    ensures
        handshake_model::<N>(node, again) == (node, Err::<MessageView<InitView>, NodeError>(
            NodeError::ProtocolViolation,
        )),
{
}

/// An initialized node stays initialized, whatever it is given.
pub proof fn lemma_stays_initialized<N: NodeType>(
    node: NodeModel<N::Model>,
    inputs: Seq<EventsView<<N::Payload as DeepView>::V>>,
)
    requires
        node.phase == Phase::Initialized,
    ensures
        run_model::<N>(node, inputs).0.phase == Phase::Initialized,
    decreases inputs.len(),
{
    if inputs.len() > 0 {
        lemma_stays_initialized::<N>(dispatch_model::<N>(node, inputs[0]).0, inputs.skip(1));
    }
}

/// The runtime core: a handler behind the handshake protocol.
pub struct Node<InnerNode: NodeType> {
    node: InnerNode,
    phase: Phase,
}

impl<InnerNode: NodeType> View for Node<InnerNode> {
    type V = NodeModel<InnerNode::Model>;

    closed spec fn view(&self) -> NodeModel<InnerNode::Model> {
        NodeModel { phase: self.phase, handler: self.node.model() }
    }
}

impl<InnerNode: NodeType> Node<InnerNode> {
    /// The handler's invariant holds.
    pub closed spec fn wf(&self) -> bool {
        self.node.inv()
    }

    /// Wraps a handler. The node awaits its handshake.
    pub fn new(node: InnerNode) -> (out: Self)
        requires
            node.inv(),
        ensures
            out.wf(),
            out@ == (NodeModel { phase: Phase::AwaitingInit, handler: node.model() }),
    {
        Node { node, phase: Phase::AwaitingInit }
    }

    /// Where the handshake stands.
    pub fn phase(&self) -> (phase: Phase)
        ensures
            phase == self@.phase,
    {
        self.phase
    }

    /// The handler.
    pub fn handler(&self) -> (handler: &InnerNode)
        requires
            self.wf(),
        ensures
            handler.inv(),
            handler.model() == self@.handler,
    {
        &self.node
    }

    /// Performs the handshake with the first envelope the node received and
    /// returns the `init_ok` to send.
    pub fn handshake(&mut self, first: Message<Init>) -> (reply: Result<Message<Init>, NodeError>)
        requires
            old(self).wf(),
        ensures
            final(self).wf(),
            final(self)@ == handshake_model::<InnerNode>(old(self)@, first.deep_view()).0,
            match reply {
                Ok(reply) => Ok(reply.deep_view()),
                Err(e) => Err(e),
            } == handshake_model::<InnerNode>(old(self)@, first.deep_view()).1,
    {
        match self.phase {
            Phase::Initialized => {
                return Err(NodeError::ProtocolViolation);
            },
            Phase::AwaitingInit => {},
        }
        let is_init = match &first.body.payload {
            Init::Init(_) => true,
            Init::InitOk => false,
        };
        if !is_init || !first.can_reply() {
            return Err(NodeError::ProtocolViolation);
        }
        let mut reply = first.to_reply();
        if let Init::Init(init) = reply.body.payload {
            self.node.init(init);
            self.phase = Phase::Initialized;
            reply.body.payload = Init::InitOk;
        }
        Ok(reply)
    }

    /// Hands one event to the handler and returns what it wants sent.
    pub fn dispatch(&mut self, input: Events<InnerNode::Payload>) -> (out: Result<
        Vec<Message<InnerNode::Payload>>,
        NodeError,
    >)
        requires
            old(self).wf(),
        ensures
            final(self).wf(),
            final(self)@ == dispatch_model::<InnerNode>(old(self)@, input.deep_view()).0,
            match out {
                Ok(sent) => Ok(sent.deep_view()),
                Err(e) => Err(e),
            } == dispatch_model::<InnerNode>(old(self)@, input.deep_view()).1,
    {
        match self.phase {
            Phase::AwaitingInit => Err(NodeError::ProtocolViolation),
            Phase::Initialized => match self.node.step(input) {
                Ok(sent) => Ok(sent),
                Err(e) => Err(NodeError::Handler(e)),
            },
        }
    }

    /// Dispatches a batch of events in order and returns everything the
    /// handler wanted sent, together with how the run ended.
    pub fn run(&mut self, inputs: Vec<Events<InnerNode::Payload>>) -> (out: (
        Vec<Message<InnerNode::Payload>>,
        Result<(), NodeError>,
    ))
        requires
            old(self).wf(),
        ensures
            final(self).wf(),
            final(self)@ == run_model::<InnerNode>(old(self)@, inputs.deep_view()).0,
            out.0.deep_view() == run_model::<InnerNode>(old(self)@, inputs.deep_view()).1,
            out.1 == run_model::<InnerNode>(old(self)@, inputs.deep_view()).2,
    {
        let ghost start = self@;
        let ghost all = inputs.deep_view();
        let mut sent: Vec<Message<InnerNode::Payload>> = Vec::new();
        assert(sent.deep_view() =~= Seq::empty());
        assert(all.skip(0) =~= all);
        for input in iter: inputs
            invariant
                self.wf(),
                start == old(self)@,
                all == inputs.deep_view(),
                iter.seq() == inputs@,
                run_model::<InnerNode>(start, all) == ({
                    let rest = run_model::<InnerNode>(self@, all.skip(iter.index() as int));
                    (rest.0, sent.deep_view() + rest.1, rest.2)
                }),
        {
            let ghost before = self@;
            let ghost so_far = sent.deep_view();
            let ghost pending = all.skip(iter.index() as int);
            assert(pending.len() > 0);
            assert(pending[0] == input.deep_view());
            assert(pending.skip(1) =~= all.skip(iter.index() as int + 1));
            let ends = match &input {
                Events::EOF => true,
                _ => false,
            };
            match self.dispatch(input) {
                Err(e) => {
                    assert(so_far + Seq::empty() =~= so_far);
                    return (sent, Err(e));
                },
                Ok(mut more) => {
                    let ghost emitted = more.deep_view();
                    sent.append(&mut more);
                    assert(sent.deep_view() =~= so_far + emitted);
                    if ends {
                        return (sent, Ok(()));
                    }
                    assert(so_far + (emitted + run_model::<InnerNode>(self@, pending.skip(1)).1)
                        =~= (so_far + emitted) + run_model::<InnerNode>(self@, pending.skip(1)).1);
                },
            }
        }
        assert(all.skip(all.len() as int).len() == 0);
        assert(sent.deep_view() + Seq::empty() =~= sent.deep_view());
        (sent, Ok(()))
    }
}

} // verus!
